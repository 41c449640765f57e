use xit::error::{ErrorClass, XitError};
use xit::hexcode::{hex_digit_of, hex_value_of};
use xit::objects::blob::{compress_zlib, compute_sha1, create_blob, hash_to_hex};
use xit::objects::commit::create_commit;
use xit::objects::read::{
    get_commit_tree_hash, join_path, list_files_in_tree, list_files_recursive, parse_tree,
    read_tree, MAX_TREE_DEPTH,
};
use xit::objects::store::{
    encode_object, kind_tag_bytes, object_path, write_object, ObjectKind, ObjectStore,
};
use xit::objects::tree::{
    create_blob_entry, create_tree, create_tree_entry, encode_tree, sort_entries, TreeEntry,
};
use xit::path_map::PathMap;
use xit::repository::utils::{
    check_compression, decode_object, hex_to_bytes, parse_kind, read_object,
};
use xit::scan::bytes_eq;

fn digest_of(hex: &str) -> [u8; 20] {
    let bytes = hex_to_bytes(hex).unwrap();
    let mut out = [0u8; 20];
    out.copy_from_slice(&bytes);
    out
}

#[test]
fn test_create_blob() {
    let mut store = ObjectStore::new();
    let content = b"hello world";
    let hash = create_blob(&mut store, content).unwrap();
    assert_eq!(hash, "95d09f2b10159347eece71399a7e2e907ea3df4f");
    assert!(store.contains(&hash));
    assert_eq!(store.len(), 1);
}

#[test]
fn test_create_commit() {
    let mut store = ObjectStore::new();
    let tree_hash = "1234567890123456789012345678901234567890";
    let parent_hash = "0987654321098765432109876543210987654321";
    let author = "Author Name <author@example.com>";
    let committer = "Committer Name <committer@example.com>";
    let message = "Test commit";

    let hash =
        create_commit(&mut store, tree_hash, Some(parent_hash), author, committer, message)
            .unwrap();
    assert_eq!(hash, "cd19c3657458e5bc079d4217a203671083863df8");
    assert!(store.contains(&hash));
}

#[test]
fn test_create_tree() {
    let mut store = ObjectStore::new();
    let blob_hash = compute_sha1(b"hello world");
    let entries = vec![create_blob_entry("100644", &blob_hash, "hello.txt")];

    let hash = create_tree(&mut store, entries).unwrap();
    assert_eq!(hash, "83e12c4933ee813e966c3b8a9206e87246f7a950");
    assert!(store.contains(&hash));
}

#[test]
fn sha1_of_known_inputs() {
    assert_eq!(hash_to_hex(&compute_sha1(b"abc")), "a9993e364706816aba3e25717850c26c9cd0d89d");
    assert_eq!(hash_to_hex(&compute_sha1(b"")), "da39a3ee5e6b4b0d3255bfef95601890afd80709");
    assert_eq!(
        hash_to_hex(&compute_sha1(b"hello world")),
        "2aae6c35c94fcfb415dbe95f408b9ce91ee846ed"
    );
}

#[test]
fn sha1_changes_with_any_byte() {
    let base = b"blob 11\0hello world".to_vec();
    let first = compute_sha1(&base);
    assert_eq!(first, compute_sha1(&base.clone()));
    for i in 0..base.len() {
        let mut flipped = base.clone();
        flipped[i] ^= 1;
        assert_ne!(first, compute_sha1(&flipped));
    }
}

#[test]
fn hash_to_hex_is_lower_case_two_digits_per_byte() {
    let mut hash = [0u8; 20];
    hash[0] = 0x0f;
    hash[1] = 0xa0;
    hash[19] = 0xff;
    assert_eq!(hash_to_hex(&hash), "0fa00000000000000000000000000000000000ff");
    assert_eq!(hex_digit_of(0), '0');
    assert_eq!(hex_digit_of(9), '9');
    assert_eq!(hex_digit_of(10), 'a');
    assert_eq!(hex_digit_of(15), 'f');
}

#[test]
fn hex_to_bytes_reads_both_cases() {
    assert_eq!(hex_to_bytes("00ff10Ab").unwrap(), vec![0x00, 0xff, 0x10, 0xab]);
    assert_eq!(hex_to_bytes("").unwrap(), Vec::<u8>::new());
    assert_eq!(hex_value_of('F'), Some(15));
    assert_eq!(hex_value_of('g'), None);
}

#[test]
fn hex_to_bytes_rejects_odd_length_and_other_characters() {
    assert_eq!(hex_to_bytes("abc"), Err(XitError::InputValidation));
    assert_eq!(hex_to_bytes("zz"), Err(XitError::InputValidation));
    assert_eq!(hex_to_bytes("+f"), Err(XitError::InputValidation));
    assert_eq!(hex_to_bytes("a "), Err(XitError::InputValidation));
}

#[test]
fn hex_round_trip() {
    let hash = compute_sha1(b"round");
    assert_eq!(hex_to_bytes(&hash_to_hex(&hash)).unwrap(), hash.to_vec());
}

#[test]
fn compress_gives_a_zlib_stream() {
    let data = vec![b'a'; 1000];
    let compressed = compress_zlib(&data).unwrap();
    assert_ne!(compressed, data);
    assert!(compressed.len() < data.len());
    assert_eq!(compressed[0], 0x78);
    assert_eq!(compressed, compress_zlib(&data).unwrap());
}

#[test]
fn encode_object_writes_kind_length_and_content() {
    assert_eq!(encode_object(ObjectKind::Blob, b"hello"), b"blob 5\0hello".to_vec());
    assert_eq!(encode_object(ObjectKind::Tree, b""), b"tree 0\0".to_vec());
    assert_eq!(
        encode_object(ObjectKind::Commit, b"0123456789ab"),
        b"commit 12\x000123456789ab".to_vec()
    );
    assert_eq!(kind_tag_bytes(ObjectKind::Blob), b"blob".to_vec());
    assert_eq!(kind_tag_bytes(ObjectKind::Tree), b"tree".to_vec());
    assert_eq!(kind_tag_bytes(ObjectKind::Commit), b"commit".to_vec());
}

#[test]
fn write_is_idempotent() {
    let mut store = ObjectStore::new();
    let first = write_object(&mut store, ObjectKind::Blob, b"same").unwrap();
    let stored = store.get(&first).unwrap().clone();
    let second = write_object(&mut store, ObjectKind::Blob, b"same").unwrap();
    assert_eq!(first, second);
    assert_eq!(store.len(), 1);
    assert_eq!(store.get(&first).unwrap(), &stored);
}

#[test]
fn write_keeps_what_is_already_stored() {
    let mut store = ObjectStore::new();
    let address = "e69de29bb2d1d6434b8b29ae775ad8c2e48c5391".to_string();
    assert!(store.put(address.clone(), vec![1, 2, 3]));
    let written = create_blob(&mut store, b"").unwrap();
    assert_eq!(written, address);
    assert_eq!(store.get(&address).unwrap(), &vec![1, 2, 3]);
    assert!(!store.put(address.clone(), vec![9]));
    assert_eq!(store.len(), 1);
    assert_eq!(store.address_at(0), address);
    assert_eq!(store.data_at(0), &vec![1, 2, 3]);
}

#[test]
fn empty_blob_and_empty_tree_have_their_known_addresses() {
    let mut store = ObjectStore::new();
    assert_eq!(create_blob(&mut store, b"").unwrap(), "e69de29bb2d1d6434b8b29ae775ad8c2e48c5391");
    assert_eq!(
        create_tree(&mut store, Vec::new()).unwrap(),
        "4b825dc642cb6eb9a060e54bf8d69288fbee4904"
    );
}

#[test]
fn read_gives_back_what_was_written() {
    let mut store = ObjectStore::new();
    let address = write_object(&mut store, ObjectKind::Blob, b"some\0content").unwrap();
    assert_eq!(
        read_object(&store, &address),
        Ok((ObjectKind::Blob, b"some\0content".to_vec()))
    );
    let commit = write_object(&mut store, ObjectKind::Commit, b"tree x\n").unwrap();
    assert_eq!(read_object(&store, &commit), Ok((ObjectKind::Commit, b"tree x\n".to_vec())));
}

#[test]
fn read_of_a_missing_object_is_not_found() {
    let store = ObjectStore::new();
    assert_eq!(
        read_object(&store, "95d09f2b10159347eece71399a7e2e907ea3df4f"),
        Err(XitError::ObjectNotFound)
    );
    assert_eq!(read_object(&store, ""), Err(XitError::ObjectNotFound));
    assert_eq!(read_object(&store, "a"), Err(XitError::ObjectNotFound));
}

#[test]
fn read_of_bytes_that_do_not_inflate_is_corrupt() {
    let mut store = ObjectStore::new();
    store.put("aa".to_string(), b"not a zlib stream".to_vec());
    assert_eq!(read_object(&store, "aa"), Err(XitError::CorruptObject));
    store.put("bb".to_string(), Vec::new());
    assert_eq!(read_object(&store, "bb"), Err(XitError::CorruptObject));
}

#[test]
fn decode_object_checks_the_header() {
    assert_eq!(decode_object(b"blob 3\0abc"), Ok((ObjectKind::Blob, b"abc".to_vec())));
    assert_eq!(decode_object(b"tree 0\0"), Ok((ObjectKind::Tree, Vec::new())));
    assert_eq!(decode_object(b"  commit \t 7 \0x\0y"), Ok((ObjectKind::Commit, b"x\0y".to_vec())));
    assert_eq!(decode_object(b"blob 3 abc"), Err(XitError::CorruptObject));
    assert_eq!(decode_object(b"blob\0abc"), Err(XitError::CorruptObject));
    assert_eq!(decode_object(b"blob 3 4\0abc"), Err(XitError::CorruptObject));
    assert_eq!(decode_object(b"tag 3\0abc"), Err(XitError::CorruptObject));
    assert_eq!(decode_object(b"\0"), Err(XitError::CorruptObject));
    assert_eq!(decode_object(b""), Err(XitError::CorruptObject));
    assert_eq!(decode_object(b"\xff blob\0abc"), Err(XitError::CorruptObject));
}

#[test]
fn parse_kind_knows_three_words() {
    let word = |s: &str| s.chars().collect::<Vec<char>>();
    assert_eq!(parse_kind(&word("blob")), Some(ObjectKind::Blob));
    assert_eq!(parse_kind(&word("tree")), Some(ObjectKind::Tree));
    assert_eq!(parse_kind(&word("commit")), Some(ObjectKind::Commit));
    assert_eq!(parse_kind(&word("Blob")), None);
    assert_eq!(parse_kind(&word("")), None);
}

#[test]
fn entries_are_made_with_their_kind() {
    let hash = compute_sha1(b"x");
    let blob = create_blob_entry("100644", &hash, "a");
    assert_eq!(blob.mode, "100644");
    assert_eq!(blob.obj_type, ObjectKind::Blob);
    assert_eq!(blob.hash, hash.to_vec());
    assert_eq!(blob.name, "a");
    let tree = create_tree_entry("40000", &hash, "dir");
    assert_eq!(tree.mode, "40000");
    assert_eq!(tree.obj_type, ObjectKind::Tree);
    assert_eq!(tree.hash, hash.to_vec());
    assert_eq!(tree.name, "dir");
}

#[test]
fn tree_entries_are_sorted_by_name_bytes() {
    let h = [7u8; 20];
    let entries = vec![
        create_blob_entry("100644", &h, "b"),
        create_blob_entry("100644", &h, "a"),
        create_blob_entry("100644", &h, "B"),
        create_blob_entry("100644", &h, "ab"),
        create_blob_entry("100644", &h, "\u{e9}"),
        create_blob_entry("100644", &h, "z"),
    ];
    let sorted = sort_entries(entries);
    let names: Vec<&str> = sorted.iter().map(|e| e.name.as_str()).collect();
    assert_eq!(names, vec!["B", "a", "ab", "b", "z", "\u{e9}"]);
}

#[test]
fn sorting_keeps_the_order_of_equal_names() {
    let entries = vec![
        create_blob_entry("1", &[1u8; 20], "same"),
        create_blob_entry("2", &[2u8; 20], "other"),
        create_blob_entry("3", &[3u8; 20], "same"),
        create_blob_entry("4", &[4u8; 20], "same"),
    ];
    let sorted = sort_entries(entries);
    let modes: Vec<&str> = sorted.iter().map(|e| e.mode.as_str()).collect();
    assert_eq!(modes, vec!["2", "1", "3", "4"]);
}

#[test]
fn encode_tree_writes_mode_name_and_address() {
    let h1 = [0x11u8; 20];
    let h2 = [0x22u8; 20];
    let payload = encode_tree(vec![
        create_blob_entry("100644", &h1, "b.txt"),
        create_tree_entry("40000", &h2, "a"),
    ])
    .unwrap();
    let mut expected = b"40000 a\0".to_vec();
    expected.extend_from_slice(&h2);
    expected.extend_from_slice(b"100644 b.txt\0");
    expected.extend_from_slice(&h1);
    assert_eq!(payload, expected);
}

#[test]
fn tree_does_not_depend_on_the_order_given() {
    let foo = digest_of("19102815663d23f8b75a47e7a01965dcdc96468c");
    let bar = digest_of("ba0e162e1c47469e3fe4b393a8bf8c569f302116");
    let mut store = ObjectStore::new();
    let one = create_tree(
        &mut store,
        vec![create_blob_entry("100644", &foo, "b.txt"), create_blob_entry("100644", &bar, "a.txt")],
    )
    .unwrap();
    let two = create_tree(
        &mut store,
        vec![create_blob_entry("100644", &bar, "a.txt"), create_blob_entry("100644", &foo, "b.txt")],
    )
    .unwrap();
    assert_eq!(one, "be5b131ed2719338f69f88c96d1c93a6cec1107b");
    assert_eq!(one, two);
    assert_eq!(store.len(), 1);
}

#[test]
fn tree_rejects_bad_entries_before_storing() {
    let mut store = ObjectStore::new();
    let short = TreeEntry {
        mode: "100644".to_string(),
        obj_type: ObjectKind::Blob,
        hash: vec![1, 2, 3],
        name: "a".to_string(),
    };
    assert_eq!(create_tree(&mut store, vec![short]), Err(XitError::InputValidation));
    let unnamed = create_blob_entry("100644", &[0u8; 20], "");
    assert_eq!(create_tree(&mut store, vec![unnamed]), Err(XitError::InputValidation));
    assert_eq!(store.len(), 0);
    let long = TreeEntry {
        mode: "100644".to_string(),
        obj_type: ObjectKind::Blob,
        hash: vec![0; 21],
        name: "a".to_string(),
    };
    assert_eq!(encode_tree(vec![long]), Err(XitError::InputValidation));
}

fn triples(entries: &[TreeEntry]) -> Vec<(String, String, Vec<u8>)> {
    let mut all: Vec<(String, String, Vec<u8>)> =
        entries.iter().map(|e| (e.mode.clone(), e.name.clone(), e.hash.clone())).collect();
    all.sort();
    all
}

#[test]
fn tree_round_trip_keeps_every_entry() {
    let given = vec![
        create_blob_entry("100644", &[3u8; 20], "zeta"),
        create_tree_entry("40000", &[0u8; 20], "dir with space"),
        create_blob_entry("100755", &[0x20u8; 20], "alpha"),
        create_blob_entry("100644", &[3u8; 20], "zeta"),
        create_blob_entry("100644", &[9u8; 20], "na\u{ef}ve"),
    ];
    let wanted = triples(&given);
    let mut store = ObjectStore::new();
    let address = create_tree(&mut store, given).unwrap();
    let read = read_tree(&store, &address).unwrap();
    assert_eq!(triples(&read), wanted);
    let names: Vec<&str> = read.iter().map(|e| e.name.as_str()).collect();
    assert_eq!(names, vec!["alpha", "dir with space", "na\u{ef}ve", "zeta", "zeta"]);
    assert_eq!(read[0].obj_type, ObjectKind::Blob);
    assert_eq!(read[1].obj_type, ObjectKind::Tree);
}

#[test]
fn parse_tree_reads_entries_in_order() {
    let mut payload = b"100644 a\0".to_vec();
    payload.extend_from_slice(&[1u8; 20]);
    payload.extend_from_slice(b"40000 d\0");
    payload.extend_from_slice(&[2u8; 20]);
    let entries = parse_tree(&payload).unwrap();
    assert_eq!(entries.len(), 2);
    assert_eq!(entries[0].mode, "100644");
    assert_eq!(entries[0].name, "a");
    assert_eq!(entries[0].hash, vec![1u8; 20]);
    assert_eq!(entries[0].obj_type, ObjectKind::Blob);
    assert_eq!(entries[1].mode, "40000");
    assert_eq!(entries[1].name, "d");
    assert_eq!(entries[1].obj_type, ObjectKind::Tree);
    assert_eq!(parse_tree(b"").unwrap().len(), 0);
}

#[test]
fn parse_tree_replaces_what_is_not_utf8() {
    let mut payload = b"100644 a\xffb\0".to_vec();
    payload.extend_from_slice(&[1u8; 20]);
    let entries = parse_tree(&payload).unwrap();
    assert_eq!(entries[0].name, "a\u{fffd}b");
}

#[test]
fn parse_tree_rejects_malformed_entries() {
    assert!(matches!(parse_tree(b"100644"), Err(XitError::CorruptTree)));
    assert!(matches!(parse_tree(b"100644 name"), Err(XitError::CorruptTree)));
    let mut short = b"100644 a\0".to_vec();
    short.extend_from_slice(&[1u8; 19]);
    assert!(matches!(parse_tree(&short), Err(XitError::CorruptTree)));
    let mut trailing = b"100644 a\0".to_vec();
    trailing.extend_from_slice(&[1u8; 20]);
    trailing.push(b'x');
    assert!(matches!(parse_tree(&trailing), Err(XitError::CorruptTree)));
    // a NUL before the space does not end the mode
    let mut early = b"10\x000644 a\0".to_vec();
    early.extend_from_slice(&[1u8; 20]);
    let entries = parse_tree(&early).unwrap();
    assert_eq!(entries[0].mode, "10\u{0}0644");
    assert_eq!(entries[0].name, "a");
}

#[test]
fn read_tree_wants_a_tree() {
    let mut store = ObjectStore::new();
    let blob = create_blob(&mut store, b"x").unwrap();
    assert!(matches!(read_tree(&store, &blob), Err(XitError::WrongObjectKind)));
    assert!(matches!(read_tree(&store, "missing"), Err(XitError::ObjectNotFound)));
    let bad = write_object(&mut store, ObjectKind::Tree, b"no space").unwrap();
    assert!(matches!(read_tree(&store, &bad), Err(XitError::CorruptTree)));
}

#[test]
fn join_path_puts_a_slash_between() {
    assert_eq!(join_path("", "a"), "a");
    assert_eq!(join_path("dir", "a"), "dir/a");
    assert_eq!(join_path("a/b", "c"), "a/b/c");
}

#[test]
fn flatten_walks_nested_trees() {
    let mut store = ObjectStore::new();
    let foo = create_blob(&mut store, b"foo").unwrap();
    let bar = create_blob(&mut store, b"bar").unwrap();
    let inner = create_tree(
        &mut store,
        vec![create_blob_entry("100644", &digest_of(&bar), "deep.txt")],
    )
    .unwrap();
    let middle = create_tree(
        &mut store,
        vec![
            create_tree_entry("40000", &digest_of(&inner), "inner"),
            create_blob_entry("100644", &digest_of(&foo), "mid.txt"),
        ],
    )
    .unwrap();
    let root = create_tree(
        &mut store,
        vec![
            create_blob_entry("100644", &digest_of(&foo), "top.txt"),
            create_tree_entry("40000", &digest_of(&middle), "sub"),
        ],
    )
    .unwrap();
    let files = list_files_in_tree(&store, &root).unwrap();
    assert_eq!(files.len(), 3);
    assert_eq!(files.key_at(0), "sub/inner/deep.txt");
    assert_eq!(files.value_at(0), bar);
    assert_eq!(files.key_at(1), "sub/mid.txt");
    assert_eq!(files.value_at(1), foo);
    assert_eq!(files.key_at(2), "top.txt");
    assert_eq!(files.get("top.txt"), Some(foo.as_str()));
    assert_eq!(files.get("sub"), None);
}

#[test]
fn flatten_of_an_empty_tree_is_empty() {
    let mut store = ObjectStore::new();
    let root = create_tree(&mut store, Vec::new()).unwrap();
    assert!(list_files_in_tree(&store, &root).unwrap().is_empty());
}

#[test]
fn flatten_fails_on_what_it_cannot_read() {
    let mut store = ObjectStore::new();
    let blob = create_blob(&mut store, b"foo").unwrap();
    assert!(matches!(list_files_in_tree(&store, &blob), Err(XitError::WrongObjectKind)));
    assert!(matches!(list_files_in_tree(&store, "nothing"), Err(XitError::ObjectNotFound)));
    let dangling = create_tree(
        &mut store,
        vec![create_tree_entry("40000", &[0xabu8; 20], "gone")],
    )
    .unwrap();
    assert!(matches!(list_files_in_tree(&store, &dangling), Err(XitError::ObjectNotFound)));
    let to_blob = create_tree(
        &mut store,
        vec![create_tree_entry("40000", &digest_of(&blob), "not-a-dir")],
    )
    .unwrap();
    assert!(matches!(list_files_in_tree(&store, &to_blob), Err(XitError::WrongObjectKind)));
}

#[test]
fn flatten_stops_at_the_depth_limit() {
    let mut store = ObjectStore::new();
    let leaf = create_blob(&mut store, b"leaf").unwrap();
    let mut tree = create_tree(
        &mut store,
        vec![create_blob_entry("100644", &digest_of(&leaf), "f")],
    )
    .unwrap();
    let mut levels = vec![tree.clone()];
    for _ in 0..MAX_TREE_DEPTH + 1 {
        tree = create_tree(
            &mut store,
            vec![create_tree_entry("40000", &digest_of(&tree), "d")],
        )
        .unwrap();
        levels.push(tree.clone());
    }
    // the tree with MAX_TREE_DEPTH levels below it can be read, the next one cannot
    let deepest_ok = &levels[MAX_TREE_DEPTH];
    let files = list_files_in_tree(&store, deepest_ok).unwrap();
    assert_eq!(files.len(), 1);
    assert!(matches!(
        list_files_in_tree(&store, &levels[MAX_TREE_DEPTH + 1]),
        Err(XitError::CorruptTree)
    ));
    assert!(matches!(
        list_files_recursive(&store, &levels[0], "", PathMap::new(), 0),
        Err(XitError::CorruptTree)
    ));
    let one = list_files_recursive(&store, &levels[0], "pre", PathMap::new(), 1).unwrap();
    assert_eq!(one.key_at(0), "pre/f");
}

#[test]
fn a_tree_that_holds_itself_is_corrupt() {
    // only a forged store can hold a cycle: the object under this address
    // names the address itself
    let mut store = ObjectStore::new();
    let address = "0101010101010101010101010101010101010101";
    let mut payload = b"40000 again\0".to_vec();
    payload.extend_from_slice(&[1u8; 20]);
    let encoded = encode_object(ObjectKind::Tree, &payload);
    store.put(address.to_string(), compress_zlib(&encoded).unwrap());
    assert!(matches!(list_files_in_tree(&store, address), Err(XitError::CorruptTree)));
}

#[test]
fn commit_names_its_tree() {
    let mut store = ObjectStore::new();
    let tree = "1234567890123456789012345678901234567890";
    let commit = create_commit(&mut store, tree, None, "A <a@b>", "A <a@b>", "m").unwrap();
    assert_eq!(commit, "3e22c19ceeb79578faa86725c8cf1db9aafc7f52");
    assert_eq!(get_commit_tree_hash(&store, &commit).unwrap(), tree);
    assert_eq!(
        read_object(&store, &commit).unwrap().1,
        b"tree 1234567890123456789012345678901234567890\nauthor A <a@b>\ncommitter A <a@b>\n\nm"
            .to_vec()
    );
}

#[test]
fn commit_tree_hash_fails_on_other_objects() {
    let mut store = ObjectStore::new();
    let blob = create_blob(&mut store, b"tree abc\n").unwrap();
    assert!(matches!(get_commit_tree_hash(&store, &blob), Err(XitError::WrongObjectKind)));
    assert!(matches!(get_commit_tree_hash(&store, "none"), Err(XitError::ObjectNotFound)));
    let no_tree = write_object(&mut store, ObjectKind::Commit, b"author x\n\nmsg\n").unwrap();
    assert!(matches!(get_commit_tree_hash(&store, &no_tree), Err(XitError::CorruptObject)));
    let later = write_object(&mut store, ObjectKind::Commit, b"x\r\ntree abc\r\ntree def\n").unwrap();
    assert_eq!(get_commit_tree_hash(&store, &later).unwrap(), "abc");
}

#[test]
fn commit_validation() {
    let mut store = ObjectStore::new();
    let tree = "1234567890123456789012345678901234567890";
    let short = "123456789012345678901234567890123456789";
    let bad = |r: Result<String, XitError>| assert_eq!(r, Err(XitError::InputValidation));
    bad(create_commit(&mut store, short, None, "a", "c", "m"));
    bad(create_commit(&mut store, "", None, "a", "c", "m"));
    bad(create_commit(&mut store, tree, Some(short), "a", "c", "m"));
    bad(create_commit(&mut store, tree, Some(""), "a", "c", "m"));
    bad(create_commit(&mut store, tree, None, "", "c", "m"));
    bad(create_commit(&mut store, tree, None, "a", "", "m"));
    bad(create_commit(&mut store, tree, None, "a", "c", ""));
    assert_eq!(store.len(), 0);
    let ok = create_commit(&mut store, tree, Some(tree), "a", "c", "m").unwrap();
    assert_eq!(ok.len(), 40);
    assert!(ok.chars().all(|c| c.is_ascii_hexdigit()));
    assert_eq!(store.len(), 1);
    // forty bytes are counted, not forty characters
    let wide = "\u{e9}\u{e9}\u{e9}\u{e9}\u{e9}\u{e9}\u{e9}\u{e9}\u{e9}\u{e9}\u{e9}\u{e9}\u{e9}\u{e9}\u{e9}\u{e9}\u{e9}\u{e9}\u{e9}\u{e9}";
    assert!(create_commit(&mut store, wide, None, "a", "c", "m").is_ok());
}

#[test]
fn errors_fall_into_five_families() {
    assert_eq!(XitError::InputValidation.class(), ErrorClass::InputValidation);
    assert_eq!(XitError::ObjectNotFound.class(), ErrorClass::NotFound);
    assert_eq!(XitError::NotFound.class(), ErrorClass::NotFound);
    assert_eq!(XitError::CorruptObject.class(), ErrorClass::Corrupt);
    assert_eq!(XitError::WrongObjectKind.class(), ErrorClass::Corrupt);
    assert_eq!(XitError::CorruptTree.class(), ErrorClass::Corrupt);
    assert_eq!(XitError::CorruptRef.class(), ErrorClass::Corrupt);
    assert_eq!(XitError::AlreadyExists.class(), ErrorClass::Conflict);
    assert_eq!(XitError::Io.class(), ErrorClass::Io);
}

#[test]
fn objects_lie_under_two_and_thirty_eight_characters() {
    assert_eq!(
        object_path("95d09f2b10159347eece71399a7e2e907ea3df4f"),
        Ok("objects/95/d09f2b10159347eece71399a7e2e907ea3df4f".to_string())
    );
    assert_eq!(object_path(""), Err(XitError::InputValidation));
    assert_eq!(object_path("95"), Err(XitError::InputValidation));
    assert_eq!(
        object_path("95d09f2b10159347eece71399a7e2e907ea3df4"),
        Err(XitError::InputValidation)
    );
    assert_eq!(
        object_path("../../../../etc/passwd/aaaaaaaaaaaaaaaaaaaa"),
        Err(XitError::InputValidation)
    );
}

#[test]
fn bytes_survive_compression() {
    assert!(check_compression(b""));
    assert!(check_compression(b"blob 11\0hello world"));
    let mut all: Vec<u8> = Vec::new();
    for round in 0..40u32 {
        for b in 0..=255u8 {
            all.push(b.wrapping_mul(round as u8 + 1));
        }
    }
    assert!(check_compression(&all));
    assert!(bytes_eq(b"ab", b"ab"));
    assert!(!bytes_eq(b"ab", b"ac"));
    assert!(!bytes_eq(b"ab", b"abc"));
    assert!(bytes_eq(b"", b""));
}

#[test]
fn a_tree_of_files_lists_its_files() {
    let mut store = ObjectStore::new();
    let given = vec![
        create_blob_entry("100644", &[3u8; 20], "zeta"),
        create_blob_entry("100755", &[0x20u8; 20], "alpha/beta"),
        create_blob_entry("100644", &[0u8; 20], "with space"),
        create_blob_entry("100644", &[0xffu8; 20], "na\u{ef}ve"),
    ];
    let wanted: Vec<(String, String)> = {
        let mut all: Vec<(String, String)> = given
            .iter()
            .map(|e| {
                let mut hash = [0u8; 20];
                hash.copy_from_slice(&e.hash);
                (e.name.clone(), hash_to_hex(&hash))
            })
            .collect();
        all.sort();
        all
    };
    let address = create_tree(&mut store, given).unwrap();
    let files = list_files_in_tree(&store, &address).unwrap();
    let found: Vec<(String, String)> =
        (0..files.len()).map(|i| (files.key_at(i).to_string(), files.value_at(i).to_string())).collect();
    assert_eq!(found, wanted);
    assert_eq!(files.len(), 4);
}
