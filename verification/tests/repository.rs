use xit::error::XitError;
use xit::objects::blob::create_blob;
use xit::objects::read::{get_commit_tree_hash, list_files_in_tree, read_tree};
use xit::objects::store::{ObjectKind, ObjectStore};
use xit::objects::update::resolve;
use xit::path_map::{PathMap, PathSet};
use xit::repository::add::{add, hash_content, normalize_line_endings, update_index};
use xit::repository::commit::{commit, create_tree_from_index};
use xit::repository::config::{
    get_user_config, read_user_config, setup_global_user, signature_of, UserConfig,
};
use xit::repository::index::{clear_index, read_index, write_index};
use xit::repository::refs::resolve_head;
use xit::repository::repo::{create_repository, Repository};
use xit::repository::status::{
    check_status, get_head_tree_entries, get_index_entries, get_staged_changes,
    get_unstaged_and_untracked, is_ignored, is_plain_path, path_to_string, read_ignore_file,
    record_working_file, working_file_matters,
};
use xit::repository::utils::read_object;

const USER: &str = "[user]\n    name = Test User\n    email = test@example.com\n";
const FOO: &str = "19102815663d23f8b75a47e7a01965dcdc96468c";
const BAR: &str = "ba0e162e1c47469e3fe4b393a8bf8c569f302116";
const BAZ: &str = "3f9538666251333f5fa519e01eb267d371ca9c78";

fn map_of(entries: &[(&str, &str)]) -> PathMap {
    let mut map = PathMap::new();
    for (k, v) in entries {
        map.insert(k.to_string(), v.to_string());
    }
    map
}

fn pairs(map: &PathMap) -> Vec<(String, String)> {
    (0..map.len()).map(|i| (map.key_at(i).to_string(), map.value_at(i).to_string())).collect()
}

fn set_of(members: &[&str]) -> PathSet {
    let mut set = PathSet::new();
    for m in members {
        set.insert(m.to_string());
    }
    set
}

fn owned(entries: &[(&str, &str)]) -> Vec<(String, String)> {
    entries.iter().map(|(a, b)| (a.to_string(), b.to_string())).collect()
}

#[test]
fn test_full_workflow() {
    // init
    let mut repo = create_repository();
    assert!(repo.refs.contains_key("HEAD"));

    // add
    let test_file_path = "hello.txt";
    add(&mut repo, test_file_path, b"hello world").unwrap();
    let index_content = write_index(repo.index.as_ref().unwrap());
    assert!(index_content.contains("hello.txt"));

    // commit
    let commit_message = "Initial test commit";
    let committed = commit(&mut repo, commit_message, Some(USER)).unwrap().unwrap();
    // the index is gone after a successful commit
    assert!(repo.index.is_none());
    // the branch now holds the address of a commit
    let commit_hash = repo.refs.get("refs/heads/main").unwrap();
    assert_eq!(commit_hash.trim().len(), 40);
    assert_eq!(commit_hash, format!("{}\n", committed));
}

#[test]
fn index_lines_are_address_space_path() {
    let index = read_index(&format!("{} a.txt\n{} dir/b c.txt\n", FOO, BAR));
    assert_eq!(pairs(&index), owned(&[("a.txt", FOO), ("dir/b c.txt", BAR)]));
}

#[test]
fn index_last_line_wins() {
    let index = read_index(&format!("{} a.txt\n{} b.txt\n{} a.txt\n", FOO, BAR, BAZ));
    assert_eq!(pairs(&index), owned(&[("a.txt", BAZ), ("b.txt", BAR)]));
}

#[test]
fn index_skips_lines_without_a_space() {
    let index = read_index("nospace\n\nh p\r\nlast q");
    assert_eq!(pairs(&index), owned(&[("p", "h"), ("q", "last")]));
    assert!(read_index("").is_empty());
    let odd = read_index(" x\ny \n");
    assert_eq!(pairs(&odd), owned(&[("", "y"), ("x", "")]));
}

#[test]
fn index_is_written_sorted_by_path() {
    let index = map_of(&[("z.txt", FOO), ("a.txt", BAR), ("m/n.txt", BAZ)]);
    assert_eq!(
        write_index(&index),
        format!("{} a.txt\n{} m/n.txt\n{} z.txt\n", BAR, BAZ, FOO)
    );
    assert_eq!(write_index(&PathMap::new()), "");
    assert_eq!(pairs(&read_index(&write_index(&index))), pairs(&index));
}

#[test]
fn line_ends_become_canonical() {
    assert_eq!(normalize_line_endings(b"a\r\nb\r\n"), b"a\nb\n".to_vec());
    assert_eq!(normalize_line_endings(b"a\rb\n\r"), b"a\rb\n\r".to_vec());
    assert_eq!(normalize_line_endings(b"\r\r\n\n"), b"\r\n\n".to_vec());
    assert_eq!(normalize_line_endings(b"\r\n\r\n"), b"\n\n".to_vec());
    assert_eq!(normalize_line_endings(b""), Vec::<u8>::new());
    assert_eq!(normalize_line_endings(b"\xff\r\n"), b"\xff\n".to_vec());
}

#[test]
fn content_is_hashed_as_it_is_staged() {
    assert_eq!(hash_content(b"foo"), FOO);
    assert_eq!(hash_content(b"hello world"), "95d09f2b10159347eece71399a7e2e907ea3df4f");
    assert_eq!(hash_content(b"a\r\nb\r\n"), "422c2b7ab3b3c668038da977e4e93a5fc623169c");
    assert_eq!(hash_content(b"a\r\nb\r\n"), hash_content(b"a\nb\n"));
    let mut repo = create_repository();
    add(&mut repo, "f", b"a\r\nb\r\n").unwrap();
    let index = repo.index.as_ref().unwrap();
    assert_eq!(index.get("f"), Some(hash_content(b"a\r\nb\r\n").as_str()));
    assert_eq!(
        read_object(&repo.objects, index.get("f").unwrap()),
        Ok((ObjectKind::Blob, b"a\nb\n".to_vec()))
    );
}

#[test]
fn update_index_begins_and_replaces() {
    let index = update_index(None, "a", FOO);
    assert_eq!(pairs(&index), owned(&[("a", FOO)]));
    let index = update_index(Some(index), "b", BAR);
    let index = update_index(Some(index), "a", BAZ);
    assert_eq!(pairs(&index), owned(&[("a", BAZ), ("b", BAR)]));
}

#[test]
fn staging_twice_replaces_the_entry() {
    let mut repo = create_repository();
    add(&mut repo, "a.txt", b"foo").unwrap();
    add(&mut repo, "a.txt", b"bar").unwrap();
    assert_eq!(pairs(repo.index.as_ref().unwrap()), owned(&[("a.txt", BAR)]));
    assert_eq!(repo.objects.len(), 2);
}

#[test]
fn same_content_is_stored_once() {
    let mut repo = create_repository();
    add(&mut repo, "one.txt", b"same bytes").unwrap();
    add(&mut repo, "dir/two.txt", b"same bytes").unwrap();
    let index = repo.index.as_ref().unwrap();
    assert_eq!(index.len(), 2);
    assert_eq!(index.get("one.txt"), index.get("dir/two.txt"));
    assert!(index.get("one.txt").is_some());
    assert_eq!(repo.objects.len(), 1);
    assert_eq!(repo.objects.address_at(0), index.get("one.txt").unwrap());
}

#[test]
fn tree_of_the_index_is_flat() {
    let mut store = ObjectStore::new();
    let index = map_of(&[("dir/b.txt", FOO), ("a.txt", BAR)]);
    let tree = create_tree_from_index(&mut store, &index).unwrap();
    let entries = read_tree(&store, &tree).unwrap();
    assert_eq!(entries.len(), 2);
    assert_eq!(entries[0].name, "a.txt");
    assert_eq!(entries[0].mode, "100644");
    assert_eq!(entries[0].obj_type, ObjectKind::Blob);
    assert_eq!(entries[1].name, "dir/b.txt");
    let files = list_files_in_tree(&store, &tree).unwrap();
    assert_eq!(pairs(&files), pairs(&index));
    let flat = create_tree_from_index(&mut store, &map_of(&[("a.txt", BAR), ("b.txt", FOO)]));
    assert_eq!(flat.unwrap(), "be5b131ed2719338f69f88c96d1c93a6cec1107b");
}

#[test]
fn tree_of_the_index_wants_blob_addresses() {
    let mut store = ObjectStore::new();
    let bad = |r: Result<String, XitError>| assert_eq!(r, Err(XitError::InputValidation));
    bad(create_tree_from_index(&mut store, &map_of(&[("a", "xyz")])));
    bad(create_tree_from_index(&mut store, &map_of(&[("a", "abcd")])));
    bad(create_tree_from_index(&mut store, &map_of(&[("a", FOO), ("b", "")])));
    bad(create_tree_from_index(&mut store, &map_of(&[("", FOO)])));
    assert_eq!(store.len(), 0);
}

#[test]
fn config_gives_name_and_email_of_the_user_section() {
    let user = read_user_config(USER).unwrap();
    assert_eq!(user.name, "Test User");
    assert_eq!(user.email, "test@example.com");
    let text = "[core]\nname = wrong\n[user]\n\n  email=e@x  \nname = First\nother = 1\nname = Second = 2\n[alias]\nemail = late\n";
    let user = read_user_config(text).unwrap();
    assert_eq!(user.name, "Second = 2");
    assert_eq!(user.email, "e@x");
}

#[test]
fn config_without_both_fields_gives_nothing() {
    assert!(read_user_config("").is_none());
    assert!(read_user_config("[user]\nname = Only\n").is_none());
    assert!(read_user_config("name = A\nemail = b@c\n").is_none());
    assert!(read_user_config("[users]\nname = A\nemail = b@c\n").is_none());
    assert!(read_user_config("[user]\nname A\nemail b@c\n").is_none());
    let split = read_user_config("[user]\nname = A\n[x]\n[user]\nemail = b@c\n").unwrap();
    assert_eq!(split.name, "A");
    assert_eq!(split.email, "b@c");
    let empty = read_user_config("[user]\nname =\nemail=\n").unwrap();
    assert_eq!(empty.name, "");
    assert_eq!(empty.email, "");
}

#[test]
fn the_repository_config_comes_first() {
    let local = "[user]\nname = Local\nemail = l@x\n";
    let global = "[user]\nname = Global\nemail = g@x\n";
    assert_eq!(get_user_config(Some(local), Some(global)).unwrap().name, "Local");
    assert_eq!(get_user_config(None, Some(global)).unwrap().name, "Global");
    assert_eq!(get_user_config(Some("[core]\n"), Some(global)).unwrap().name, "Global");
    assert_eq!(get_user_config(Some(local), None).unwrap().email, "l@x");
    assert!(matches!(get_user_config(None, None), Err(XitError::NotFound)));
    assert!(matches!(get_user_config(Some("[core]\n"), Some("")), Err(XitError::NotFound)));
}

#[test]
fn global_user_is_validated_and_written() {
    assert_eq!(
        setup_global_user(" Test User ", "test@example.com\n"),
        Ok("[user]\n    name = Test User\n    email = test@example.com\n".to_string())
    );
    assert_eq!(setup_global_user("", "a@b"), Err(XitError::InputValidation));
    assert_eq!(setup_global_user("  ", "a@b"), Err(XitError::InputValidation));
    assert_eq!(setup_global_user("n", ""), Err(XitError::InputValidation));
    assert_eq!(setup_global_user("n", " \t"), Err(XitError::InputValidation));
    assert_eq!(setup_global_user("n", "no-at-sign"), Err(XitError::InputValidation));
    let text = setup_global_user("N", "e@x").unwrap();
    let user = read_user_config(&text).unwrap();
    assert_eq!((user.name.as_str(), user.email.as_str()), ("N", "e@x"));
}

#[test]
fn signature_is_name_and_address() {
    let user = UserConfig { name: "Test User".to_string(), email: "test@example.com".to_string() };
    assert_eq!(signature_of(&user), "Test User <test@example.com>");
    let nobody = UserConfig { name: String::new(), email: String::new() };
    assert_eq!(signature_of(&nobody), " <>");
}

#[test]
fn commit_writes_tree_and_commit_and_moves_the_branch() {
    let mut repo = create_repository();
    add(&mut repo, "b.txt", b"foo").unwrap();
    add(&mut repo, "a.txt", b"bar").unwrap();
    let first = commit(&mut repo, "first", Some(USER)).unwrap().unwrap();
    assert_eq!(first.len(), 40);
    assert_eq!(resolve_head(&repo.refs), Ok(Some(first.clone())));
    assert_eq!(resolve(&repo.refs, "refs/heads/main"), Ok(Some(first.clone())));
    assert!(get_index_entries(&repo).is_empty());
    let tree = get_commit_tree_hash(&repo.objects, &first).unwrap();
    assert_eq!(tree, "be5b131ed2719338f69f88c96d1c93a6cec1107b");
    let (kind, text) = read_object(&repo.objects, &first).unwrap();
    assert_eq!(kind, ObjectKind::Commit);
    assert_eq!(
        String::from_utf8(text).unwrap(),
        format!(
            "tree {}\nauthor Test User <test@example.com>\ncommitter Test User <test@example.com>\n\nfirst",
            tree
        )
    );
    // two blobs, one tree, one commit
    assert_eq!(repo.objects.len(), 4);

    add(&mut repo, "c.txt", b"baz").unwrap();
    let second = commit(&mut repo, "second", Some(USER)).unwrap().unwrap();
    let (_, text) = read_object(&repo.objects, &second).unwrap();
    let text = String::from_utf8(text).unwrap();
    assert!(text.contains(&format!("\nparent {}\n", first)));
    assert_eq!(resolve_head(&repo.refs), Ok(Some(second)));
    // the second tree holds only what was staged for it
    let files = get_head_tree_entries(&repo).unwrap();
    assert_eq!(pairs(&files), owned(&[("c.txt", BAZ)]));
}

#[test]
fn commit_uses_the_repository_identity_first() {
    let mut repo = create_repository();
    repo.config = Some("[user]\nname = Local\nemail = l@x\n".to_string());
    add(&mut repo, "a", b"x").unwrap();
    let address = commit(&mut repo, "m", Some(USER)).unwrap().unwrap();
    let text = String::from_utf8(read_object(&repo.objects, &address).unwrap().1).unwrap();
    assert!(text.contains("author Local <l@x>\ncommitter Local <l@x>\n"));
}

#[test]
fn commit_without_an_index_is_not_found() {
    let mut repo = create_repository();
    assert_eq!(commit(&mut repo, "m", Some(USER)), Err(XitError::NotFound));
    assert_eq!(repo.objects.len(), 0);
}

#[test]
fn commit_of_an_empty_index_does_nothing() {
    let mut repo = create_repository();
    repo.index = Some(PathMap::new());
    assert_eq!(commit(&mut repo, "m", Some(USER)), Ok(None));
    assert!(repo.index.is_some());
    assert_eq!(repo.objects.len(), 0);
    assert_eq!(resolve_head(&repo.refs), Ok(None));
}

fn staged_repo() -> Repository {
    let mut repo = create_repository();
    add(&mut repo, "a.txt", b"foo").unwrap();
    repo
}

fn assert_untouched(repo: &Repository) {
    assert_eq!(pairs(repo.index.as_ref().unwrap()), owned(&[("a.txt", FOO)]));
    assert_eq!(repo.objects.len(), 1);
    assert!(!repo.refs.contains_key("refs/heads/main"));
}

#[test]
fn commit_fails_before_it_stores_anything() {
    let mut repo = staged_repo();
    assert_eq!(commit(&mut repo, "", Some(USER)), Err(XitError::InputValidation));
    assert_untouched(&repo);
    assert_eq!(commit(&mut repo, "m", None), Err(XitError::NotFound));
    assert_untouched(&repo);
    assert_eq!(commit(&mut repo, "m", Some("[user]\nname = x\n")), Err(XitError::NotFound));
    assert_untouched(&repo);

    let mut headless = staged_repo();
    headless.refs.remove("HEAD");
    assert_eq!(commit(&mut headless, "m", Some(USER)), Err(XitError::NotFound));
    assert_untouched(&headless);

    let mut detached = staged_repo();
    detached.refs.insert("HEAD".to_string(), format!("{}\n", FOO));
    assert_eq!(commit(&mut detached, "m", Some(USER)), Err(XitError::CorruptRef));
    assert_eq!(detached.objects.len(), 1);

    let mut nowhere = staged_repo();
    nowhere.refs.insert("HEAD".to_string(), "ref: \n".to_string());
    assert_eq!(commit(&mut nowhere, "m", Some(USER)), Err(XitError::InputValidation));
    assert_eq!(nowhere.objects.len(), 1);

    let mut broken = staged_repo();
    broken.refs.insert("refs/heads/main".to_string(), "not an address\n".to_string());
    assert_eq!(commit(&mut broken, "m", Some(USER)), Err(XitError::CorruptRef));
    assert_eq!(broken.objects.len(), 1);
    assert!(broken.index.is_some());

    let mut forged = create_repository();
    forged.index = Some(map_of(&[("a.txt", "not hex")]));
    assert_eq!(commit(&mut forged, "m", Some(USER)), Err(XitError::InputValidation));
    assert_eq!(forged.objects.len(), 0);
    assert!(forged.index.is_some());
}

#[test]
fn paths_lose_a_leading_dot_slash() {
    assert_eq!(path_to_string("./a/b.txt"), "a/b.txt");
    assert_eq!(path_to_string("a/b.txt"), "a/b.txt");
    assert_eq!(path_to_string("./"), "");
    assert_eq!(path_to_string("."), ".");
    assert_eq!(path_to_string("a/./b"), "a/./b");
    assert_eq!(path_to_string("././a"), "./a");
    assert_eq!(path_to_string(""), "");
}

#[test]
fn ignoring_goes_by_whole_segments() {
    let patterns = set_of(&["target", ".xit", "b"]);
    assert!(is_ignored("target/debug/x", &patterns));
    assert!(is_ignored("a/target/x", &patterns));
    assert!(is_ignored("a/b", &patterns));
    assert!(is_ignored("b", &patterns));
    assert!(is_ignored(".xit/objects/ab/cd", &patterns));
    assert!(!is_ignored("targets/x", &patterns));
    assert!(!is_ignored("my-target", &patterns));
    assert!(!is_ignored("a/bb/c", &patterns));
    assert!(!is_ignored("", &patterns));
    assert!(!is_ignored("a//c", &patterns));
    assert!(is_ignored("a//c", &set_of(&[""])));
    assert!(is_ignored("", &set_of(&[""])));
    assert!(!is_ignored("target", &PathSet::new()));
}

#[test]
fn ignore_file_adds_to_the_implicit_names() {
    assert_eq!(read_ignore_file(None).members(), vec![".xit", "target"]);
    assert_eq!(read_ignore_file(Some("")).members(), vec![".xit", "target"]);
    let patterns = read_ignore_file(Some("# comment\n\n  build  \nnode_modules\r\n   \n #not-a-comment\ntarget\n"));
    assert_eq!(
        patterns.members(),
        vec!["#not-a-comment", ".xit", "build", "node_modules", "target"]
    );
}

#[test]
fn working_files_are_recorded_by_relative_path() {
    let mut working = PathMap::new();
    record_working_file(&mut working, "./a.txt", b"foo");
    record_working_file(&mut working, "dir/b.txt", b"bar");
    assert_eq!(pairs(&working), owned(&[("a.txt", FOO), ("dir/b.txt", BAR)]));
}

#[test]
fn staged_changes_compare_commit_and_index() {
    let head = map_of(&[("same", FOO), ("changed", FOO), ("gone", BAR)]);
    let index = map_of(&[("same", FOO), ("changed", BAZ), ("fresh", BAR)]);
    let staged = get_staged_changes(&index, &head);
    assert_eq!(
        pairs(&staged),
        owned(&[("changed", "modified"), ("fresh", "new file"), ("gone", "deleted")])
    );
    assert!(get_staged_changes(&PathMap::new(), &PathMap::new()).is_empty());
    assert!(get_staged_changes(&head, &head).is_empty());
}

#[test]
fn unstaged_changes_compare_index_and_working_files() {
    let index = map_of(&[("same", FOO), ("changed", FOO), ("gone", BAR)]);
    let working = map_of(&[("same", FOO), ("changed", BAZ), ("loose", BAR), ("target/x", BAR)]);
    let (unstaged, untracked) =
        get_unstaged_and_untracked(&index, &set_of(&["target"]), &working);
    assert_eq!(pairs(&unstaged), owned(&[("changed", "modified"), ("gone", "deleted")]));
    assert_eq!(untracked.members(), vec!["loose"]);
}

#[test]
fn status_scenario() {
    // the last commit holds a.txt with "foo"
    let mut repo = create_repository();
    add(&mut repo, "a.txt", b"foo").unwrap();
    commit(&mut repo, "first", Some(USER)).unwrap().unwrap();
    assert_eq!(pairs(&get_head_tree_entries(&repo).unwrap()), owned(&[("a.txt", FOO)]));
    // staged: a.txt with "bar", b.txt with "baz"
    add(&mut repo, "a.txt", b"bar").unwrap();
    add(&mut repo, "b.txt", b"baz").unwrap();
    assert_eq!(pairs(&get_index_entries(&repo)), owned(&[("a.txt", BAR), ("b.txt", BAZ)]));
    // on disk: a.txt with "bar", no b.txt, and a new c.txt
    let mut working = PathMap::new();
    record_working_file(&mut working, "./a.txt", b"bar");
    record_working_file(&mut working, "./c.txt", b"new");

    let status = check_status(&repo, &working, None).unwrap();
    assert_eq!(pairs(&status.staged), owned(&[("a.txt", "modified"), ("b.txt", "new file")]));
    assert_eq!(pairs(&status.unstaged), owned(&[("b.txt", "deleted")]));
    assert_eq!(status.untracked.members(), vec!["c.txt"]);
}

#[test]
fn ignore_scenario() {
    let repo = create_repository();
    let mut working = PathMap::new();
    record_working_file(&mut working, "./build/out.bin", b"x");
    record_working_file(&mut working, "./src/build/gen.rs", b"x");
    record_working_file(&mut working, "./src/main.rs", b"x");
    record_working_file(&mut working, "./target/debug/app", b"x");
    record_working_file(&mut working, "./.xit/index", b"x");
    record_working_file(&mut working, "./builder/keep", b"x");
    let status = check_status(&repo, &working, Some("build\n")).unwrap();
    assert_eq!(status.untracked.members(), vec!["builder/keep", "src/main.rs"]);
    assert!(status.staged.is_empty());
    assert!(status.unstaged.is_empty());
    let all = check_status(&repo, &working, None).unwrap();
    assert_eq!(
        all.untracked.members(),
        vec!["build/out.bin", "builder/keep", "src/build/gen.rs", "src/main.rs"]
    );
}

#[test]
fn status_of_a_clean_tree_is_empty() {
    let mut repo = create_repository();
    add(&mut repo, "a.txt", b"line\r\n").unwrap();
    let mut working = PathMap::new();
    record_working_file(&mut working, "a.txt", b"line\r\n");
    let before = check_status(&repo, &working, None).unwrap();
    assert_eq!(pairs(&before.staged), owned(&[("a.txt", "new file")]));
    assert!(before.unstaged.is_empty());
    assert!(before.untracked.is_empty());
    // the same content with other line ends is no change
    let mut unix = PathMap::new();
    record_working_file(&mut unix, "a.txt", b"line\n");
    assert!(check_status(&repo, &unix, None).unwrap().unstaged.is_empty());
}

#[test]
fn a_file_taken_out_of_the_index_is_not_untracked() {
    let mut repo = create_repository();
    add(&mut repo, "a.txt", b"foo").unwrap();
    commit(&mut repo, "first", Some(USER)).unwrap().unwrap();
    repo.index = Some(PathMap::new());
    let mut working = PathMap::new();
    record_working_file(&mut working, "a.txt", b"foo");
    record_working_file(&mut working, "b.txt", b"bar");
    let status = check_status(&repo, &working, None).unwrap();
    assert_eq!(pairs(&status.staged), owned(&[("a.txt", "deleted")]));
    assert!(status.unstaged.is_empty());
    assert_eq!(status.untracked.members(), vec!["b.txt"]);
}

#[test]
fn status_fails_where_the_last_commit_cannot_be_read() {
    let mut repo = create_repository();
    let working = PathMap::new();
    repo.refs.insert(
        "refs/heads/main".to_string(),
        "0123456789012345678901234567890123456789\n".to_string(),
    );
    assert!(matches!(check_status(&repo, &working, None), Err(XitError::ObjectNotFound)));
    let blob = create_blob(&mut repo.objects, b"x").unwrap();
    repo.refs.insert("refs/heads/main".to_string(), format!("{}\n", blob));
    assert!(matches!(check_status(&repo, &working, None), Err(XitError::WrongObjectKind)));
    repo.refs.insert("refs/heads/main".to_string(), "junk".to_string());
    assert!(matches!(check_status(&repo, &working, None), Err(XitError::CorruptRef)));
    repo.refs.remove("HEAD");
    assert!(matches!(get_head_tree_entries(&repo), Err(XitError::NotFound)));
}

#[test]
fn clearing_the_index_leaves_the_rest() {
    let mut repo = create_repository();
    add(&mut repo, "a.txt", b"foo").unwrap();
    clear_index(&mut repo);
    assert!(repo.index.is_none());
    assert!(get_index_entries(&repo).is_empty());
    assert_eq!(repo.objects.len(), 1);
    assert_eq!(repo.refs.len(), 1);
    clear_index(&mut repo);
    assert!(repo.index.is_none());
}

#[test]
fn an_identity_can_be_copied() {
    let user = UserConfig { name: "N".to_string(), email: "e@x".to_string() };
    let copy = user.clone();
    assert_eq!(copy.name, "N");
    assert_eq!(copy.email, "e@x");
}

#[test]
fn plain_paths_stay_below_their_root() {
    assert!(is_plain_path("HEAD"));
    assert!(is_plain_path("refs/heads/main"));
    assert!(is_plain_path("a/.b/c..d"));
    assert!(!is_plain_path(""));
    assert!(!is_plain_path("/etc/passwd"));
    assert!(!is_plain_path("refs/../../x"));
    assert!(!is_plain_path("refs//x"));
    assert!(!is_plain_path("refs/heads/"));
    assert!(!is_plain_path("./refs"));
    assert!(!is_plain_path(".."));
}

#[test]
fn a_file_is_staged_under_its_relative_path() {
    let mut repo = create_repository();
    add(&mut repo, "./a.txt", b"foo").unwrap();
    add(&mut repo, "./dir/b.txt", b"bar").unwrap();
    add(&mut repo, "c.txt", b"baz").unwrap();
    assert_eq!(
        pairs(repo.index.as_ref().unwrap()),
        owned(&[("a.txt", FOO), ("c.txt", BAZ), ("dir/b.txt", BAR)])
    );
    // staged with `./` and found without it, and the other way round
    let mut working = PathMap::new();
    record_working_file(&mut working, "a.txt", b"foo");
    record_working_file(&mut working, "./dir/b.txt", b"bar");
    record_working_file(&mut working, "./c.txt", b"baz");
    let status = check_status(&repo, &working, None).unwrap();
    assert!(status.unstaged.is_empty());
    assert!(status.untracked.is_empty());
    assert_eq!(status.staged.len(), 3);
    // the same file staged both ways is one entry
    add(&mut repo, "a.txt", b"bar").unwrap();
    assert_eq!(repo.index.as_ref().unwrap().len(), 3);
    assert_eq!(repo.index.as_ref().unwrap().get("a.txt"), Some(BAR));
}

#[test]
fn a_staged_file_under_an_ignored_directory_is_not_deleted() {
    let mut repo = create_repository();
    add(&mut repo, "build/kept.txt", b"foo").unwrap();
    let index = get_index_entries(&repo);
    let patterns = read_ignore_file(Some("build\n"));
    assert!(working_file_matters(&index, &patterns, "./build/kept.txt"));
    assert!(working_file_matters(&index, &patterns, "build/kept.txt"));
    assert!(!working_file_matters(&index, &patterns, "./build/other.txt"));
    assert!(!working_file_matters(&index, &patterns, "./.xit/HEAD"));
    assert!(working_file_matters(&index, &patterns, "./src/main.rs"));
    // only the files that matter are recorded
    let mut working = PathMap::new();
    for (path, content) in [
        ("./build/kept.txt", &b"foo"[..]),
        ("./build/other.txt", &b"x"[..]),
        ("./src/main.rs", &b"y"[..]),
    ] {
        if working_file_matters(&index, &patterns, path) {
            record_working_file(&mut working, path, content);
        }
    }
    let status = check_status(&repo, &working, Some("build\n")).unwrap();
    assert!(status.unstaged.is_empty());
    assert_eq!(status.untracked.members(), vec!["src/main.rs"]);
    // with every file recorded the status is the same
    let mut all = PathMap::new();
    record_working_file(&mut all, "./build/kept.txt", b"foo");
    record_working_file(&mut all, "./build/other.txt", b"x");
    record_working_file(&mut all, "./src/main.rs", b"y");
    let full = check_status(&repo, &all, Some("build\n")).unwrap();
    assert!(full.unstaged.is_empty());
    assert_eq!(full.untracked.members(), vec!["src/main.rs"]);
    // once the file is gone it is deleted
    let gone = check_status(&repo, &PathMap::new(), Some("build\n")).unwrap();
    assert_eq!(pairs(&gone.unstaged), owned(&[("build/kept.txt", "deleted")]));
}

#[test]
fn a_commit_ends_with_its_message() {
    let mut repo = create_repository();
    add(&mut repo, "a.txt", b"foo").unwrap();
    let address = commit(&mut repo, "two\nlines", Some(USER)).unwrap().unwrap();
    let text = read_object(&repo.objects, &address).unwrap().1;
    assert!(text.ends_with(b"\n\ntwo\nlines"));
    assert!(!text.ends_with(b"\n"));
}
