//! Reading trees and commits back: the entries of a tree, the files under a
//! tree, and the tree of a commit.

use crate::error::XitError;
use crate::hexcode::{hex_chars, hex_value, is_address};
use crate::objects::commit::{commit_text, commit_written};
use crate::objects::store::{encoded_object, object_address, ObjectKind, ObjectStore};
use crate::objects::tree::{
    entries_ok, entry_bytes, entry_views, lemma_sorted_by_name, names_ascend_strictly,
    sorted_by_name, tree_payload, tree_written, TreeEntry, TreeEntryView,
};
use crate::path_map::{
    ascending, lemma_map_of_entry, lemma_map_of_len, lemma_overlaid, map_of, overlaid, PathMap,
};
use crate::repository::utils::{
    free_or_same, lemma_read_after_write, object_at, read_object, survives_compression,
};
use crate::scan::{find_byte, find_from, lemma_find_from, lemma_find_from_bounds};
use crate::text::{
    chars_of, lemma_text_total, lemma_utf8_low_byte, lines, lossy_text, push_char, split_lines,
    starts_with, string_of, text_lt, text_of, views, without_cr,
};
use vstd::prelude::*;
use vstd::slice::{slice_subrange, slice_to_vec};
use vstd::string::StringExecFns;
use vstd::utf8::encode_utf8;

verus! {

/// How deep trees may nest below the one that is read. A tree that nests
/// deeper is rejected as corrupt, which ends the reading of stores in which
/// trees contain one another.
pub const MAX_TREE_DEPTH: usize = 256;

/// Bytes as lower-case hexadecimal text, two digits to the byte.
///
/// Calls `hex::encode`. Not proved: that the text holds, for every byte, the
/// digit of its high half and then that of its low half.
#[verifier::external_body]
pub(crate) fn hex_encode(bytes: &[u8]) -> (s: String)
    ensures
        s@ == hex_chars(bytes@),
{
    hex::encode(bytes)
}

/// A mode marks a file where it begins with `100`.
pub open spec fn is_file_mode(mode: Seq<u8>) -> bool {
    mode.len() >= 3 && mode[0] == 49 && mode[1] == 48 && mode[2] == 48
}

/// The entry that begins at `from`, with its space at `sp` and its NUL at
/// `nul`.
pub open spec fn entry_at(payload: Seq<u8>, from: int, sp: int, nul: int) -> TreeEntryView {
    let mode = payload.subrange(from, sp);
    TreeEntryView {
        mode: text_of(mode),
        kind: if is_file_mode(mode) {
            ObjectKind::Blob
        } else {
            ObjectKind::Tree
        },
        hash: payload.subrange(nul + 1, nul + 21),
        name: text_of(payload.subrange(sp + 1, nul)),
    }
}

/// The entries that a tree payload holds from `from` on. An entry runs to
/// the next space (its mode), from there to the next NUL (its name), and over
/// the twenty bytes that follow (its address). `None` where the space, the
/// NUL or one of the twenty bytes is missing.
pub open spec fn parsed_entries(payload: Seq<u8>, from: int) -> Option<Seq<TreeEntryView>>
    decreases payload.len() - from,
{
    let sp = find_from(payload, from, 32u8);
    let nul = find_from(payload, sp + 1, 0u8);
    if from < 0 || from >= payload.len() {
        Some(Seq::empty())
    } else if sp >= payload.len() || nul + 21 > payload.len() {
        None
    } else {
        proof {
            lemma_find_from_bounds(payload, from, 32u8);
            lemma_find_from_bounds(payload, sp + 1, 0u8);
        }
        match parsed_entries(payload, nul + 21) {
            Some(rest) => Some(seq![entry_at(payload, from, sp, nul)] + rest),
            None => None,
        }
    }
}

/// The entries `head` followed by those of `tail`, where there are any.
pub open spec fn followed_by(head: Seq<TreeEntryView>, tail: Option<Seq<TreeEntryView>>) -> Option<
    Seq<TreeEntryView>,
> {
    match tail {
        Some(rest) => Some(head + rest),
        None => None,
    }
}

/// What reading a tree gives back of an entry that was written: its mode,
/// its name and its address.
pub open spec fn triple(e: TreeEntryView) -> (Seq<char>, Seq<char>, Seq<u8>) {
    (e.mode, e.name, e.hash)
}

/// An entry as it reads back: with the kind that its mode marks.
pub open spec fn read_back(e: TreeEntryView) -> TreeEntryView {
    TreeEntryView {
        kind: if is_file_mode(encode_utf8(e.mode)) {
            ObjectKind::Blob
        } else {
            ObjectKind::Tree
        },
        ..e
    }
}

/// An entry whose bytes can be told apart again: its address has twenty
/// bytes, its mode holds no space and its name holds no NUL.
pub open spec fn entry_plain(e: TreeEntryView) -> bool {
    e.hash.len() == 20 && !e.mode.contains(' ') && !e.name.contains('\0')
}

/// The bytes of entries begin with the bytes of the first.
proof fn lemma_payload_front(entries: Seq<TreeEntryView>)
    requires
        entries.len() > 0,
    ensures
        tree_payload(entries) == entry_bytes(entries.first()) + tree_payload(entries.drop_first()),
    decreases entries.len(),
{
    if entries.len() == 1 {
        assert(entries.drop_last() =~= Seq::<TreeEntryView>::empty());
        assert(entries.drop_first() =~= Seq::<TreeEntryView>::empty());
        assert(tree_payload(entries) =~= entry_bytes(entries.first()) + tree_payload(
            entries.drop_first(),
        ));
    } else {
        lemma_payload_front(entries.drop_last());
        assert(entries.drop_last().drop_first() =~= entries.drop_first().drop_last());
        assert(entries.drop_last().first() == entries.first());
        assert(entries.drop_first().last() == entries.last());
        assert(tree_payload(entries) =~= entry_bytes(entries.first()) + tree_payload(
            entries.drop_first(),
        ));
    }
}

/// Where the bytes of a plain entry stand at `from`, the space and the NUL
/// that end its mode and its name are the first from there, and its parts lie
/// between them.
proof fn lemma_entry_found(payload: Seq<u8>, from: int, e: TreeEntryView, tail: Seq<u8>)
    requires
        0 <= from <= payload.len(),
        payload.skip(from) == entry_bytes(e) + tail,
        entry_plain(e),
    ensures
        find_from(payload, from, 32u8) == from + encode_utf8(e.mode).len(),
        find_from(payload, from + encode_utf8(e.mode).len() + 1, 0u8) == from + encode_utf8(
            e.mode,
        ).len() + 1 + encode_utf8(e.name).len(),
        from + entry_bytes(e).len() <= payload.len(),
        entry_bytes(e).len() == encode_utf8(e.mode).len() + encode_utf8(e.name).len() + 22,
        payload.subrange(from, from + encode_utf8(e.mode).len()) == encode_utf8(e.mode),
        payload.subrange(
            from + encode_utf8(e.mode).len() + 1,
            from + encode_utf8(e.mode).len() + 1 + encode_utf8(e.name).len(),
        ) == encode_utf8(e.name),
        payload.subrange(
            from + entry_bytes(e).len() - 20,
            from + entry_bytes(e).len() as int,
        ) == e.hash,
        payload.skip(from + entry_bytes(e).len()) == tail,
{
    let mode = encode_utf8(e.mode);
    let name = encode_utf8(e.name);
    let sp = from + mode.len();
    let nul = sp + 1 + name.len();
    let suffix = payload.skip(from);
    lemma_utf8_low_byte(e.mode, 32u8);
    lemma_utf8_low_byte(e.name, 0u8);
    assert(suffix == mode + seq![32u8] + name + seq![0u8] + e.hash + tail);
    assert(payload.len() == from + suffix.len());
    assert forall|j: int| 0 <= j < suffix.len() implies payload[from + j] == suffix[j] by {}
    assert forall|j: int| from <= j < sp implies payload[j] != 32u8 by {
        assert(payload[j] == suffix[j - from]);
        assert(suffix[j - from] == mode[j - from]);
        assert(mode.contains(mode[j - from]));
    }
    assert(payload[sp] == 32u8) by {
        assert(payload[sp] == suffix[sp - from]);
    }
    lemma_find_from(payload, from, 32u8, sp);
    assert forall|j: int| sp + 1 <= j < nul implies payload[j] != 0u8 by {
        assert(payload[j] == suffix[j - from]);
        assert(suffix[j - from] == name[j - sp - 1]);
        assert(name.contains(name[j - sp - 1]));
    }
    assert(payload[nul] == 0u8) by {
        assert(payload[nul] == suffix[nul - from]);
    }
    lemma_find_from(payload, sp + 1, 0u8, nul);
    assert(payload.subrange(from, sp) =~= mode) by {
        assert forall|k: int| 0 <= k < mode.len() implies payload.subrange(from, sp)[k]
            == mode[k] by {
            assert(payload[from + k] == suffix[k]);
        }
    }
    assert(payload.subrange(sp + 1, nul) =~= name) by {
        assert forall|k: int| 0 <= k < name.len() implies payload.subrange(sp + 1, nul)[k]
            == name[k] by {
            assert(payload[sp + 1 + k] == suffix[sp + 1 + k - from]);
        }
    }
    assert(payload.subrange(nul + 1, nul + 21) =~= e.hash) by {
        assert forall|k: int| 0 <= k < 20 implies payload.subrange(nul + 1, nul + 21)[k]
            == e.hash[k] by {
            assert(payload[nul + 1 + k] == suffix[nul + 1 + k - from]);
        }
    }
    assert(payload.skip(nul + 21) =~= tail) by {
        assert forall|k: int| 0 <= k < tail.len() implies payload.skip(nul + 21)[k] == tail[k] by {
            assert(payload[nul + 21 + k] == suffix[nul + 21 + k - from]);
        }
    }
}

/// Bytes that end in the bytes of plain entries are read, from where those
/// begin, as those entries, each with the kind that its mode marks.
pub proof fn lemma_parse_written(payload: Seq<u8>, from: int, entries: Seq<TreeEntryView>)
    requires
        0 <= from <= payload.len(),
        payload.skip(from) == tree_payload(entries),
        forall|i: int| 0 <= i < entries.len() ==> entry_plain(#[trigger] entries[i]),
    ensures
        parsed_entries(payload, from) == Some(entries.map_values(|e: TreeEntryView| read_back(e))),
    decreases entries.len(),
{
    let keep = |e: TreeEntryView| read_back(e);
    if entries.len() == 0 {
        assert(payload.skip(from).len() == 0);
        assert(entries.map_values(keep) =~= Seq::<TreeEntryView>::empty());
    } else {
        let e = entries.first();
        let rest = entries.drop_first();
        let tail = tree_payload(rest);
        lemma_payload_front(entries);
        assert(entry_plain(entries[0]));
        lemma_entry_found(payload, from, e, tail);
        let sp = from + encode_utf8(e.mode).len();
        let nul = sp + 1 + encode_utf8(e.name).len();
        vstd::utf8::encode_utf8_valid_utf8(e.mode);
        vstd::utf8::encode_utf8_decode_utf8(e.mode);
        vstd::utf8::encode_utf8_valid_utf8(e.name);
        vstd::utf8::encode_utf8_decode_utf8(e.name);
        let first = entry_at(payload, from, sp, nul);
        assert(first == read_back(e));
        assert forall|i: int| 0 <= i < rest.len() implies entry_plain(#[trigger] rest[i]) by {
            assert(rest[i] == entries[i + 1]);
        }
        lemma_parse_written(payload, nul + 21, rest);
        let read = rest.map_values(keep);
        assert(parsed_entries(payload, from) == Some(seq![first] + read));
        assert(seq![first] + read =~= entries.map_values(keep));
    }
}

/// Reading gives back what was written: the canonical bytes of plain entries
/// are read as those entries in the order in which sorting put them, each
/// with the kind that its mode marks; so the modes, names and addresses read
/// are those given, each as many times as it was given.
pub proof fn lemma_tree_round_trip(entries: Seq<TreeEntryView>)
    requires
        forall|i: int| 0 <= i < entries.len() ==> entry_plain(#[trigger] entries[i]),
    ensures
        parsed_entries(tree_payload(sorted_by_name(entries)), 0) == Some(
            sorted_by_name(entries).map_values(|e: TreeEntryView| read_back(e)),
        ),
        sorted_by_name(entries).map_values(|e: TreeEntryView| read_back(e)).map_values(
            |e: TreeEntryView| triple(e),
        ).to_multiset() == entries.map_values(|e: TreeEntryView| triple(e)).to_multiset(),
{
    let sorted = sorted_by_name(entries);
    let payload = tree_payload(sorted);
    lemma_sorted_by_name(entries);
    assert forall|i: int| 0 <= i < sorted.len() implies entry_plain(#[trigger] sorted[i]) by {
        broadcast use vstd::seq_lib::to_multiset_contains;

        assert(sorted.contains(sorted[i]));
        assert(entries.to_multiset().count(sorted[i]) > 0);
        assert(entries.contains(sorted[i]));
    }
    assert(payload.skip(0) =~= payload);
    lemma_parse_written(payload, 0, sorted);
    lemma_map_multiset(sorted, entries);
    assert(sorted.map_values(|e: TreeEntryView| read_back(e)).map_values(
        |e: TreeEntryView| triple(e),
    ) =~= sorted.map_values(|e: TreeEntryView| triple(e)));
}

/// Two sequences with the same elements, each as often, still have the same
/// elements, each as often, after the same is kept of every element.
proof fn lemma_map_multiset(x: Seq<TreeEntryView>, y: Seq<TreeEntryView>)
    requires
        x.to_multiset() == y.to_multiset(),
    ensures
        x.map_values(|e: TreeEntryView| triple(e)).to_multiset() == y.map_values(
            |e: TreeEntryView| triple(e),
        ).to_multiset(),
    decreases x.len(),
{
    broadcast use vstd::seq_lib::to_multiset_contains;
    broadcast use vstd::seq_lib::to_multiset_remove;

    let keep = |e: TreeEntryView| triple(e);
    assert(x.len() == y.len()) by {
        vstd::seq_lib::to_multiset_len(x);
        vstd::seq_lib::to_multiset_len(y);
    }
    if x.len() == 0 {
        assert(x.map_values(keep) =~= y.map_values(keep));
    } else {
        let e = x.last();
        assert(x.contains(e));
        assert(y.to_multiset().count(e) > 0);
        assert(y.contains(e));
        let j = choose|j: int| 0 <= j < y.len() && y[j] == e;
        let xs = x.drop_last();
        let ys = y.remove(j);
        assert(xs =~= x.remove(x.len() - 1));
        assert(xs.to_multiset() =~= x.to_multiset().remove(e));
        assert(ys.to_multiset() =~= y.to_multiset().remove(e));
        lemma_map_multiset(xs, ys);
        assert(xs.map_values(keep) =~= x.map_values(keep).remove(x.len() - 1));
        assert(ys.map_values(keep) =~= y.map_values(keep).remove(j));
        assert(x.map_values(keep).to_multiset() =~= xs.map_values(keep).to_multiset().insert(
            keep(e),
        )) by {
            assert(x.map_values(keep)[x.len() - 1] == keep(e));
            assert(xs.map_values(keep).to_multiset() =~= x.map_values(keep).to_multiset().remove(
                keep(e),
            ));
            assert(x.map_values(keep).contains(keep(e)));
        }
        assert(y.map_values(keep).to_multiset() =~= ys.map_values(keep).to_multiset().insert(
            keep(e),
        )) by {
            assert(y.map_values(keep)[j] == keep(e));
            assert(ys.map_values(keep).to_multiset() =~= y.map_values(keep).to_multiset().remove(
                keep(e),
            ));
            assert(y.map_values(keep).contains(keep(e)));
        }
    }
}

/// Whether the mode marks a file.
fn file_mode(mode: &[u8]) -> (b: bool)
    ensures
        b == is_file_mode(mode@),
{
    mode.len() >= 3 && mode[0] == 49 && mode[1] == 48 && mode[2] == 48
}

/// The entries that a tree payload holds, in the order in which they stand.
/// Fails with `CorruptTree` where an entry lacks its space, its NUL or one of
/// its twenty address bytes.
pub fn parse_tree(payload: &[u8]) -> (r: Result<Vec<TreeEntry>, XitError>)
    ensures
        match r {
            Ok(entries) => parsed_entries(payload@, 0) == Some(entry_views(entries@)),
            Err(e) => e == XitError::CorruptTree && parsed_entries(payload@, 0) is None,
        },
{
    let mut entries: Vec<TreeEntry> = Vec::new();
    let mut cursor: usize = 0;
    proof {
        assert(entry_views(entries@) =~= Seq::<TreeEntryView>::empty());
        assert(followed_by(entry_views(entries@), parsed_entries(payload@, 0)) == parsed_entries(
            payload@,
            0,
        )) by {
            if let Some(rest) = parsed_entries(payload@, 0) {
                assert(Seq::<TreeEntryView>::empty() + rest =~= rest);
            }
        }
    }
    while cursor < payload.len()
        invariant
            cursor <= payload.len(),
            parsed_entries(payload@, 0) == followed_by(
                entry_views(entries@),
                parsed_entries(payload@, cursor as int),
            ),
        decreases payload.len() - cursor,
    {
        let sp: usize = find_byte(payload, cursor, 32);
        if sp >= payload.len() {
            return Err(XitError::CorruptTree);
        }
        let nul: usize = find_byte(payload, sp + 1, 0);
        if nul >= payload.len() || payload.len() - nul < 21 {
            return Err(XitError::CorruptTree);
        }
        let mode = slice_subrange(payload, cursor, sp);
        let entry = TreeEntry {
            mode: lossy_text(mode),
            obj_type: if file_mode(mode) {
                ObjectKind::Blob
            } else {
                ObjectKind::Tree
            },
            hash: slice_to_vec(slice_subrange(payload, nul + 1, nul + 21)),
            name: lossy_text(slice_subrange(payload, sp + 1, nul)),
        };
        proof {
            let head = entry_views(entries@);
            let e = entry_at(payload@, cursor as int, sp as int, nul as int);
            assert(entry@ == e);
            assert(entry_views(entries@.push(entry)) =~= head.push(e));
            if let Some(rest) = parsed_entries(payload@, nul + 21) {
                assert(head.push(e) + rest =~= head + (seq![e] + rest));
            }
        }
        entries.push(entry);
        cursor = nul + 21;
    }
    proof {
        assert(entry_views(entries@) + Seq::<TreeEntryView>::empty() =~= entry_views(entries@));
    }
    Ok(entries)
}

/// The entries of the tree stored under an address.
pub open spec fn tree_at(objects: Map<Seq<char>, Seq<u8>>, address: Seq<char>) -> Result<
    Seq<TreeEntryView>,
    XitError,
> {
    match object_at(objects, address) {
        Err(e) => Err(e),
        Ok((kind, content)) => if kind != ObjectKind::Tree {
            Err(XitError::WrongObjectKind)
        } else {
            match parsed_entries(content, 0) {
                Some(entries) => Ok(entries),
                None => Err(XitError::CorruptTree),
            }
        },
    }
}

/// Reads the tree stored under `tree_hash` and returns its entries in the
/// order in which they stand.
///
/// Fails as `read_object` does; with `WrongObjectKind` where the object is no
/// tree; and with `CorruptTree` where its payload is malformed.
pub fn read_tree(store: &ObjectStore, tree_hash: &str) -> (r: Result<Vec<TreeEntry>, XitError>)
    ensures
        match r {
            Ok(entries) => tree_at(store@, tree_hash@) == Ok::<_, XitError>(entry_views(entries@)),
            Err(e) => tree_at(store@, tree_hash@) == Err::<Seq<TreeEntryView>, _>(e),
        },
{
    match read_object(store, tree_hash) {
        Err(e) => Err(e),
        Ok((kind, content)) => {
            match kind {
                ObjectKind::Tree => parse_tree(content.as_slice()),
                _ => Err(XitError::WrongObjectKind),
            }
        },
    }
}

/// A tree that was stored can be read: after plain entries with names were
/// stored as a tree, the store holds under the address of the tree those
/// entries in sorted order, each with the kind that its mode marks.
///
/// This holds wherever the encoded bytes of the tree survive compression,
/// and the store did not already hold other bytes under its address.
pub proof fn lemma_stored_tree_round_trip(
    objects: Map<Seq<char>, Seq<u8>>,
    entries: Seq<TreeEntryView>,
)
    requires
        forall|i: int| 0 <= i < entries.len() ==> entry_plain(#[trigger] entries[i]),
        entries_ok(entries),
        survives_compression(
            encoded_object(ObjectKind::Tree, tree_payload(sorted_by_name(entries))),
        ),
        free_or_same(
            objects,
            object_address(ObjectKind::Tree, tree_payload(sorted_by_name(entries))),
            encoded_object(ObjectKind::Tree, tree_payload(sorted_by_name(entries))),
        ),
    ensures
        tree_written(objects, entries).0 is Ok,
        tree_at(tree_written(objects, entries).1, tree_written(objects, entries).0->Ok_0) == Ok::<
            _,
            XitError,
        >(sorted_by_name(entries).map_values(|e: TreeEntryView| read_back(e))),
{
    let payload = tree_payload(sorted_by_name(entries));
    lemma_read_after_write(objects, ObjectKind::Tree, payload);
    lemma_tree_round_trip(entries);
}

/// The path of an entry named `name` in the directory `prefix`.
pub open spec fn joined(prefix: Seq<char>, name: Seq<char>) -> Seq<char> {
    if prefix.len() == 0 {
        name
    } else {
        prefix + seq!['/'] + name
    }
}

/// The path of an entry named `name` in the directory `prefix`.
pub fn join_path(prefix: &str, name: &str) -> (path: String)
    ensures
        path@ == joined(prefix@, name@),
{
    if prefix.is_empty() {
        name.to_owned()
    } else {
        let mut path = prefix.to_owned();
        push_char(&mut path, '/');
        path.append(name);
        path
    }
}

/// The files gathered from the entries of one tree, from entry `i` on, added
/// to `files`. An entry for a file adds its path with its address in
/// hexadecimal; any other entry adds the files of the tree that it points
/// at. A later path replaces an equal earlier one.
pub open spec fn flattened_entries(
    objects: Map<Seq<char>, Seq<u8>>,
    entries: Seq<TreeEntryView>,
    i: int,
    prefix: Seq<char>,
    files: Map<Seq<char>, Seq<char>>,
    depth: nat,
) -> Result<Map<Seq<char>, Seq<char>>, XitError>
    decreases depth, 1 + entries.len() - i,
{
    if i < 0 || i >= entries.len() {
        Ok(files)
    } else {
        let entry = entries[i];
        let path = joined(prefix, entry.name);
        let address = hex_chars(entry.hash);
        if entry.kind == ObjectKind::Blob {
            flattened_entries(objects, entries, i + 1, prefix, files.insert(path, address), depth)
        } else {
            match flattened_tree(objects, address, path, files, depth) {
                Ok(more) => flattened_entries(objects, entries, i + 1, prefix, more, depth),
                Err(e) => Err(e),
            }
        }
    }
}

/// The files under the tree stored at `address`, each path below `prefix`,
/// added to `files`. `depth` is the number of levels that may still be
/// entered; where none is left the tree is corrupt.
pub open spec fn flattened_tree(
    objects: Map<Seq<char>, Seq<u8>>,
    address: Seq<char>,
    prefix: Seq<char>,
    files: Map<Seq<char>, Seq<char>>,
    depth: nat,
) -> Result<Map<Seq<char>, Seq<char>>, XitError>
    decreases depth, 0nat,
{
    if depth == 0 {
        Err(XitError::CorruptTree)
    } else {
        match tree_at(objects, address) {
            Ok(entries) => flattened_entries(
                objects,
                entries,
                0,
                prefix,
                files,
                (depth - 1) as nat,
            ),
            Err(e) => Err(e),
        }
    }
}

/// The path and the address in hexadecimal that each entry stands for below
/// `prefix`.
pub open spec fn listed_files(entries: Seq<TreeEntryView>, prefix: Seq<char>) -> Seq<
    (Seq<char>, Seq<char>),
> {
    entries.map_values(|e: TreeEntryView| (joined(prefix, e.name), hex_chars(e.hash)))
}

/// A tree that holds only files flattens to those files: each entry adds its
/// path and its address, in the order of the entries.
pub proof fn lemma_flatten_files_only(
    objects: Map<Seq<char>, Seq<u8>>,
    entries: Seq<TreeEntryView>,
    i: int,
    prefix: Seq<char>,
    files: Map<Seq<char>, Seq<char>>,
    depth: nat,
)
    requires
        0 <= i,
        forall|j: int| 0 <= j < entries.len() ==> (#[trigger] entries[j]).kind == ObjectKind::Blob,
    ensures
        flattened_entries(objects, entries, i, prefix, files, depth) == Ok::<_, XitError>(
            overlaid(files, listed_files(entries, prefix), i),
        ),
    decreases entries.len() - i,
{
    if i < entries.len() {
        let entry = entries[i];
        lemma_flatten_files_only(
            objects,
            entries,
            i + 1,
            prefix,
            files.insert(joined(prefix, entry.name), hex_chars(entry.hash)),
            depth,
        );
    }
}

/// Entries that are files with names of their own: each is plain, has a name
/// and a mode that marks a file, and no two have the same name.
pub open spec fn files_with_own_names(entries: Seq<TreeEntryView>) -> bool {
    &&& forall|i: int|
        0 <= i < entries.len() ==> {
            &&& entry_plain(#[trigger] entries[i])
            &&& entries[i].name.len() > 0
            &&& is_file_mode(encode_utf8(entries[i].mode))
        }
    &&& forall|i: int, j: int|
        0 <= i < entries.len() && 0 <= j < entries.len() && i != j ==> (#[trigger] entries[i]).name
            != (#[trigger] entries[j]).name
}

/// Sorting files with names of their own gives files whose names ascend
/// strictly, each of them one of those given.
proof fn lemma_sorted_own_names(entries: Seq<TreeEntryView>)
    requires
        files_with_own_names(entries),
    ensures
        names_ascend_strictly(sorted_by_name(entries)),
        sorted_by_name(entries).len() == entries.len(),
        forall|a: int|
            0 <= a < entries.len() ==> entries.contains(#[trigger] sorted_by_name(entries)[a]),
        forall|i: int|
            0 <= i < entries.len() ==> sorted_by_name(entries).contains(#[trigger] entries[i]),
{
    broadcast use vstd::seq_lib::to_multiset_contains;

    let sorted = sorted_by_name(entries);
    lemma_sorted_by_name(entries);
    assert(entries.no_duplicates()) by {
        assert forall|i: int, j: int|
            0 <= i < entries.len() && 0 <= j < entries.len() && i != j implies entries[i]
            != entries[j] by {
            assert(entries[i].name != entries[j].name);
        }
    }
    entries.lemma_multiset_has_no_duplicates();
    sorted.lemma_multiset_has_no_duplicates_conv();
    assert forall|a: int| 0 <= a < sorted.len() implies entries.contains(#[trigger] sorted[a]) by {
        assert(sorted.contains(sorted[a]));
        assert(entries.to_multiset().count(sorted[a]) > 0);
    }
    assert forall|i: int| 0 <= i < entries.len() implies sorted.contains(#[trigger] entries[i]) by {
        assert(entries.contains(entries[i]));
        assert(sorted.to_multiset().count(entries[i]) > 0);
    }
    assert forall|a: int, b: int| 0 <= a < b < sorted.len() implies text_lt(
        #[trigger] sorted[a].name,
        #[trigger] sorted[b].name,
    ) by {
        assert(entries.contains(sorted[a]));
        assert(entries.contains(sorted[b]));
        let i = choose|i: int| 0 <= i < entries.len() && entries[i] == sorted[a];
        let j = choose|j: int| 0 <= j < entries.len() && entries[j] == sorted[b];
        if i == j {
            assert(sorted[a] == sorted[b]);
        }
        assert(sorted[a].name != sorted[b].name);
        lemma_text_total(sorted[a].name, sorted[b].name);
    }
}

/// A tree of files lists its files: after files with names of their own were
/// stored as a tree, the files under that tree are those files. There are as
/// many paths as entries were given, and each name given is a path that
/// stands for the address given with it, in hexadecimal.
///
/// This holds wherever the encoded bytes of the tree survive compression,
/// and the store did not already hold other bytes under its address.
pub proof fn lemma_stored_tree_lists_files(
    objects: Map<Seq<char>, Seq<u8>>,
    entries: Seq<TreeEntryView>,
)
    requires
        files_with_own_names(entries),
        survives_compression(
            encoded_object(ObjectKind::Tree, tree_payload(sorted_by_name(entries))),
        ),
        free_or_same(
            objects,
            object_address(ObjectKind::Tree, tree_payload(sorted_by_name(entries))),
            encoded_object(ObjectKind::Tree, tree_payload(sorted_by_name(entries))),
        ),
    ensures
        tree_written(objects, entries).0 is Ok,
        files_in_tree(tree_written(objects, entries).1, tree_written(objects, entries).0->Ok_0)
            is Ok,
        ({
            let files = files_in_tree(
                tree_written(objects, entries).1,
                tree_written(objects, entries).0->Ok_0,
            )->Ok_0;
            &&& files.dom().finite()
            &&& files.dom().len() == entries.len()
            &&& forall|i: int|
                0 <= i < entries.len() ==> files.contains_key((#[trigger] entries[i]).name)
                    && files[entries[i].name] == hex_chars(entries[i].hash)
        }),
{
    let sorted = sorted_by_name(entries);
    let after = tree_written(objects, entries).1;
    lemma_sorted_own_names(entries);
    assert(entries_ok(entries));
    lemma_stored_tree_round_trip(objects, entries);
    let address = tree_written(objects, entries).0->Ok_0;
    let read = sorted.map_values(|e: TreeEntryView| read_back(e));
    assert forall|a: int| 0 <= a < read.len() implies (#[trigger] read[a]).kind
        == ObjectKind::Blob by {
        assert(entries.contains(sorted[a]));
        let i = choose|i: int| 0 <= i < entries.len() && entries[i] == sorted[a];
        assert(is_file_mode(encode_utf8(entries[i].mode)));
    }
    lemma_flatten_files_only(
        after,
        read,
        0,
        Seq::empty(),
        Map::empty(),
        MAX_TREE_DEPTH as nat,
    );
    let listed = listed_files(read, Seq::empty());
    assert forall|a: int| 0 <= a < listed.len() implies (#[trigger] listed[a]) == (
        sorted[a].name,
        hex_chars(sorted[a].hash),
    ) by {
        assert(read[a] == read_back(sorted[a]));
        assert(joined(Seq::empty(), sorted[a].name) == sorted[a].name);
    }
    assert(ascending(listed)) by {
        assert forall|a: int, b: int| 0 <= a < b < listed.len() implies text_lt(
            #[trigger] listed[a].0,
            #[trigger] listed[b].0,
        ) by {
            assert(listed[a].0 == sorted[a].name && listed[b].0 == sorted[b].name);
        }
    }
    assert(listed.take(0) =~= Seq::<(Seq<char>, Seq<char>)>::empty());
    assert(map_of(listed.take(0)) =~= Map::<Seq<char>, Seq<char>>::empty());
    lemma_overlaid(Map::empty(), listed, 0);
    let files = map_of(listed);
    assert(files_in_tree(after, address) == Ok::<_, XitError>(files));
    lemma_map_of_len(listed);
    assert forall|i: int| 0 <= i < entries.len() implies files.contains_key(
        (#[trigger] entries[i]).name,
    ) && files[entries[i].name] == hex_chars(entries[i].hash) by {
        assert(sorted.contains(entries[i]));
        let a = choose|a: int| 0 <= a < sorted.len() && sorted[a] == entries[i];
        lemma_map_of_entry(listed, a);
        assert(listed[a] == (sorted[a].name, hex_chars(sorted[a].hash)));
    }
}

/// The text of a commit names its tree on its first line.
pub proof fn lemma_commit_names_tree(
    tree: Seq<char>,
    parent: Option<Seq<char>>,
    author: Seq<char>,
    committer: Seq<char>,
    message: Seq<char>,
)
    requires
        is_address(tree),
    ensures
        tree_of_lines(
            lines(commit_text(tree, parent, author, committer, message)),
            0,
        ) == Some(tree),
{
    let text = commit_text(tree, parent, author, committer, message);
    reveal_strlit("tree ");
    assert("tree "@ =~= tree_word());
    let first = tree_word() + tree;
    assert(text.len() > 45);
    assert forall|j: int| 0 <= j < 45 implies text[j] != '\n' by {
        if j >= 5 {
            assert(text[j] == tree[j - 5]);
            assert(hex_value(tree[j - 5]) is Some);
        } else {
            assert(text[j] == tree_word()[j]);
        }
    }
    assert(text[45] == '\n');
    lemma_find_from(text, 0, '\n', 45);
    assert(text.subrange(0, 45) =~= first);
    assert(first.last() == tree[39]);
    assert(hex_value(tree[39]) is Some);
    assert(without_cr(first) == first);
    assert(lines(text)[0] == first);
    assert(tree_word().is_prefix_of(first));
    assert(first.skip(5) =~= tree);
}

/// A commit that was stored names its tree: the store gives, for the address
/// of the commit, the address of the tree that the commit was made with.
///
/// This holds wherever the encoded bytes of the commit survive compression,
/// and the store did not already hold other bytes under its address.
pub proof fn lemma_stored_commit_names_tree(
    objects: Map<Seq<char>, Seq<u8>>,
    tree: Seq<char>,
    parent: Option<Seq<char>>,
    author: Seq<char>,
    committer: Seq<char>,
    message: Seq<char>,
)
    requires
        is_address(tree),
        commit_written(
            objects,
            tree,
            parent,
            author,
            committer,
            message,
        ).0 is Ok,
        survives_compression(
            encoded_object(
                ObjectKind::Commit,
                encode_utf8(commit_text(tree, parent, author, committer, message)),
            ),
        ),
        free_or_same(
            objects,
            object_address(
                ObjectKind::Commit,
                encode_utf8(commit_text(tree, parent, author, committer, message)),
            ),
            encoded_object(
                ObjectKind::Commit,
                encode_utf8(commit_text(tree, parent, author, committer, message)),
            ),
        ),
    ensures
        commit_tree(
            commit_written(
                objects,
                tree,
                parent,
                author,
                committer,
                message,
            ).1,
            commit_written(
                objects,
                tree,
                parent,
                author,
                committer,
                message,
            ).0->Ok_0,
        ) == Ok::<_, XitError>(tree),
{
    let text = commit_text(tree, parent, author, committer, message);
    lemma_read_after_write(
        objects,
        ObjectKind::Commit,
        encode_utf8(text),
    );
    vstd::utf8::encode_utf8_valid_utf8(text);
    vstd::utf8::encode_utf8_decode_utf8(text);
    lemma_commit_names_tree(tree, parent, author, committer, message);
}

/// The files under a tree: from each path to the address of its blob.
pub open spec fn files_in_tree(objects: Map<Seq<char>, Seq<u8>>, address: Seq<char>) -> Result<
    Map<Seq<char>, Seq<char>>,
    XitError,
> {
    flattened_tree(objects, address, Seq::empty(), Map::empty(), (MAX_TREE_DEPTH + 1) as nat)
}

/// Adds the files under the tree at `tree_hash` to `files`, each path below
/// `current_path`. `depth` is the number of levels that may still be entered.
pub fn list_files_recursive(
    store: &ObjectStore,
    tree_hash: &str,
    current_path: &str,
    files: PathMap,
    depth: usize,
) -> (r: Result<PathMap, XitError>)
    requires
        files.wf(),
    ensures
        match r {
            Ok(all) => all.wf() && flattened_tree(
                store@,
                tree_hash@,
                current_path@,
                files@,
                depth as nat,
            ) == Ok::<_, XitError>(all@),
            Err(e) => flattened_tree(store@, tree_hash@, current_path@, files@, depth as nat)
                == Err::<Map<Seq<char>, Seq<char>>, _>(e),
        },
    decreases depth,
{
    if depth == 0 {
        return Err(XitError::CorruptTree);
    }
    let entries = match read_tree(store, tree_hash) {
        Ok(entries) => entries,
        Err(e) => {
            return Err(e);
        },
    };
    let ghost listed = entry_views(entries@);
    let mut found = files;
    let mut i: usize = 0;
    while i < entries.len()
        invariant
            i <= entries.len(),
            found.wf(),
            depth > 0,
            listed == entry_views(entries@),
            flattened_tree(store@, tree_hash@, current_path@, files@, depth as nat)
                == flattened_entries(
                store@,
                listed,
                i as int,
                current_path@,
                found@,
                (depth - 1) as nat,
            ),
        decreases entries.len() - i,
    {
        let entry = &entries[i];
        proof {
            assert(listed[i as int] == entry@);
        }
        let path = join_path(current_path, entry.name.as_str());
        let address = hex_encode(entry.hash.as_slice());
        match entry.obj_type {
            ObjectKind::Blob => {
                found.insert(path, address);
            },
            _ => {
                match list_files_recursive(store, address.as_str(), path.as_str(), found, depth - 1) {
                    Ok(more) => {
                        found = more;
                    },
                    Err(e) => {
                        return Err(e);
                    },
                }
            },
        }
        i += 1;
    }
    Ok(found)
}

/// The files under the tree at `tree_hash`: from each path, its names joined
/// by `/`, to the address of its blob in hexadecimal.
///
/// Fails as `read_tree` does for the tree and for every tree below it, and
/// with `CorruptTree` where trees nest deeper than `MAX_TREE_DEPTH` below the
/// first.
pub fn list_files_in_tree(store: &ObjectStore, tree_hash: &str) -> (r: Result<PathMap, XitError>)
    ensures
        match r {
            Ok(files) => files.wf() && files_in_tree(store@, tree_hash@) == Ok::<_, XitError>(
                files@,
            ),
            Err(e) => files_in_tree(store@, tree_hash@) == Err::<Map<Seq<char>, Seq<char>>, _>(e),
        },
{
    let r = list_files_recursive(store, tree_hash, "", PathMap::new(), MAX_TREE_DEPTH + 1);
    proof {
        reveal_strlit("");
        assert(""@ =~= Seq::<char>::empty());
    }
    r
}

/// The five characters with which the line that names the tree begins.
pub open spec fn tree_word() -> Seq<char> {
    seq!['t', 'r', 'e', 'e', ' ']
}

/// What follows `tree ` on the first line from `from` on that begins with it.
pub open spec fn tree_of_lines(lines: Seq<Seq<char>>, from: int) -> Option<Seq<char>>
    decreases lines.len() - from,
{
    if from < 0 || from >= lines.len() {
        None
    } else if tree_word().is_prefix_of(lines[from]) {
        Some(lines[from].skip(5))
    } else {
        tree_of_lines(lines, from + 1)
    }
}

/// The address of the tree that the commit stored under an address names.
pub open spec fn commit_tree(objects: Map<Seq<char>, Seq<u8>>, address: Seq<char>) -> Result<
    Seq<char>,
    XitError,
> {
    match object_at(objects, address) {
        Err(e) => Err(e),
        Ok((kind, content)) => if kind != ObjectKind::Commit {
            Err(XitError::WrongObjectKind)
        } else {
            match tree_of_lines(lines(text_of(content)), 0) {
                Some(tree) => Ok(tree),
                None => Err(XitError::CorruptObject),
            }
        },
    }
}

/// The address of the tree of the commit stored under `commit_hash`: what
/// follows `tree ` on the first line of the commit that begins with it.
///
/// Fails as `read_object` does; with `WrongObjectKind` where the object is no
/// commit; and with `CorruptObject` where no line begins with `tree `.
pub fn get_commit_tree_hash(store: &ObjectStore, commit_hash: &str) -> (r: Result<String, XitError>)
    ensures
        match r {
            Ok(tree) => commit_tree(store@, commit_hash@) == Ok::<_, XitError>(tree@),
            Err(e) => commit_tree(store@, commit_hash@) == Err::<Seq<char>, _>(e),
        },
{
    let content = match read_object(store, commit_hash) {
        Err(e) => {
            return Err(e);
        },
        Ok((kind, content)) => {
            match kind {
                ObjectKind::Commit => content,
                _ => {
                    return Err(XitError::WrongObjectKind);
                },
            }
        },
    };
    let text = lossy_text(content.as_slice());
    let chars = chars_of(text.as_str());
    let all = split_lines(chars.as_slice());
    let word: [char; 5] = ['t', 'r', 'e', 'e', ' '];
    proof {
        assert(word@ =~= tree_word());
    }
    let mut i: usize = 0;
    while i < all.len()
        invariant
            i <= all.len(),
            word@ == tree_word(),
            object_at(store@, commit_hash@) == Ok::<_, XitError>((ObjectKind::Commit, content@)),
            views(all@) == lines(text_of(content@)),
            tree_of_lines(views(all@), 0) == tree_of_lines(views(all@), i as int),
        decreases all.len() - i,
    {
        let line = all[i].as_slice();
        proof {
            assert(views(all@)[i as int] == line@);
        }
        if starts_with(line, word.as_slice()) {
            let tree = string_of(slice_subrange(line, 5, line.len()));
            proof {
                assert(line@.subrange(5, line@.len() as int) =~= line@.skip(5));
            }
            return Ok(tree);
        }
        i += 1;
    }
    Err(XitError::CorruptObject)
}

} // verus!
