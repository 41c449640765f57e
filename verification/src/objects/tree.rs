//! Trees: named entries that point at blobs and other trees, and their
//! canonical byte form.

use crate::error::XitError;
use crate::hexcode::is_address;
use crate::objects::store::{address_view, write_object, written, ObjectKind, ObjectStore};
use crate::scan::{lemma_lex_irreflexive, lemma_lex_transitive};
use crate::text::{lemma_text_total, str_lt, text_lt};
use vstd::prelude::*;
use vstd::seq_lib::to_multiset_insert;
use vstd::slice::slice_to_vec;
use vstd::utf8::encode_utf8;

verus! {

/// One entry of a tree.
#[derive(Debug)]
pub struct TreeEntry {
    /// The permission string; one that begins with `100` marks a file.
    pub mode: String,
    /// Whether the entry points at a blob or at a tree.
    pub obj_type: ObjectKind,
    /// The address of what the entry points at, as raw bytes.
    pub hash: Vec<u8>,
    /// The name of the entry.
    pub name: String,
}

/// A tree entry as plain values.
pub struct TreeEntryView {
    pub mode: Seq<char>,
    pub kind: ObjectKind,
    pub hash: Seq<u8>,
    pub name: Seq<char>,
}

impl View for TreeEntry {
    type V = TreeEntryView;

    open spec fn view(&self) -> TreeEntryView {
        TreeEntryView { mode: self.mode@, kind: self.obj_type, hash: self.hash@, name: self.name@ }
    }
}

/// The entries that the vector holds.
pub open spec fn entry_views(entries: Seq<TreeEntry>) -> Seq<TreeEntryView> {
    entries.map_values(|e: TreeEntry| e@)
}

/// An entry for a blob.
pub fn create_blob_entry(mode: &str, hash: &[u8; 20], name: &str) -> (entry: TreeEntry)
    ensures
        entry@ == (TreeEntryView {
            mode: mode@,
            kind: ObjectKind::Blob,
            hash: hash@,
            name: name@,
        }),
{
    TreeEntry {
        mode: mode.to_owned(),
        obj_type: ObjectKind::Blob,
        hash: slice_to_vec(hash.as_slice()),
        name: name.to_owned(),
    }
}

/// An entry for a tree.
pub fn create_tree_entry(mode: &str, hash: &[u8; 20], name: &str) -> (entry: TreeEntry)
    ensures
        entry@ == (TreeEntryView {
            mode: mode@,
            kind: ObjectKind::Tree,
            hash: hash@,
            name: name@,
        }),
{
    TreeEntry {
        mode: mode.to_owned(),
        obj_type: ObjectKind::Tree,
        hash: slice_to_vec(hash.as_slice()),
        name: name.to_owned(),
    }
}

/// The number of entries from `from` on whose names come before that of `e`,
/// counted up to the first that does not, added to `from`.
pub open spec fn place_index(sorted: Seq<TreeEntryView>, e: TreeEntryView, from: int) -> int
    decreases sorted.len() - from,
{
    if from < 0 || from >= sorted.len() || !text_lt(sorted[from].name, e.name) {
        from
    } else {
        place_index(sorted, e, from + 1)
    }
}

/// The entries in ascending byte-wise order of their names; entries with the
/// same name keep the order in which they came.
pub open spec fn sorted_by_name(entries: Seq<TreeEntryView>) -> Seq<TreeEntryView>
    decreases entries.len(),
{
    if entries.len() == 0 {
        Seq::empty()
    } else {
        let rest = sorted_by_name(entries.drop_first());
        rest.insert(place_index(rest, entries.first(), 0), entries.first())
    }
}

/// No entry has a name that comes before the name of an earlier entry.
pub open spec fn names_ascend(entries: Seq<TreeEntryView>) -> bool {
    forall|a: int, b: int|
        0 <= a < b < entries.len() ==> !text_lt(#[trigger] entries[b].name, #[trigger] entries[a].name)
}

/// Where `place_index` stops: within the bounds, after names that come before
/// that of `e`, and before one that does not.
pub proof fn lemma_place_index(sorted: Seq<TreeEntryView>, e: TreeEntryView, from: int)
    requires
        0 <= from <= sorted.len(),
    ensures
        from <= place_index(sorted, e, from) <= sorted.len(),
        forall|j: int| from <= j < place_index(sorted, e, from) ==> text_lt(sorted[j].name, e.name),
        place_index(sorted, e, from) < sorted.len() ==> !text_lt(
            sorted[place_index(sorted, e, from)].name,
            e.name,
        ),
    decreases sorted.len() - from,
{
    if from < sorted.len() && text_lt(sorted[from].name, e.name) {
        lemma_place_index(sorted, e, from + 1);
    }
}

/// Sorting keeps every entry, each as often as it occurred, and the result
/// ascends by name.
pub proof fn lemma_sorted_by_name(entries: Seq<TreeEntryView>)
    ensures
        sorted_by_name(entries).len() == entries.len(),
        sorted_by_name(entries).to_multiset() == entries.to_multiset(),
        names_ascend(sorted_by_name(entries)),
    decreases entries.len(),
{
    broadcast use to_multiset_insert;

    if entries.len() == 0 {
        assert(entries =~= Seq::<TreeEntryView>::empty());
    } else {
        let e = entries.first();
        let rest = sorted_by_name(entries.drop_first());
        lemma_sorted_by_name(entries.drop_first());
        lemma_place_index(rest, e, 0);
        let p = place_index(rest, e, 0);
        let out = rest.insert(p, e);
        assert(entries =~= entries.drop_first().insert(0, e));
        assert(out.to_multiset() =~= entries.to_multiset());
        assert forall|a: int, b: int| 0 <= a < b < out.len() implies !text_lt(
            #[trigger] out[b].name,
            #[trigger] out[a].name,
        ) by {
            if b < p {
                assert(out[a] == rest[a] && out[b] == rest[b]);
            } else if b == p {
                // out[a] comes before e, so e does not come before out[a]
                assert(out[a] == rest[a]);
                if text_lt(e.name, rest[a].name) {
                    lemma_lex_transitive(
                        encode_utf8(e.name),
                        encode_utf8(rest[a].name),
                        encode_utf8(e.name),
                    );
                    lemma_lex_irreflexive(encode_utf8(e.name));
                }
            } else {
                assert(out[b] == rest[b - 1]);
                if a < p {
                    assert(out[a] == rest[a]);
                } else if a == p {
                    // rest[p] does not come before e, and rest[b - 1] not before rest[p]
                    if text_lt(rest[b - 1].name, e.name) {
                        lemma_text_total(rest[p].name, e.name);
                        if rest[p].name == e.name {
                            assert(b - 1 > p);
                        } else {
                            lemma_lex_transitive(
                                encode_utf8(rest[b - 1].name),
                                encode_utf8(e.name),
                                encode_utf8(rest[p].name),
                            );
                            assert(b - 1 > p) by {
                                lemma_lex_irreflexive(encode_utf8(rest[p].name));
                            }
                        }
                    }
                } else {
                    assert(out[a] == rest[a - 1]);
                }
            }
        }
    }
}

/// The names ascend strictly: each comes before every later one.
pub open spec fn names_ascend_strictly(entries: Seq<TreeEntryView>) -> bool {
    forall|a: int, b: int|
        0 <= a < b < entries.len() ==> text_lt(#[trigger] entries[a].name, #[trigger] entries[b].name)
}

/// Sorting leaves entries as they are where their names ascend strictly.
pub proof fn lemma_sorted_already(entries: Seq<TreeEntryView>)
    requires
        names_ascend_strictly(entries),
    ensures
        sorted_by_name(entries) == entries,
    decreases entries.len(),
{
    if entries.len() == 0 {
        assert(entries =~= Seq::<TreeEntryView>::empty());
    } else {
        let first = entries.first();
        let rest = entries.drop_first();
        assert(names_ascend_strictly(rest)) by {
            assert forall|a: int, b: int| 0 <= a < b < rest.len() implies text_lt(
                #[trigger] rest[a].name,
                #[trigger] rest[b].name,
            ) by {
                assert(rest[a] == entries[a + 1] && rest[b] == entries[b + 1]);
            }
        }
        lemma_sorted_already(rest);
        if rest.len() > 0 {
            assert(rest[0] == entries[1]);
            assert(text_lt(entries[0].name, entries[1].name));
            if text_lt(rest[0].name, first.name) {
                lemma_lex_transitive(
                    encode_utf8(first.name),
                    encode_utf8(rest[0].name),
                    encode_utf8(first.name),
                );
                lemma_lex_irreflexive(encode_utf8(first.name));
            }
        }
        assert(place_index(rest, first, 0) == 0);
        assert(rest.insert(0, first) =~= entries);
    }
}

/// The bytes of one entry: mode, a space, name, a NUL, and the address.
pub open spec fn entry_bytes(e: TreeEntryView) -> Seq<u8> {
    encode_utf8(e.mode) + seq![32u8] + encode_utf8(e.name) + seq![0u8] + e.hash
}

/// The bytes of the entries one after another.
pub open spec fn tree_payload(entries: Seq<TreeEntryView>) -> Seq<u8>
    decreases entries.len(),
{
    if entries.len() == 0 {
        Seq::empty()
    } else {
        tree_payload(entries.drop_last()) + entry_bytes(entries.last())
    }
}

/// An entry that a tree can hold: an address of twenty bytes and a name that
/// is not empty.
pub open spec fn entry_ok(e: TreeEntryView) -> bool {
    e.hash.len() == 20 && e.name.len() > 0
}

/// Every entry can be held by a tree.
pub open spec fn entries_ok(entries: Seq<TreeEntryView>) -> bool {
    forall|i: int| 0 <= i < entries.len() ==> entry_ok(#[trigger] entries[i])
}

/// The entries in ascending byte-wise order of their names; entries with the
/// same name keep the order in which they came.
pub fn sort_entries(entries: Vec<TreeEntry>) -> (sorted: Vec<TreeEntry>)
    ensures
        entry_views(sorted@) == sorted_by_name(entry_views(entries@)),
{
    let ghost all = entry_views(entries@);
    let mut rest = entries;
    let mut sorted: Vec<TreeEntry> = Vec::new();
    proof {
        assert(all.skip(all.len() as int) =~= Seq::<TreeEntryView>::empty());
        assert(entry_views(sorted@) =~= Seq::<TreeEntryView>::empty());
    }
    while rest.len() > 0
        invariant
            rest@.len() <= all.len(),
            entry_views(rest@) == all.take(rest@.len() as int),
            entry_views(sorted@) == sorted_by_name(all.skip(rest@.len() as int)),
        decreases rest.len(),
    {
        let ghost k = rest@.len() as int;
        let ghost before = entry_views(sorted@);
        let ghost held = rest@;
        let e = rest.pop().unwrap();
        proof {
            assert(entry_views(rest@) =~= all.take(k - 1));
            assert(e@ == all[k - 1]) by {
                assert(entry_views(held)[k - 1] == held[k - 1]@);
                assert(all.take(k)[k - 1] == all[k - 1]);
            }
        }
        let mut p: usize = 0;
        while p < sorted.len() && str_lt(sorted[p].name.as_str(), e.name.as_str())
            invariant
                p <= sorted.len(),
                entry_views(sorted@) == before,
                place_index(before, e@, 0) == place_index(before, e@, p as int),
            decreases sorted.len() - p,
        {
            proof {
                assert(before[p as int] == sorted@[p as int]@);
            }
            p += 1;
        }
        proof {
            if p < sorted.len() {
                assert(before[p as int] == sorted@[p as int]@);
            }
            assert(place_index(before, e@, 0) == p);
            assert(all.skip(k - 1).drop_first() =~= all.skip(k));
            assert(all.skip(k - 1).first() == e@);
        }
        let ghost ev = e@;
        sorted.insert(p, e);
        proof {
            assert(entry_views(sorted@) =~= before.insert(p as int, ev));
        }
    }
    proof {
        assert(all.skip(0) =~= all);
    }
    sorted
}

/// The canonical bytes of a tree: its entries sorted by name and written one
/// after another. Fails with `InputValidation` exactly where some entry has
/// an address that is not twenty bytes long or an empty name.
pub fn encode_tree(entries: Vec<TreeEntry>) -> (r: Result<Vec<u8>, XitError>)
    ensures
        match r {
            Ok(payload) => entries_ok(entry_views(entries@)) && payload@ == tree_payload(
                sorted_by_name(entry_views(entries@)),
            ),
            Err(e) => e == XitError::InputValidation && !entries_ok(entry_views(entries@)),
        },
{
    let ghost given = entry_views(entries@);
    let sorted = sort_entries(entries);
    let ghost views = entry_views(sorted@);
    let mut payload: Vec<u8> = Vec::new();
    let mut i: usize = 0;
    while i < sorted.len()
        invariant
            i <= sorted.len(),
            views == entry_views(sorted@),
            views == sorted_by_name(given),
            given == entry_views(entries@),
            entries_ok(views.take(i as int)),
            payload@ == tree_payload(views.take(i as int)),
        decreases sorted.len() - i,
    {
        let entry = &sorted[i];
        proof {
            assert(views[i as int] == entry@);
        }
        if entry.hash.len() != 20 || entry.name.as_str().is_empty() {
            proof {
                lemma_entries_ok_permuted(given, views, i as int);
            }
            return Err(XitError::InputValidation);
        }
        payload.extend_from_slice(entry.mode.as_str().as_bytes());
        payload.push(32);
        payload.extend_from_slice(entry.name.as_str().as_bytes());
        payload.push(0);
        payload.extend_from_slice(entry.hash.as_slice());
        proof {
            assert(views.take(i + 1).drop_last() =~= views.take(i as int));
            assert(payload@ =~= tree_payload(views.take(i as int)) + entry_bytes(views[i as int]));
        }
        i += 1;
    }
    proof {
        assert(views.take(i as int) =~= views);
        lemma_entries_ok_sorted(given);
    }
    Ok(payload)
}

/// Where the sorted entries hold one that a tree cannot hold, so do the
/// entries as they came.
proof fn lemma_entries_ok_permuted(given: Seq<TreeEntryView>, sorted: Seq<TreeEntryView>, i: int)
    requires
        sorted == sorted_by_name(given),
        0 <= i < sorted.len(),
        !entry_ok(sorted[i]),
    ensures
        !entries_ok(given),
{
    lemma_sorted_by_name(given);
    broadcast use vstd::seq_lib::to_multiset_contains;

    assert(sorted.contains(sorted[i]));
    assert(given.to_multiset().count(sorted[i]) > 0);
    assert(given.contains(sorted[i]));
}

/// Where the sorted entries can all be held by a tree, so can the entries as
/// they came.
proof fn lemma_entries_ok_sorted(given: Seq<TreeEntryView>)
    requires
        entries_ok(sorted_by_name(given)),
    ensures
        entries_ok(given),
{
    lemma_sorted_by_name(given);
    broadcast use vstd::seq_lib::to_multiset_contains;

    let sorted = sorted_by_name(given);
    assert forall|i: int| 0 <= i < given.len() implies entry_ok(#[trigger] given[i]) by {
        assert(given.contains(given[i]));
        assert(sorted.to_multiset().count(given[i]) > 0);
        assert(sorted.contains(given[i]));
    }
}

/// What storing the entries as a tree comes to: the result, and the objects
/// afterwards. Where some entry cannot be held by a tree, the result is
/// `InputValidation` and the store is as it was; otherwise the outcome is
/// that of storing the canonical bytes of the sorted entries as a tree.
pub open spec fn tree_written(before: Map<Seq<char>, Seq<u8>>, entries: Seq<TreeEntryView>) -> (
    Result<Seq<char>, XitError>,
    Map<Seq<char>, Seq<u8>>,
) {
    if entries_ok(entries) {
        written(before, ObjectKind::Tree, tree_payload(sorted_by_name(entries)))
    } else {
        (Err(XitError::InputValidation), before)
    }
}

/// Stores the entries as a tree and returns its address.
///
/// The entries are sorted by name, byte-wise ascending, and written as
/// `mode`, a space, `name`, a NUL and the twenty address bytes each. Fails
/// with `InputValidation`, before anything is stored, where some entry has an
/// address that is not twenty bytes long or an empty name; and with `Io`
/// exactly where the compressor reports an error.
pub fn create_tree(store: &mut ObjectStore, entries: Vec<TreeEntry>) -> (r: Result<
    String,
    XitError,
>)
    requires
        old(store).wf(),
    ensures
        final(store).wf(),
        (address_view(r), final(store)@) == tree_written(old(store)@, entry_views(entries@)),
        r matches Ok(address) ==> is_address(address@),
{
    match encode_tree(entries) {
        Ok(payload) => write_object(store, ObjectKind::Tree, payload.as_slice()),
        Err(e) => Err(e),
    }
}

} // verus!
