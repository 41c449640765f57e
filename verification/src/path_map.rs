//! A map from text to text that keeps its entries in ascending byte-wise order
//! of their keys, and a set of texts built on it.
//!
//! The order is part of the value: two maps with the same contents hold the
//! same entries in the same order, so whatever is written out from one comes
//! out the same every time.

use crate::scan::{lemma_lex_irreflexive, lemma_lex_transitive};
use crate::text::{lemma_text_total, str_eq, str_lt, text_lt};
use vstd::prelude::*;
use vstd::utf8::encode_utf8;

verus! {

/// One key with its value.
pub struct Entry {
    key: String,
    value: String,
}

/// A finite map from text to text, held in ascending order of the keys.
pub struct PathMap {
    items: Vec<Entry>,
}

/// The keys ascend strictly.
pub open spec fn ascending(entries: Seq<(Seq<char>, Seq<char>)>) -> bool {
    forall|a: int, b: int|
        0 <= a < b < entries.len() ==> text_lt(#[trigger] entries[a].0, #[trigger] entries[b].0)
}

/// Whether some entry has the key `k`.
pub open spec fn has_key(entries: Seq<(Seq<char>, Seq<char>)>, k: Seq<char>) -> bool {
    exists|i: int| 0 <= i < entries.len() && #[trigger] entries[i].0 == k
}

/// A position at which the key `k` stands.
pub open spec fn index_of_key(entries: Seq<(Seq<char>, Seq<char>)>, k: Seq<char>) -> int {
    choose|i: int| 0 <= i < entries.len() && #[trigger] entries[i].0 == k
}

/// The map that a sequence of entries stands for.
pub open spec fn map_of(entries: Seq<(Seq<char>, Seq<char>)>) -> Map<Seq<char>, Seq<char>> {
    Map::new(|k: Seq<char>| has_key(entries, k), |k: Seq<char>| entries[index_of_key(entries, k)].1)
}

/// Whether one of the first `i` entries has the key `k`.
pub open spec fn among(entries: Seq<(Seq<char>, Seq<char>)>, i: int, k: Seq<char>) -> bool {
    exists|j: int| 0 <= j < i && j < entries.len() && #[trigger] entries[j].0 == k
}

/// One more entry adds its key to those among the entries before it.
pub proof fn lemma_among_step(entries: Seq<(Seq<char>, Seq<char>)>, i: int, k: Seq<char>)
    requires
        0 <= i < entries.len(),
    ensures
        among(entries, i + 1, k) <==> (among(entries, i, k) || entries[i].0 == k),
{
    if among(entries, i + 1, k) {
        let j = choose|j: int| 0 <= j < i + 1 && j < entries.len() && #[trigger] entries[j].0 == k;
        if j < i {
            assert(among(entries, i, k));
        }
    }
    if among(entries, i, k) {
        let j = choose|j: int| 0 <= j < i && j < entries.len() && #[trigger] entries[j].0 == k;
        assert(0 <= j < i + 1 && entries[j].0 == k);
    }
    if entries[i].0 == k {
        assert(0 <= i < i + 1 && entries[i].0 == k);
    }
}

/// The keys among all the entries are the keys of the map, and none is among
/// no entries.
pub proof fn lemma_among_all(entries: Seq<(Seq<char>, Seq<char>)>, k: Seq<char>)
    ensures
        among(entries, entries.len() as int, k) <==> map_of(entries).contains_key(k),
        !among(entries, 0, k),
{
    if among(entries, entries.len() as int, k) {
        let j = choose|j: int|
            0 <= j < entries.len() && j < entries.len() && #[trigger] entries[j].0 == k;
        assert(has_key(entries, k));
    }
    if has_key(entries, k) {
        let j = choose|j: int| 0 <= j < entries.len() && #[trigger] entries[j].0 == k;
        assert(0 <= j < entries.len() && j < entries.len() && entries[j].0 == k);
    }
}

/// The map `files` after the entries from `i` on were put into it one after
/// another.
pub open spec fn overlaid(
    files: Map<Seq<char>, Seq<char>>,
    entries: Seq<(Seq<char>, Seq<char>)>,
    i: int,
) -> Map<Seq<char>, Seq<char>>
    decreases entries.len() - i,
{
    if i < 0 || i >= entries.len() {
        files
    } else {
        overlaid(files.insert(entries[i].0, entries[i].1), entries, i + 1)
    }
}

/// The map of the first `i` entries of an ascending sequence with the next
/// entry put into it is the map of the first `i + 1` entries.
pub proof fn lemma_map_of_next(entries: Seq<(Seq<char>, Seq<char>)>, i: int)
    requires
        ascending(entries),
        0 <= i < entries.len(),
    ensures
        map_of(entries.take(i)).insert(entries[i].0, entries[i].1) == map_of(entries.take(i + 1)),
{
    let before = entries.take(i);
    let upto = entries.take(i + 1);
    let next = map_of(before).insert(entries[i].0, entries[i].1);
    assert(ascending(upto));
    assert(ascending(before));
    assert forall|k: Seq<char>| next.contains_key(k) <==> has_key(upto, k) by {
        if has_key(before, k) {
            let j = choose|j: int| 0 <= j < before.len() && #[trigger] before[j].0 == k;
            assert(upto[j].0 == k);
        }
        if k == entries[i].0 {
            assert(upto[i].0 == k);
        }
        if has_key(upto, k) {
            let j = choose|j: int| 0 <= j < upto.len() && #[trigger] upto[j].0 == k;
            if j < i {
                assert(before[j].0 == k);
            }
        }
    }
    assert forall|k: Seq<char>| has_key(upto, k) implies next[k] == map_of(upto)[k] by {
        let j = choose|j: int| 0 <= j < upto.len() && #[trigger] upto[j].0 == k;
        lemma_map_of_entry(upto, j);
        if j < i {
            assert(before[j] == upto[j]);
            lemma_map_of_entry(before, j);
            if upto[j].0 == upto[i].0 {
                lemma_ascending_distinct(upto, j, i);
            }
        }
    }
    assert(next =~= map_of(upto));
}

/// Putting the rest of an ascending sequence into the map of its first `i`
/// entries gives the map of the whole sequence.
pub proof fn lemma_overlaid(
    files: Map<Seq<char>, Seq<char>>,
    entries: Seq<(Seq<char>, Seq<char>)>,
    i: int,
)
    requires
        ascending(entries),
        0 <= i <= entries.len(),
        files == map_of(entries.take(i)),
    ensures
        overlaid(files, entries, i) == map_of(entries),
    decreases entries.len() - i,
{
    if i == entries.len() {
        assert(entries.take(i) =~= entries);
    } else {
        lemma_map_of_next(entries, i);
        lemma_overlaid(files.insert(entries[i].0, entries[i].1), entries, i + 1);
    }
}

/// In an ascending sequence no key occurs twice.
pub proof fn lemma_ascending_distinct(entries: Seq<(Seq<char>, Seq<char>)>, a: int, b: int)
    requires
        ascending(entries),
        0 <= a < entries.len(),
        0 <= b < entries.len(),
        entries[a].0 == entries[b].0,
    ensures
        a == b,
{
    lemma_lex_irreflexive(encode_utf8(entries[a].0));
    if a < b {
        assert(text_lt(entries[a].0, entries[b].0));
    } else if b < a {
        assert(text_lt(entries[b].0, entries[a].0));
    }
}

/// Each entry of an ascending sequence is what the map holds for its key.
pub proof fn lemma_map_of_entry(entries: Seq<(Seq<char>, Seq<char>)>, i: int)
    requires
        ascending(entries),
        0 <= i < entries.len(),
    ensures
        map_of(entries).contains_key(entries[i].0),
        map_of(entries)[entries[i].0] == entries[i].1,
{
    let k = entries[i].0;
    assert(has_key(entries, k));
    lemma_ascending_distinct(entries, i, index_of_key(entries, k));
}

/// The map of a sequence of entries is finite.
pub proof fn lemma_map_of_finite(entries: Seq<(Seq<char>, Seq<char>)>)
    ensures
        map_of(entries).dom().finite(),
{
    let keys = entries.map_values(|e: (Seq<char>, Seq<char>)| e.0);
    vstd::seq_lib::seq_to_set_is_finite(keys);
    assert(map_of(entries).dom() =~= keys.to_set()) by {
        assert forall|k: Seq<char>| map_of(entries).dom().contains(k) implies keys.to_set().contains(
            k,
        ) by {
            let i = choose|i: int| 0 <= i < entries.len() && #[trigger] entries[i].0 == k;
            assert(keys[i] == k);
        }
        assert forall|k: Seq<char>| keys.to_set().contains(k) implies map_of(entries).dom().contains(
            k,
        ) by {
            let i = choose|i: int| 0 <= i < keys.len() && keys[i] == k;
            assert(entries[i].0 == k);
        }
    }
}

/// An ascending sequence has as many entries as its map has keys.
pub proof fn lemma_map_of_len(entries: Seq<(Seq<char>, Seq<char>)>)
    requires
        ascending(entries),
    ensures
        map_of(entries).dom().finite(),
        map_of(entries).dom().len() == entries.len(),
{
    let keys = entries.map_values(|e: (Seq<char>, Seq<char>)| e.0);
    lemma_map_of_finite(entries);
    assert(keys.no_duplicates()) by {
        assert forall|i: int, j: int| 0 <= i < keys.len() && 0 <= j < keys.len() && i != j implies
            keys[i] != keys[j] by {
            if keys[i] == keys[j] {
                lemma_ascending_distinct(entries, i, j);
            }
        }
    }
    keys.unique_seq_to_set();
    assert(map_of(entries).dom() =~= keys.to_set()) by {
        assert forall|k: Seq<char>| map_of(entries).dom().contains(k) implies keys.to_set().contains(
            k,
        ) by {
            let i = choose|i: int| 0 <= i < entries.len() && #[trigger] entries[i].0 == k;
            assert(keys[i] == k);
        }
        assert forall|k: Seq<char>| keys.to_set().contains(k) implies map_of(entries).dom().contains(
            k,
        ) by {
            let i = choose|i: int| 0 <= i < keys.len() && keys[i] == k;
            assert(entries[i].0 == k);
        }
    }
}

/// Two ascending sequences that stand for the same map are the same sequence.
pub proof fn lemma_ascending_unique(
    x: Seq<(Seq<char>, Seq<char>)>,
    y: Seq<(Seq<char>, Seq<char>)>,
)
    requires
        ascending(x),
        ascending(y),
        map_of(x) == map_of(y),
    ensures
        x == y,
    decreases x.len(),
{
    if x.len() == 0 {
        if y.len() > 0 {
            lemma_map_of_entry(y, 0);
            assert(has_key(x, y[0].0));
        }
        assert(x =~= y);
    } else if y.len() == 0 {
        lemma_map_of_entry(x, 0);
        assert(has_key(y, x[0].0));
    } else {
        let n = x.len() - 1;
        let m = y.len() - 1;
        // the last keys are the greatest of either sequence, so they agree
        lemma_map_of_entry(x, n);
        lemma_map_of_entry(y, m);
        assert(has_key(y, x[n].0));
        assert(has_key(x, y[m].0));
        let j = choose|j: int| 0 <= j < y.len() && #[trigger] y[j].0 == x[n].0;
        let i = choose|i: int| 0 <= i < x.len() && #[trigger] x[i].0 == y[m].0;
        if j < m {
            assert(text_lt(y[j].0, y[m].0));
            if i < n {
                assert(text_lt(x[i].0, x[n].0));
                lemma_lex_transitive(
                    encode_utf8(x[n].0),
                    encode_utf8(y[m].0),
                    encode_utf8(x[n].0),
                );
                lemma_lex_irreflexive(encode_utf8(x[n].0));
            }
        }
        assert(x[n].0 == y[m].0);
        assert(x[n] == y[m]);
        let xs = x.drop_last();
        let ys = y.drop_last();
        assert(ascending(xs));
        assert(ascending(ys));
        assert(map_of(xs) =~= map_of(ys)) by {
            assert forall|k: Seq<char>| has_key(xs, k) == has_key(ys, k) by {
                lemma_same_keys_below(x, y, k);
                lemma_same_keys_below(y, x, k);
            }
            assert forall|k: Seq<char>| has_key(xs, k) implies map_of(xs)[k] == map_of(ys)[k] by {
                let a = choose|a: int| 0 <= a < xs.len() && #[trigger] xs[a].0 == k;
                let b = choose|b: int| 0 <= b < ys.len() && #[trigger] ys[b].0 == k;
                lemma_map_of_entry(xs, a);
                lemma_map_of_entry(ys, b);
                lemma_map_of_entry(x, a);
                lemma_map_of_entry(y, b);
            }
        }
        lemma_ascending_unique(xs, ys);
        assert(x =~= xs.push(x[n]));
        assert(y =~= ys.push(y[m]));
    }
}

/// A key of `x` below its last entry is a key of `y` below its last entry,
/// where the two stand for the same map and end in the same key.
proof fn lemma_same_keys_below(
    x: Seq<(Seq<char>, Seq<char>)>,
    y: Seq<(Seq<char>, Seq<char>)>,
    k: Seq<char>,
)
    requires
        ascending(x),
        ascending(y),
        map_of(x) == map_of(y),
        x.len() > 0,
        y.len() > 0,
        x.last().0 == y.last().0,
    ensures
        has_key(x.drop_last(), k) ==> has_key(y.drop_last(), k),
{
    if has_key(x.drop_last(), k) {
        let a = choose|a: int| 0 <= a < x.drop_last().len() && #[trigger] x.drop_last()[a].0 == k;
        assert(x[a].0 == k);
        lemma_map_of_entry(x, a);
        assert(has_key(y, k));
        let b = choose|b: int| 0 <= b < y.len() && #[trigger] y[b].0 == k;
        if b == y.len() - 1 {
            lemma_ascending_distinct(x, a, x.len() - 1);
        }
        assert(y.drop_last()[b].0 == k);
    }
}

impl PathMap {
    /// The entries, in the order in which they are held.
    pub closed spec fn entries(&self) -> Seq<(Seq<char>, Seq<char>)> {
        self.items@.map_values(|e: Entry| (e.key@, e.value@))
    }

    /// The entries ascend by key. Every map that this module hands out is
    /// well formed.
    pub open spec fn wf(&self) -> bool {
        ascending(self.entries())
    }

    /// A map with no entry.
    pub fn new() -> (m: PathMap)
        ensures
            m.wf(),
            m.entries() == Seq::<(Seq<char>, Seq<char>)>::empty(),
            m@ == Map::<Seq<char>, Seq<char>>::empty(),
    {
        let m = PathMap { items: Vec::new() };
        proof {
            assert(m.entries() =~= Seq::<(Seq<char>, Seq<char>)>::empty());
            assert(m@ =~= Map::<Seq<char>, Seq<char>>::empty());
        }
        m
    }

    /// The number of entries, which is the number of keys.
    pub fn len(&self) -> (n: usize)
        ensures
            n == self.entries().len(),
            self.wf() ==> n == self@.dom().len(),
    {
        proof {
            if self.wf() {
                lemma_map_of_len(self.entries());
            }
        }
        self.items.len()
    }

    /// Whether the map has no entry.
    pub fn is_empty(&self) -> (b: bool)
        requires
            self.wf(),
        ensures
            b == (self.entries().len() == 0),
            b == (self@ == Map::<Seq<char>, Seq<char>>::empty()),
    {
        proof {
            if self.entries().len() == 0 {
                assert(self@ =~= Map::<Seq<char>, Seq<char>>::empty());
            } else {
                lemma_map_of_entry(self.entries(), 0);
            }
        }
        self.items.len() == 0
    }

    /// The key of the entry at position `i`.
    pub fn key_at(&self, i: usize) -> (k: &str)
        requires
            i < self.entries().len(),
        ensures
            k@ == self.entries()[i as int].0,
    {
        self.items[i].key.as_str()
    }

    /// The value of the entry at position `i`.
    pub fn value_at(&self, i: usize) -> (v: &str)
        requires
            i < self.entries().len(),
        ensures
            v@ == self.entries()[i as int].1,
    {
        self.items[i].value.as_str()
    }

    /// A map with the same entries.
    pub fn copy(&self) -> (m: PathMap)
        ensures
            m.entries() == self.entries(),
    {
        let mut items: Vec<Entry> = Vec::new();
        let mut i: usize = 0;
        while i < self.items.len()
            invariant
                i <= self.items.len(),
                items@.len() == i,
                forall|j: int|
                    0 <= j < i ==> (#[trigger] items@[j]).key@ == self.items@[j].key@
                        && items@[j].value@ == self.items@[j].value@,
            decreases self.items.len() - i,
        {
            items.push(
                Entry { key: self.items[i].key.clone(), value: self.items[i].value.clone() },
            );
            i += 1;
        }
        let m = PathMap { items };
        proof {
            assert(m.entries() =~= self.entries());
        }
        m
    }

    /// The keys, in ascending order.
    pub fn keys(&self) -> (r: Vec<String>)
        ensures
            r@.len() == self.entries().len(),
            forall|i: int| 0 <= i < r@.len() ==> (#[trigger] r@[i])@ == self.entries()[i].0,
    {
        let mut r: Vec<String> = Vec::new();
        let mut i: usize = 0;
        while i < self.items.len()
            invariant
                i <= self.items.len(),
                self.items.len() == self.entries().len(),
                r@.len() == i,
                forall|j: int| 0 <= j < i ==> (#[trigger] r@[j])@ == self.entries()[j].0,
            decreases self.items.len() - i,
        {
            r.push(self.items[i].key.clone());
            i += 1;
        }
        r
    }

    /// The position of the first entry whose key does not come before `key`.
    fn lower_bound(&self, key: &str) -> (i: usize)
        requires
            self.wf(),
        ensures
            i <= self.entries().len(),
            forall|a: int| 0 <= a < i ==> text_lt(#[trigger] self.entries()[a].0, key@),
            i < self.entries().len() ==> !text_lt(self.entries()[i as int].0, key@),
    {
        let mut i: usize = 0;
        while i < self.items.len() && str_lt(self.items[i].key.as_str(), key)
            invariant
                i <= self.items.len(),
                self.items.len() == self.entries().len(),
                forall|a: int| 0 <= a < i ==> text_lt(#[trigger] self.entries()[a].0, key@),
            decreases self.items.len() - i,
        {
            i += 1;
        }
        i
    }

    /// Where `key` stands: its position if it is a key, and else `None`.
    pub fn position(&self, key: &str) -> (r: Option<usize>)
        requires
            self.wf(),
        ensures
            match r {
                Some(i) => i < self.entries().len() && self.entries()[i as int].0 == key@
                    && self@.contains_key(key@) && self@[key@] == self.entries()[i as int].1,
                None => !self@.contains_key(key@),
            },
    {
        let i: usize = self.lower_bound(key);
        if i < self.items.len() && str_eq(self.items[i].key.as_str(), key) {
            proof {
                lemma_map_of_entry(self.entries(), i as int);
            }
            Some(i)
        } else {
            proof {
                if has_key(self.entries(), key@) {
                    let j = choose|j: int|
                        0 <= j < self.entries().len() && #[trigger] self.entries()[j].0 == key@;
                    lemma_lex_irreflexive(encode_utf8(key@));
                    if j > i {
                        lemma_text_total(self.entries()[i as int].0, key@);
                        assert(text_lt(self.entries()[i as int].0, self.entries()[j].0));
                    }
                }
            }
            None
        }
    }

    /// Whether `key` is a key of the map.
    pub fn contains_key(&self, key: &str) -> (b: bool)
        requires
            self.wf(),
        ensures
            b == self@.contains_key(key@),
    {
        self.position(key).is_some()
    }

    /// The value held for `key`.
    pub fn get(&self, key: &str) -> (r: Option<&str>)
        requires
            self.wf(),
        ensures
            match r {
                Some(v) => self@.contains_key(key@) && self@[key@] == v@,
                None => !self@.contains_key(key@),
            },
    {
        match self.position(key) {
            Some(i) => Some(self.items[i].value.as_str()),
            None => None,
        }
    }

    /// Sets the value for `key`, replacing the one that was there.
    pub fn insert(&mut self, key: String, value: String)
        requires
            old(self).wf(),
        ensures
            final(self).wf(),
            final(self)@ == old(self)@.insert(key@, value@),
    {
        let i: usize = self.lower_bound(key.as_str());
        let ghost before = self.entries();
        let ghost k = key@;
        let ghost v = value@;
        if i < self.items.len() && str_eq(self.items[i].key.as_str(), key.as_str()) {
            self.items.set(i, Entry { key, value });
            proof {
                let after = self.entries();
                assert(after =~= before.update(i as int, (k, v)));
                assert(ascending(after)) by {
                    assert forall|a: int, b: int| 0 <= a < b < after.len() implies text_lt(
                        #[trigger] after[a].0,
                        #[trigger] after[b].0,
                    ) by {
                        assert(after[a].0 == before[a].0);
                        assert(after[b].0 == before[b].0);
                    }
                }
                assert(map_of(after) =~= map_of(before).insert(k, v)) by {
                    assert forall|q: Seq<char>| has_key(after, q) <==> (q == k || has_key(
                        before,
                        q,
                    )) by {
                        if has_key(after, q) {
                            let j = choose|j: int| 0 <= j < after.len() && #[trigger] after[j].0 == q;
                            assert(before[j].0 == q);
                        }
                        if has_key(before, q) {
                            let j = choose|j: int|
                                0 <= j < before.len() && #[trigger] before[j].0 == q;
                            assert(after[j].0 == q);
                        }
                        if q == k {
                            assert(after[i as int].0 == q);
                        }
                    }
                    assert forall|q: Seq<char>| has_key(after, q) implies map_of(after)[q] == map_of(
                        before,
                    ).insert(k, v)[q] by {
                        let j = choose|j: int| 0 <= j < after.len() && #[trigger] after[j].0 == q;
                        lemma_map_of_entry(after, j);
                        if q != k {
                            assert(before[j].0 == q);
                            lemma_map_of_entry(before, j);
                        } else {
                            lemma_ascending_distinct(after, i as int, j);
                        }
                    }
                }
            }
        } else {
            self.items.insert(i, Entry { key, value });
            proof {
                let after = self.entries();
                assert(after =~= before.insert(i as int, (k, v)));
                assert(ascending(after)) by {
                    assert forall|a: int, b: int| 0 <= a < b < after.len() implies text_lt(
                        #[trigger] after[a].0,
                        #[trigger] after[b].0,
                    ) by {
                        if b < i {
                            assert(after[a].0 == before[a].0);
                            assert(after[b].0 == before[b].0);
                        } else if b == i {
                            assert(after[a].0 == before[a].0);
                        } else {
                            // b > i: after[b] is before[b - 1], which is at or after position i
                            assert(after[b].0 == before[b - 1].0);
                            lemma_text_total(before[i as int].0, k);
                            if b - 1 > i {
                                assert(text_lt(before[i as int].0, before[b - 1].0));
                                lemma_lex_transitive(
                                    encode_utf8(k),
                                    encode_utf8(before[i as int].0),
                                    encode_utf8(before[b - 1].0),
                                );
                            }
                            if a < i {
                                assert(after[a].0 == before[a].0);
                                assert(text_lt(before[a].0, k));
                                lemma_lex_transitive(
                                    encode_utf8(before[a].0),
                                    encode_utf8(k),
                                    encode_utf8(before[b - 1].0),
                                );
                            } else if a > i {
                                assert(after[a].0 == before[a - 1].0);
                            }
                        }
                    }
                }
                assert(map_of(after) =~= map_of(before).insert(k, v)) by {
                    assert forall|q: Seq<char>| has_key(after, q) <==> (q == k || has_key(
                        before,
                        q,
                    )) by {
                        if has_key(after, q) {
                            let j = choose|j: int| 0 <= j < after.len() && #[trigger] after[j].0 == q;
                            if j < i {
                                assert(before[j].0 == q);
                            } else if j > i {
                                assert(before[j - 1].0 == q);
                            }
                        }
                        if has_key(before, q) {
                            let j = choose|j: int|
                                0 <= j < before.len() && #[trigger] before[j].0 == q;
                            if j < i {
                                assert(after[j].0 == q);
                            } else {
                                assert(after[j + 1].0 == q);
                            }
                        }
                        if q == k {
                            assert(after[i as int].0 == q);
                        }
                    }
                    assert forall|q: Seq<char>| has_key(after, q) implies map_of(after)[q] == map_of(
                        before,
                    ).insert(k, v)[q] by {
                        let j = choose|j: int| 0 <= j < after.len() && #[trigger] after[j].0 == q;
                        lemma_map_of_entry(after, j);
                        if q == k {
                            lemma_ascending_distinct(after, i as int, j);
                        } else if j < i {
                            assert(before[j].0 == q);
                            lemma_map_of_entry(before, j);
                        } else {
                            assert(before[j - 1].0 == q);
                            lemma_map_of_entry(before, j - 1);
                        }
                    }
                }
            }
        }
    }

    /// Takes the entry for `key` out; says whether there was one.
    pub fn remove(&mut self, key: &str) -> (found: bool)
        requires
            old(self).wf(),
        ensures
            final(self).wf(),
            found == old(self)@.contains_key(key@),
            final(self)@ == old(self)@.remove(key@),
    {
        let ghost before = self.entries();
        match self.position(key) {
            None => {
                proof {
                    assert(self@ =~= self@.remove(key@));
                }
                false
            },
            Some(i) => {
                self.items.remove(i);
                proof {
                    let after = self.entries();
                    assert(after =~= before.remove(i as int));
                    assert(ascending(after)) by {
                        assert forall|a: int, b: int| 0 <= a < b < after.len() implies text_lt(
                            #[trigger] after[a].0,
                            #[trigger] after[b].0,
                        ) by {
                            let a0 = if a < i { a } else { a + 1 };
                            let b0 = if b < i { b } else { b + 1 };
                            assert(after[a].0 == before[a0].0);
                            assert(after[b].0 == before[b0].0);
                        }
                    }
                    assert(map_of(after) =~= map_of(before).remove(key@)) by {
                        assert forall|q: Seq<char>| has_key(after, q) <==> (q != key@ && has_key(
                            before,
                            q,
                        )) by {
                            if has_key(after, q) {
                                let j = choose|j: int|
                                    0 <= j < after.len() && #[trigger] after[j].0 == q;
                                let j0 = if j < i { j } else { j + 1 };
                                assert(before[j0].0 == q);
                                if q == key@ {
                                    lemma_ascending_distinct(before, i as int, j0);
                                }
                            }
                            if q != key@ && has_key(before, q) {
                                let j = choose|j: int|
                                    0 <= j < before.len() && #[trigger] before[j].0 == q;
                                if j < i {
                                    assert(after[j].0 == q);
                                } else {
                                    assert(after[j - 1].0 == q);
                                }
                            }
                        }
                        assert forall|q: Seq<char>| has_key(after, q) implies map_of(after)[q]
                            == map_of(before)[q] by {
                            let j = choose|j: int|
                                0 <= j < after.len() && #[trigger] after[j].0 == q;
                            let j0 = if j < i { j } else { j + 1 };
                            assert(before[j0].0 == q);
                            lemma_map_of_entry(after, j);
                            lemma_map_of_entry(before, j0);
                        }
                    }
                }
                true
            },
        }
    }
}

impl View for PathMap {
    type V = Map<Seq<char>, Seq<char>>;

    /// The map that the entries stand for.
    open spec fn view(&self) -> Map<Seq<char>, Seq<char>> {
        map_of(self.entries())
    }
}

/// A finite set of texts, held in ascending byte-wise order.
pub struct PathSet {
    members: PathMap,
}

impl View for PathSet {
    type V = Set<Seq<char>>;

    /// The texts that the set holds.
    open spec fn view(&self) -> Set<Seq<char>> {
        map_of(self.entries()).dom()
    }
}

impl PathSet {
    /// The members, each with an empty text beside it, in ascending order.
    pub closed spec fn entries(&self) -> Seq<(Seq<char>, Seq<char>)> {
        self.members.entries()
    }

    /// The members ascend.
    pub open spec fn wf(&self) -> bool {
        ascending(self.entries())
    }

    /// A set without members.
    pub fn new() -> (s: PathSet)
        ensures
            s.wf(),
            s@ == Set::<Seq<char>>::empty(),
    {
        let s = PathSet { members: PathMap::new() };
        proof {
            assert(s@ =~= Set::<Seq<char>>::empty());
        }
        s
    }

    /// The number of members.
    pub fn len(&self) -> (n: usize)
        ensures
            n == self.entries().len(),
            self.wf() ==> n == self@.len(),
    {
        proof {
            if self.wf() {
                lemma_map_of_len(self.entries());
            }
        }
        self.members.len()
    }

    /// Whether the set has no member.
    pub fn is_empty(&self) -> (b: bool)
        requires
            self.wf(),
        ensures
            b == (self@ == Set::<Seq<char>>::empty()),
    {
        let b = self.members.is_empty();
        proof {
            if b {
                assert(self@ =~= Set::<Seq<char>>::empty());
            } else {
                lemma_map_of_entry(self.entries(), 0);
            }
        }
        b
    }

    /// The member at position `i` of the ascending order.
    pub fn member_at(&self, i: usize) -> (m: &str)
        requires
            self.wf(),
            i < self.entries().len(),
        ensures
            m@ == self.entries()[i as int].0,
            self@.contains(m@),
    {
        proof {
            lemma_map_of_entry(self.entries(), i as int);
        }
        self.members.key_at(i)
    }

    /// Whether `text` is a member.
    pub fn contains(&self, text: &str) -> (b: bool)
        requires
            self.wf(),
        ensures
            b == self@.contains(text@),
    {
        self.members.contains_key(text)
    }

    /// Makes `text` a member.
    pub fn insert(&mut self, text: String)
        requires
            old(self).wf(),
        ensures
            final(self).wf(),
            final(self)@ == old(self)@.insert(text@),
    {
        let ghost t = text@;
        self.members.insert(text, String::new());
        proof {
            assert(self@ =~= old(self)@.insert(t));
        }
    }

    /// Takes `text` out; says whether it was a member.
    pub fn remove(&mut self, text: &str) -> (found: bool)
        requires
            old(self).wf(),
        ensures
            final(self).wf(),
            found == old(self)@.contains(text@),
            final(self)@ == old(self)@.remove(text@),
    {
        let found = self.members.remove(text);
        proof {
            assert(self@ =~= old(self)@.remove(text@));
        }
        found
    }

    /// The members, in ascending order.
    pub fn members(&self) -> (r: Vec<String>)
        requires
            self.wf(),
        ensures
            r@.len() == self.entries().len(),
            forall|i: int| 0 <= i < r@.len() ==> (#[trigger] r@[i])@ == self.entries()[i].0,
    {
        self.members.keys()
    }
}

} // verus!
