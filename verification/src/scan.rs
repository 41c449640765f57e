//! Searching a sequence for a value, and the byte-wise order of byte strings.

use vstd::prelude::*;

verus! {

/// The least index at or after `from` that holds `x`; the length of `s` where
/// no such index exists.
pub open spec fn find_from<T>(s: Seq<T>, from: int, x: T) -> int
    decreases s.len() - from,
{
    if from < 0 || from >= s.len() {
        s.len() as int
    } else if s[from] == x {
        from
    } else {
        find_from(s, from + 1, x)
    }
}

/// `find_from` is the index that a scan from `from` stops at.
pub proof fn lemma_find_from<T>(s: Seq<T>, from: int, x: T, i: int)
    requires
        0 <= from <= i <= s.len(),
        forall|j: int| from <= j < i ==> s[j] != x,
        i == s.len() || s[i] == x,
    ensures
        find_from(s, from, x) == i,
    decreases i - from,
{
    if from < i {
        lemma_find_from(s, from + 1, x, i);
    }
}

/// What `find_from` returns lies between `from` and the length, holds `x`
/// unless it is the length, and nothing before it does.
pub proof fn lemma_find_from_bounds<T>(s: Seq<T>, from: int, x: T)
    requires
        0 <= from <= s.len(),
    ensures
        from <= find_from(s, from, x) <= s.len(),
        find_from(s, from, x) < s.len() ==> s[find_from(s, from, x)] == x,
        forall|j: int| from <= j < find_from(s, from, x) ==> s[j] != x,
    decreases s.len() - from,
{
    if from < s.len() && s[from] != x {
        lemma_find_from_bounds(s, from + 1, x);
    }
}

/// The index of the first `x` at or after `from`, or the length of `s`.
pub fn find_byte(s: &[u8], from: usize, x: u8) -> (i: usize)
    ensures
        i == find_from(s@, from as int, x),
        i <= s.len(),
        from <= s.len() ==> from <= i,
        i < s.len() ==> s[i as int] == x,
{
    if from > s.len() {
        return s.len();
    }
    let mut i: usize = from;
    while i < s.len() && s[i] != x
        invariant
            from <= i <= s.len(),
            forall|j: int| from <= j < i ==> s[j] != x,
        decreases s.len() - i,
    {
        i += 1;
    }
    proof {
        lemma_find_from(s@, from as int, x, i as int);
    }
    i
}

/// The index of the first `x` at or after `from`, or the length of `s`.
pub fn find_char(s: &[char], from: usize, x: char) -> (i: usize)
    ensures
        i == find_from(s@, from as int, x),
        i <= s.len(),
        from <= s.len() ==> from <= i,
        i < s.len() ==> s[i as int] == x,
{
    if from > s.len() {
        return s.len();
    }
    let mut i: usize = from;
    while i < s.len() && s[i] != x
        invariant
            from <= i <= s.len(),
            forall|j: int| from <= j < i ==> s[j] != x,
        decreases s.len() - i,
    {
        i += 1;
    }
    proof {
        lemma_find_from(s@, from as int, x, i as int);
    }
    i
}

/// Whether the two byte strings are the same.
pub fn bytes_eq(a: &[u8], b: &[u8]) -> (r: bool)
    ensures
        r == (a@ == b@),
{
    if a.len() != b.len() {
        return false;
    }
    let mut i: usize = 0;
    while i < a.len()
        invariant
            i <= a.len(),
            a.len() == b.len(),
            forall|j: int| 0 <= j < i ==> a[j] == b[j],
        decreases a.len() - i,
    {
        if a[i] != b[i] {
            return false;
        }
        i += 1;
    }
    proof {
        assert(a@ =~= b@);
    }
    true
}

/// Byte-wise lexicographic order, strict, decided from index `i` on: the
/// first differing byte decides, and a proper prefix comes first.
pub open spec fn lex_lt_from(a: Seq<u8>, b: Seq<u8>, i: int) -> bool
    decreases b.len() - i,
{
    if i < 0 || i >= b.len() {
        false
    } else if i >= a.len() {
        true
    } else if a[i] != b[i] {
        a[i] < b[i]
    } else {
        lex_lt_from(a, b, i + 1)
    }
}

/// `a` comes strictly before `b` in byte-wise lexicographic order.
pub open spec fn lex_lt(a: Seq<u8>, b: Seq<u8>) -> bool {
    lex_lt_from(a, b, 0)
}

/// Two byte strings that agree before `i` and are unordered from `i` on are
/// equal.
pub proof fn lemma_lex_total_from(a: Seq<u8>, b: Seq<u8>, i: int)
    requires
        0 <= i <= a.len(),
        i <= b.len(),
        a.take(i) == b.take(i),
        !lex_lt_from(a, b, i),
        !lex_lt_from(b, a, i),
    ensures
        a == b,
    decreases a.len() - i,
{
    if i < a.len() && i < b.len() {
        assert(a.take(i + 1) =~= a.take(i).push(a[i]));
        assert(b.take(i + 1) =~= b.take(i).push(b[i]));
        lemma_lex_total_from(a, b, i + 1);
    } else {
        assert(a.take(i) =~= a);
        assert(b.take(i) =~= b);
    }
}

/// Of two different byte strings one comes before the other.
pub proof fn lemma_lex_total(a: Seq<u8>, b: Seq<u8>)
    ensures
        a == b || lex_lt(a, b) || lex_lt(b, a),
{
    if !lex_lt(a, b) && !lex_lt(b, a) {
        assert(a.take(0) =~= b.take(0));
        lemma_lex_total_from(a, b, 0);
    }
}

/// No byte string comes before itself, from any index on.
pub proof fn lemma_lex_irreflexive_from(a: Seq<u8>, i: int)
    ensures
        !lex_lt_from(a, a, i),
    decreases a.len() - i,
{
    if 0 <= i < a.len() {
        lemma_lex_irreflexive_from(a, i + 1);
    }
}

/// The order is transitive, from any index on.
pub proof fn lemma_lex_transitive_from(a: Seq<u8>, b: Seq<u8>, c: Seq<u8>, i: int)
    requires
        lex_lt_from(a, b, i),
        lex_lt_from(b, c, i),
    ensures
        lex_lt_from(a, c, i),
    decreases c.len() - i,
{
    if i < a.len() && i < b.len() && i < c.len() && a[i] == b[i] && b[i] == c[i] {
        lemma_lex_transitive_from(a, b, c, i + 1);
    }
}

/// The order is irreflexive.
pub proof fn lemma_lex_irreflexive(a: Seq<u8>)
    ensures
        !lex_lt(a, a),
{
    lemma_lex_irreflexive_from(a, 0);
}

/// The order is transitive.
pub proof fn lemma_lex_transitive(a: Seq<u8>, b: Seq<u8>, c: Seq<u8>)
    requires
        lex_lt(a, b),
        lex_lt(b, c),
    ensures
        lex_lt(a, c),
{
    lemma_lex_transitive_from(a, b, c, 0);
}

/// Whether `a` comes strictly before `b` in byte-wise lexicographic order.
pub fn bytes_lt(a: &[u8], b: &[u8]) -> (r: bool)
    ensures
        r == lex_lt(a@, b@),
{
    let mut i: usize = 0;
    while i < a.len() && i < b.len() && a[i] == b[i]
        invariant
            i <= a.len(),
            i <= b.len(),
            lex_lt(a@, b@) == lex_lt_from(a@, b@, i as int),
        decreases a.len() - i,
    {
        i += 1;
    }
    if i >= b.len() {
        false
    } else if i >= a.len() {
        true
    } else {
        a[i] < b[i]
    }
}

} // verus!
