//! Text as sequences of characters: the few operations on strings that the
//! file formats of the engine need.

use crate::scan::{
    bytes_eq, bytes_lt, find_char, find_from, lemma_find_from, lemma_find_from_bounds,
    lemma_lex_total, lex_lt,
};
use vstd::prelude::*;
use vstd::slice::{slice_subrange, slice_to_vec};
use vstd::utf8::{decode_utf8, encode_utf8, encode_utf8_decode_utf8, valid_utf8};

verus! {

/// Strings are ordered by the bytes of their UTF-8 form.
pub open spec fn text_lt(a: Seq<char>, b: Seq<char>) -> bool {
    lex_lt(encode_utf8(a), encode_utf8(b))
}

/// Two texts with the same UTF-8 form are the same text.
pub proof fn lemma_utf8_injective(a: Seq<char>, b: Seq<char>)
    requires
        encode_utf8(a) == encode_utf8(b),
    ensures
        a == b,
{
    encode_utf8_decode_utf8(a);
    encode_utf8_decode_utf8(b);
}

/// A byte of the encoding of a scalar value that is below 128 is that value.
proof fn lemma_scalar_low_byte(c: u32, b: u8, k: int)
    requires
        b < 128,
        vstd::utf8::is_scalar(c),
        0 <= k < vstd::utf8::encode_scalar(c).len(),
        vstd::utf8::encode_scalar(c)[k] == b,
    ensures
        c == b as u32,
{
    let x2 = ((c >> 6) & 0x1F) as u8;
    let x3 = ((c >> 12) & 0x0F) as u8;
    let x4 = ((c >> 18) & 0x7) as u8;
    let y1 = (c & 0x3F) as u8;
    let y2 = ((c >> 6) & 0x3F) as u8;
    let y3 = ((c >> 12) & 0x3F) as u8;
    assert(c <= 0x7F ==> (c & 0x7F) as u8 as u32 == c) by (bit_vector);
    assert(0xC0u8 | x2 >= 128) by (bit_vector);
    assert(0xE0u8 | x3 >= 128) by (bit_vector);
    assert(0xF0u8 | x4 >= 128) by (bit_vector);
    assert(0x80u8 | y1 >= 128) by (bit_vector);
    assert(0x80u8 | y2 >= 128) by (bit_vector);
    assert(0x80u8 | y3 >= 128) by (bit_vector);
}

/// The encoding of a text holds a byte below 128 only where the text holds
/// the character of that value.
pub proof fn lemma_utf8_low_byte(s: Seq<char>, b: u8)
    requires
        b < 128,
        !s.contains(b as char),
    ensures
        !encode_utf8(s).contains(b),
    decreases s.len(),
{
    if s.len() > 0 {
        let c = s[0] as u32;
        let head = vstd::utf8::encode_scalar(c);
        let tail = encode_utf8(s.drop_first());
        vstd::utf8::char_is_scalar(s[0]);
        assert(!s.drop_first().contains(b as char)) by {
            if s.drop_first().contains(b as char) {
                let i = choose|i: int| 0 <= i < s.drop_first().len() && s.drop_first()[i] == b as char;
                assert(s[i + 1] == b as char);
            }
        }
        lemma_utf8_low_byte(s.drop_first(), b);
        if encode_utf8(s).contains(b) {
            let j = choose|j: int| 0 <= j < encode_utf8(s).len() && encode_utf8(s)[j] == b;
            if j < head.len() {
                lemma_scalar_low_byte(c, b, j);
                vstd::utf8::char_u32_cast(s[0], c);
                assert(c as char == (b as u32) as char);
                assert(s[0] == b as char);
            } else {
                assert(tail[j - head.len()] == b);
            }
        }
    }
}

/// Of two different texts one comes before the other.
pub proof fn lemma_text_total(a: Seq<char>, b: Seq<char>)
    ensures
        a == b || text_lt(a, b) || text_lt(b, a),
{
    lemma_lex_total(encode_utf8(a), encode_utf8(b));
    if encode_utf8(a) == encode_utf8(b) {
        lemma_utf8_injective(a, b);
    }
}

/// Whether `a` comes strictly before `b`.
pub fn str_lt(a: &str, b: &str) -> (r: bool)
    ensures
        r == text_lt(a@, b@),
{
    bytes_lt(a.as_bytes(), b.as_bytes())
}

/// Whether the two strings hold the same text.
pub fn str_eq(a: &str, b: &str) -> (r: bool)
    ensures
        r == (a@ == b@),
{
    let r = bytes_eq(a.as_bytes(), b.as_bytes());
    proof {
        if r {
            lemma_utf8_injective(a@, b@);
        }
    }
    r
}

/// Appends one character to a string.
///
/// Calls `String::push` of the standard library. Not proved: that the string
/// afterwards is the string before with `c` at its end.
#[verifier::external_body]
pub(crate) fn push_char(s: &mut String, c: char)
    ensures
        final(s)@ == old(s)@.push(c),
{
    s.push(c)
}

/// The characters of a string, in order.
pub fn chars_of(s: &str) -> (v: Vec<char>)
    ensures
        v@ == s@,
{
    let mut v: Vec<char> = Vec::new();
    for c in it: s.chars()
        invariant
            v@ == it.seq().take(it.index() as int),
    {
        v.push(c);
    }
    v
}

/// The string made of the given characters.
pub fn string_of(chars: &[char]) -> (s: String)
    ensures
        s@ == chars@,
{
    let mut s = String::new();
    let mut i: usize = 0;
    while i < chars.len()
        invariant
            i <= chars.len(),
            s@ == chars@.take(i as int),
        decreases chars.len() - i,
    {
        push_char(&mut s, chars[i]);
        i += 1;
    }
    s
}

/// What `String::from_utf8_lossy` makes of bytes that are not valid UTF-8.
pub uninterp spec fn utf8_lossy(bytes: Seq<u8>) -> Seq<char>;

/// Bytes read as text: the text that they encode where they are valid UTF-8,
/// and else the text with a replacement character for each part that is not.
pub open spec fn text_of(bytes: Seq<u8>) -> Seq<char> {
    if valid_utf8(bytes) {
        decode_utf8(bytes)
    } else {
        utf8_lossy(bytes)
    }
}

/// Bytes below 128 read as the characters of their values.
pub proof fn lemma_ascii_text(bytes: Seq<u8>)
    requires
        forall|i: int| 0 <= i < bytes.len() ==> bytes[i] < 128,
    ensures
        text_of(bytes) == bytes.map_values(|b: u8| b as char),
{
    let chars = bytes.map_values(|b: u8| b as char);
    assert forall|i: int| 0 <= i < chars.len() implies '\0' <= #[trigger] chars[i] <= '\u{7f}' by {
        assert(chars[i] == bytes[i] as char);
    }
    assert(vstd::utf8::is_ascii_chars(chars));
    vstd::utf8::is_ascii_chars_encode_utf8(chars);
    assert(encode_utf8(chars) =~= bytes) by {
        assert forall|i: int| 0 <= i < bytes.len() implies encode_utf8(chars)[i] == bytes[i] by {
            assert(chars[i] as u8 == encode_utf8(chars)[i]);
            assert(chars[i] == bytes[i] as char);
        }
    }
    vstd::utf8::encode_utf8_valid_utf8(chars);
    encode_utf8_decode_utf8(chars);
}

/// Bytes as text, with whatever is not UTF-8 replaced.
///
/// Calls `String::from_utf8_lossy` of the standard library. Not proved: that
/// valid UTF-8 comes back as the text it encodes, and that what comes back
/// for other bytes depends on the bytes alone.
#[verifier::external_body]
pub(crate) fn lossy_text(bytes: &[u8]) -> (s: String)
    ensures
        valid_utf8(bytes@) ==> s@ == decode_utf8(bytes@),
        !valid_utf8(bytes@) ==> s@ == utf8_lossy(bytes@),
{
    String::from_utf8_lossy(bytes).into_owned()
}

/// The characters that count as white space: those with the Unicode property
/// `White_Space`.
pub open spec fn is_space(c: char) -> bool {
    ||| c == ' '
    ||| ('\u{9}' <= c && c <= '\u{d}')
    ||| c == '\u{85}'
    ||| c == '\u{a0}'
    ||| c == '\u{1680}'
    ||| ('\u{2000}' <= c && c <= '\u{200a}')
    ||| c == '\u{2028}'
    ||| c == '\u{2029}'
    ||| c == '\u{202f}'
    ||| c == '\u{205f}'
    ||| c == '\u{3000}'
}

/// Whether `c` is white space.
pub fn is_space_char(c: char) -> (b: bool)
    ensures
        b == is_space(c),
{
    c == ' ' || ('\u{9}' <= c && c <= '\u{d}') || c == '\u{85}' || c == '\u{a0}' || c
        == '\u{1680}' || ('\u{2000}' <= c && c <= '\u{200a}') || c == '\u{2028}' || c == '\u{2029}'
        || c == '\u{202f}' || c == '\u{205f}' || c == '\u{3000}'
}

/// The least index at or after `from` whose character is white space, where
/// `space` holds, or is not, where it does not; the length where there is
/// none.
pub open spec fn find_space_from(s: Seq<char>, from: int, space: bool) -> int
    decreases s.len() - from,
{
    if from < 0 || from >= s.len() {
        s.len() as int
    } else if is_space(s[from]) == space {
        from
    } else {
        find_space_from(s, from + 1, space)
    }
}

/// What `find_space_from` returns lies between `from` and the length, and is
/// an index of the wanted kind unless it is the length.
pub proof fn lemma_find_space_bounds(s: Seq<char>, from: int, space: bool)
    requires
        0 <= from <= s.len(),
    ensures
        from <= find_space_from(s, from, space) <= s.len(),
        find_space_from(s, from, space) < s.len() ==> is_space(
            s[find_space_from(s, from, space)],
        ) == space,
        forall|j: int| from <= j < find_space_from(s, from, space) ==> is_space(s[j]) != space,
    decreases s.len() - from,
{
    if from < s.len() && is_space(s[from]) != space {
        lemma_find_space_bounds(s, from + 1, space);
    }
}

/// `find_space_from` is the index that a scan from `from` stops at.
pub proof fn lemma_find_space(s: Seq<char>, from: int, space: bool, i: int)
    requires
        0 <= from <= i <= s.len(),
        forall|j: int| from <= j < i ==> is_space(s[j]) != space,
        i == s.len() || is_space(s[i]) == space,
    ensures
        find_space_from(s, from, space) == i,
    decreases i - from,
{
    if from < i {
        lemma_find_space(s, from + 1, space, i);
    }
}

/// The index at which a scan for white space, or for its absence, stops.
pub fn find_space(s: &[char], from: usize, space: bool) -> (i: usize)
    ensures
        i == find_space_from(s@, from as int, space),
        i <= s.len(),
        from <= s.len() ==> from <= i,
        i < s.len() ==> is_space(s[i as int]) == space,
{
    if from > s.len() {
        return s.len();
    }
    let mut i: usize = from;
    while i < s.len() && is_space_char(s[i]) != space
        invariant
            from <= i <= s.len(),
            find_space_from(s@, from as int, space) == find_space_from(s@, i as int, space),
        decreases s.len() - i,
    {
        i += 1;
    }
    i
}

/// The text without the white space at its end.
pub open spec fn trimmed_end(s: Seq<char>) -> Seq<char>
    decreases s.len(),
{
    if s.len() > 0 && is_space(s.last()) {
        trimmed_end(s.drop_last())
    } else {
        s
    }
}

/// What is left of a text without the white space at its end begins as the
/// text does.
pub proof fn lemma_trimmed_end_first(s: Seq<char>)
    ensures
        trimmed_end(s).len() <= s.len(),
        trimmed_end(s).len() > 0 ==> trimmed_end(s)[0] == s[0],
    decreases s.len(),
{
    if s.len() > 0 && is_space(s.last()) {
        lemma_trimmed_end_first(s.drop_last());
    }
}

/// The text without the white space at its start.
pub open spec fn trimmed_start(s: Seq<char>) -> Seq<char> {
    s.skip(find_space_from(s, 0, false))
}

/// The text without the white space at either end.
pub open spec fn trimmed(s: Seq<char>) -> Seq<char> {
    trimmed_end(trimmed_start(s))
}

/// The text without the white space at its end.
pub fn trim_end<'a>(s: &'a [char]) -> (r: &'a [char])
    ensures
        r@ == trimmed_end(s@),
{
    let mut n: usize = s.len();
    proof {
        assert(s@.take(n as int) =~= s@);
    }
    while n > 0 && is_space_char(s[n - 1])
        invariant
            n <= s.len(),
            trimmed_end(s@) == trimmed_end(s@.take(n as int)),
        decreases n,
    {
        proof {
            assert(s@.take(n as int).drop_last() =~= s@.take(n - 1));
        }
        n -= 1;
    }
    slice_subrange(s, 0, n)
}

/// The text without the white space at either end.
pub fn trim<'a>(s: &'a [char]) -> (r: &'a [char])
    ensures
        r@ == trimmed(s@),
{
    let start: usize = find_space(s, 0, false);
    let rest = slice_subrange(s, start, s.len());
    proof {
        assert(rest@ =~= trimmed_start(s@));
    }
    trim_end(rest)
}

/// The words of a text from `from` on: its longest runs without white space.
pub open spec fn words_from(s: Seq<char>, from: int) -> Seq<Seq<char>>
    decreases s.len() - from,
{
    let start = find_space_from(s, from, false);
    let end = find_space_from(s, start, true);
    if from < 0 || start >= s.len() {
        Seq::empty()
    } else {
        proof {
            lemma_find_space_bounds(s, from, false);
            lemma_find_space_bounds(s, start, true);
        }
        seq![s.subrange(start, end)] + words_from(s, end)
    }
}

/// The words of a text.
pub open spec fn words(s: Seq<char>) -> Seq<Seq<char>> {
    words_from(s, 0)
}

/// The texts that the vectors hold.
pub open spec fn views(v: Seq<Vec<char>>) -> Seq<Seq<char>> {
    v.map_values(|l: Vec<char>| l@)
}

/// The words of a text: its longest runs without white space, in order.
pub fn split_words(s: &[char]) -> (r: Vec<Vec<char>>)
    ensures
        views(r@) == words(s@),
{
    let mut r: Vec<Vec<char>> = Vec::new();
    let mut pos: usize = 0;
    loop
        invariant
            pos <= s.len(),
            words(s@) == views(r@) + words_from(s@, pos as int),
        ensures
            views(r@) == words(s@),
        decreases s.len() - pos,
    {
        let start: usize = find_space(s, pos, false);
        if start >= s.len() {
            proof {
                assert(views(r@) + Seq::<Seq<char>>::empty() =~= views(r@));
            }
            break ;
        }
        let end: usize = find_space(s, start, true);
        let word = slice_to_vec(slice_subrange(s, start, end));
        proof {
            lemma_find_space_bounds(s@, start as int, true);
            assert(views(r@.push(word)) =~= views(r@).push(word@));
            assert(views(r@).push(word@) + words_from(s@, end as int) =~= views(r@) + (seq![
                word@,
            ] + words_from(s@, end as int)));
        }
        r.push(word);
        pos = end;
    }
    r
}

/// A line without the carriage return that ended it.
pub open spec fn without_cr(line: Seq<char>) -> Seq<char> {
    if line.len() > 0 && line.last() == '\r' {
        line.drop_last()
    } else {
        line
    }
}

/// The lines of a text from `from` on. A line ends at a line feed, or at a
/// carriage return followed by one, neither of which belongs to it; what
/// follows the last line feed is a line unless it is empty.
pub open spec fn lines_from(s: Seq<char>, from: int) -> Seq<Seq<char>>
    decreases s.len() - from,
{
    let end = find_from(s, from, '\n');
    if from < 0 || from >= s.len() {
        Seq::empty()
    } else if end >= s.len() {
        seq![s.subrange(from, s.len() as int)]
    } else {
        proof {
            lemma_find_from_bounds(s, from, '\n');
        }
        seq![without_cr(s.subrange(from, end))] + lines_from(s, end + 1)
    }
}

/// The lines of a text.
pub open spec fn lines(s: Seq<char>) -> Seq<Seq<char>> {
    lines_from(s, 0)
}

/// The lines from a position in the second of two texts on are the same
/// whether or not the first stands before it.
pub proof fn lemma_lines_shift(a: Seq<char>, b: Seq<char>, k: int)
    requires
        0 <= k <= b.len(),
    ensures
        lines_from(a + b, a.len() + k) == lines_from(b, k),
    decreases b.len() - k,
{
    let s = a + b;
    let from = a.len() + k;
    if k < b.len() {
        let end = find_from(b, k, '\n');
        lemma_find_from_bounds(b, k, '\n');
        assert forall|j: int| from <= j < a.len() + end implies s[j] != '\n' by {
            assert(s[j] == b[j - a.len()]);
        }
        if end < b.len() {
            assert(s[a.len() + end] == b[end]);
        }
        lemma_find_from(s, from, '\n', a.len() + end);
        if end < b.len() {
            assert(s.subrange(from, a.len() + end) =~= b.subrange(k, end));
            lemma_lines_shift(a, b, end + 1);
        } else {
            assert(s.subrange(from, s.len() as int) =~= b.subrange(k, b.len() as int));
        }
    }
}

/// The lines of a text that ends its last line, from a position on, followed
/// by the lines of a second text, are the lines of the two texts joined.
pub proof fn lemma_lines_append_from(a: Seq<char>, b: Seq<char>, from: int)
    requires
        a.len() == 0 || a.last() == '\n',
        0 <= from <= a.len(),
    ensures
        lines_from(a + b, from) == lines_from(a, from) + lines(b),
    decreases a.len() - from,
{
    let s = a + b;
    if from == a.len() {
        lemma_lines_shift(a, b, 0);
        assert(lines_from(a, from) =~= Seq::<Seq<char>>::empty());
        assert(Seq::<Seq<char>>::empty() + lines(b) =~= lines(b));
    } else {
        let end = find_from(a, from, '\n');
        lemma_find_from_bounds(a, from, '\n');
        assert(end < a.len()) by {
            if end >= a.len() {
                assert(a[a.len() - 1] != '\n');
            }
        }
        assert forall|j: int| from <= j < end implies s[j] != '\n' by {
            assert(s[j] == a[j]);
        }
        assert(s[end] == a[end]);
        lemma_find_from(s, from, '\n', end);
        assert(s.subrange(from, end) =~= a.subrange(from, end));
        lemma_lines_append_from(a, b, end + 1);
        assert(lines_from(s, from) =~= lines_from(a, from) + lines(b));
    }
}

/// A text without a line feed, followed by one, is one line.
pub proof fn lemma_one_line(line: Seq<char>)
    requires
        !line.contains('\n'),
    ensures
        lines(line + seq!['\n']) == seq![without_cr(line)],
{
    let s = line + seq!['\n'];
    assert forall|j: int| 0 <= j < line.len() implies s[j] != '\n' by {
        assert(s[j] == line[j]);
        assert(line.contains(line[j]));
    }
    lemma_find_from(s, 0, '\n', line.len() as int);
    assert(s.subrange(0, line.len() as int) =~= line);
    assert(lines_from(s, s.len() as int) =~= Seq::<Seq<char>>::empty());
    assert(lines(s) =~= seq![without_cr(line)]);
}

/// The lines of a text, in order, without their line ends.
pub fn split_lines(s: &[char]) -> (r: Vec<Vec<char>>)
    ensures
        views(r@) == lines(s@),
{
    let mut r: Vec<Vec<char>> = Vec::new();
    let mut pos: usize = 0;
    while pos < s.len()
        invariant
            pos <= s.len(),
            lines(s@) == views(r@) + lines_from(s@, pos as int),
        decreases s.len() - pos,
    {
        let end: usize = find_char(s, pos, '\n');
        let ghost before = r@;
        if end >= s.len() {
            let line = slice_to_vec(slice_subrange(s, pos, end));
            proof {
                assert(views(r@.push(line)) =~= views(r@).push(line@));
                assert(lines_from(s@, s.len() as int) =~= Seq::<Seq<char>>::empty());
                assert(views(r@).push(line@) + lines_from(s@, s.len() as int) =~= views(r@)
                    + lines_from(s@, pos as int));
            }
            r.push(line);
            pos = s.len();
        } else {
            let cut = if end > pos && s[end - 1] == '\r' {
                end - 1
            } else {
                end
            };
            let line = slice_to_vec(slice_subrange(s, pos, cut));
            proof {
                assert(line@ =~= without_cr(s@.subrange(pos as int, end as int)));
                assert(views(r@.push(line)) =~= views(r@).push(line@));
                assert(views(r@).push(line@) + lines_from(s@, end + 1) =~= views(r@) + (seq![
                    line@,
                ] + lines_from(s@, end + 1)));
            }
            r.push(line);
            pos = end + 1;
        }
    }
    proof {
        assert(views(r@) + Seq::<Seq<char>>::empty() =~= views(r@));
    }
    r
}

/// Whether `s` begins with `prefix`.
pub fn starts_with(s: &[char], prefix: &[char]) -> (b: bool)
    ensures
        b == prefix@.is_prefix_of(s@),
{
    if prefix.len() > s.len() {
        return false;
    }
    let mut i: usize = 0;
    while i < prefix.len()
        invariant
            i <= prefix.len() <= s.len(),
            forall|j: int| 0 <= j < i ==> s[j] == prefix[j],
        decreases prefix.len() - i,
    {
        if s[i] != prefix[i] {
            return false;
        }
        i += 1;
    }
    proof {
        assert(prefix@ =~= s@.subrange(0, prefix@.len() as int));
    }
    true
}

/// Whether the two texts are the same.
pub fn chars_eq(a: &[char], b: &[char]) -> (r: bool)
    ensures
        r == (a@ == b@),
{
    if a.len() != b.len() {
        return false;
    }
    let r = starts_with(a, b);
    proof {
        if r {
            assert(a@ =~= b@);
        }
    }
    r
}

} // verus!
