//! Reading an object back from the store, and hexadecimal text as bytes.

use crate::error::XitError;
use crate::hexcode::{hex_chars, hex_digit, hex_value, hex_value_of, is_hex_text, lemma_hex_chars};
use crate::objects::blob::{compress_zlib, zlib_deflated};
use crate::objects::store::{
    decimal, encoded_object, kind_tag, kind_tag_bytes, object_address, written, ObjectKind,
    ObjectStore,
};
use crate::scan::{bytes_eq, find_byte, find_from, lemma_find_from};
use crate::text::{
    chars_of, is_space, lemma_ascii_text, lemma_find_space, lossy_text, split_words, text_of,
    views, words, words_from,
};
use flate2::read::ZlibDecoder;
use std::io::Read;
use vstd::prelude::*;
use vstd::slice::{slice_subrange, slice_to_vec};

verus! {

/// What the zlib decoder of `flate2` reads from a byte string up to the end
/// of the stream; `None` where it reports an error.
pub uninterp spec fn zlib_inflated(data: Seq<u8>) -> Option<Seq<u8>>;

/// The bytes that a zlib stream holds.
///
/// Calls `flate2::read::ZlibDecoder::new` on the bytes and reads it to the
/// end. Not proved: that the bytes that come out, or the fact of an error,
/// depend on `data` alone.
#[verifier::external_body]
pub(crate) fn decompress_zlib(data: &[u8]) -> (r: Result<Vec<u8>, std::io::Error>)
    ensures
        match r {
            Ok(v) => zlib_inflated(data@) == Some(v@),
            Err(_) => zlib_inflated(data@) is None,
        },
{
    let mut decoder = ZlibDecoder::new(data);
    let mut buffer = Vec::new();
    decoder.read_to_end(&mut buffer)?;
    Ok(buffer)
}

/// The bytes that hexadecimal text of either case stands for, two digits to
/// the byte; `None` where the length is odd or a character is no digit.
pub open spec fn hex_bytes(s: Seq<char>) -> Option<Seq<u8>> {
    if s.len() % 2 != 0 || !is_hex_text(s) {
        None
    } else {
        Some(
            Seq::new(
                s.len() / 2,
                |i: int| (hex_value(s[2 * i])->0 * 16 + hex_value(s[2 * i + 1])->0) as u8,
            ),
        )
    }
}

/// The bytes that `hex` stands for. Fails with `InputValidation` where the
/// length is odd or a character is not a hexadecimal digit.
pub fn hex_to_bytes(hex: &str) -> (r: Result<Vec<u8>, XitError>)
    ensures
        match r {
            Ok(bytes) => hex_bytes(hex@) == Some(bytes@),
            Err(e) => e == XitError::InputValidation && hex_bytes(hex@) is None,
        },
{
    let chars = chars_of(hex);
    if chars.len() % 2 != 0 {
        return Err(XitError::InputValidation);
    }
    let mut bytes: Vec<u8> = Vec::new();
    let mut i: usize = 0;
    while i < chars.len()
        invariant
            i <= chars.len(),
            i % 2 == 0,
            chars.len() % 2 == 0,
            chars@ == hex@,
            is_hex_text(hex@.take(i as int)),
            bytes@.len() == i / 2,
            forall|j: int|
                0 <= j < i / 2 ==> bytes@[j] == (hex_value(hex@[2 * j])->0 * 16 + hex_value(
                    hex@[2 * j + 1],
                )->0) as u8,
        decreases chars.len() - i,
    {
        let high = hex_value_of(chars[i]);
        let low = hex_value_of(chars[i + 1]);
        match (high, low) {
            (Some(h), Some(l)) => {
                bytes.push(h * 16 + l);
            },
            _ => {
                proof {
                    if high is None {
                        assert(hex_value(hex@[i as int]) is None);
                    } else {
                        assert(hex_value(hex@[i + 1]) is None);
                    }
                }
                return Err(XitError::InputValidation);
            },
        }
        i += 2;
    }
    proof {
        assert(hex@.take(i as int) =~= hex@);
        assert(bytes@ =~= hex_bytes(hex@)->0);
    }
    Ok(bytes)
}

/// Hexadecimal text made from bytes stands for those bytes.
pub proof fn lemma_hex_round_trip(bytes: Seq<u8>)
    ensures
        hex_bytes(hex_chars(bytes)) == Some(bytes),
{
    let text = hex_chars(bytes);
    lemma_hex_chars(bytes);
    let back = hex_bytes(text)->0;
    assert(back.len() == bytes.len());
    assert forall|i: int| 0 <= i < bytes.len() implies back[i] == bytes[i] by {
        let b = bytes[i] as int;
        assert(hex_value(text[2 * i]) == Some(b / 16));
        assert(hex_value(text[2 * i + 1]) == Some(b % 16));
        assert((b / 16) * 16 + b % 16 == b);
    }
    assert(back =~= bytes);
}

/// Every character is a digit or one of the letters `a` to `f`.
pub open spec fn is_lower_hex(s: Seq<char>) -> bool {
    forall|i: int|
        0 <= i < s.len() ==> ('0' <= #[trigger] s[i] <= '9') || ('a' <= s[i] <= 'f')
}

/// The bytes of lower-case hexadecimal text give that text again.
pub proof fn lemma_lower_hex_round_trip(text: Seq<char>)
    requires
        text.len() % 2 == 0,
        is_lower_hex(text),
    ensures
        hex_bytes(text) is Some,
        hex_chars(hex_bytes(text)->0) == text,
{
    assert forall|i: int| 0 <= i < text.len() implies (#[trigger] hex_value(text[i])) is Some by {
        assert(('0' <= text[i] <= '9') || ('a' <= text[i] <= 'f'));
    }
    let bytes = hex_bytes(text)->0;
    let back = hex_chars(bytes);
    assert(back.len() == text.len());
    assert forall|i: int| 0 <= i < text.len() implies back[i] == text[i] by {
        let k = i / 2;
        let high = hex_value(text[2 * k])->0;
        let low = hex_value(text[2 * k + 1])->0;
        assert(('0' <= text[2 * k] <= '9') || ('a' <= text[2 * k] <= 'f'));
        assert(('0' <= text[2 * k + 1] <= '9') || ('a' <= text[2 * k + 1] <= 'f'));
        assert(0 <= high < 16 && 0 <= low < 16);
        let b = bytes[k] as int;
        assert(b == high * 16 + low);
        assert(b / 16 == high && b % 16 == low);
        if i % 2 == 0 {
            assert(i == 2 * k);
            assert(back[i] == hex_digit(high));
        } else {
            assert(i == 2 * k + 1);
            assert(back[i] == hex_digit(low));
        }
    }
    assert(back =~= text);
}

/// ASCII bytes as the text that they spell.
pub open spec fn ascii_text(bytes: Seq<u8>) -> Seq<char> {
    bytes.map_values(|b: u8| b as char)
}

/// The kind that a word of an object's header names.
pub open spec fn kind_named(word: Seq<char>) -> Option<ObjectKind> {
    if word == ascii_text(kind_tag(ObjectKind::Blob)) {
        Some(ObjectKind::Blob)
    } else if word == ascii_text(kind_tag(ObjectKind::Tree)) {
        Some(ObjectKind::Tree)
    } else if word == ascii_text(kind_tag(ObjectKind::Commit)) {
        Some(ObjectKind::Commit)
    } else {
        None
    }
}

/// What the inflated bytes of an object hold: the kind that the header names
/// and the content after the first NUL. The header is corrupt unless it
/// consists of exactly two words, the first of which names a kind.
pub open spec fn decoded_object(raw: Seq<u8>) -> Result<(ObjectKind, Seq<u8>), XitError> {
    let nul = find_from(raw, 0, 0u8);
    let header = words(text_of(raw.take(nul)));
    if nul >= raw.len() || header.len() != 2 {
        Err(XitError::CorruptObject)
    } else {
        match kind_named(header[0]) {
            Some(kind) => Ok((kind, raw.skip(nul + 1))),
            None => Err(XitError::CorruptObject),
        }
    }
}

/// The digits of a number are ASCII digits, and there is at least one.
pub proof fn lemma_decimal_digits(n: nat)
    ensures
        decimal(n).len() > 0,
        forall|i: int|
            0 <= i < decimal(n).len() ==> 48
                <= #[trigger] decimal(n)[i] <= 57,
    decreases n,
{
    if n >= 10 {
        lemma_decimal_digits(n / 10);
    }
}

/// The encoded bytes of an object decode to its kind and its content.
pub proof fn lemma_decode_encoded(kind: ObjectKind, content: Seq<u8>)
    ensures
        decoded_object(encoded_object(kind, content)) == Ok::<_, XitError>((kind, content)),
{
    let tag = kind_tag(kind);
    let digits = decimal(content.len());
    let raw = encoded_object(kind, content);
    let head = tag + seq![32u8] + digits;
    let nul = head.len() as int;
    lemma_decimal_digits(content.len());
    assert(raw =~= head + seq![0u8] + content);
    assert forall|i: int| 0 <= i < head.len() implies 32 <= #[trigger] head[i] < 128 by {
        if i < tag.len() {
            assert(head[i] == tag[i]);
        } else if i > tag.len() {
            assert(head[i] == digits[i - tag.len() - 1]);
        }
    }
    assert forall|j: int| 0 <= j < nul implies raw[j] != 0u8 by {
        assert(raw[j] == head[j]);
    }
    lemma_find_from(raw, 0, 0u8, nul);
    assert(raw.take(nul) =~= head);
    assert(raw.skip(nul + 1) =~= content);
    lemma_ascii_text(head);
    let text = ascii_text(head);
    let t = tag.len() as int;
    assert(text.len() == head.len());
    assert forall|j: int| 0 <= j < text.len() implies (is_space(#[trigger] text[j])
        <==> j == t) by {
        assert(text[j] == head[j] as char);
        if j < t {
            assert(head[j] == tag[j]);
        } else if j > t {
            assert(head[j] == digits[j - t - 1]);
        } else {
            assert(head[j] == 32u8);
        }
    }
    lemma_find_space(text, 0, false, 0);
    lemma_find_space(text, 0, true, t);
    lemma_find_space(text, t, false, t + 1);
    lemma_find_space(text, t + 1, true, text.len() as int);
    lemma_find_space(text, text.len() as int, false, text.len() as int);
    let first = text.subrange(0, t);
    let second = text.subrange(t + 1, text.len() as int);
    assert(words_from(text, text.len() as int) =~= Seq::<Seq<char>>::empty());
    assert(words_from(text, t) =~= seq![second]);
    assert(words(text) =~= seq![first, second]);
    assert(first =~= ascii_text(tag));
    assert(ascii_text(kind_tag(ObjectKind::Blob))[0] == 'b');
    assert(ascii_text(kind_tag(ObjectKind::Tree))[0] == 't');
    assert(ascii_text(kind_tag(ObjectKind::Commit))[0] == 'c');
}

/// Different objects have different encoded bytes: the kind and the content
/// can be told from them.
pub proof fn lemma_encoding_injective(
    kind: ObjectKind,
    content: Seq<u8>,
    other_kind: ObjectKind,
    other_content: Seq<u8>,
)
    requires
        encoded_object(kind, content) == encoded_object(other_kind, other_content),
    ensures
        kind == other_kind,
        content == other_content,
{
    lemma_decode_encoded(kind, content);
    lemma_decode_encoded(other_kind, other_content);
}

/// Changing one byte of the content of an object changes the bytes that are
/// hashed for its address.
pub proof fn lemma_changed_byte_changes_encoding(
    kind: ObjectKind,
    content: Seq<u8>,
    i: int,
    byte: u8,
)
    requires
        0 <= i < content.len(),
        content[i] != byte,
    ensures
        encoded_object(kind, content.update(i, byte)) != encoded_object(kind, content),
{
    let changed = content.update(i, byte);
    if encoded_object(kind, changed) == encoded_object(kind, content) {
        lemma_encoding_injective(kind, changed, kind, content);
        assert(changed[i] == byte);
    }
}

/// The compressor takes the bytes, and the decompressor gives them back from
/// what it made of them.
pub open spec fn survives_compression(data: Seq<u8>) -> bool {
    zlib_deflated(data) matches Some(packed) && zlib_inflated(packed) == Some(data)
}

/// Compresses the bytes and inflates the result, and says whether that
/// succeeded and gave the bytes back.
pub fn check_compression(data: &[u8]) -> (ok: bool)
    ensures
        ok == survives_compression(data@),
{
    match compress_zlib(data) {
        Err(_) => false,
        Ok(packed) => match decompress_zlib(packed.as_slice()) {
            Err(_) => false,
            Ok(back) => {
                let same = bytes_eq(back.as_slice(), data);
                same
            },
        },
    }
}

/// The objects keep under `address` what storing the encoded bytes would
/// put there, or nothing.
pub open spec fn free_or_same(
    objects: Map<Seq<char>, Seq<u8>>,
    address: Seq<char>,
    encoded: Seq<u8>,
) -> bool {
    objects.contains_key(address) ==> Some(objects[address]) == zlib_deflated(encoded)
}

/// What was written can be read: after an object was stored, the store holds
/// its kind and its content under its address.
///
/// This holds wherever the encoded bytes survive compression, and the store
/// did not already hold other bytes under the address.
pub proof fn lemma_read_after_write(
    objects: Map<Seq<char>, Seq<u8>>,
    kind: ObjectKind,
    content: Seq<u8>,
)
    requires
        survives_compression(encoded_object(kind, content)),
        free_or_same(objects, object_address(kind, content), encoded_object(kind, content)),
    ensures
        written(objects, kind, content).0 == Ok::<_, XitError>(object_address(kind, content)),
        object_at(written(objects, kind, content).1, object_address(kind, content)) == Ok::<
            _,
            XitError,
        >((kind, content)),
{
    lemma_decode_encoded(kind, content);
}

/// What a store holds under an address.
pub open spec fn object_at(objects: Map<Seq<char>, Seq<u8>>, address: Seq<char>) -> Result<
    (ObjectKind, Seq<u8>),
    XitError,
> {
    if !objects.contains_key(address) {
        Err(XitError::ObjectNotFound)
    } else {
        match zlib_inflated(objects[address]) {
            Some(raw) => decoded_object(raw),
            None => Err(XitError::CorruptObject),
        }
    }
}

/// Whether the word spells the given ASCII bytes.
fn spells(word: &[char], tag: &[u8]) -> (b: bool)
    ensures
        b == (word@ == ascii_text(tag@)),
{
    if word.len() != tag.len() {
        return false;
    }
    let mut i: usize = 0;
    while i < word.len()
        invariant
            i <= word.len(),
            word.len() == tag.len(),
            forall|j: int| 0 <= j < i ==> word[j] == tag[j] as char,
        decreases word.len() - i,
    {
        if word[i] != tag[i] as char {
            proof {
                assert(ascii_text(tag@)[i as int] == tag[i as int] as char);
            }
            return false;
        }
        i += 1;
    }
    proof {
        assert(word@ =~= ascii_text(tag@));
    }
    true
}

/// The kind that a word of an object's header names.
pub fn parse_kind(word: &[char]) -> (r: Option<ObjectKind>)
    ensures
        r == kind_named(word@),
{
    if spells(word, kind_tag_bytes(ObjectKind::Blob).as_slice()) {
        Some(ObjectKind::Blob)
    } else if spells(word, kind_tag_bytes(ObjectKind::Tree).as_slice()) {
        Some(ObjectKind::Tree)
    } else if spells(word, kind_tag_bytes(ObjectKind::Commit).as_slice()) {
        Some(ObjectKind::Commit)
    } else {
        None
    }
}

/// Splits the inflated bytes of an object into kind and content.
pub fn decode_object(raw: &[u8]) -> (r: Result<(ObjectKind, Vec<u8>), XitError>)
    ensures
        match r {
            Ok((kind, content)) => decoded_object(raw@) == Ok::<_, XitError>((kind, content@)),
            Err(e) => decoded_object(raw@) == Err::<(ObjectKind, Seq<u8>), _>(e),
        },
{
    let nul: usize = find_byte(raw, 0, 0);
    if nul >= raw.len() {
        return Err(XitError::CorruptObject);
    }
    let header_text = lossy_text(slice_subrange(raw, 0, nul));
    let header_chars = chars_of(header_text.as_str());
    let header = split_words(header_chars.as_slice());
    proof {
        assert(raw@.subrange(0, nul as int) =~= raw@.take(nul as int));
        assert(header_chars@ == text_of(raw@.take(nul as int)));
        assert(header@.len() == views(header@).len());
    }
    if header.len() != 2 {
        return Err(XitError::CorruptObject);
    }
    proof {
        assert(views(header@)[0] == header@[0]@);
    }
    match parse_kind(header[0].as_slice()) {
        Some(kind) => {
            let content = slice_to_vec(slice_subrange(raw, nul + 1, raw.len()));
            proof {
                assert(content@ =~= raw@.skip(nul + 1));
            }
            Ok((kind, content))
        },
        None => Err(XitError::CorruptObject),
    }
}

/// Reads the object stored under `hash`: its kind and its content.
///
/// Fails with `ObjectNotFound` where the store holds nothing under `hash`,
/// and with `CorruptObject` where what it holds does not inflate, has no NUL,
/// or has a header that is not a kind followed by one more word.
pub fn read_object(store: &ObjectStore, hash: &str) -> (r: Result<(ObjectKind, Vec<u8>), XitError>)
    ensures
        match r {
            Ok((kind, content)) => object_at(store@, hash@) == Ok::<_, XitError>((kind, content@)),
            Err(e) => object_at(store@, hash@) == Err::<(ObjectKind, Seq<u8>), _>(e),
        },
{
    match store.get(hash) {
        None => Err(XitError::ObjectNotFound),
        Some(data) => match decompress_zlib(data.as_slice()) {
            Ok(raw) => decode_object(raw.as_slice()),
            Err(_) => Err(XitError::CorruptObject),
        },
    }
}

} // verus!
