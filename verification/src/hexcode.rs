//! Lower-case hexadecimal text for bytes, and back.

use vstd::prelude::*;

verus! {

/// The lower-case hexadecimal digit for a value below sixteen.
pub open spec fn hex_digit(n: int) -> char {
    if n < 10 {
        (48 + n) as u8 as char
    } else {
        (87 + n) as u8 as char
    }
}

/// Two digits for every byte, high half first.
pub open spec fn hex_chars(bytes: Seq<u8>) -> Seq<char> {
    Seq::new(
        2 * bytes.len(),
        |i: int|
            if i % 2 == 0 {
                hex_digit(bytes[i / 2] as int / 16)
            } else {
                hex_digit(bytes[i / 2] as int % 16)
            },
    )
}

/// The value of a hexadecimal digit of either case; `None` for any other
/// character.
pub open spec fn hex_value(c: char) -> Option<int> {
    if '0' <= c && c <= '9' {
        Some(c as int - 48)
    } else if 'a' <= c && c <= 'f' {
        Some(c as int - 87)
    } else if 'A' <= c && c <= 'F' {
        Some(c as int - 55)
    } else {
        None
    }
}

/// Every character is a hexadecimal digit of either case.
pub open spec fn is_hex_text(s: Seq<char>) -> bool {
    forall|i: int| 0 <= i < s.len() ==> (#[trigger] hex_value(s[i])) is Some
}

/// The lower-case hexadecimal digit for a value below sixteen.
pub fn hex_digit_of(n: u8) -> (c: char)
    requires
        n < 16,
    ensures
        c == hex_digit(n as int),
{
    if n < 10 {
        (48 + n) as char
    } else {
        (87 + n) as char
    }
}

/// The value of a hexadecimal digit of either case; `None` for any other
/// character.
pub fn hex_value_of(c: char) -> (v: Option<u8>)
    ensures
        match v {
            Some(n) => hex_value(c) == Some(n as int) && n < 16,
            None => hex_value(c) is None,
        },
{
    if '0' <= c && c <= '9' {
        Some((c as u32 - 48) as u8)
    } else if 'a' <= c && c <= 'f' {
        Some((c as u32 - 87) as u8)
    } else if 'A' <= c && c <= 'F' {
        Some((c as u32 - 55) as u8)
    } else {
        None
    }
}

/// The text is an address: forty hexadecimal digits.
pub open spec fn is_address(s: Seq<char>) -> bool {
    s.len() == 40 && is_hex_text(s)
}

/// Whether the text is forty hexadecimal digits.
pub fn is_address_text(s: &[char]) -> (b: bool)
    ensures
        b == is_address(s@),
{
    if s.len() != 40 {
        return false;
    }
    let mut i: usize = 0;
    while i < s.len()
        invariant
            i <= s.len(),
            s.len() == 40,
            is_hex_text(s@.take(i as int)),
        decreases s.len() - i,
    {
        if hex_value_of(s[i]).is_none() {
            proof {
                assert(hex_value(s@[i as int]) is None);
            }
            return false;
        }
        proof {
            assert forall|j: int| 0 <= j < i + 1 implies (#[trigger] hex_value(
                s@.take(i + 1)[j],
            )) is Some by {
                if j < i {
                    assert(s@.take(i as int)[j] == s@[j]);
                }
            }
        }
        i += 1;
    }
    proof {
        assert(s@.take(i as int) =~= s@);
    }
    true
}

/// The hexadecimal text of bytes has two characters for each byte, every one
/// a digit, and stands for those bytes.
pub proof fn lemma_hex_chars(bytes: Seq<u8>)
    ensures
        hex_chars(bytes).len() == 2 * bytes.len(),
        is_hex_text(hex_chars(bytes)),
        forall|i: int|
            0 <= i < bytes.len() ==> hex_value(#[trigger] hex_chars(bytes)[2 * i]) == Some(
                bytes[i] as int / 16,
            ) && hex_value(hex_chars(bytes)[2 * i + 1]) == Some(bytes[i] as int % 16),
{
    assert forall|n: int| 0 <= n < 16 implies hex_value(#[trigger] hex_digit(n)) == Some(n) by {
        if n < 10 {
            assert(hex_digit(n) as int == 48 + n);
        } else {
            assert(hex_digit(n) as int == 87 + n);
        }
    }
    assert forall|i: int| 0 <= i < hex_chars(bytes).len() implies (#[trigger] hex_value(
        hex_chars(bytes)[i],
    )) is Some by {
        let b = bytes[i / 2] as int;
        assert(0 <= b / 16 < 16 && 0 <= b % 16 < 16);
    }
    assert forall|i: int| 0 <= i < bytes.len() implies hex_value(
        #[trigger] hex_chars(bytes)[2 * i],
    ) == Some(bytes[i] as int / 16) && hex_value(hex_chars(bytes)[2 * i + 1]) == Some(
        bytes[i] as int % 16,
    ) by {
        let b = bytes[i] as int;
        assert(0 <= b / 16 < 16 && 0 <= b % 16 < 16);
        assert((2 * i) / 2 == i && (2 * i + 1) / 2 == i);
    }
}

} // verus!
