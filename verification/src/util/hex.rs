//! Byte strings as hexadecimal digits, two lower-case digits for each byte:
//! the form in which the name of a blob can be the name of a file.

use vstd::prelude::*;

verus! {

/// The digit of a number below 16.
pub open spec fn hex_digit(nibble: u8) -> u8 {
    if nibble < 10 {
        (48 + nibble) as u8
    } else {
        (87 + nibble) as u8
    }
}

/// The number of a digit, if it is one of `0` to `9` and `a` to `f`.
pub open spec fn hex_value(digit: u8) -> Option<u8> {
    if 48 <= digit <= 57 {
        Some((digit - 48) as u8)
    } else if 97 <= digit <= 102 {
        Some((digit - 87) as u8)
    } else {
        None
    }
}

/// The digits of a byte string.
pub open spec fn hex_of(bytes: Seq<u8>) -> Seq<u8> {
    Seq::new(
        2 * bytes.len(),
        |i: int|
            if i % 2 == 0 {
                hex_digit(bytes[i / 2] / 16)
            } else {
                hex_digit(bytes[i / 2] % 16)
            },
    )
}

/// Whether a text is the digits of a byte string.
pub open spec fn is_hex(text: Seq<u8>) -> bool {
    &&& text.len() % 2 == 0
    &&& forall|i: int| 0 <= i < text.len() ==> hex_value(#[trigger] text[i]) is Some
}

/// The byte string that a text is the digits of.
pub open spec fn unhex(text: Seq<u8>) -> Seq<u8> {
    Seq::new(
        text.len() / 2,
        |i: int| (16 * hex_value(text[2 * i]).unwrap() + hex_value(text[2 * i + 1]).unwrap()) as u8,
    )
}

/// The digits of a byte string are read back as the byte string.
pub proof fn lemma_hex_round_trip(bytes: Seq<u8>)
    ensures
        is_hex(hex_of(bytes)),
        unhex(hex_of(bytes)) == bytes,
{
    let text = hex_of(bytes);
    assert forall|i: int| 0 <= i < text.len() implies hex_value(#[trigger] text[i]) is Some by {
        let b = bytes[i / 2];
        assert(b / 16 < 16 && b % 16 < 16);
    }
    assert forall|i: int| 0 <= i < bytes.len() implies unhex(text)[i] == bytes[i] by {
        let b = bytes[i];
        assert((2 * i) / 2 == i && (2 * i + 1) / 2 == i);
        assert((2 * i) % 2 == 0 && (2 * i + 1) % 2 == 1);
        assert(text[2 * i] == hex_digit(b / 16));
        assert(text[2 * i + 1] == hex_digit(b % 16));
        assert(hex_value(hex_digit(b / 16)) == Some(b / 16));
        assert(hex_value(hex_digit(b % 16)) == Some(b % 16));
        assert(16 * (b / 16) + b % 16 == b);
    }
    assert(unhex(text) =~= bytes);
}

/// The digit of a number below 16.
pub fn digit_of(nibble: u8) -> (digit: u8)
    requires
        nibble < 16,
    ensures
        digit == hex_digit(nibble),
{
    if nibble < 10 {
        48 + nibble
    } else {
        87 + nibble
    }
}

/// The number of a digit.
pub fn value_of(digit: u8) -> (value: Option<u8>)
    ensures
        value == hex_value(digit),
        value matches Some(v) ==> v < 16,
{
    if 48 <= digit && digit <= 57 {
        Some(digit - 48)
    } else if 97 <= digit && digit <= 102 {
        Some(digit - 87)
    } else {
        None
    }
}

/// Writes a byte string as digits.
pub fn to_hex(bytes: &[u8]) -> (text: Vec<u8>)
    ensures
        text@ == hex_of(bytes@),
        is_hex(text@),
        unhex(text@) == bytes@,
{
    let mut text: Vec<u8> = Vec::new();
    let mut i: usize = 0;
    while i < bytes.len()
        invariant
            i <= bytes@.len(),
            text@.len() == 2 * i,
            forall|k: int| 0 <= k < text@.len() ==> #[trigger] text@[k] == hex_of(bytes@)[k],
        decreases bytes@.len() - i,
    {
        let b = bytes[i];
        let ghost before = text@;
        text.push(digit_of(b / 16));
        text.push(digit_of(b % 16));
        proof {
            assert((2 * i) / 2 == i && (2 * i + 1) / 2 == i);
            assert((2 * i) % 2 == 0 && (2 * i + 1) % 2 == 1);
            assert forall|k: int| 0 <= k < text@.len() implies #[trigger] text@[k] == hex_of(
                bytes@,
            )[k] by {
                if k < before.len() {
                    assert(text@[k] == before[k]);
                }
            }
        }
        i += 1;
    }
    proof {
        assert(text@ =~= hex_of(bytes@));
        lemma_hex_round_trip(bytes@);
    }
    text
}

/// Reads a byte string from its digits; `None` for a text that is not the
/// digits of a byte string.
pub fn from_hex(text: &[u8]) -> (bytes: Option<Vec<u8>>)
    ensures
        match bytes {
            Some(b) => is_hex(text@) && b@ == unhex(text@),
            None => !is_hex(text@),
        },
{
    if text.len() % 2 != 0 {
        return None;
    }
    let mut bytes: Vec<u8> = Vec::new();
    let mut i: usize = 0;
    while i < text.len()
        invariant
            text@.len() % 2 == 0,
            i <= text@.len(),
            i % 2 == 0,
            bytes@.len() == i / 2,
            forall|k: int| 0 <= k < i ==> hex_value(#[trigger] text@[k]) is Some,
            forall|k: int| 0 <= k < bytes@.len() ==> #[trigger] bytes@[k] == unhex(text@)[k],
        decreases text@.len() - i,
    {
        let high = match value_of(text[i]) {
            Some(v) => v,
            None => {
                return None;
            },
        };
        let low = match value_of(text[i + 1]) {
            Some(v) => v,
            None => {
                return None;
            },
        };
        let ghost before = bytes@;
        bytes.push(16 * high + low);
        proof {
            let place = (i / 2) as int;
            assert(2 * place == i);
            assert forall|k: int| 0 <= k < bytes@.len() implies #[trigger] bytes@[k] == unhex(
                text@,
            )[k] by {
                if k < before.len() {
                    assert(bytes@[k] == before[k]);
                }
            }
        }
        i += 2;
    }
    proof {
        assert(bytes@ =~= unhex(text@));
    }
    Some(bytes)
}

} // verus!
