//! The 16-hex-digit, optionally colon-grouped text form of 64-bit values:
//! parsing of operator input, and the colon-grouped rendering of output.

use vstd::prelude::*;
use vstd::arithmetic::power2::{pow2, lemma_pow2_adds, lemma_pow2_strictly_increases, lemma2_to64};
use crate::codec::u64_be_bytes;
use crate::codec::u64_to_be_bytes;
use crate::RecryptError;

verus! {

/// An ASCII hexadecimal digit, either case.
pub open spec fn is_hex_digit(c: char) -> bool {
    (48 <= c as u32 && c as u32 <= 57) || (97 <= c as u32 && c as u32 <= 102) || (65 <= c as u32
        && c as u32 <= 70)
}

/// The value of a hexadecimal digit.
pub open spec fn hex_val(c: char) -> nat {
    if 48 <= c as u32 && c as u32 <= 57 {
        (c as u32 - 48) as nat
    } else if 97 <= c as u32 && c as u32 <= 102 {
        (c as u32 - 87) as nat
    } else if 65 <= c as u32 && c as u32 <= 70 {
        (c as u32 - 55) as nat
    } else {
        0
    }
}

/// The big-endian value of a digit string.
pub open spec fn hex_value(s: Seq<char>) -> nat
    decreases s.len(),
{
    if s.len() == 0 {
        0
    } else {
        hex_value(s.drop_last()) * 16 + hex_val(s.last())
    }
}

/// The input with grouping colons removed.
pub open spec fn strip_colons(s: Seq<char>) -> Seq<char> {
    s.filter(|c: char| c != ':')
}

/// Acceptable modulus or share-value input: every character a hexadecimal
/// digit or a grouping colon, and exactly sixteen digits in all.
pub open spec fn hex_input_ok(s: Seq<char>) -> bool {
    &&& forall|i: int| 0 <= i < s.len() ==> is_hex_digit(#[trigger] s[i]) || s[i] == ':'
    &&& strip_colons(s).len() == 16
}

/// A digit string's value stays under sixteen to the power of its length.
proof fn lemma_hex_value_bound(s: Seq<char>)
    ensures
        hex_value(s) < pow2(4 * s.len()),
    decreases s.len(),
{
    lemma2_to64();
    if s.len() == 0 {
    } else {
        lemma_hex_value_bound(s.drop_last());
        lemma_pow2_adds(4 * (s.len() - 1) as nat, 4);
        assert(hex_val(s.last()) <= 15);
    }
}

/// The value of one hexadecimal digit character.
fn hex_digit_value(c: char) -> (r: u8)
    requires
        is_hex_digit(c),
    ensures
        r as nat == hex_val(c),
        r < 16,
{
    let u = c as u32;
    if 48 <= u && u <= 57 {
        (u - 48) as u8
    } else if 97 <= u && u <= 102 {
        (u - 87) as u8
    } else {
        (u - 55) as u8
    }
}

/// Parses a 16-hex-digit value, tolerating grouping colons. Fails on any
/// character that is neither a digit nor a colon, and on any digit count
/// other than sixteen.
pub fn parse_hex_u64(input: &Vec<char>) -> (r: Result<u64, RecryptError>)
    ensures
        match r {
            Ok(v) => hex_input_ok(input@) && v as nat == hex_value(strip_colons(input@)),
            Err(err) => {
                &&& !hex_input_ok(input@)
                &&& (err == RecryptError::InputNotHex <==> exists|i: int|
                    0 <= i < input@.len() && !(is_hex_digit(#[trigger] input@[i]) || input@[i]
                        == ':'))
                &&& (err == RecryptError::InputWrongLength <==> ((forall|i: int|
                    0 <= i < input@.len() ==> is_hex_digit(#[trigger] input@[i]) || input@[i]
                        == ':') && strip_colons(input@).len() != 16))
            },
        },
{
    let ghost pred = |c: char| c != ':';
    let n = input.len();
    let mut digits: Vec<char> = Vec::new();
    let mut i: usize = 0;
    proof {
        assert(input@.take(0).filter(pred) =~= Seq::<char>::empty()) by {
            reveal(Seq::filter);
            assert(input@.take(0) =~= Seq::<char>::empty());
        }
    }
    while i < n
        invariant
            n == input@.len(),
            i <= n,
            forall|k: int| 0 <= k < i ==> is_hex_digit(#[trigger] input@[k]) || input@[k] == ':',
            pred == (|c: char| c != ':'),
            digits@ == input@.take(i as int).filter(pred),
            forall|k: int| 0 <= k < digits@.len() ==> is_hex_digit(#[trigger] digits@[k]),
        decreases n - i,
    {
        let c = input[i];
        let u = c as u32;
        let hex = (48 <= u && u <= 57) || (97 <= u && u <= 102) || (65 <= u && u <= 70);
        if !hex && c != ':' {
            return Err(RecryptError::InputNotHex);
        }
        proof {
            reveal(Seq::filter);
            let t1 = input@.take(i as int + 1);
            assert(t1.drop_last() =~= input@.take(i as int));
            assert(t1.last() == input@[i as int]);
        }
        if c != ':' {
            digits.push(c);
        }
        i = i + 1;
    }
    proof {
        assert(input@.take(n as int) =~= input@);
    }
    if digits.len() != 16 {
        return Err(RecryptError::InputWrongLength);
    }
    let mut v: u64 = 0;
    let mut k: usize = 0;
    while k < 16
        invariant
            digits@.len() == 16,
            forall|t: int| 0 <= t < digits@.len() ==> is_hex_digit(#[trigger] digits@[t]),
            k <= 16,
            v as nat == hex_value(digits@.take(k as int)),
        decreases 16 - k,
    {
        proof {
            lemma_hex_value_bound(digits@.take(k as int));
            assert(digits@.take(k as int).len() == k as nat);
            lemma2_to64();
            vstd::arithmetic::power2::lemma2_to64_rest();
            if 4 * k < 60 {
                lemma_pow2_strictly_increases(4 * k as nat, 60);
            }
            assert(v < 0x1000000000000000);
            let t1 = digits@.take(k as int + 1);
            assert(t1.drop_last() =~= digits@.take(k as int));
            assert(t1.last() == digits@[k as int]);
        }
        let d = hex_digit_value(digits[k]);
        v = v * 16 + (d as u64);
        k = k + 1;
    }
    proof {
        assert(digits@.take(16) =~= digits@);
    }
    Ok(v)
}

/// The lowercase character of one hexadecimal digit value.
pub open spec fn hex_digit_char(v: nat) -> char {
    if v == 0 {
        '0'
    } else if v == 1 {
        '1'
    } else if v == 2 {
        '2'
    } else if v == 3 {
        '3'
    } else if v == 4 {
        '4'
    } else if v == 5 {
        '5'
    } else if v == 6 {
        '6'
    } else if v == 7 {
        '7'
    } else if v == 8 {
        '8'
    } else if v == 9 {
        '9'
    } else if v == 10 {
        'a'
    } else if v == 11 {
        'b'
    } else if v == 12 {
        'c'
    } else if v == 13 {
        'd'
    } else if v == 14 {
        'e'
    } else {
        'f'
    }
}

/// The two lowercase digits of one byte.
pub open spec fn byte_hex(b: u8) -> Seq<char> {
    seq![hex_digit_char((b / 16) as nat), hex_digit_char((b % 16) as nat)]
}

/// Bytes rendered as two lowercase digits each, colon-separated.
pub open spec fn colon_hex(bytes: Seq<u8>) -> Seq<char>
    decreases bytes.len(),
{
    if bytes.len() == 0 {
        Seq::empty()
    } else if bytes.len() == 1 {
        byte_hex(bytes[0])
    } else {
        colon_hex(bytes.drop_last()) + seq![':'] + byte_hex(bytes.last())
    }
}

/// One hexadecimal digit as a character.
fn hex_char(v: u8) -> (r: char)
    requires
        v < 16,
    ensures
        r == hex_digit_char(v as nat),
{
    if v == 0 {
        '0'
    } else if v == 1 {
        '1'
    } else if v == 2 {
        '2'
    } else if v == 3 {
        '3'
    } else if v == 4 {
        '4'
    } else if v == 5 {
        '5'
    } else if v == 6 {
        '6'
    } else if v == 7 {
        '7'
    } else if v == 8 {
        '8'
    } else if v == 9 {
        '9'
    } else if v == 10 {
        'a'
    } else if v == 11 {
        'b'
    } else if v == 12 {
        'c'
    } else if v == 13 {
        'd'
    } else if v == 14 {
        'e'
    } else {
        'f'
    }
}

/// Renders a 64-bit value as its eight big-endian bytes, two lowercase
/// digits each, colon-separated — the form in which moduli and share values
/// are transcribed.
pub fn format_u64_colon_hex(x: u64) -> (r: Vec<char>)
    ensures
        r@ == colon_hex(u64_be_bytes(x)),
{
    let bytes = u64_to_be_bytes(x);
    let mut out: Vec<char> = Vec::new();
    let mut i: usize = 0;
    while i < 8
        invariant
            bytes@ == u64_be_bytes(x),
            bytes@.len() == 8,
            i <= 8,
            out@ == colon_hex(bytes@.take(i as int)),
        decreases 8 - i,
    {
        if i > 0 {
            out.push(':');
        }
        let b = bytes[i];
        out.push(hex_char(b / 16));
        out.push(hex_char(b % 16));
        proof {
            let t1 = bytes@.take(i as int + 1);
            assert(t1.drop_last() =~= bytes@.take(i as int));
            assert(t1.last() == bytes@[i as int]);
            if i == 0 {
                assert(out@ =~= byte_hex(bytes@[0]));
            } else {
                assert(out@ =~= colon_hex(bytes@.take(i as int)) + seq![':'] + byte_hex(
                    bytes@[i as int],
                ));
            }
        }
        i = i + 1;
    }
    proof {
        assert(bytes@.take(8) =~= bytes@);
    }
    out
}

} // verus!
