//! Conversion between a single byte-valued character and its three-character
//! textual form `xHH`, and hex encoding of whole strings.

use vstd::prelude::*;
use vstd::string::*;

verus! {

/// Value of a hex digit character (either case), or -1 when the character is
/// not a hex digit.
pub open spec fn hex_digit_val(c: char) -> int {
    let u = c as u32;
    if '0' as u32 <= u && u <= '9' as u32 {
        u - '0' as u32
    } else if 'A' as u32 <= u && u <= 'F' as u32 {
        u - 'A' as u32 + 10
    } else if 'a' as u32 <= u && u <= 'f' as u32 {
        u - 'a' as u32 + 10
    } else {
        -1
    }
}

pub open spec fn is_hex_digit(c: char) -> bool {
    hex_digit_val(c) >= 0
}

/// The uppercase hex digit character for a value in [0, 16).
pub open spec fn hex_digit_char(v: int) -> char {
    if v == 0 {
        '0'
    } else if v == 1 {
        '1'
    } else if v == 2 {
        '2'
    } else if v == 3 {
        '3'
    } else if v == 4 {
        '4'
    } else if v == 5 {
        '5'
    } else if v == 6 {
        '6'
    } else if v == 7 {
        '7'
    } else if v == 8 {
        '8'
    } else if v == 9 {
        '9'
    } else if v == 10 {
        'A'
    } else if v == 11 {
        'B'
    } else if v == 12 {
        'C'
    } else if v == 13 {
        'D'
    } else if v == 14 {
        'E'
    } else {
        'F'
    }
}

/// A two-character sequence of hex digits.
pub open spec fn is_hex_pair(h: Seq<char>) -> bool {
    h.len() == 2 && is_hex_digit(h[0]) && is_hex_digit(h[1])
}

/// The byte value written by a two-digit hex pair.
pub open spec fn hex_pair_val(h: Seq<char>) -> int {
    16 * hex_digit_val(h[0]) + hex_digit_val(h[1])
}

/// The character whose code is written by a two-digit hex pair.
pub open spec fn hex_pair_char(h: Seq<char>) -> char {
    (hex_pair_val(h) as u32) as char
}

/// The three-character form `xHH` (uppercase, zero padded) of a byte-valued
/// character.
pub open spec fn spec_char_to_hex(c: char) -> Seq<char> {
    seq!['x', hex_digit_char((c as u32 / 16) as int), hex_digit_char((c as u32 % 16) as int)]
}

/// The concatenation of [`spec_char_to_hex`] over a character sequence.
pub open spec fn spec_encode_string(s: Seq<char>) -> Seq<char>
    decreases s.len(),
{
    if s.len() == 0 {
        Seq::empty()
    } else {
        spec_encode_string(s.drop_last()) + spec_char_to_hex(s.last())
    }
}

pub proof fn lemma_hex_digit_val_bound(c: char)
    ensures
        hex_digit_val(c) < 16,
{
}

/// Two characters with the same code are the same character.
pub proof fn lemma_char_code_eq(a: char, b: char)
    requires
        a as u32 == b as u32,
    ensures
        a == b,
{
    vstd::utf8::char_u32_cast(a, a as u32);
    vstd::utf8::char_u32_cast(b, b as u32);
}

/// A hex digit character written with an uppercase letter (or a plain digit).
pub open spec fn is_upper_hex_digit(c: char) -> bool {
    is_hex_digit(c) && !('a' as u32 <= c as u32 && c as u32 <= 'f' as u32)
}

/// Decoding is a left inverse of encoding: the two hex digits of a
/// byte-valued character write that character back.
pub proof fn lemma_hex_round_trip_char(c: char)
    requires
        (c as u32) < 256,
    ensures
        is_hex_pair(spec_char_to_hex(c).skip(1)),
        hex_pair_char(spec_char_to_hex(c).skip(1)) == c,
{
    let h = spec_char_to_hex(c).skip(1);
    assert(h =~= seq![
        hex_digit_char((c as u32 / 16) as int),
        hex_digit_char((c as u32 % 16) as int),
    ]);
}

/// Encoding is a left inverse of decoding: the character written by an
/// uppercase hex pair encodes back to `x` followed by that pair.
pub proof fn lemma_hex_round_trip_pair(h: Seq<char>)
    requires
        is_hex_pair(h),
        is_upper_hex_digit(h[0]),
        is_upper_hex_digit(h[1]),
    ensures
        spec_char_to_hex(hex_pair_char(h)) == seq!['x'] + h,
{
    let c = hex_pair_char(h);
    let v0 = hex_digit_val(h[0]);
    let v1 = hex_digit_val(h[1]);
    assert(0 <= v0 < 16 && 0 <= v1 < 16);
    assert(c as u32 == 16 * v0 + v1);
    assert(c as u32 / 16 == v0 && c as u32 % 16 == v1) by (nonlinear_arith)
        requires
            c as u32 == 16 * v0 + v1,
            0 <= v0 < 16,
            0 <= v1 < 16,
    ;
    assert(hex_digit_char(v0) as u32 == h[0] as u32);
    assert(hex_digit_char(v1) as u32 == h[1] as u32);
    lemma_char_code_eq(hex_digit_char(v0), h[0]);
    lemma_char_code_eq(hex_digit_char(v1), h[1]);
    assert(spec_char_to_hex(c) =~= seq!['x'] + h);
}

/// Executable check matching [`is_hex_digit`].
pub fn is_hex_digit_char(c: char) -> (r: bool)
    ensures
        r == is_hex_digit(c),
{
    let u = c as u32;
    (48 <= u && u <= 57) || (65 <= u && u <= 70) || (97 <= u && u <= 102)
}

/// Decode one hex digit character.
pub fn hex_digit_to_val(c: char) -> (v: u8)
    requires
        is_hex_digit(c),
    ensures
        v as int == hex_digit_val(c),
{
    let u = c as u32;
    if 48 <= u && u <= 57 {
        (u - 48) as u8
    } else if 65 <= u && u <= 70 {
        (u - 55) as u8
    } else {
        (u - 87) as u8
    }
}

/// The uppercase hex digit character for a value below 16.
pub fn hex_val_to_digit(v: u8) -> (c: char)
    requires
        v < 16,
    ensures
        c == hex_digit_char(v as int),
{
    match v {
        0 => '0',
        1 => '1',
        2 => '2',
        3 => '3',
        4 => '4',
        5 => '5',
        6 => '6',
        7 => '7',
        8 => '8',
        9 => '9',
        10 => 'A',
        11 => 'B',
        12 => 'C',
        13 => 'D',
        14 => 'E',
        _ => 'F',
    }
}

/// Decode two hex digit characters as the character with that code.
pub fn hex_pair_to_char(c0: char, c1: char) -> (c: char)
    requires
        is_hex_digit(c0),
        is_hex_digit(c1),
    ensures
        c == hex_pair_char(seq![c0, c1]),
        c as u32 == hex_pair_val(seq![c0, c1]),
        (c as u32) < 256,
{
    let v: u8 = 16 * hex_digit_to_val(c0) + hex_digit_to_val(c1);
    proof {
        lemma_hex_digit_val_bound(c0);
        lemma_hex_digit_val_bound(c1);
    }
    v as char
}

/// Parse a two-hex-digit string (either case) as the character with that code.
pub fn hex_to_char(hex: &str) -> (c: char)
    requires
        is_hex_pair(hex@),
    ensures
        c == hex_pair_char(hex@),
        c as u32 == hex_pair_val(hex@),
        (c as u32) < 256,
{
    let c0 = hex.get_char(0);
    let c1 = hex.get_char(1);
    proof {
        assert(seq![c0, c1] =~= hex@);
    }
    hex_pair_to_char(c0, c1)
}

/// Write a byte-valued character in the three-character form `xHH`.
pub fn char_to_hex(c: char) -> (r: String)
    requires
        (c as u32) < 256,
    ensures
        r@ == spec_char_to_hex(c),
{
    let u = c as u32;
    let mut r = String::new();
    r.push('x');
    r.push(hex_val_to_digit((u / 16) as u8));
    r.push(hex_val_to_digit((u % 16) as u8));
    proof {
        assert(r@ =~= spec_char_to_hex(c));
    }
    r
}

/// Hex-encode a whole string of byte-valued characters.
pub fn char_to_hex_a_string(input: &str) -> (r: String)
    requires
        forall|i: int| 0 <= i < input@.len() ==> ((#[trigger] input@[i]) as u32) < 256,
    ensures
        r@ == spec_encode_string(input@),
{
    let n = input.unicode_len();
    let mut r = String::new();
    let mut i: usize = 0;
    while i < n
        invariant
            n == input@.len(),
            0 <= i <= n,
            forall|k: int| 0 <= k < input@.len() ==> ((#[trigger] input@[k]) as u32) < 256,
            r@ == spec_encode_string(input@.take(i as int)),
        decreases n - i,
    {
        let c = input.get_char(i);
        let h = char_to_hex(c);
        r.append(h.as_str());
        proof {
            assert(input@.take(i + 1).drop_last() =~= input@.take(i as int));
            assert(input@.take(i + 1).last() == input@[i as int]);
        }
        i = i + 1;
    }
    proof {
        assert(input@.take(n as int) =~= input@);
    }
    r
}

} // verus!
