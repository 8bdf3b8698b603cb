//! Colours as the colour picker writes them.

use vstd::prelude::*;
use vstd::utf8::{encode_utf8, is_ascii_chars, is_char_boundary};

verus! {

/// How many number signs the bytes begin with.
pub open spec fn number_signs(bytes: Seq<u8>) -> nat
    decreases bytes.len(),
{
    if bytes.len() > 0 && bytes[0] == 35 {
        1 + number_signs(bytes.skip(1))
    } else {
        0
    }
}

/// The bytes behind the number signs.
pub open spec fn unsigned(bytes: Seq<u8>) -> Seq<u8> {
    bytes.skip(number_signs(bytes) as int)
}

/// The number that a hexadecimal digit stands for.
pub open spec fn hex_digit(b: u8) -> Option<u8> {
    if 48 <= b <= 57 {
        Some((b - 48) as u8)
    } else if 65 <= b <= 70 {
        Some((b - 55) as u8)
    } else if 97 <= b <= 102 {
        Some((b - 87) as u8)
    } else {
        None
    }
}

/// The number that two bytes stand for: two hexadecimal digits, or one behind a
/// plus sign; anything else counts as zero.
pub open spec fn hex_pair(a: u8, b: u8) -> u8 {
    match (hex_digit(a), hex_digit(b)) {
        (Some(x), Some(y)) => (16 * x + y) as u8,
        (None, Some(y)) => if a == 43 {
            y
        } else {
            0
        },
        _ => 0,
    }
}

/// The colour that six bytes behind the number signs stand for, red first; black
/// when there are not six.
pub open spec fn hex_color(bytes: Seq<u8>) -> Seq<u8> {
    let h = unsigned(bytes);
    if h.len() == 6 {
        seq![hex_pair(h[0], h[1]), hex_pair(h[2], h[3]), hex_pair(h[4], h[5])]
    } else {
        seq![0, 0, 0]
    }
}

fn digit_of(b: u8) -> (r: Option<u8>)
    ensures
        r == hex_digit(b),
{
    if 48 <= b && b <= 57 {
        Some(b - 48)
    } else if 65 <= b && b <= 70 {
        Some(b - 55)
    } else if 97 <= b && b <= 102 {
        Some(b - 87)
    } else {
        None
    }
}

fn pair_of(a: u8, b: u8) -> (r: u8)
    ensures
        r == hex_pair(a, b),
{
    match (digit_of(a), digit_of(b)) {
        (Some(x), Some(y)) => 16 * x + y,
        (None, Some(y)) => if a == 43 {
            y
        } else {
            0
        },
        _ => 0,
    }
}

/// The six bytes behind the number signs, where there are six, can be cut into
/// pairs without cutting a character. Plain letters and digits always can.
pub open spec fn cuts_in_pairs(hex: Seq<char>) -> bool {
    let h = unsigned(encode_utf8(hex));
    ||| is_ascii_chars(hex)
    ||| h.len() != 6
    ||| is_char_boundary(h, 2) && is_char_boundary(h, 4)
}

/// Reads a colour such as `#1a0d0d`.
pub fn hex_rgb(hex: &str) -> (r: [u8; 3])
    requires
        cuts_in_pairs(hex@),
    ensures
        r@ == hex_color(encode_utf8(hex@)),
{
    let bytes = hex.as_bytes();
    let ghost all = encode_utf8(hex@);
    let n: usize = bytes.len();
    let mut k: usize = 0;
    assert(all.skip(0) =~= all);
    while k < n && bytes[k] == 35
        invariant
            bytes@ == all,
            n == all.len(),
            k <= n,
            number_signs(all) == k + number_signs(all.skip(k as int)),
        decreases n - k,
    {
        assert(all.skip(k as int).skip(1) =~= all.skip(k + 1));
        k = k + 1;
    }
    assert(number_signs(all) == k);
    let r = if n - k == 6 {
        [
            pair_of(bytes[k], bytes[k + 1]),
            pair_of(bytes[k + 2], bytes[k + 3]),
            pair_of(bytes[k + 4], bytes[k + 5]),
        ]
    } else {
        [0, 0, 0]
    };
    assert(r@ =~= hex_color(all));
    r
}

/// A small number as a hexadecimal digit.
pub open spec fn hex_byte(n: int) -> u8 {
    if n < 10 {
        (48 + n) as u8
    } else {
        (87 + n) as u8
    }
}

/// A colour as the colour picker writes it.
pub open spec fn hex_bytes(r: u8, g: u8, b: u8) -> Seq<u8> {
    seq![
        35,
        hex_byte(r as int / 16),
        hex_byte(r as int % 16),
        hex_byte(g as int / 16),
        hex_byte(g as int % 16),
        hex_byte(b as int / 16),
        hex_byte(b as int % 16),
    ]
}

/// Every colour that the colour picker writes is read back.
pub proof fn lemma_color_reads_back(r: u8, g: u8, b: u8)
    ensures
        hex_color(hex_bytes(r, g, b)) == seq![r, g, b],
{
    let bytes = hex_bytes(r, g, b);
    let h = bytes.skip(1);
    assert(h[0] != 35);
    assert(number_signs(h) == 0);
    assert(number_signs(bytes) == 1);
    assert(unsigned(bytes) =~= h);
    assert(hex_color(bytes) =~= seq![r, g, b]);
}

/// The value of a hexadecimal digit: `0` to `9`, and `a` to `f` in either case; no other
/// character has one.
pub proof fn lemma_hex_digits(b: u8, n: int)
    requires
        0 <= n,
    ensures
        n <= 9 && b == 48 + n ==> hex_digit(b) == Some(n as u8),
        n <= 5 && (b == 65 + n || b == 97 + n) ==> hex_digit(b) == Some((10 + n) as u8),
        hex_digit(b) is Some ==> 48 <= b <= 57 || 65 <= b <= 70 || 97 <= b <= 102,
{
}

/// A pair of digits is read with the first one sixteen times the second; a plus sign before
/// one digit is passed over, and everything else counts as zero.
pub proof fn lemma_hex_pairs(a: u8, b: u8)
    ensures
        hex_digit(a) is Some && hex_digit(b) is Some ==> hex_pair(a, b) == 16 * hex_digit(a)->0
            + hex_digit(b)->0,
        a == 43 && hex_digit(b) is Some ==> hex_pair(a, b) == hex_digit(b)->0,
        hex_digit(b) is None ==> hex_pair(a, b) == 0,
        a != 43 && hex_digit(a) is None ==> hex_pair(a, b) == 0,
{
}

/// Number signs in front do not matter, however many; then six characters are three pairs,
/// for red, green and blue, and anything else is black.
pub proof fn lemma_hex_color(h: Seq<u8>)
    ensures
        hex_color(seq![35u8] + h) == hex_color(h),
        h.len() > 0 && h[0] != 35 ==> {
            &&& h.len() == 6 ==> hex_color(h) == seq![
                hex_pair(h[0], h[1]),
                hex_pair(h[2], h[3]),
                hex_pair(h[4], h[5]),
            ]
            &&& h.len() != 6 ==> hex_color(h) == seq![0u8, 0, 0]
        },
        h.len() == 0 ==> hex_color(h) == seq![0u8, 0, 0],
{
    let signed = seq![35u8] + h;
    assert(signed.skip(1) =~= h);
    assert(number_signs(signed) == 1 + number_signs(h));
    assert(unsigned(signed) =~= unsigned(h)) by {
        lemma_signs(h);
    }
    assert(h.len() > 0 && h[0] != 35 ==> unsigned(h) =~= h);
}

proof fn lemma_signs(h: Seq<u8>)
    ensures
        number_signs(h) <= h.len(),
    decreases h.len(),
{
    if h.len() > 0 && h[0] == 35 {
        lemma_signs(h.skip(1));
    }
}

} // verus!
