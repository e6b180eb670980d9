//! Reading colors written as hexadecimal text.

use vstd::prelude::*;

verus! {

/// The value of an ASCII hexadecimal digit, if `b` is one.
pub open spec fn hex_digit(b: u8) -> Option<u8> {
    if 0x30 <= b <= 0x39 {
        Some((b - 0x30) as u8)
    } else if 0x41 <= b <= 0x46 {
        Some((b - 0x41 + 10) as u8)
    } else if 0x61 <= b <= 0x66 {
        Some((b - 0x61 + 10) as u8)
    } else {
        None
    }
}

/// The byte that a two-byte field gives: two hex digits, or a `+` sign and one
/// digit (as `u8::from_str_radix` reads them); 0 for anything else.
pub open spec fn hex_pair(a: u8, b: u8) -> u8 {
    match (hex_digit(a), hex_digit(b)) {
        (Some(x), Some(y)) => (x * 16 + y) as u8,
        (None, Some(y)) => if a == 0x2b { y } else { 0 },
        _ => 0,
    }
}

/// `s` without its leading `#` bytes.
pub open spec fn strip_hashes(s: Seq<u8>) -> Seq<u8>
    decreases s.len(),
{
    if s.len() > 0 && s[0] == 0x23 {
        strip_hashes(s.drop_first())
    } else {
        s
    }
}

/// A byte that continues a UTF-8 sequence, where no character starts.
pub open spec fn continues_char(b: u8) -> bool {
    0x80 <= b < 0xc0
}

/// The text after the `#` signs has six bytes, and the fields of two bytes
/// each start and end on character boundaries.
pub open spec fn hex_fields_readable(s: Seq<u8>) -> bool {
    let t = strip_hashes(s);
    &&& t.len() >= 6
    &&& !continues_char(t[2])
    &&& !continues_char(t[4])
    &&& (t.len() == 6 || !continues_char(t[6]))
}

fn digit_value(b: u8) -> (r: Option<u8>)
    ensures
        r == hex_digit(b),
{
    if 0x30 <= b && b <= 0x39 {
        Some(b - 0x30)
    } else if 0x41 <= b && b <= 0x46 {
        Some(b - 0x41 + 10)
    } else if 0x61 <= b && b <= 0x66 {
        Some(b - 0x61 + 10)
    } else {
        None
    }
}

fn pair_value(a: u8, b: u8) -> (r: u8)
    ensures
        r == hex_pair(a, b),
{
    match (digit_value(a), digit_value(b)) {
        (Some(x), Some(y)) => x * 16 + y,
        (None, Some(y)) => if a == 0x2b { y } else { 0 },
        _ => 0,
    }
}

/// The red, green and blue bytes of a color written as `#RRGGBB` (any number
/// of leading `#`); a field that is not hexadecimal reads as 0.
pub fn hex_rgb8(hex: &[u8]) -> (r: (u8, u8, u8))
    requires
        hex_fields_readable(hex@),
    ensures
        ({
            let t = strip_hashes(hex@);
            r == (hex_pair(t[0], t[1]), hex_pair(t[2], t[3]), hex_pair(t[4], t[5]))
        }),
{
    let mut start: usize = 0;
    assert(hex@.subrange(0, hex@.len() as int) =~= hex@);
    while start < hex.len() && hex[start] == 0x23
        invariant
            start <= hex@.len(),
            strip_hashes(hex@.subrange(start as int, hex@.len() as int)) == strip_hashes(hex@),
        decreases hex@.len() - start,
    {
        assert(hex@.subrange(start as int, hex@.len() as int).drop_first() =~= hex@.subrange(
            start as int + 1,
            hex@.len() as int,
        ));
        start += 1;
    }
    let ghost t = hex@.subrange(start as int, hex@.len() as int);
    assert(strip_hashes(t) == t);
    (
        pair_value(hex[start], hex[start + 1]),
        pair_value(hex[start + 2], hex[start + 3]),
        pair_value(hex[start + 4], hex[start + 5]),
    )
}

} // verus!
