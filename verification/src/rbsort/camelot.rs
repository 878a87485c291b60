//! Camelot key notation.
use vstd::prelude::*;
use vstd::utf8::encode_utf8;
use crate::text::trim;

verus! {

/// A decimal digit byte.
pub open spec fn is_digit(b: u8) -> bool {
    0x30 <= b <= 0x39
}

/// `u8::from_str` of one or two bytes: an optional `+`, then digits.
pub open spec fn parse_small(b: Seq<u8>) -> Option<int> {
    if b.len() == 1 {
        if is_digit(b[0]) { Some(b[0] - 0x30) } else { None }
    } else if b.len() == 2 {
        if b[0] == 0x2b && is_digit(b[1]) {
            Some(b[1] - 0x30)
        } else if is_digit(b[0]) && is_digit(b[1]) {
            Some((b[0] - 0x30) * 10 + (b[1] - 0x30))
        } else {
            None
        }
    } else {
        None
    }
}

/// The sort index 0..=23 of a Camelot key: `1A` = 0, `1B` = 1, ..., `12B` = 23.
pub open spec fn spec_parse_camelot(s: Seq<char>) -> Option<u8> {
    let b = encode_utf8(trim(s));
    if b.len() < 2 || b.len() > 3 {
        None
    } else {
        match parse_small(b.take(b.len() - 1)) {
            None => None,
            Some(n) => if !(1 <= n <= 12) {
                None
            } else if b.last() == 0x41 || b.last() == 0x61 {
                Some(((n - 1) * 2) as u8)
            } else if b.last() == 0x42 || b.last() == 0x62 {
                Some(((n - 1) * 2 + 1) as u8)
            } else {
                None
            },
        }
    }
}

/// The number part ends on a character boundary: a two- or three-byte key
/// ends with a one-byte character.
pub open spec fn camelot_splittable(s: Seq<char>) -> bool {
    let b = encode_utf8(trim(s));
    2 <= b.len() <= 3 ==> b.last() < 0x80
}

/// Parse a Camelot key string (e.g. `1A`, `12B`) into a sort index 0..=23.
/// `None` for empty input or non-Camelot notation.
pub fn parse_camelot(s: &str) -> (r: Option<u8>)
    requires
        camelot_splittable(s@),
    ensures
        r == spec_parse_camelot(s@),
{
    let chars = crate::text::chars_of(s);
    let t = crate::text::trim_chars(chars.as_slice(), 0, chars.len());
    assert(chars@.subrange(0, chars@.len() as int) =~= s@);
    let ts = crate::text::string_from_chars(t.as_slice());
    let b = ts.as_str().as_bytes();
    if b.len() < 2 || b.len() > 3 {
        return None;
    }
    let n = b.len() - 1;
    let num: u8 = if n == 1 {
        if 0x30 <= b[0] && b[0] <= 0x39 { b[0] - 0x30 } else { return None; }
    } else {
        if b[0] == 0x2b && 0x30 <= b[1] && b[1] <= 0x39 {
            b[1] - 0x30
        } else if 0x30 <= b[0] && b[0] <= 0x39 && 0x30 <= b[1] && b[1] <= 0x39 {
            (b[0] - 0x30) * 10 + (b[1] - 0x30)
        } else {
            return None;
        }
    };
    assert(parse_small(b@.take(n as int)) == Some(num as int));
    if !(1 <= num && num <= 12) {
        return None;
    }
    let last = b[n];
    if last == 0x41 || last == 0x61 {
        Some((num - 1) * 2)
    } else if last == 0x42 || last == 0x62 {
        Some((num - 1) * 2 + 1)
    } else {
        None
    }
}

/// Whether [`parse_camelot`] can take `s`: its number part ends on a
/// character boundary.
pub fn is_splittable(s: &str) -> (r: bool)
    ensures
        r == camelot_splittable(s@),
{
    let chars = crate::text::chars_of(s);
    let t = crate::text::trim_chars(chars.as_slice(), 0, chars.len());
    assert(chars@.subrange(0, chars@.len() as int) =~= s@);
    let ts = crate::text::string_from_chars(t.as_slice());
    let b = ts.as_str().as_bytes();
    !(2 <= b.len() && b.len() <= 3) || b[b.len() - 1] < 0x80
}

}
