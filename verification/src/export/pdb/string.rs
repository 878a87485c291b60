//! DeviceSQL string encoding as rekordbox 7 writes it.
//!
//! Every ASCII string shorter than 127 bytes is the short form (flag byte
//! `((len + 1) << 1) | 1`, no terminator), every other string is the UTF-16LE
//! form (`0x90`, u16 total length, pad byte, data). The `0x40` long ASCII
//! form is read but never produced.
use vstd::prelude::*;
use vstd::utf8::{decode_utf8, encode_utf8, is_ascii_chars, valid_utf8};
use crate::bytes::{le16, le16_at};
use crate::text::{le16_bytes, le16_units, utf16_decode, utf16_encode, utf8_lossy};

verus! {

/// The DeviceSQL bytes of `s`.
pub open spec fn spec_encode(s: Seq<char>) -> Seq<u8> {
    if is_ascii_chars(s) && s.len() < 0x7f {
        seq![((s.len() + 1) * 2 + 1) as u8] + encode_utf8(s)
    } else {
        let data = le16_bytes(utf16_encode(s));
        seq![0x90u8] + le16(((data.len() + 4) % 65536) as u16) + seq![0u8] + data
    }
}

/// What lossy UTF-8 decoding makes of `body`: exact on valid UTF-8.
pub open spec fn lossy_utf8(body: Seq<u8>) -> Seq<char> {
    if valid_utf8(body) { decode_utf8(body) } else { utf8_lossy(body) }
}

/// The string at `off` and the number of bytes it takes.
pub open spec fn spec_decode(buf: Seq<u8>, off: int) -> Option<(Seq<char>, int)> {
    if !(0 <= off < buf.len()) {
        None
    } else {
        let flag = buf[off];
        if flag % 2 == 1 {
            let n = (flag / 2) as int;
            if 1 <= n && off + n <= buf.len() {
                Some((lossy_utf8(buf.subrange(off + 1, off + n)), n))
            } else {
                None
            }
        } else if off + 2 < buf.len() {
            let n = le16_at(buf, off + 1) as int;
            if 4 <= n && off + n <= buf.len() {
                let body = buf.subrange(off + 4, off + n);
                if flag == 0x40 {
                    Some((lossy_utf8(body), n))
                } else if flag == 0x90 {
                    Some((utf16_decode(le16_units(body)), n))
                } else {
                    None
                }
            } else {
                None
            }
        } else {
            None
        }
    }
}

/// Encode one string into its DeviceSQL bytes.
pub fn encode(s: &str) -> (out: Vec<u8>)
    ensures
        out@ == spec_encode(s@),
{
    let mut out: Vec<u8> = Vec::new();
    let bytes = s.as_bytes();
    if s.is_ascii() && bytes.len() < 0x7f {
        proof { vstd::utf8::is_ascii_chars_encode_utf8(s@); }
        out.push(((bytes.len() + 1) * 2 + 1) as u8);
        crate::bytes::push_all(&mut out, bytes);
        assert(out@ =~= spec_encode(s@));
    } else {
        proof {
            if is_ascii_chars(s@) {
                vstd::utf8::is_ascii_chars_encode_utf8(s@);
            }
        }
        let units = crate::text::encode_utf16(s);
        let mut data: Vec<u8> = Vec::new();
        crate::text::push_le16_units(&mut data, units.as_slice());
        let total = ((data.len() % 65536) as u16).wrapping_add(4);
        out.push(0x90u8);
        crate::bytes::push_le16(&mut out, total);
        out.push(0u8);
        crate::bytes::push_all(&mut out, data.as_slice());
        assert(data@ =~= le16_bytes(utf16_encode(s@)));
        assert(total == ((data@.len() + 4) % 65536) as u16);
        assert(out@ =~= spec_encode(s@));
    }
    assert(out@ =~= spec_encode(s@));
    out
}

/// Lossy UTF-8 decoding of `body` into a `String`.
fn decode_utf8_body(body: &[u8]) -> (s: String)
    ensures
        s@ == lossy_utf8(body@),
{
    crate::text::from_utf8_lossy(body)
}

/// Decode a DeviceSQL string at `off`, returning it with the number of bytes consumed.
pub fn decode(buf: &[u8], off: usize) -> (r: Option<(String, usize)>)
    ensures
        match r {
            Some((s, n)) => spec_decode(buf@, off as int) == Some((s@, n as int)),
            None => spec_decode(buf@, off as int) is None,
        },
{
    if off >= buf.len() {
        return None;
    }
    let flag = buf[off];
    if flag % 2 == 1 {
        let n = (flag / 2) as usize;
        if 1 <= n && n <= buf.len() - off {
            let s = decode_utf8_body(&buf[off + 1..off + n]);
            return Some((s, n));
        }
        return None;
    }
    if buf.len() - off <= 2 {
        return None;
    }
    let n = crate::bytes::get_le16(buf, off + 1) as usize;
    if n < 4 || n > buf.len() - off {
        return None;
    }
    let body = &buf[off + 4..off + n];
    if flag == 0x40 {
        Some((decode_utf8_body(body), n))
    } else if flag == 0x90 {
        let units = crate::text::read_le16_units(body);
        let cs = crate::text::decode_utf16_lossy(units.as_slice());
        Some((crate::text::string_from_chars(cs.as_slice()), n))
    } else {
        None
    }
}

/// Decoding what `encode` wrote gives the string back and consumes exactly
/// the bytes written, for every string whose UTF-16 form fits the u16 length.
pub proof fn lemma_decode_encode(s: Seq<char>)
    requires
        (is_ascii_chars(s) && s.len() < 0x7f) || 2 * utf16_encode(s).len() + 4 <= 0xffff,
    ensures
        spec_decode(spec_encode(s), 0) == Some((s, spec_encode(s).len() as int)),
{
    let e = spec_encode(s);
    if is_ascii_chars(s) && s.len() < 0x7f {
        vstd::utf8::is_ascii_chars_encode_utf8(s);
        vstd::utf8::encode_utf8_valid_utf8(s);
        vstd::utf8::encode_utf8_decode_utf8(s);
        assert(e.subrange(1, s.len() as int + 1) =~= encode_utf8(s));
    } else {
        let u = utf16_encode(s);
        let data = le16_bytes(u);
        crate::text::lemma_le16_round_trip(u);
        crate::text::lemma_utf16_round_trip(s);
        let total = ((data.len() + 4) % 65536) as u16;
        crate::bytes::lemma_u16_round_trip(total);
        assert(e[1] == le16(total)[0] && e[2] == le16(total)[1]);
        assert(le16_at(e, 1) == total);
        assert(e.subrange(4, e.len() as int) =~= data);
    }
}

}
