//! Where the player looks for a track's analysis files.
//!
//! Players ignore the `analyze_path` column and compute the `USBANLZ`
//! directory from the audio path themselves.
use vstd::prelude::*;
use crate::text::utf16_encode;

verus! {

/// One step of the path hash over a UTF-16 unit.
pub open spec fn hash_step(h: u32, unit: u16) -> u32 {
    let c = unit as u32;
    h.wrapping_mul(0x5BC9).wrapping_add(c).wrapping_mul(0x93B5).wrapping_add(c)
}

/// The hash of UTF-16 units, starting from zero.
pub open spec fn hash_units(u: Seq<u16>) -> u32
    decreases u.len(),
{
    if u.len() == 0 { 0 } else { hash_step(hash_units(u.drop_last()), u.last()) }
}

/// The `P` directory number: seven scattered bits of the hash.
pub open spec fn bucket(r: u32) -> u32 {
    (r & 1) | ((r >> 1u32) & 2) | ((r >> 4u32) & 4) | ((r >> 4u32) & 8) | ((r >> 5u32) & 0x10)
        | ((r >> 8u32) & 0x20) | ((r >> 10u32) & 0x40)
}

/// `(P, hash)` of a USB-relative path.
pub open spec fn spec_anlz_hash(path: Seq<char>) -> (u32, u32) {
    let r = hash_units(utf16_encode(path)) % 200003;
    (bucket(r), r)
}

/// Upper-case hex digit of `d < 16`.
pub open spec fn hex_digit(d: int) -> char {
    if d < 10 { (48 + d) as char } else { (55 + d) as char }
}

/// The last `w` hex digits of `v`, upper case, most significant first.
pub open spec fn hex_upper(v: int, w: nat) -> Seq<char>
    decreases w,
{
    if w == 0 { seq![] } else { hex_upper(v / 16, (w - 1) as nat).push(hex_digit(v % 16)) }
}

/// `(P, hash)` for a USB-relative audio path such as `/Contents/Artist/Album/x.flac`.
pub fn anlz_hash(usb_path: &str) -> (r: (u32, u32))
    ensures
        r == spec_anlz_hash(usb_path@),
{
    let units = crate::text::encode_utf16(usb_path);
    let mut h: u32 = 0;
    let mut i: usize = 0;
    while i < units.len()
        invariant
            i <= units@.len(),
            h == hash_units(units@.take(i as int)),
        decreases units@.len() - i,
    {
        let c = units[i] as u32;
        h = h.wrapping_mul(0x5BC9).wrapping_add(c);
        h = h.wrapping_mul(0x93B5).wrapping_add(c);
        proof {
            assert(units@.take(i + 1).drop_last() =~= units@.take(i as int));
        }
        i = i + 1;
    }
    assert(units@.take(i as int) =~= units@);
    let r = h % 200003;
    let p = (r & 1) | ((r >> 1) & 2) | ((r >> 4) & 4) | ((r >> 4) & 8) | ((r >> 5) & 0x10)
        | ((r >> 8) & 0x20) | ((r >> 10) & 0x40);
    (p, r)
}

/// Appends the last `w` hex digits of `v`.
fn push_hex(s: &mut String, v: u32, w: u32)
    requires
        w <= 8,
    ensures
        final(s)@ == old(s)@ + hex_upper(v as int, w as nat),
    decreases w,
{
    if w > 0 {
        push_hex(s, v / 16, w - 1);
        let d = v % 16;
        let c: char = if d < 10 { (48 + d as u8) as char } else { (55 + d as u8) as char };
        crate::text::push_char(s, c);
        assert(s@ =~= old(s)@ + hex_upper(v as int, w as nat)) by {
            assert((v / 16) as int == v as int / 16);
        }
    }
}

/// USB-relative directory holding `ANLZ0000.DAT/.EXT/.2EX` for `usb_path`.
pub fn anlz_dir(usb_path: &str) -> (d: String)
    ensures
        d@ == "/PIONEER/USBANLZ/P"@ + hex_upper(spec_anlz_hash(usb_path@).0 as int, 3)
            + seq!['/'] + hex_upper(spec_anlz_hash(usb_path@).1 as int, 8),
{
    let (p, r) = anlz_hash(usb_path);
    let mut d = "/PIONEER/USBANLZ/P".to_owned();
    push_hex(&mut d, p, 3);
    crate::text::push_char(&mut d, '/');
    push_hex(&mut d, r, 8);
    d
}

}
