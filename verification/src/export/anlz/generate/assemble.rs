//! Whole analysis files from their sections.
use vstd::prelude::*;
use crate::bytes::{be32, zeros};
use crate::export::anlz::section::{section, spec_section, Section};

verus! {

/// The four bytes `PVBR`.
pub open spec fn pvbr_tag() -> Seq<u8> {
    seq![0x50u8, 0x56u8, 0x42u8, 0x52u8]
}

/// The `PVBR` payload: 400 seek entries and a trailer, all zero except the
/// trailer of an MP3, which holds its audio frames x 1152.
pub open spec fn pvbr_payload(mp3_audio_frames: Option<u32>) -> Seq<u8> {
    match mp3_audio_frames {
        Some(frames) => zeros(1604) + be32(frames.wrapping_mul(1152)),
        None => zeros(1608),
    }
}

/// `PVBR`: 400 seek entries and a trailer. MP3 gets zero entries and
/// `audio frames x 1152`; other formats are all zero.
pub fn pvbr(mp3_audio_frames: Option<u32>) -> (s: Section)
    ensures
        s.tag@ == pvbr_tag(),
        s.bytes@ == spec_section(pvbr_tag(), 0x10, pvbr_payload(mp3_audio_frames)),
{
    let mut p: Vec<u8> = Vec::new();
    crate::bytes::push_zeros(&mut p, 1604);
    match mp3_audio_frames {
        Some(frames) => crate::bytes::push_be32(&mut p, frames.wrapping_mul(1152)),
        None => crate::bytes::push_zeros(&mut p, 4),
    }
    assert(p@ =~= pvbr_payload(mp3_audio_frames));
    let tag: [u8; 4] = [0x50, 0x56, 0x42, 0x52];
    assert(tag@ =~= pvbr_tag());
    section(&tag, 0x10, p.as_slice())
}

}
