//! `PQTZ` beat grid and the empty `PQT2`.
use vstd::prelude::*;
use crate::bytes::{be16, be32, flatten, push_be16, push_be32, zeros};
use crate::export::anlz::section::{section, spec_section, Section};

verus! {

/// One beat of the grid.
#[derive(Debug, Clone, Copy, PartialEq, Eq)]
pub struct Beat {
    /// Position in the bar, 1..=4.
    pub number: u16,
    /// BPM x 100.
    pub tempo: u16,
    pub time_ms: u32,
}

/// The eight bytes of one beat.
pub open spec fn beat_bytes(b: Beat) -> Seq<u8> {
    be16(b.number) + be16(b.tempo) + be32(b.time_ms)
}

/// The `PQTZ` payload for `beats`.
pub open spec fn pqtz_payload(beats: Seq<Beat>) -> Seq<u8> {
    be32(0) + be32(0x0008_0000) + be32((beats.len() % 0x1_0000_0000) as u32)
        + flatten(beats.map_values(|b: Beat| beat_bytes(b)))
}

/// The four bytes `PQTZ`.
pub open spec fn pqtz_tag() -> Seq<u8> {
    seq![0x50u8, 0x51u8, 0x54u8, 0x5Au8]
}

/// The four bytes `PQT2`.
pub open spec fn pqt2_tag() -> Seq<u8> {
    seq![0x50u8, 0x51u8, 0x54u8, 0x32u8]
}

/// `PQTZ` from a beat list.
pub fn pqtz(beats: &[Beat]) -> (s: Section)
    requires
        8 * beats@.len() + 24 <= usize::MAX,
    ensures
        s.tag@ == pqtz_tag(),
        s.bytes@ == spec_section(pqtz_tag(), 0x18, pqtz_payload(beats@)),
{
    let mut payload: Vec<u8> = Vec::new();
    push_be32(&mut payload, 0);
    push_be32(&mut payload, 0x0008_0000);
    push_be32(&mut payload, ((beats.len() as u64) % 0x1_0000_0000u64) as u32);
    let ghost head = payload@;
    let ghost parts = beats@.map_values(|b: Beat| beat_bytes(b));
    let mut i: usize = 0;
    while i < beats.len()
        invariant
            i <= beats@.len(),
            8 * beats@.len() + 24 <= usize::MAX,
            parts == beats@.map_values(|b: Beat| beat_bytes(b)),
            payload@ == head + flatten(parts.take(i as int)),
            payload@.len() == 12 + 8 * i,
        decreases beats@.len() - i,
    {
        let b = beats[i];
        push_be16(&mut payload, b.number);
        push_be16(&mut payload, b.tempo);
        push_be32(&mut payload, b.time_ms);
        proof {
            assert(parts.take(i + 1).drop_last() =~= parts.take(i as int));
        }
        i = i + 1;
        assert(payload@ =~= head + flatten(parts.take(i as int)));
    }
    assert(parts.take(i as int) =~= parts);
    let tag: [u8; 4] = [0x50, 0x51, 0x54, 0x5A];
    assert(tag@ =~= pqtz_tag());
    section(&tag, 0x18, payload.as_slice())
}

/// `PQT2` as written without an extended grid (56 bytes).
pub fn pqt2_empty() -> (s: Section)
    ensures
        s.tag@ == pqt2_tag(),
        s.bytes@ == spec_section(pqt2_tag(), 0x38, zeros(4) + seq![0x01u8, 0x00u8, 0x00u8, 0x02u8] + zeros(36)),
{
    let mut payload: Vec<u8> = Vec::new();
    crate::bytes::push_zeros(&mut payload, 4);
    payload.push(0x01);
    payload.push(0x00);
    payload.push(0x00);
    payload.push(0x02);
    crate::bytes::push_zeros(&mut payload, 36);
    assert(payload@ =~= zeros(4) + seq![0x01u8, 0x00u8, 0x00u8, 0x02u8] + zeros(36));
    let tag: [u8; 4] = [0x50, 0x51, 0x54, 0x32];
    assert(tag@ =~= pqt2_tag());
    section(&tag, 0x38, payload.as_slice())
}

}
