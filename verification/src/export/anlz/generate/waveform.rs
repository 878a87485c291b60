//! Waveform sections. The waveforms themselves are computed from decoded
//! audio; these functions lay out what was computed.
use vstd::prelude::*;
use crate::bytes::{be16, be32, flatten, push_all, push_be16, push_be32};
use crate::text::be16_bytes;
use crate::export::anlz::section::{section, section_view, spec_section, Section};

verus! {

/// Preview and detail waveforms of one track.
#[derive(Debug, Default)]
pub struct Waveforms {
    /// `PWV3`: 5-bit height, 3-bit whiteness per 1/150 s.
    pub pwv3: Vec<u8>,
    /// `PWV5`: rrrgggbbbhhhhh00 per 1/150 s.
    pub pwv5: Vec<u16>,
    /// `PWV7`: low, mid, high per 1/150 s, 0..=127.
    pub pwv7: Vec<[u8; 3]>,
    /// `PWVC`: low, mid, high gain.
    pub gains: [u16; 3],
    /// `PWAV`: 400 columns.
    pub pwav: Vec<u8>,
    /// `PWV2`: 100 columns, 4-bit height.
    pub pwv2: Vec<u8>,
    /// `PWV6`: 1200 columns of low, mid, high.
    pub pwv6: Vec<[u8; 3]>,
    /// `PWV4`: 1200 columns of six bytes.
    pub pwv4: Vec<[u8; 6]>,
}

/// Columns of three bytes, laid end to end.
pub open spec fn flat3(v: Seq<[u8; 3]>) -> Seq<u8> {
    flatten(v.map_values(|a: [u8; 3]| a@))
}

/// Columns of six bytes, laid end to end.
pub open spec fn flat6(v: Seq<[u8; 6]>) -> Seq<u8> {
    flatten(v.map_values(|a: [u8; 6]| a@))
}

/// A preview section: `len_data, 0x00010000, data` with a 20-byte header.
pub open spec fn spec_preview(tag: Seq<u8>, data: Seq<u8>) -> Seq<u8> {
    spec_section(tag, 0x14, be32((data.len() % 0x1_0000_0000) as u32) + be32(0x0001_0000) + data)
}

/// A detail section: `len_entry_bytes, len_entries, unknown, data` with a
/// 24-byte header.
pub open spec fn spec_detail(tag: Seq<u8>, entry_bytes: u32, unknown: u32, data: Seq<u8>) -> Seq<u8> {
    spec_section(tag, 0x18, be32(entry_bytes)
        + be32((((data.len() % 0x1_0000_0000) as u32) / entry_bytes) as u32) + be32(unknown) + data)
}

/// `tag` as four bytes.
pub open spec fn tag4(a: u8, b: u8, c: u8, d: u8) -> Seq<u8> {
    seq![a, b, c, d]
}

fn preview_section(tag: &[u8; 4], data: &[u8]) -> (s: Section)
    requires
        data@.len() + 64 <= usize::MAX,
    ensures
        s.tag == *tag,
        s.bytes@ == spec_preview(tag@, data@),
{
    let mut p: Vec<u8> = Vec::new();
    push_be32(&mut p, ((data.len() as u64) % 0x1_0000_0000u64) as u32);
    push_be32(&mut p, 0x0001_0000);
    push_all(&mut p, data);
    section(tag, 0x14, p.as_slice())
}

fn detail_section(tag: &[u8; 4], entry_bytes: u32, unknown: u32, data: &[u8]) -> (s: Section)
    requires
        entry_bytes > 0,
        data@.len() + 64 <= usize::MAX,
    ensures
        s.tag == *tag,
        s.bytes@ == spec_detail(tag@, entry_bytes, unknown, data@),
{
    let mut p: Vec<u8> = Vec::new();
    push_be32(&mut p, entry_bytes);
    push_be32(&mut p, (((data.len() as u64) % 0x1_0000_0000u64) as u32) / entry_bytes);
    push_be32(&mut p, unknown);
    push_all(&mut p, data);
    section(tag, 0x18, p.as_slice())
}

/// Lays out three-byte columns.
fn columns3(v: &[[u8; 3]]) -> (out: Vec<u8>)
    ensures
        out@ == flat3(v@),
{
    let mut out: Vec<u8> = Vec::new();
    let ghost parts = v@.map_values(|a: [u8; 3]| a@);
    let mut i: usize = 0;
    while i < v.len()
        invariant
            i <= v@.len(),
            parts == v@.map_values(|a: [u8; 3]| a@),
            out@ == flatten(parts.take(i as int)),
        decreases v@.len() - i,
    {
        push_all(&mut out, v[i].as_slice());
        proof { assert(parts.take(i + 1).drop_last() =~= parts.take(i as int)); }
        i = i + 1;
    }
    assert(parts.take(i as int) =~= parts);
    out
}

/// Lays out six-byte columns.
fn columns6(v: &[[u8; 6]]) -> (out: Vec<u8>)
    ensures
        out@ == flat6(v@),
{
    let mut out: Vec<u8> = Vec::new();
    let ghost parts = v@.map_values(|a: [u8; 6]| a@);
    let mut i: usize = 0;
    while i < v.len()
        invariant
            i <= v@.len(),
            parts == v@.map_values(|a: [u8; 6]| a@),
            out@ == flatten(parts.take(i as int)),
        decreases v@.len() - i,
    {
        push_all(&mut out, v[i].as_slice());
        proof { assert(parts.take(i + 1).drop_last() =~= parts.take(i as int)); }
        i = i + 1;
    }
    assert(parts.take(i as int) =~= parts);
    out
}

impl Waveforms {
    /// Every section fits in memory.
    pub open spec fn fits(&self) -> bool {
        &&& self.pwv3@.len() + 64 <= usize::MAX
        &&& 2 * self.pwv5@.len() + 64 <= usize::MAX
        &&& 3 * self.pwv7@.len() + 64 <= usize::MAX
        &&& self.pwav@.len() + 64 <= usize::MAX
        &&& self.pwv2@.len() + 64 <= usize::MAX
        &&& 3 * self.pwv6@.len() + 64 <= usize::MAX
        &&& 6 * self.pwv4@.len() + 64 <= usize::MAX
    }

    /// `PWAV` and `PWV2` for the `.DAT` file, in that order.
    pub fn dat_sections(&self) -> (v: Vec<Section>)
        requires
            self.fits(),
        ensures
            v@.map_values(|s: Section| section_view(s)) == seq![
                (tag4(0x50, 0x57, 0x41, 0x56), spec_preview(tag4(0x50, 0x57, 0x41, 0x56), self.pwav@)),
                (tag4(0x50, 0x57, 0x56, 0x32), spec_preview(tag4(0x50, 0x57, 0x56, 0x32), self.pwv2@)),
            ],
    {
        let pwav: [u8; 4] = [0x50, 0x57, 0x41, 0x56];
        let pwv2: [u8; 4] = [0x50, 0x57, 0x56, 0x32];
        assert(pwav@ =~= tag4(0x50, 0x57, 0x41, 0x56));
        assert(pwv2@ =~= tag4(0x50, 0x57, 0x56, 0x32));
        let mut v: Vec<Section> = Vec::new();
        v.push(preview_section(&pwav, self.pwav.as_slice()));
        v.push(preview_section(&pwv2, self.pwv2.as_slice()));
        assert(v@.map_values(|s: Section| section_view(s)) =~= seq![
            (tag4(0x50, 0x57, 0x41, 0x56), spec_preview(tag4(0x50, 0x57, 0x41, 0x56), self.pwav@)),
            (tag4(0x50, 0x57, 0x56, 0x32), spec_preview(tag4(0x50, 0x57, 0x56, 0x32), self.pwv2@)),
        ]);
        v
    }

    /// `PWV3` for the `.EXT` file.
    pub fn pwv3_section(&self) -> (s: Section)
        requires
            self.fits(),
        ensures
            s.tag@ == tag4(0x50, 0x57, 0x56, 0x33),
            s.bytes@ == spec_detail(tag4(0x50, 0x57, 0x56, 0x33), 1, 0x0096_0000, self.pwv3@),
    {
        let tag: [u8; 4] = [0x50, 0x57, 0x56, 0x33];
        assert(tag@ =~= tag4(0x50, 0x57, 0x56, 0x33));
        detail_section(&tag, 1, 0x0096_0000, self.pwv3.as_slice())
    }

    /// `PWV5` for the `.EXT` file: each column big-endian.
    pub fn pwv5_section(&self) -> (s: Section)
        requires
            self.fits(),
        ensures
            s.tag@ == tag4(0x50, 0x57, 0x56, 0x35),
            s.bytes@ == spec_detail(tag4(0x50, 0x57, 0x56, 0x35), 2, 0x0096_0305, be16_bytes(self.pwv5@)),
    {
        let mut bytes: Vec<u8> = Vec::new();
        crate::text::push_be16_units(&mut bytes, self.pwv5.as_slice());
        proof { crate::text::lemma_be16_round_trip(self.pwv5@); }
        let tag: [u8; 4] = [0x50, 0x57, 0x56, 0x35];
        assert(tag@ =~= tag4(0x50, 0x57, 0x56, 0x35));
        assert(bytes@ =~= be16_bytes(self.pwv5@));
        detail_section(&tag, 2, 0x0096_0305, bytes.as_slice())
    }

    /// `PWV4` for the `.EXT` file.
    pub fn pwv4_section(&self) -> (s: Section)
        requires
            self.fits(),
        ensures
            s.tag@ == tag4(0x50, 0x57, 0x56, 0x34),
            s.bytes@ == spec_detail(tag4(0x50, 0x57, 0x56, 0x34), 6, 0, flat6(self.pwv4@)),
    {
        let bytes = columns6(self.pwv4.as_slice());
        proof { lemma_flat6_len(self.pwv4@); }
        let tag: [u8; 4] = [0x50, 0x57, 0x56, 0x34];
        assert(tag@ =~= tag4(0x50, 0x57, 0x56, 0x34));
        detail_section(&tag, 6, 0, bytes.as_slice())
    }

    /// The `PWV6` payload.
    pub open spec fn pwv6_payload(&self) -> Seq<u8> {
        be32(3) + be32((self.pwv6@.len() % 0x1_0000_0000) as u32) + flat3(self.pwv6@)
    }

    /// The `PWVC` payload.
    pub open spec fn pwvc_payload(&self) -> Seq<u8> {
        be16(0) + be16(self.gains[0]) + be16(self.gains[1]) + be16(self.gains[2])
    }

    /// `PWV7`, `PWV6` and `PWVC` for the `.2EX` file, in that order.
    pub fn two_ex_sections(&self) -> (v: Vec<Section>)
        requires
            self.fits(),
        ensures
            v@.map_values(|s: Section| section_view(s)) == seq![
                (tag4(0x50, 0x57, 0x56, 0x37), spec_detail(tag4(0x50, 0x57, 0x56, 0x37), 3, 0x0096_0000, flat3(self.pwv7@))),
                (tag4(0x50, 0x57, 0x56, 0x36), spec_section(tag4(0x50, 0x57, 0x56, 0x36), 0x14, self.pwv6_payload())),
                (tag4(0x50, 0x57, 0x56, 0x43), spec_section(tag4(0x50, 0x57, 0x56, 0x43), 0x0e, self.pwvc_payload())),
            ],
    {
        let pwv7 = columns3(self.pwv7.as_slice());
        let pwv6 = columns3(self.pwv6.as_slice());
        proof {
            lemma_flat3_len(self.pwv7@);
            lemma_flat3_len(self.pwv6@);
        }
        let mut p6: Vec<u8> = Vec::new();
        push_be32(&mut p6, 3);
        push_be32(&mut p6, ((self.pwv6.len() as u64) % 0x1_0000_0000u64) as u32);
        push_all(&mut p6, pwv6.as_slice());
        let mut pc: Vec<u8> = Vec::new();
        push_be16(&mut pc, 0);
        push_be16(&mut pc, self.gains[0]);
        push_be16(&mut pc, self.gains[1]);
        push_be16(&mut pc, self.gains[2]);
        let t7: [u8; 4] = [0x50, 0x57, 0x56, 0x37];
        let t6: [u8; 4] = [0x50, 0x57, 0x56, 0x36];
        let tc: [u8; 4] = [0x50, 0x57, 0x56, 0x43];
        assert(t7@ =~= tag4(0x50, 0x57, 0x56, 0x37));
        assert(t6@ =~= tag4(0x50, 0x57, 0x56, 0x36));
        assert(tc@ =~= tag4(0x50, 0x57, 0x56, 0x43));
        assert(p6@ =~= self.pwv6_payload());
        assert(pc@ =~= self.pwvc_payload());
        let mut v: Vec<Section> = Vec::new();
        v.push(detail_section(&t7, 3, 0x0096_0000, pwv7.as_slice()));
        v.push(section(&t6, 0x14, p6.as_slice()));
        v.push(section(&tc, 0x0e, pc.as_slice()));
        assert(v@.map_values(|s: Section| section_view(s)) =~= seq![
            (tag4(0x50, 0x57, 0x56, 0x37), spec_detail(tag4(0x50, 0x57, 0x56, 0x37), 3, 0x0096_0000, flat3(self.pwv7@))),
            (tag4(0x50, 0x57, 0x56, 0x36), spec_section(tag4(0x50, 0x57, 0x56, 0x36), 0x14, self.pwv6_payload())),
            (tag4(0x50, 0x57, 0x56, 0x43), spec_section(tag4(0x50, 0x57, 0x56, 0x43), 0x0e, self.pwvc_payload())),
        ]);
        v
    }
}

proof fn lemma_flat3_len(v: Seq<[u8; 3]>)
    ensures
        flat3(v).len() == 3 * v.len(),
    decreases v.len(),
{
    if v.len() > 0 {
        lemma_flat3_len(v.drop_last());
        assert(v.map_values(|a: [u8; 3]| a@).drop_last() =~= v.drop_last().map_values(|a: [u8; 3]| a@));
    }
}

proof fn lemma_flat6_len(v: Seq<[u8; 6]>)
    ensures
        flat6(v).len() == 6 * v.len(),
    decreases v.len(),
{
    if v.len() > 0 {
        lemma_flat6_len(v.drop_last());
        assert(v.map_values(|a: [u8; 6]| a@).drop_last() =~= v.drop_last().map_values(|a: [u8; 6]| a@));
    }
}

}
