//! Turn a local analysis file into the one that goes on the stick.
use vstd::prelude::*;
use crate::bytes::{be32, zeros};
use super::section::{find_from, without_tag, AnlzFile};

verus! {

/// The three analysis files of a track.
#[derive(Debug, Clone, Copy, PartialEq, Eq)]
pub enum FileKind {
    Dat,
    Ext,
    TwoEx,
}

impl FileKind {
    /// File name extension, upper case.
    pub fn extension(self) -> (r: &'static str)
        ensures
            self == FileKind::Dat ==> r@ == "DAT"@,
            self == FileKind::Ext ==> r@ == "EXT"@,
            self == FileKind::TwoEx ==> r@ == "2EX"@,
    {
        match self {
            FileKind::Dat => "DAT",
            FileKind::Ext => "EXT",
            FileKind::TwoEx => "2EX",
        }
    }
}

/// The four bytes `PVBR`.
pub open spec fn pvbr_tag() -> Seq<u8> {
    seq![0x50u8, 0x56u8, 0x42u8, 0x52u8]
}

/// The four bytes `PVB2`.
pub open spec fn pvb2_tag() -> Seq<u8> {
    seq![0x50u8, 0x56u8, 0x42u8, 0x32u8]
}

/// A 1620-byte `PVBR` rewritten for a CBR MP3: 400 zero entries and a
/// trailer of audio frames x 1152.
pub open spec fn cbr_pvbr(old_bytes: Seq<u8>, audio_frames: u32) -> Seq<u8> {
    old_bytes.take(16) + zeros(1600) + be32(audio_frames.wrapping_mul(1152))
}

/// `PVBR` for a CBR MP3: 400 zero entries and a trailer of audio frames x 1152.
/// A missing `PVBR`, or one of another size, is left alone.
pub fn set_cbr_pvbr(file: &mut AnlzFile, audio_frames: u32)
    ensures
        final(file).header_tail == old(file).header_tail,
        ({
            let k = find_from(old(file).sections@, pvbr_tag(), 0);
            if k >= 0 && old(file).sections@[k].bytes@.len() == 1620 {
                final(file).parts() == old(file).parts().update(k,
                    (pvbr_tag(), cbr_pvbr(old(file).sections@[k].bytes@, audio_frames)))
            } else {
                final(file).parts() == old(file).parts()
            }
        }),
{
    let tag: [u8; 4] = [0x50, 0x56, 0x42, 0x52];
    assert(tag@ =~= pvbr_tag());
    proof { super::section::lemma_find_from(file.sections@, pvbr_tag(), 0); }
    let ghost before = file.parts();
    match file.find_mut(&tag) {
        Some(s) => {
            if s.bytes.len() == 1620 {
                let ghost orig = s.bytes@;
                let ghost t0 = s.tag;
                assert(t0@ == pvbr_tag());
                let mut i: usize = 16;
                while i < 1616
                    invariant
                        16 <= i <= 1616,
                        s.bytes@.len() == 1620,
                        orig.len() == 1620,
                        s.tag == t0,
                        forall|j: int| 0 <= j < 1620 ==> #[trigger] s.bytes@[j] == if 16 <= j < i { 0u8 } else { orig[j] },
                    decreases 1616 - i,
                {
                    s.bytes.set(i, 0);
                    i = i + 1;
                }
                crate::bytes::set_be32(&mut s.bytes, 1616, audio_frames.wrapping_mul(1152));
                assert(s.bytes@ =~= cbr_pvbr(orig, audio_frames));
                assert(s.tag@ == pvbr_tag());
            }
        },
        None => {},
    }
    proof {
        let k = find_from(old(file).sections@, pvbr_tag(), 0);
        if k >= 0 && old(file).sections@[k].bytes@.len() == 1620 {
            let want = before.update(k, (pvbr_tag(), cbr_pvbr(old(file).sections@[k].bytes@, audio_frames)));
            assert forall|i: int| 0 <= i < want.len() implies #[trigger] file.parts()[i] == want[i] by {
                if i == k {
                    assert(file.sections@[k].tag@ == pvbr_tag());
                }
            }
            assert(file.parts() =~= want);
        } else {
            assert(file.parts() =~= before);
        }
    }
}

/// `PVB2` describes FLAC seeking; it has no meaning for an MP3 copy.
pub fn strip_pvb2(file: &mut AnlzFile)
    ensures
        final(file).sections@ == without_tag(old(file).sections@, pvb2_tag()),
        final(file).header_tail == old(file).header_tail,
{
    let tag: [u8; 4] = [0x50, 0x56, 0x42, 0x32];
    assert(tag@ =~= pvb2_tag());
    file.remove(&tag);
}

/// MPEG-1 layer III bitrates in kbit/s by header index; 0 is invalid.
pub open spec fn bitrate_kbps(i: int) -> int {
    seq![0int, 32, 40, 48, 56, 64, 80, 96, 112, 128, 160, 192, 224, 256, 320, 0][i]
}

/// MPEG-1 sample rates by header index; 0 is invalid.
pub open spec fn sample_rate(i: int) -> int {
    seq![44100int, 48000, 32000, 0][i]
}

/// Where the audio starts: after an ID3v2 tag, whose size is four
/// seven-bit bytes.
pub open spec fn audio_start(data: Seq<u8>) -> int {
    if data.len() > 10 && data[0] == 0x49 && data[1] == 0x44 && data[2] == 0x33 {
        10 + (data[6] % 128) * 0x20_0000 + (data[7] % 128) * 0x4000 + (data[8] % 128) * 0x80 + data[9] % 128
    } else {
        0
    }
}

/// The four bytes at `pos` start an MPEG-1 layer III frame header.
pub open spec fn is_frame_header(data: Seq<u8>, pos: int) -> bool {
    let h1 = data[pos + 1];
    let h2 = data[pos + 2];
    &&& data[pos] == 0xff
    &&& h1 / 32 == 7
    &&& (h1 / 8) % 4 == 3
    &&& (h1 / 2) % 4 == 1
    &&& bitrate_kbps((h2 / 16) as int) != 0
    &&& sample_rate(((h2 / 4) % 4) as int) != 0
}

/// Length in bytes of the frame whose header is at `pos`.
pub open spec fn frame_len(data: Seq<u8>, pos: int) -> int {
    let h2 = data[pos + 2];
    144 * bitrate_kbps((h2 / 16) as int) * 1000 / sample_rate(((h2 / 4) % 4) as int) + (h2 / 2) % 2
}

/// `Xing` or `Info` starts at `j`.
pub open spec fn is_vbr_marker(data: Seq<u8>, j: int) -> bool {
    data.subrange(j, j + 4) == seq![0x58u8, 0x69u8, 0x6Eu8, 0x67u8]
        || data.subrange(j, j + 4) == seq![0x49u8, 0x6Eu8, 0x66u8, 0x6Fu8]
}

/// `Xing` or `Info` occurs in `data` between `from` and `to`.
pub open spec fn has_vbr_marker(data: Seq<u8>, from: int, to: int) -> bool {
    exists|j: int| from <= j && j + 4 <= to && #[trigger] is_vbr_marker(data, j)
}

/// Audio frames counted from `pos` on: junk is skipped until the first
/// frame, counting stops at the first bad header after it, and a first
/// frame carrying a Xing/Info header is not counted.
pub open spec fn count_frames(data: Seq<u8>, pos: int, frames: nat, first: bool) -> nat
    decreases data.len() + 2000 - pos,
{
    if pos < 0 || pos + 4 > data.len() {
        frames
    } else if !is_frame_header(data, pos) {
        if frames == 0 { count_frames(data, pos + 1, frames, first) } else { frames }
    } else {
        let len = frame_len(data, pos);
        proof { lemma_frame_len_pos(data, pos); }
        let end = if pos + len < data.len() { pos + len } else { data.len() as int };
        if first && has_vbr_marker(data, pos, end) {
            count_frames(data, pos + len, frames, false)
        } else {
            count_frames(data, pos + len, frames + 1, false)
        }
    }
}

/// The MPEG audio frames of an MP3 file's bytes, the way its `PVBR`
/// trailer counts them.
pub open spec fn spec_audio_frames(data: Seq<u8>) -> nat {
    count_frames(data, audio_start(data), 0, true)
}

pub proof fn lemma_frame_len_pos(data: Seq<u8>, pos: int)
    requires
        0 <= pos,
        pos + 4 <= data.len(),
        is_frame_header(data, pos),
    ensures
        96 <= frame_len(data, pos) <= 1441,
{
    let h2 = data[pos + 2];
    let b = bitrate_kbps((h2 / 16) as int);
    let r = sample_rate(((h2 / 4) % 4) as int);
    assert(32 <= b <= 320);
    assert(32000 <= r <= 48000);
    assert(144 * b * 1000 / r >= 96) by (nonlinear_arith)
        requires 32 <= b, r <= 48000, 32000 <= r;
    assert(144 * b * 1000 / r <= 1440) by (nonlinear_arith)
        requires b <= 320, 32000 <= r;
}

/// Counting never goes below the frames already counted.
proof fn lemma_count_frames_bound(data: Seq<u8>, pos: int, frames: nat, first: bool)
    ensures
        count_frames(data, pos, frames, first) >= frames,
    decreases data.len() + 2000 - pos,
{
    if pos >= 0 && pos + 4 <= data.len() {
        if !is_frame_header(data, pos) {
            if frames == 0 {
                lemma_count_frames_bound(data, pos + 1, frames, first);
            }
        } else {
            lemma_frame_len_pos(data, pos);
            lemma_count_frames_bound(data, pos + frame_len(data, pos), frames, false);
            lemma_count_frames_bound(data, pos + frame_len(data, pos), frames + 1, false);
        }
    }
}

/// Whether `Xing` or `Info` occurs between `from` and `to`.
fn find_vbr_marker(data: &[u8], from: usize, to: usize) -> (r: bool)
    requires
        from <= to <= data@.len(),
    ensures
        r == has_vbr_marker(data@, from as int, to as int),
{
    let mut j = from;
    while j < to && to - j >= 4
        invariant
            from <= j,
            to <= data@.len(),
            forall|k: int| from <= k < j && k + 4 <= to ==> !#[trigger] is_vbr_marker(data@, k),
        decreases to - j,
    {
        let xing = data[j] == 0x58 && data[j + 1] == 0x69 && data[j + 2] == 0x6E && data[j + 3] == 0x67;
        let info = data[j] == 0x49 && data[j + 1] == 0x6E && data[j + 2] == 0x66 && data[j + 3] == 0x6F;
        if xing || info {
            proof {
                if xing {
                    assert(data@.subrange(j as int, j + 4) =~= seq![0x58u8, 0x69u8, 0x6Eu8, 0x67u8]);
                } else {
                    assert(data@.subrange(j as int, j + 4) =~= seq![0x49u8, 0x6Eu8, 0x66u8, 0x6Fu8]);
                }
                assert(is_vbr_marker(data@, j as int));
            }
            return true;
        }
        proof {
            let w = data@.subrange(j as int, j + 4);
            if w == seq![0x58u8, 0x69u8, 0x6Eu8, 0x67u8] {
                assert(w[0] == data@[j as int] && w[1] == data@[j + 1] && w[2] == data@[j + 2] && w[3] == data@[j + 3]);
            }
            if w == seq![0x49u8, 0x6Eu8, 0x66u8, 0x6Fu8] {
                assert(w[0] == data@[j as int] && w[1] == data@[j + 1] && w[2] == data@[j + 2] && w[3] == data@[j + 3]);
            }
            assert(!is_vbr_marker(data@, j as int));
        }
        j = j + 1;
    }
    false
}

/// Count the MPEG audio frames of an MP3's bytes, skipping the ID3v2 tag
/// and a Xing/Info header frame the way the `PVBR` trailer does.
pub fn mp3_audio_frames(data: &[u8]) -> (frames: u32)
    requires
        spec_audio_frames(data@) <= u32::MAX,
    ensures
        frames == spec_audio_frames(data@),
{
    proof { assert(data@.len() == data.len()); }
    let mut pos: usize = 0;
    if data.len() > 10 && data[0] == 0x49 && data[1] == 0x44 && data[2] == 0x33 {
        let size = ((data[6] as usize % 128) * 0x20_0000) + ((data[7] as usize % 128) * 0x4000)
            + ((data[8] as usize % 128) * 0x80) + (data[9] as usize % 128);
        pos = 10 + size;
    }
    let bitrates: [u32; 16] = [0, 32, 40, 48, 56, 64, 80, 96, 112, 128, 160, 192, 224, 256, 320, 0];
    let rates: [u32; 4] = [44100, 48000, 32000, 0];
    let mut frames: u32 = 0;
    let mut first = true;
    let mut done = false;
    assert(count_frames(data@, pos as int, 0, true) == spec_audio_frames(data@));
    assert(bitrates@.len() == 16 && rates@.len() == 4);
    while !done && pos <= data.len() && data.len() - pos >= 4
        invariant
            data@.len() == data.len(),
            bitrates@.len() == 16,
            rates@.len() == 4,
            done ==> frames as nat == spec_audio_frames(data@),
            !done ==> count_frames(data@, pos as int, frames as nat, first) == spec_audio_frames(data@),
            spec_audio_frames(data@) <= u32::MAX,
            forall|i: int| 0 <= i < 16 ==> #[trigger] bitrates@[i] as int == bitrate_kbps(i),
            forall|i: int| 0 <= i < 4 ==> #[trigger] rates@[i] as int == sample_rate(i),
        decreases data@.len() - pos + if done { 0int } else { 1int },
    {
        let h0 = data[pos];
        let h1 = data[pos + 1];
        let h2 = data[pos + 2];
        let sync = h0 == 0xff && (h1 & 0xe0) == 0xe0;
        let layer3 = (h1 & 0x18) == 0x18 && (h1 & 0x06) == 0x02;
        proof {
            assert((h2 >> 4) < 16) by (bit_vector);
            assert(((h2 >> 2) & 3) < 4) by (bit_vector);
        }
        let bitrate = bitrates[(h2 >> 4) as usize];
        let rate = rates[((h2 >> 2) & 3) as usize];
        proof {
            assert((h1 & 0xe0) == 0xe0 <==> h1 / 32 == 7) by (bit_vector);
            assert((h1 & 0x18) == 0x18 <==> (h1 / 8) % 4 == 3) by (bit_vector);
            assert((h1 & 0x06) == 0x02 <==> (h1 / 2) % 4 == 1) by (bit_vector);
            assert((h2 >> 4) == h2 / 16) by (bit_vector);
            assert(((h2 >> 2) & 3) == (h2 / 4) % 4) by (bit_vector);
            assert(((h2 >> 1) & 1) == (h2 / 2) % 2) by (bit_vector);
        }
        if !(sync && layer3) || bitrate == 0 || rate == 0 {
            if frames == 0 {
                pos = pos + 1;
            } else {
                done = true;
            }
        } else {
            proof { lemma_frame_len_pos(data@, pos as int); }
            let len = (144 * bitrate * 1000 / rate + ((h2 >> 1) & 1) as u32) as usize;
            let end = if len < data.len() - pos { pos + len } else { data.len() };
            let counted = if first {
                !find_vbr_marker(data, pos, end)
            } else {
                true
            };
            first = false;
            proof {
                assert(frame_len(data@, pos as int) == len);
                lemma_count_frames_bound(data@, pos + len, frames as nat + 1, false);
                let e = if pos + len < data@.len() { pos + len } else { data@.len() as int };
                assert(end as int == e);
                assert(count_frames(data@, pos as int, frames as nat, first) == if first && has_vbr_marker(data@, pos as int, e) {
                    count_frames(data@, pos + len, frames as nat, false)
                } else {
                    count_frames(data@, pos + len, frames as nat + 1, false)
                });
            }
            if counted {
                frames = frames + 1;
            }
            if len > data.len() - pos {
                proof {
                    assert(count_frames(data@, pos + len, frames as nat, false) == frames as nat);
                }
                done = true;
            } else {
                pos = pos + len;
            }
        }
    }
    frames
}

}
