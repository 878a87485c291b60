//! Cue sections. Local analysis files carry empty `PCOB`/`PCO2` containers
//! that are filled at export time; here they are filled from the XML
//! `POSITION_MARK` entries instead.
use vstd::prelude::*;
use crate::bytes::{be16, be32, flatten, push_all, push_be16, push_be32, push_zeros, zeros};
use crate::text::{be16_bytes, utf16_encode};
use super::section::{section, spec_section, AnlzFile, Section};

verus! {

pub const HOT: u32 = 1;
pub const MEMORY: u32 = 0;
pub const NO_LOOP: u32 = 0xFFFF_FFFF;

/// A `POSITION_MARK` with its times in milliseconds.
#[derive(Debug, Clone, Default)]
pub struct Cue {
    pub name: String,
    /// rekordbox `Type`: 0 cue, 1 fade-in, 2 fade-out, 3 load, 4 loop.
    pub kind: u32,
    /// Start, milliseconds.
    pub start_ms: u32,
    /// End of a loop, milliseconds.
    pub end_ms: Option<u32>,
    /// -1 memory cue, 0..=7 hot cue A..H.
    pub num: i32,
    pub rgb: Option<(u8, u8, u8)>,
    /// Loop length in whole beats; 0 when the loop is not a whole number of
    /// beats or the cue is no loop.
    pub loop_beats: u16,
}

impl Cue {
    pub open spec fn spec_is_hot(&self) -> bool {
        self.num >= 0
    }

    pub open spec fn spec_is_loop(&self) -> bool {
        self.kind == 4 || self.end_ms is Some
    }

    /// A hot cue (A..H) rather than a memory cue.
    pub fn is_hot(&self) -> (r: bool)
        ensures
            r == self.spec_is_hot(),
    {
        self.num >= 0
    }

    /// A loop: type 4, or an end time.
    pub fn is_loop(&self) -> (r: bool)
        ensures
            r == self.spec_is_loop(),
    {
        self.kind == 4 || self.end_ms.is_some()
    }
}

/// `1` for a plain cue, `2` for a loop.
pub open spec fn cue_type(c: Cue) -> u8 {
    if c.spec_is_loop() { 2 } else { 1 }
}

/// The loop end in milliseconds, or `NO_LOOP`.
pub open spec fn loop_ms(c: Cue) -> u32 {
    match c.end_ms {
        Some(e) => e,
        None => NO_LOOP,
    }
}

/// 1-based hot cue number, 0 for memory cues.
pub open spec fn hot_number(c: Cue) -> u32 {
    if c.spec_is_hot() { (c.num + 1) as u32 } else { 0 }
}

/// Hot cue colour bytes `(code, r, g, b)`: the default green (40/226/20) is
/// stored as `1A FF 00`, other colours as they are.
pub open spec fn hot_colour(c: Cue) -> Seq<u8> {
    match c.rgb {
        Some((r, g, b)) => if r == 40 && g == 226 && b == 20 {
            seq![0u8, 0x1au8, 0xffu8, 0u8]
        } else {
            seq![0u8, r, g, b]
        },
        None => seq![0u8, 0u8, 0u8, 0u8],
    }
}

/// Neighbour indices of entry `i` of `n` in a memory list; hot lists have none.
pub open spec fn chain(list: u32, i: int, n: int) -> (u16, u16) {
    if list == HOT {
        (0xFFFF, 0xFFFF)
    } else {
        (
            if i == 0 { 0xFFFFu16 } else { ((i - 1) % 65536) as u16 },
            if i + 1 == n { 0xFFFFu16 } else { ((i + 1) % 65536) as u16 },
        )
    }
}

/// The first 28 bytes of a `PCPT` entry: tag, lengths, hot cue number,
/// status and the list chain.
pub open spec fn pcpt_head(list: u32, c: Cue, i: int, n: int) -> Seq<u8> {
    seq![0x50u8, 0x43u8, 0x50u8, 0x54u8] + be32(0x1c) + be32(0x38) + be32(hot_number(c)) + be32(0)
        + be32(0x0001_0000) + be16(chain(list, i, n).0) + be16(chain(list, i, n).1)
}

/// The last 28 bytes of a `PCPT` entry: type, times and padding.
pub open spec fn pcpt_tail(c: Cue) -> Seq<u8> {
    seq![cue_type(c), 0x00u8, 0x03u8, 0xe8u8] + be32(c.start_ms) + be32(loop_ms(c)) + zeros(16)
}

/// One 56-byte `PCPT` entry.
pub open spec fn pcpt(list: u32, c: Cue, i: int, n: int) -> Seq<u8> {
    pcpt_head(list, c, i, n) + pcpt_tail(c)
}

/// The `PCOB` payload for `cues` in list `list`.
pub open spec fn pcob_payload(list: u32, cues: Seq<Cue>) -> Seq<u8> {
    let n = cues.len() as int;
    let memory_count = if list == MEMORY && n > 0 { (n - 1) as u32 } else { NO_LOOP };
    be32(list) + be16(0) + be16((n % 65536) as u16) + be32(memory_count)
        + flatten(Seq::new(cues.len(), |i: int| pcpt(list, cues[i], i, n)))
}

/// The four bytes `PCOB`.
pub open spec fn pcob_tag() -> Seq<u8> {
    seq![0x50u8, 0x43u8, 0x4Fu8, 0x42u8]
}

/// The four bytes `PCO2`.
pub open spec fn pco2_tag() -> Seq<u8> {
    seq![0x50u8, 0x43u8, 0x4Fu8, 0x32u8]
}

/// The cues behind a list of references.
pub open spec fn derefs(cues: Seq<&Cue>) -> Seq<Cue> {
    cues.map_values(|c: &Cue| *c)
}

proof fn lemma_flatten_step(parts: Seq<Seq<u8>>, i: int)
    requires
        0 <= i < parts.len(),
    ensures
        flatten(parts.take(i + 1)) == flatten(parts.take(i)) + parts[i],
{
    assert(parts.take(i + 1).drop_last() =~= parts.take(i));
}

/// Appends the first half of a `PCPT` entry.
#[verifier::rlimit(60)]
fn push_pcpt_head(p: &mut Vec<u8>, list: u32, c: &Cue, i: usize, n: usize)
    requires
        i < n,
    ensures
        final(p)@ == old(p)@ + pcpt_head(list, *c, i as int, n as int),
{
    p.push(0x50);
    p.push(0x43);
    p.push(0x50);
    p.push(0x54);
    push_be32(p, 0x1c);
    push_be32(p, 0x38);
    let hot: u32 = if c.is_hot() { c.num as u32 + 1 } else { 0 };
    push_be32(p, hot);
    push_be32(p, 0);
    push_be32(p, 0x0001_0000);
    let (first, last): (u16, u16) = if list == HOT {
        (0xFFFF, 0xFFFF)
    } else {
        (
            if i == 0 { 0xFFFF } else { ((i - 1) % 65536) as u16 },
            if i + 1 == n { 0xFFFF } else { ((i + 1) % 65536) as u16 },
        )
    };
    push_be16(p, first);
    push_be16(p, last);
    assert(p@ =~= old(p)@ + pcpt_head(list, *c, i as int, n as int));
}

/// Appends the second half of a `PCPT` entry.
fn push_pcpt_tail(p: &mut Vec<u8>, c: &Cue)
    ensures
        final(p)@ == old(p)@ + pcpt_tail(*c),
{
    p.push(if c.is_loop() { 2u8 } else { 1u8 });
    p.push(0x00);
    p.push(0x03);
    p.push(0xe8);
    push_be32(p, c.start_ms);
    let lm: u32 = match c.end_ms {
        Some(e) => e,
        None => NO_LOOP,
    };
    push_be32(p, lm);
    push_zeros(p, 16);
    assert(p@ =~= old(p)@ + pcpt_tail(*c));
}

/// Appends one `PCPT` entry.
fn push_pcpt(p: &mut Vec<u8>, list: u32, c: &Cue, i: usize, n: usize)
    requires
        i < n,
    ensures
        final(p)@ == old(p)@ + pcpt(list, *c, i as int, n as int),
{
    push_pcpt_head(p, list, c, i, n);
    push_pcpt_tail(p, c);
    assert(p@ =~= old(p)@ + pcpt(list, *c, i as int, n as int));
}

/// `PCOB` for the `.DAT` file (56-byte `PCPT` entries).
pub fn pcob(list: u32, cues: &[&Cue]) -> (s: Section)
    requires
        56 * cues@.len() + 24 <= usize::MAX,
    ensures
        s.tag@ == pcob_tag(),
        s.bytes@ == spec_section(pcob_tag(), 0x18, pcob_payload(list, derefs(cues@))),
{
    let ghost cs = derefs(cues@);
    let n = cues.len();
    let mut p: Vec<u8> = Vec::new();
    push_be32(&mut p, list);
    push_be16(&mut p, 0);
    push_be16(&mut p, (n % 65536) as u16);
    let memory_count: u32 = if list == MEMORY && n > 0 { (n - 1) as u32 } else { NO_LOOP };
    push_be32(&mut p, memory_count);
    let ghost head = p@;
    let ghost entries = Seq::new(cs.len(), |i: int| pcpt(list, cs[i], i, n as int));
    let mut i: usize = 0;
    while i < n
        invariant
            n == cues@.len(),
            cs == derefs(cues@),
            entries == Seq::new(cs.len(), |i: int| pcpt(list, cs[i], i, n as int)),
            56 * n + 24 <= usize::MAX,
            i <= n,
            p@ == head + flatten(entries.take(i as int)),
            p@.len() == 12 + 56 * i,
        decreases n - i,
    {
        let c: &Cue = cues[i];
        let ghost before = p@;
        push_pcpt(&mut p, list, c, i, n);
        proof {
            assert(cs[i as int] == *cues@[i as int]);
            lemma_flatten_step(entries, i as int);
        }
        i = i + 1;
    }
    assert(entries.take(n as int) =~= entries);
    assert(p@ =~= pcob_payload(list, cs));
    let tag: [u8; 4] = [0x50, 0x43, 0x4F, 0x42];
    assert(tag@ =~= pcob_tag());
    section(&tag, 0x18, p.as_slice())
}

/// The empty `PCOB` the `.EXT` file keeps for both lists.
pub fn pcob_empty(list: u32) -> (s: Section)
    ensures
        s.tag@ == pcob_tag(),
        s.bytes@ == spec_section(pcob_tag(), 0x18, pcob_payload(list, Seq::<Cue>::empty())),
{
    let none: Vec<&Cue> = Vec::new();
    let s = pcob(list, none.as_slice());
    assert(derefs(none@) =~= Seq::<Cue>::empty());
    s
}

/// The comment of a cue as stored: UTF-16BE with a NUL, nothing when empty.
pub open spec fn comment_bytes(name: Seq<char>) -> Seq<u8> {
    if name.len() == 0 { seq![] } else { be16_bytes(utf16_encode(name).push(0u16)) }
}

/// Length of a `PCP2` entry.
pub open spec fn pcp2_len(c: Cue) -> int {
    0x2c + comment_bytes(c.name@).len() as int + 4 + 40
}

/// The first 24 bytes of a `PCP2` entry: tag, lengths, number, type, times.
pub open spec fn pcp2_start(c: Cue) -> Seq<u8> {
    seq![0x50u8, 0x43u8, 0x50u8, 0x32u8] + be32(0x10) + be32((pcp2_len(c) % 0x1_0000_0000) as u32)
        + be32(hot_number(c)) + seq![cue_type(c), 0x00u8, 0x03u8, 0xe8u8] + be32(c.start_ms)
}

/// Bytes 24..44 of a `PCP2` entry: loop end, colour id, loop length, comment length.
pub open spec fn pcp2_middle(c: Cue) -> Seq<u8> {
    be32(loop_ms(c)) + seq![0u8, 0x01u8, 0u8, 0u8, 0u8, 0u8, 0u8, 0u8]
        + be16(c.loop_beats) + be16(if c.loop_beats > 0 { 1u16 } else { 0u16 })
        + be32((comment_bytes(c.name@).len() % 0x1_0000_0000) as u32)
}

/// The fixed part of a `PCP2` entry, up to the comment length.
pub open spec fn pcp2_head(c: Cue) -> Seq<u8> {
    pcp2_start(c) + pcp2_middle(c)
}

/// One `PCP2` entry: 88 bytes, more with a comment.
pub open spec fn pcp2(list: u32, c: Cue) -> Seq<u8> {
    pcp2_head(c) + comment_bytes(c.name@) + (if list == HOT { hot_colour(c) } else { zeros(4) }) + zeros(40)
}

/// The `PCO2` payload for `cues` in list `list`.
pub open spec fn pco2_payload(list: u32, cues: Seq<Cue>) -> Seq<u8> {
    be32(list) + be16((cues.len() % 65536) as u16) + be16(0)
        + flatten(Seq::new(cues.len(), |i: int| pcp2(list, cues[i])))
}

fn push_pcp2_start(p: &mut Vec<u8>, c: &Cue, comment_len: usize)
    requires
        comment_len == comment_bytes(c.name@).len(),
        pcp2_len(*c) <= usize::MAX,
    ensures
        final(p)@ == old(p)@ + pcp2_start(*c),
{
    p.push(0x50);
    p.push(0x43);
    p.push(0x50);
    p.push(0x32);
    push_be32(p, 0x10);
    let len = 0x2c + comment_len + 4 + 40;
    push_be32(p, ((len as u64) % 0x1_0000_0000u64) as u32);
    let hot: u32 = if c.is_hot() { c.num as u32 + 1 } else { 0 };
    push_be32(p, hot);
    p.push(if c.is_loop() { 2u8 } else { 1u8 });
    p.push(0x00);
    p.push(0x03);
    p.push(0xe8);
    push_be32(p, c.start_ms);
    assert(p@ =~= old(p)@ + pcp2_start(*c));
}

fn push_pcp2_middle(p: &mut Vec<u8>, c: &Cue, comment_len: usize)
    requires
        comment_len == comment_bytes(c.name@).len(),
    ensures
        final(p)@ == old(p)@ + pcp2_middle(*c),
{
    let lm: u32 = match c.end_ms {
        Some(e) => e,
        None => NO_LOOP,
    };
    push_be32(p, lm);
    p.push(0);
    p.push(0x01);
    push_zeros(p, 6);
    push_be16(p, c.loop_beats);
    push_be16(p, if c.loop_beats > 0 { 1u16 } else { 0u16 });
    push_be32(p, ((comment_len as u64) % 0x1_0000_0000u64) as u32);
    assert(p@ =~= old(p)@ + pcp2_middle(*c));
}

fn push_pcp2_head(p: &mut Vec<u8>, c: &Cue, comment_len: usize)
    requires
        comment_len == comment_bytes(c.name@).len(),
        pcp2_len(*c) <= usize::MAX,
    ensures
        final(p)@ == old(p)@ + pcp2_head(*c),
{
    push_pcp2_start(p, c, comment_len);
    push_pcp2_middle(p, c, comment_len);
    assert(p@ =~= old(p)@ + pcp2_head(*c));
}

/// The comment bytes of a cue.
fn comment_of(c: &Cue) -> (b: Vec<u8>)
    ensures
        b@ == comment_bytes(c.name@),
{
    let mut b: Vec<u8> = Vec::new();
    if !c.name.as_str().is_empty() {
        let mut units = crate::text::encode_utf16(c.name.as_str());
        units.push(0);
        crate::text::push_be16_units(&mut b, units.as_slice());
    }
    assert(b@ =~= comment_bytes(c.name@));
    b
}

fn push_pcp2(p: &mut Vec<u8>, list: u32, c: &Cue)
    requires
        pcp2_len(*c) <= usize::MAX,
    ensures
        final(p)@ == old(p)@ + pcp2(list, *c),
{
    let comment = comment_of(c);
    push_pcp2_head(p, c, comment.len());
    push_all(p, comment.as_slice());
    if list == HOT {
        let (a, b, d): (u8, u8, u8) = match c.rgb {
            Some((r, g, bl)) => if r == 40 && g == 226 && bl == 20 { (0x1a, 0xff, 0) } else { (r, g, bl) },
            None => (0, 0, 0),
        };
        p.push(0);
        p.push(a);
        p.push(b);
        p.push(d);
    } else {
        push_zeros(p, 4);
    }
    push_zeros(p, 40);
    assert(p@ =~= old(p)@ + pcp2(list, *c));
}

/// The fixed part of a `PCP2` entry is 44 bytes long.
proof fn lemma_pcp2_head_len(c: Cue)
    ensures
        pcp2_head(c).len() == 44,
{
}

/// Where the colour of a `PCP2` entry sits: after the 44 fixed bytes and
/// the comment. In the hot list a cue with colour `(r, g, b)` is written
/// as the bytes `0, r, g, b`, except rekordbox's default green
/// (40, 226, 20), which is written `0, 1A, FF, 0`; a hot cue without
/// colour, and every memory cue, has four zero bytes there. Each entry
/// ends with 40 zero bytes after its colour.
pub proof fn lemma_pcp2_colour(list: u32, c: Cue)
    ensures
        ({
            let k: int = 44 + comment_bytes(c.name@).len() as int;
            let e = pcp2(list, c);
            let (r, g, b) = c.rgb->0;
            &&& e.len() == k + 44
            &&& e.subrange(0, 4) == seq![0x50u8, 0x43u8, 0x50u8, 0x32u8]
            &&& (list == HOT && c.rgb is Some && !(r == 40 && g == 226 && b == 20)
                ==> e.subrange(k, k + 4) == seq![0u8, r, g, b])
            &&& (list == HOT && c.rgb == Some((40u8, 226u8, 20u8))
                ==> e.subrange(k, k + 4) == seq![0u8, 0x1au8, 0xffu8, 0u8])
            &&& (list != HOT || c.rgb is None ==> e.subrange(k, k + 4) == seq![0u8, 0u8, 0u8, 0u8])
            &&& forall|j: int| k + 4 <= j < k + 44 ==> e[j] == 0
        }),
{
    lemma_pcp2_head_len(c);
    let k: int = 44 + comment_bytes(c.name@).len() as int;
    let e = pcp2(list, c);
    let col = if list == HOT { hot_colour(c) } else { zeros(4) };
    assert(e == pcp2_head(c) + comment_bytes(c.name@) + col + zeros(40));
    assert(e.subrange(k, k + 4) =~= col);
    assert(e.subrange(0, 4) =~= pcp2_head(c).subrange(0, 4));
    assert(pcp2_head(c).subrange(0, 4) =~= seq![0x50u8, 0x43u8, 0x50u8, 0x32u8]);
    if list != HOT {
        assert(zeros(4) =~= seq![0u8, 0u8, 0u8, 0u8]);
    }
    assert forall|j: int| k + 4 <= j < k + 44 implies e[j] == 0 by {
        assert(e[j] == zeros(40)[j - k - 4]);
    }
}

/// The fields of a `PCP2` entry, read back big-endian: the hot cue number
/// (pad number plus one, 0 for a memory cue) at byte 12, the type (2 for a
/// loop, 1 otherwise) at 16, the start in milliseconds at 20, the loop end
/// at 24 (`FFFFFFFF` without one), the loop length in beats at 36 and the
/// length of the comment that follows the 44 fixed bytes at 40.
pub proof fn lemma_pcp2_fields(list: u32, c: Cue)
    ensures
        ({
            let e = pcp2(list, c);
            &&& crate::bytes::be32_at(e, 12) == if c.num >= 0 { (c.num + 1) as u32 } else { 0u32 }
            &&& e[16] == if c.kind == 4 || c.end_ms is Some { 2u8 } else { 1u8 }
            &&& crate::bytes::be32_at(e, 20) == c.start_ms
            &&& crate::bytes::be32_at(e, 24) == match c.end_ms { Some(x) => x, None => 0xFFFF_FFFFu32 }
            &&& crate::bytes::be16_at(e, 36) == c.loop_beats
            &&& crate::bytes::be32_at(e, 40) as int == comment_bytes(c.name@).len() % 0x1_0000_0000
            &&& e.subrange(44, 44 + comment_bytes(c.name@).len() as int) == comment_bytes(c.name@)
        }),
{
    lemma_pcp2_head_len(c);
    let e = pcp2(list, c);
    let h = pcp2_head(c);
    let cb = comment_bytes(c.name@);
    let col = if list == HOT { hot_colour(c) } else { zeros(4) };
    assert(e == h + cb + col + zeros(40));
    assert forall|j: int| 0 <= j < 44 implies e[j] == h[j] by {}
    let hot = hot_number(c);
    let lm = loop_ms(c);
    let cl = (cb.len() % 0x1_0000_0000) as u32;
    assert(h[12] == be32(hot)[0] && h[13] == be32(hot)[1] && h[14] == be32(hot)[2] && h[15] == be32(hot)[3]);
    assert(h[20] == be32(c.start_ms)[0] && h[21] == be32(c.start_ms)[1] && h[22] == be32(c.start_ms)[2] && h[23] == be32(c.start_ms)[3]);
    assert(h[24] == be32(lm)[0] && h[25] == be32(lm)[1] && h[26] == be32(lm)[2] && h[27] == be32(lm)[3]);
    assert(h[36] == be16(c.loop_beats)[0] && h[37] == be16(c.loop_beats)[1]);
    assert(h[40] == be32(cl)[0] && h[41] == be32(cl)[1] && h[42] == be32(cl)[2] && h[43] == be32(cl)[3]);
    crate::bytes::lemma_u32_round_trip(hot);
    crate::bytes::lemma_u32_round_trip(c.start_ms);
    crate::bytes::lemma_u32_round_trip(lm);
    crate::bytes::lemma_u32_round_trip(cl);
    crate::bytes::lemma_u16_round_trip(c.loop_beats);
    assert(e.subrange(44, 44 + cb.len() as int) =~= cb);
}

/// `PCO2` for the `.EXT` file (88-byte `PCP2` entries, longer with a comment).
#[verifier::rlimit(40)]
pub fn pco2(list: u32, cues: &[&Cue]) -> (s: Section)
    requires
        pco2_payload(list, derefs(cues@)).len() + 12 <= usize::MAX,
    ensures
        s.tag@ == pco2_tag(),
        s.bytes@ == spec_section(pco2_tag(), 0x14, pco2_payload(list, derefs(cues@))),
{
    let ghost cs = derefs(cues@);
    let n = cues.len();
    let mut p: Vec<u8> = Vec::new();
    push_be32(&mut p, list);
    push_be16(&mut p, (n % 65536) as u16);
    push_be16(&mut p, 0);
    let ghost head = p@;
    let ghost entries = Seq::new(cs.len(), |i: int| pcp2(list, cs[i]));
    let ghost total = pco2_payload(list, cs).len();
    let mut i: usize = 0;
    while i < n
        invariant
            n == cues@.len(),
            cs == derefs(cues@),
            entries == Seq::new(cs.len(), |i: int| pcp2(list, cs[i])),
            total == pco2_payload(list, cs).len(),
            total + 12 <= usize::MAX,
            head == be32(list) + be16((n % 65536) as u16) + be16(0),
            i <= n,
            p@ == head + flatten(entries.take(i as int)),
        decreases n - i,
    {
        let c: &Cue = cues[i];
        proof {
            assert(cs[i as int] == *cues@[i as int]);
            lemma_flatten_step(entries, i as int);
            crate::bytes::lemma_flatten_prefix(entries, i + 1);
            assert(pco2_payload(list, cs) =~= head + flatten(entries));
        }
        push_pcp2(&mut p, list, c);
        i = i + 1;
    }
    assert(entries.take(n as int) =~= entries);
    assert(p@ =~= pco2_payload(list, cs));
    let tag: [u8; 4] = [0x50, 0x43, 0x4F, 0x32];
    assert(tag@ =~= pco2_tag());
    section(&tag, 0x14, p.as_slice())
}

/// The hot (`want_hot`) or memory cues of `cues`, last first: their order
/// in the analysis file is the reverse of the XML order.
pub open spec fn rev_select(cues: Seq<Cue>, want_hot: bool) -> Seq<Cue>
    decreases cues.len(),
{
    if cues.len() == 0 {
        seq![]
    } else {
        let rest = rev_select(cues.drop_last(), want_hot);
        if cues.last().spec_is_hot() == want_hot { seq![cues.last()] + rest } else { rest }
    }
}

/// Split into (hot, memory), each in reverse XML order.
pub fn split(cues: &[Cue]) -> (r: (Vec<&Cue>, Vec<&Cue>))
    ensures
        derefs(r.0@) == rev_select(cues@, true),
        derefs(r.1@) == rev_select(cues@, false),
{
    let mut hot: Vec<&Cue> = Vec::new();
    let mut mem: Vec<&Cue> = Vec::new();
    let mut i = cues.len();
    proof { assert(cues@.take(i as int) =~= cues@); }
    while i > 0
        invariant
            i <= cues@.len(),
            derefs(hot@) + rev_select(cues@.take(i as int), true) == rev_select(cues@, true),
            derefs(mem@) + rev_select(cues@.take(i as int), false) == rev_select(cues@, false),
        decreases i,
    {
        let ghost t = cues@.take(i as int);
        proof {
            assert(t.drop_last() =~= cues@.take(i - 1));
            assert(t.last() == cues@[i - 1]);
        }
        let c = &cues[i - 1];
        let ghost h0 = derefs(hot@);
        let ghost m0 = derefs(mem@);
        if c.is_hot() {
            hot.push(c);
            assert(derefs(hot@) =~= h0.push(*c));
        } else {
            mem.push(c);
            assert(derefs(mem@) =~= m0.push(*c));
        }
        i = i - 1;
        proof {
            assert(derefs(hot@) + rev_select(cues@.take(i as int), true) =~= rev_select(cues@, true));
            assert(derefs(mem@) + rev_select(cues@.take(i as int), false) =~= rev_select(cues@, false));
        }
    }
    assert(cues@.take(0) =~= Seq::<Cue>::empty());
    assert(derefs(hot@) + Seq::<Cue>::empty() =~= derefs(hot@));
    assert(derefs(mem@) + Seq::<Cue>::empty() =~= derefs(mem@));
    (hot, mem)
}

/// Which analysis file the sections are for.
#[derive(Debug, Clone, Copy, PartialEq, Eq)]
pub enum Kind {
    Dat,
    Ext,
}

proof fn lemma_rev_select_len(cues: Seq<Cue>, want_hot: bool)
    ensures
        rev_select(cues, want_hot).len() <= cues.len(),
    decreases cues.len(),
{
    if cues.len() > 0 {
        lemma_rev_select_len(cues.drop_last(), want_hot);
    }
}

/// Every cue section of `cues` fits in memory.
pub open spec fn cue_sections_fit(cues: Seq<Cue>) -> bool {
    &&& 56 * cues.len() + 24 <= usize::MAX
    &&& pco2_payload(HOT, rev_select(cues, true)).len() + 12 <= usize::MAX
    &&& pco2_payload(MEMORY, rev_select(cues, false)).len() + 12 <= usize::MAX
}

/// The cue sections of one analysis file as (tag, bytes): `PCOB` hot,
/// `PCOB` memory, and in the `.EXT` (where both `PCOB` stay empty) also
/// `PCO2` hot and `PCO2` memory.
pub open spec fn spec_cue_sections(kind: Kind, cues: Seq<Cue>) -> Seq<(Seq<u8>, Seq<u8>)> {
    let hot = rev_select(cues, true);
    let mem = rev_select(cues, false);
    match kind {
        Kind::Dat => seq![
            (pcob_tag(), spec_section(pcob_tag(), 0x18, pcob_payload(HOT, hot))),
            (pcob_tag(), spec_section(pcob_tag(), 0x18, pcob_payload(MEMORY, mem))),
        ],
        Kind::Ext => seq![
            (pcob_tag(), spec_section(pcob_tag(), 0x18, pcob_payload(HOT, Seq::<Cue>::empty()))),
            (pcob_tag(), spec_section(pcob_tag(), 0x18, pcob_payload(MEMORY, Seq::<Cue>::empty()))),
            (pco2_tag(), spec_section(pco2_tag(), 0x14, pco2_payload(HOT, hot))),
            (pco2_tag(), spec_section(pco2_tag(), 0x14, pco2_payload(MEMORY, mem))),
        ],
    }
}

/// Sections as (tag, bytes).
pub open spec fn views_of(secs: Seq<Section>) -> Seq<(Seq<u8>, Seq<u8>)> {
    secs.map_values(|s: Section| super::section::section_view(s))
}

/// The cue sections of one analysis file in rekordbox's order.
#[verifier::rlimit(40)]
pub fn sections(kind: Kind, cues: &[Cue]) -> (v: Vec<Section>)
    requires
        cue_sections_fit(cues@),
    ensures
        views_of(v@) == spec_cue_sections(kind, cues@),
{
    let (hot, mem) = split(cues);
    proof {
        lemma_rev_select_len(cues@, true);
        lemma_rev_select_len(cues@, false);
    }
    let mut v: Vec<Section> = Vec::new();
    match kind {
        Kind::Dat => {
            v.push(pcob(HOT, hot.as_slice()));
            v.push(pcob(MEMORY, mem.as_slice()));
        },
        Kind::Ext => {
            v.push(pcob_empty(HOT));
            v.push(pcob_empty(MEMORY));
            v.push(pco2(HOT, hot.as_slice()));
            v.push(pco2(MEMORY, mem.as_slice()));
        },
    }
    assert(views_of(v@) =~= spec_cue_sections(kind, cues@));
    v
}

/// A cue section tag.
pub open spec fn is_cue_tag(t: Seq<u8>) -> bool {
    t == pcob_tag() || t == pco2_tag()
}

/// How many of `secs` are cue sections.
pub open spec fn cue_count(secs: Seq<(Seq<u8>, Seq<u8>)>) -> int
    decreases secs.len(),
{
    if secs.len() == 0 {
        0
    } else {
        cue_count(secs.drop_last()) + if is_cue_tag(secs.last().0) { 1int } else { 0int }
    }
}

/// `secs` with its cue sections replaced one by one by `fresh`, in order,
/// as long as `fresh` lasts.
pub open spec fn spliced(secs: Seq<(Seq<u8>, Seq<u8>)>, fresh: Seq<(Seq<u8>, Seq<u8>)>) -> Seq<(Seq<u8>, Seq<u8>)> {
    Seq::new(secs.len(), |i: int| {
        let r = cue_count(secs.take(i));
        if is_cue_tag(secs[i].0) && r < fresh.len() { fresh[r] } else { secs[i] }
    })
}

/// One step of the splice: section `i` of the file.
proof fn lemma_splice_step(orig: Seq<(Seq<u8>, Seq<u8>)>, all: Seq<(Seq<u8>, Seq<u8>)>, i: int)
    requires
        0 <= i < orig.len(),
    ensures
        cue_count(orig.take(i + 1)) == cue_count(orig.take(i)) + if is_cue_tag(orig[i].0) { 1int } else { 0int },
        spliced(orig, all)[i] == if is_cue_tag(orig[i].0) && cue_count(orig.take(i)) < all.len() {
            all[cue_count(orig.take(i))]
        } else {
            orig[i]
        },
{
    assert(orig.take(i + 1).drop_last() =~= orig.take(i));
}

proof fn lemma_cue_count_nonneg(secs: Seq<(Seq<u8>, Seq<u8>)>)
    ensures
        cue_count(secs) >= 0,
    decreases secs.len(),
{
    if secs.len() > 0 {
        lemma_cue_count_nonneg(secs.drop_last());
    }
}

/// Replace the cue sections of `file` with ones generated from `cues`,
/// keeping the file's section order.
#[verifier::rlimit(80)]
pub fn splice(file: &mut AnlzFile, kind: Kind, cues: &[Cue])
    requires
        cue_sections_fit(cues@),
    ensures
        final(file).header_tail == old(file).header_tail,
        final(file).parts() == spliced(old(file).parts(), spec_cue_sections(kind, cues@)),
{
    let mut fresh = sections(kind, cues);
    let ghost all = views_of(fresh@);
    let ghost orig = file.parts();
    let pcob_t: [u8; 4] = [0x50, 0x43, 0x4F, 0x42];
    let pco2_t: [u8; 4] = [0x50, 0x43, 0x4F, 0x32];
    assert(pcob_t@ =~= pcob_tag());
    assert(pco2_t@ =~= pco2_tag());
    let mut i: usize = 0;
    let mut j: usize = 0;
    while i < file.sections.len()
        invariant
            i <= file.sections@.len(),
            file.sections@.len() == orig.len(),
            file.header_tail == old(file).header_tail,
            orig == old(file).parts(),
            pcob_t@ == pcob_tag(),
            pco2_t@ == pco2_tag(),
            j <= i,
            j as int == if cue_count(orig.take(i as int)) < all.len() { cue_count(orig.take(i as int)) } else { all.len() as int },
            fresh@.len() == all.len(),
            forall|k: int| j <= k < all.len() ==> #[trigger] super::section::section_view(fresh@[k]) == all[k],
            forall|k: int| 0 <= k < orig.len() ==> #[trigger] file.parts()[k] == if k < i {
                spliced(orig, all)[k]
            } else {
                orig[k]
            },
        decreases orig.len() - i,
    {
        proof {
            lemma_splice_step(orig, all, i as int);
            lemma_cue_count_nonneg(orig.take(i as int));
            assert(file.parts()[i as int] == orig[i as int]);
        }
        let is_cue = same_tag_of(&file.sections[i].tag, &pcob_t) || same_tag_of(&file.sections[i].tag, &pco2_t);
        let ghost p0 = file.parts();
        proof {
            assert(p0[i as int] == super::section::section_view(file.sections@[i as int]));
            assert(is_cue == is_cue_tag(orig[i as int].0));
        }
        if is_cue && j < fresh.len() {
            let mut next = Section { tag: [0u8; 4], bytes: Vec::new() };
            let ghost before = file.sections@;
            std::mem::swap(&mut next, &mut fresh[j]);
            file.sections.set(i, next);
            proof {
                assert(file.sections@ == before.update(i as int, next));
                assert(super::section::section_view(next) == all[j as int]);
            }
            j = j + 1;
        }
        proof {
            assert forall|k: int| 0 <= k < orig.len() implies #[trigger] file.parts()[k] == if k < i + 1 {
                spliced(orig, all)[k]
            } else {
                orig[k]
            } by {
                if k != i {
                    assert(file.parts()[k] == p0[k]);
                }
            }
        }
        i = i + 1;
    }
    assert(file.parts() =~= spliced(orig, all));
}

/// Whether two tags are the same four bytes.
fn same_tag_of(a: &[u8; 4], b: &[u8; 4]) -> (r: bool)
    ensures
        r == (a@ == b@),
{
    let r = a[0] == b[0] && a[1] == b[1] && a[2] == b[2] && a[3] == b[3];
    if r {
        assert(a@ =~= b@);
    }
    r
}

}
