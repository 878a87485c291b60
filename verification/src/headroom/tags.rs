//! Carrying a file's DJ metadata across an ffmpeg re-mux.
//!
//! ffmpeg re-emits only the metadata it can map onto its own key/value model,
//! so the binary payloads DJ software writes are dropped whenever a container
//! is rewritten: ID3v2 `GEOB`/`PRIV` frames on MP3, AIFF and WAV, and
//! free-form `----` atoms on MP4. These functions lift them off the source
//! bytes and put them back over the converted bytes.
use vstd::prelude::*;
use crate::bytes::{be32, be32_at, be64_at, flatten, get_be32, get_be64, get_le32, le32, le32_at, patch_be32, views};

verus! {

/// Metadata an ffmpeg re-mux would drop, lifted off a source file.
pub enum Tags {
    /// A raw ID3v2 tag: MP3's file prefix, or an AIFF/WAV `ID3 ` chunk.
    Id3(Vec<u8>),
    /// Free-form `----` items from an MP4's `moov/udta/meta/ilst`.
    Mp4(Vec<Vec<u8>>),
}

/// What [`Tags`] holds, as plain sequences.
pub enum TagsModel {
    Id3(Seq<u8>),
    Mp4(Seq<Seq<u8>>),
}

impl View for Tags {
    type V = TagsModel;

    open spec fn view(&self) -> TagsModel {
        match self {
            Tags::Id3(t) => TagsModel::Id3(t@),
            Tags::Mp4(items) => TagsModel::Mp4(views(items@)),
        }
    }
}

/// Where a container keeps the metadata worth carrying.
#[derive(Clone, Copy, PartialEq, Eq, Debug)]
pub enum Container {
    /// MP3: the ID3v2 tag is a plain file prefix.
    Mp3,
    /// AIFF: an `ID3 ` chunk inside a big-endian FORM.
    Aiff,
    /// WAV: an `id3 ` chunk inside a little-endian RIFF.
    Wav,
    /// MP4 (ALAC or AAC in `.m4a`): `----` items nested in `moov`.
    Mp4,
}

/// Why putting tags back over a converted file failed.
#[derive(Clone, Copy, PartialEq, Eq, Debug)]
pub enum TagsError {
    /// The file is shorter than a RIFF/FORM header.
    TruncatedHeader,
    /// The MP4 has no top-level `moov` box.
    NoMoov,
    /// `moov` is not the last box, so growing it would move `mdat`.
    MoovNotLast,
    /// `moov` has no `udta/meta/ilst` chain to splice into.
    NoIlst,
    /// A 64-bit box length runs past the end of the file.
    TruncatedBox,
}

/// `b` with ASCII upper case mapped to lower case.
pub open spec fn ascii_lower_byte(b: u8) -> u8 {
    if 0x41 <= b <= 0x5a { (b + 32) as u8 } else { b }
}

/// The chunk id at `pos` spells `id3 ` in either case.
pub open spec fn is_id3_at(data: Seq<u8>, pos: int) -> bool {
    &&& ascii_lower_byte(data[pos]) == 0x69u8
    &&& ascii_lower_byte(data[pos + 1]) == 0x64u8
    &&& data[pos + 2] == 0x33u8
    &&& data[pos + 3] == 0x20u8
}

/// The length a chunk header at `pos` declares.
pub open spec fn declared_len(data: Seq<u8>, pos: int, big_endian: bool) -> u32 {
    if big_endian { be32_at(data, pos + 4) } else { le32_at(data, pos + 4) }
}

/// The declared length, cut at the end of the data.
pub open spec fn clamped_len(data: Seq<u8>, pos: int, big_endian: bool) -> int {
    let d = declared_len(data, pos, big_endian) as int;
    let room = data.len() - pos - 8;
    if d <= room { d } else { room }
}

/// A chunk's payload length with the pad byte that keeps chunks even-aligned.
pub open spec fn padded(len: int) -> int {
    if len % 2 == 1 { len + 1 } else { len }
}

/// `(header offset, payload length)` of every chunk from `pos` on.
pub open spec fn chunk_spans(data: Seq<u8>, pos: int, big_endian: bool) -> Seq<(int, int)>
    decreases data.len() + 1 - pos,
{
    if 0 <= pos && pos + 8 <= data.len() {
        let len = clamped_len(data, pos, big_endian);
        seq![(pos, len)] + chunk_spans(data, pos + 8 + padded(len), big_endian)
    } else {
        seq![]
    }
}

/// `(payload offset, payload length)` of the first ID3 chunk from `pos` on.
pub open spec fn find_id3(data: Seq<u8>, pos: int, big_endian: bool) -> Option<(int, int)>
    decreases data.len() + 1 - pos,
{
    if 0 <= pos && pos + 8 <= data.len() {
        let len = clamped_len(data, pos, big_endian);
        if is_id3_at(data, pos) {
            Some((pos + 8, len))
        } else {
            find_id3(data, pos + 8 + padded(len), big_endian)
        }
    } else {
        None
    }
}

/// Every chunk other than the ID3 ones from `pos` on, header and payload,
/// with a pad byte after an odd payload.
pub open spec fn kept_bytes(data: Seq<u8>, pos: int, big_endian: bool) -> Seq<u8>
    decreases data.len() + 1 - pos,
{
    if 0 <= pos && pos + 8 <= data.len() {
        let len = clamped_len(data, pos, big_endian);
        let rest = kept_bytes(data, pos + 8 + padded(len), big_endian);
        if is_id3_at(data, pos) {
            rest
        } else {
            data.subrange(pos, pos + 8 + len) + pad_of(len) + rest
        }
    } else {
        seq![]
    }
}

/// The pad byte an odd length needs.
pub open spec fn pad_of(len: int) -> Seq<u8> {
    if len % 2 == 1 { seq![0u8] } else { seq![] }
}

/// No chunk other than an ID3 one runs past the end of the data.
pub open spec fn kept_chunks_fit(data: Seq<u8>, pos: int, big_endian: bool) -> bool
    decreases data.len() + 1 - pos,
{
    if 0 <= pos && pos + 8 <= data.len() {
        let len = clamped_len(data, pos, big_endian);
        &&& (is_id3_at(data, pos) || declared_len(data, pos, big_endian) as int == len)
        &&& kept_chunks_fit(data, pos + 8 + padded(len), big_endian)
    } else {
        true
    }
}

/// `len` written the way the container writes lengths.
pub open spec fn encode_len(big_endian: bool, len: u32) -> Seq<u8> {
    if big_endian { be32(len) } else { le32(len) }
}

/// The id the tag chunk is written under: `ID3 ` for AIFF, `id3 ` for RIFF.
pub open spec fn tag_chunk_id(big_endian: bool) -> Seq<u8> {
    if big_endian { seq![0x49u8, 0x44u8, 0x33u8, 0x20u8] } else { seq![0x69u8, 0x64u8, 0x33u8, 0x20u8] }
}

/// A RIFF/FORM container with its ID3 chunks replaced by one chunk holding `tag`.
pub open spec fn spliced_chunks(data: Seq<u8>, tag: Seq<u8>, big_endian: bool) -> Seq<u8> {
    let kept = kept_bytes(data, 12, big_endian);
    let size = (4 + kept.len() + 8 + tag.len() + tag.len() % 2) as u32;
    data.subrange(0, 4) + encode_len(big_endian, size) + data.subrange(8, 12) + kept
        + tag_chunk_id(big_endian) + encode_len(big_endian, tag.len() as u32) + tag + pad_of(tag.len() as int)
}

/// Total length an ID3v2 header declares: 10 header bytes, the synch-safe
/// size, and 10 more when flag bit 4 marks a footer.
pub open spec fn spec_prefix_len(h: Seq<u8>) -> Option<u64> {
    if h[0] == 0x49u8 && h[1] == 0x44u8 && h[2] == 0x33u8 {
        let size = (h[6] % 128) as int * 2097152 + (h[7] % 128) as int * 16384
            + (h[8] % 128) as int * 128 + (h[9] % 128) as int;
        Some((10 + size + if (h[5] / 16) % 2 == 1 { 10int } else { 0int }) as u64)
    } else {
        None
    }
}

/// Offset of the first byte after a leading ID3v2 tag, 0 when there is none.
pub open spec fn prefix_end(data: Seq<u8>) -> int {
    if data.len() < 10 {
        0
    } else {
        match spec_prefix_len(data.subrange(0, 10)) {
            Some(n) => n as int,
            None => 0,
        }
    }
}

/// The leading ID3v2 tag of `data`, when it has a whole one.
pub open spec fn spec_read_prefix(data: Seq<u8>) -> Option<Seq<u8>> {
    let end = prefix_end(data);
    if end == 0 || end > data.len() { None } else { Some(data.subrange(0, end)) }
}

/// `tag` in place of the leading ID3v2 tag of `data`.
pub open spec fn spec_restore_prefix(data: Seq<u8>, tag: Seq<u8>) -> Seq<u8> {
    let end = prefix_end(data);
    tag + if end <= data.len() { data.subrange(end, data.len() as int) } else { seq![] }
}

/// The ID3 chunk payload of a RIFF/FORM container.
pub open spec fn spec_read_chunk(data: Seq<u8>, big_endian: bool) -> Option<Seq<u8>> {
    match find_id3(data, 12, big_endian) {
        Some((start, len)) => Some(data.subrange(start, start + len)),
        None => None,
    }
}

impl Container {
    /// The container an extension names, ignoring ASCII case.
    pub open spec fn spec_of(ext: Seq<char>) -> Option<Container> {
        let e = crate::text::ascii_lower(ext);
        if e == seq!['m', 'p', '3'] {
            Some(Container::Mp3)
        } else if e == seq!['a', 'i', 'f', 'f'] || e == seq!['a', 'i', 'f'] {
            Some(Container::Aiff)
        } else if e == seq!['w', 'a', 'v'] {
            Some(Container::Wav)
        } else if e == seq!['m', '4', 'a'] || e == seq!['m', 'p', '4'] {
            Some(Container::Mp4)
        } else {
            None
        }
    }

    /// The container of a file with this extension; None for FLAC, raw
    /// ADTS and everything else that needs no help.
    pub fn of(extension: &str) -> (c: Option<Container>)
        ensures
            c == Container::spec_of(extension@),
    {
        let e = crate::text::ascii_lowercase(extension);
        if crate::text::chars_eq(&e, &['m', 'p', '3']) {
            Some(Container::Mp3)
        } else if crate::text::chars_eq(&e, &['a', 'i', 'f', 'f']) || crate::text::chars_eq(&e, &['a', 'i', 'f']) {
            Some(Container::Aiff)
        } else if crate::text::chars_eq(&e, &['w', 'a', 'v']) {
            Some(Container::Wav)
        } else if crate::text::chars_eq(&e, &['m', '4', 'a']) || crate::text::chars_eq(&e, &['m', 'p', '4']) {
            Some(Container::Mp4)
        } else {
            None
        }
    }

    /// AIFF is the only big-endian one.
    pub fn big_endian(self) -> (b: bool)
        ensures
            b == (self == Container::Aiff),
    {
        match self {
            Container::Aiff => true,
            _ => false,
        }
    }
}

/// `b` with ASCII upper case mapped to lower case.
fn lower_byte(b: u8) -> (r: u8)
    ensures
        r == ascii_lower_byte(b),
{
    if 0x41 <= b && b <= 0x5a { b + 32 } else { b }
}

/// Whether the four bytes at `pos` are an ID3 chunk id.
fn id3_at(data: &[u8], pos: usize) -> (b: bool)
    requires
        pos + 4 <= data@.len(),
    ensures
        b == is_id3_at(data@, pos as int),
{
    lower_byte(data[pos]) == 0x69 && lower_byte(data[pos + 1]) == 0x64 && data[pos + 2] == 0x33 && data[pos + 3] == 0x20
}

/// The declared length of the chunk whose header is at `pos`.
fn read_declared(data: &[u8], pos: usize, big_endian: bool) -> (d: u32)
    requires
        pos + 8 <= data@.len(),
    ensures
        d == declared_len(data@, pos as int, big_endian),
{
    proof { assert(data@.len() == data.len()); }
    if big_endian { get_be32(data, pos + 4) } else { get_le32(data, pos + 4) }
}

/// `x & 1` is the remainder of `x` by two.
proof fn lemma_and_one(x: usize)
    ensures
        (x & 1usize) as int == x as int % 2,
{
    assert((x & 1usize) == x % 2) by (bit_vector);
}

/// One chunk of a RIFF/FORM container: its id and the span of its payload.
pub struct Chunk {
    pub id: [u8; 4],
    pub start: usize,
    pub len: usize,
}

/// Walk the chunk headers from offset 12. A length running past the end of
/// the data is clamped rather than rejected, so a container truncated mid
/// chunk still round-trips every byte it does have.
pub fn chunk_table(data: &[u8], big_endian: bool) -> (table: Vec<Chunk>)
    ensures
        table@.len() == chunk_spans(data@, 12, big_endian).len(),
        forall|i: int| #![trigger table@[i]] 0 <= i < table@.len() ==> {
            let (p, l) = chunk_spans(data@, 12, big_endian)[i];
            &&& table@[i].start == p + 8
            &&& table@[i].len == l
            &&& table@[i].id@ == data@.subrange(p, p + 4)
        },
{
    let mut table: Vec<Chunk> = Vec::new();
    let mut pos: usize = 12;
    let ghost mut done: Seq<(int, int)> = seq![];
    while pos <= data.len() && data.len() - pos >= 8
        invariant
            done + chunk_spans(data@, pos as int, big_endian) == chunk_spans(data@, 12, big_endian),
            table@.len() == done.len(),
            forall|i: int| #![trigger table@[i]] 0 <= i < table@.len() ==> {
                let (p, l) = done[i];
                &&& table@[i].start == p + 8
                &&& table@[i].len == l
                &&& table@[i].id@ == data@.subrange(p, p + 4)
            },
        decreases data@.len() + 1 - pos,
    {
        let declared = read_declared(data, pos, big_endian);
        let room = data.len() - pos - 8;
        let len: usize = if (declared as usize) <= room { declared as usize } else { room };
        proof { lemma_and_one(len); }
        let id: [u8; 4] = [data[pos], data[pos + 1], data[pos + 2], data[pos + 3]];
        assert(id@ =~= data@.subrange(pos as int, pos + 4));
        let start = pos + 8;
        table.push(Chunk { id, start, len });
        let ghost x = (pos as int, len as int);
        let ghost next_spans = chunk_spans(data@, pos + 8 + padded(len as int), big_endian);
        proof {
            assert(chunk_spans(data@, pos as int, big_endian) == seq![x] + next_spans);
            assert(done + (seq![x] + next_spans) =~= done.push(x) + next_spans);
            done = done.push(x);
        }
        match (start + len).checked_add(len & 1) {
            Some(next) => {
                pos = next;
            },
            None => {
                assert(next_spans =~= seq![]);
                assert(done + next_spans =~= done);
                return table;
            },
        }
    }
    assert(chunk_spans(data@, pos as int, big_endian) =~= seq![]);
    assert(done + seq![] =~= done);
    table
}

/// The payload of the first ID3 chunk of a RIFF/FORM container, if any.
pub fn read_chunk(data: &[u8], big_endian: bool) -> (tag: Option<Vec<u8>>)
    ensures
        match tag {
            Some(t) => spec_read_chunk(data@, big_endian) == Some(t@),
            None => spec_read_chunk(data@, big_endian) is None,
        },
{
    let mut pos: usize = 12;
    while pos <= data.len() && data.len() - pos >= 8
        invariant
            find_id3(data@, pos as int, big_endian) == find_id3(data@, 12, big_endian),
        decreases data@.len() + 1 - pos,
    {
        let declared = read_declared(data, pos, big_endian);
        let room = data.len() - pos - 8;
        let len: usize = if (declared as usize) <= room { declared as usize } else { room };
        let start = pos + 8;
        if id3_at(data, pos) {
            let mut tag: Vec<u8> = Vec::new();
            crate::bytes::push_all(&mut tag, &data[start..start + len]);
            assert(tag@ =~= data@.subrange(start as int, start + len));
            return Some(tag);
        }
        proof { lemma_and_one(len); }
        let ghost next_pos = pos + 8 + padded(len as int);
        assert(find_id3(data@, pos as int, big_endian) == find_id3(data@, next_pos, big_endian));
        match (start + len).checked_add(len & 1) {
            Some(next) => {
                pos = next;
            },
            None => {
                assert(find_id3(data@, next_pos, big_endian) is None);
                return None;
            },
        }
    }
    None
}

/// Appends `len` the way the container writes lengths.
fn push_len(out: &mut Vec<u8>, big_endian: bool, len: u32)
    ensures
        final(out)@ == old(out)@ + encode_len(big_endian, len),
{
    if big_endian {
        crate::bytes::push_be32(out, len);
    } else {
        crate::bytes::push_le32(out, len);
    }
}

/// Appends the chunk at `pos`, header and `len` payload bytes, and the pad
/// byte an odd payload needs.
fn append_chunk(body: &mut Vec<u8>, data: &[u8], pos: usize, len: usize)
    requires
        pos + 8 + len <= data@.len(),
    ensures
        final(body)@ == old(body)@ + data@.subrange(pos as int, pos + 8 + len) + pad_of(len as int),
{
    proof { assert(data@.len() == data.len()); }
    crate::bytes::push_all(body, &data[pos..pos + 8 + len]);
    if len % 2 == 1 {
        body.push(0u8);
    }
    assert(body@ =~= old(body)@ + data@.subrange(pos as int, pos + 8 + len) + pad_of(len as int));
}

/// `data` with its ID3 chunks dropped and one chunk holding `tag` appended,
/// the FORM/RIFF size rewritten to match. Fails on data shorter than the
/// 12-byte container header.
#[verifier::rlimit(40)]
pub fn restore_chunk(data: &[u8], tag: &[u8], big_endian: bool) -> (out: Result<Vec<u8>, TagsError>)
    ensures
        data@.len() < 12 <==> out is Err,
        out matches Err(e) ==> e == TagsError::TruncatedHeader,
        out matches Ok(o) ==> o@ == spliced_chunks(data@, tag@, big_endian),
{
    if data.len() < 12 {
        return Err(TagsError::TruncatedHeader);
    }
    let mut body: Vec<u8> = Vec::new();
    let mut pos: usize = 12;
    while pos <= data.len() && data.len() - pos >= 8
        invariant
            12 <= data@.len(),
            body@ + kept_bytes(data@, pos as int, big_endian) == kept_bytes(data@, 12, big_endian),
        decreases data@.len() + 1 - pos,
    {
        let declared = read_declared(data, pos, big_endian);
        let room = data.len() - pos - 8;
        let len: usize = if (declared as usize) <= room { declared as usize } else { room };
        let start = pos + 8;
        proof { lemma_and_one(len); }
        let ghost before = body@;
        let ghost rest = kept_bytes(data@, pos + 8 + padded(len as int), big_endian);
        assert(kept_bytes(data@, pos as int, big_endian) == if is_id3_at(data@, pos as int) { rest } else {
            data@.subrange(pos as int, pos + 8 + len) + pad_of(len as int) + rest });
        if !id3_at(data, pos) {
            append_chunk(&mut body, data, pos, len);
            assert(before + (data@.subrange(pos as int, pos + 8 + len) + pad_of(len as int) + rest)
                =~= body@ + rest);
        }
        match (start + len).checked_add(len & 1) {
            Some(next) => {
                pos = next;
            },
            None => {
                assert(rest =~= seq![]);
                assert(body@ + rest =~= body@);
                pos = data.len();
            },
        }
    }
    assert(kept_bytes(data@, pos as int, big_endian) =~= seq![]);
    assert(body@ + seq![] =~= body@);
    let tag_len = tag.len();
    let size: u128 = 4 + body.len() as u128 + 8 + tag_len as u128 + (tag_len as u128) % 2;
    let mut out: Vec<u8> = Vec::new();
    crate::bytes::push_all(&mut out, &data[0..4]);
    push_len(&mut out, big_endian, size as u32);
    crate::bytes::push_all(&mut out, &data[8..12]);
    crate::bytes::push_all(&mut out, body.as_slice());
    if big_endian {
        crate::bytes::push_all(&mut out, &[0x49u8, 0x44, 0x33, 0x20]);
    } else {
        crate::bytes::push_all(&mut out, &[0x69u8, 0x64, 0x33, 0x20]);
    }
    push_len(&mut out, big_endian, tag_len as u32);
    crate::bytes::push_all(&mut out, tag);
    if tag_len % 2 == 1 {
        out.push(0u8);
    }
    proof {
        assert(out@ =~= spliced_chunks(data@, tag@, big_endian));
    }
    Ok(out)
}

/// Total length of the ID3v2 tag described by a 10-byte header.
pub fn prefix_len(header: &[u8; 10]) -> (n: Option<u64>)
    ensures
        n == spec_prefix_len(header@),
{
    if header[0] != 0x49 || header[1] != 0x44 || header[2] != 0x33 {
        return None;
    }
    let size: u64 = (header[6] % 128) as u64 * 2097152 + (header[7] % 128) as u64 * 16384
        + (header[8] % 128) as u64 * 128 + (header[9] % 128) as u64;
    let footer: u64 = if (header[5] / 16) % 2 == 1 { 10 } else { 0 };
    Some(10 + size + footer)
}

/// The header-derived end of the leading ID3v2 tag, 0 when there is none.
fn leading_tag_end(data: &[u8]) -> (end: u64)
    ensures
        end as int == prefix_end(data@),
{
    if data.len() < 10 {
        return 0;
    }
    let header: [u8; 10] = [data[0], data[1], data[2], data[3], data[4], data[5], data[6], data[7], data[8], data[9]];
    assert(header@ =~= data@.subrange(0, 10));
    match prefix_len(&header) {
        Some(n) => n,
        None => 0,
    }
}

/// The leading ID3v2 tag of an MP3's bytes, when the file holds all of it.
pub fn read_prefix(data: &[u8]) -> (tag: Option<Vec<u8>>)
    ensures
        match tag {
            Some(t) => spec_read_prefix(data@) == Some(t@),
            None => spec_read_prefix(data@) is None,
        },
{
    let end = leading_tag_end(data);
    if end == 0 || end > data.len() as u64 {
        return None;
    }
    let mut tag: Vec<u8> = Vec::new();
    crate::bytes::push_all(&mut tag, &data[0..end as usize]);
    Some(tag)
}

/// An MP3's bytes with `tag` in place of its leading ID3v2 tag.
pub fn restore_prefix(data: &[u8], tag: &[u8]) -> (out: Vec<u8>)
    ensures
        out@ == spec_restore_prefix(data@, tag@),
{
    let end = leading_tag_end(data);
    let mut out: Vec<u8> = Vec::new();
    crate::bytes::push_all(&mut out, tag);
    if end <= data.len() as u64 {
        crate::bytes::push_all(&mut out, &data[end as usize..data.len()]);
    }
    out
}

/// Reading the chunk back from `out` at `off`, where `out` repeats the kept
/// chunks of `data` from `pos`, skips straight over them.
proof fn lemma_find_over_kept(data: Seq<u8>, pos: int, big_endian: bool, out: Seq<u8>, off: int)
    requires
        kept_chunks_fit(data, pos, big_endian),
        0 <= off,
        off + kept_bytes(data, pos, big_endian).len() <= out.len(),
        out.subrange(off, off + kept_bytes(data, pos, big_endian).len()) == kept_bytes(data, pos, big_endian),
    ensures
        find_id3(out, off, big_endian) == find_id3(out, off + kept_bytes(data, pos, big_endian).len(), big_endian),
    decreases data.len() + 1 - pos,
{
    let kb = kept_bytes(data, pos, big_endian);
    if 0 <= pos && pos + 8 <= data.len() {
        let len = clamped_len(data, pos, big_endian);
        let next = pos + 8 + padded(len);
        let rest = kept_bytes(data, next, big_endian);
        if is_id3_at(data, pos) {
            lemma_find_over_kept(data, next, big_endian, out, off);
        } else {
            let d = data.subrange(pos, pos + 8 + len);
            assert(kb == d + pad_of(len) + rest);
            assert forall|k: int| 0 <= k < 8 + len implies out[off + k] == #[trigger] d[k] by {
                assert(out.subrange(off, off + kb.len())[k] == out[off + k]);
                assert(kb[k] == d[k]);
            }
            assert(d[0] == data[pos] && d[1] == data[pos + 1] && d[2] == data[pos + 2] && d[3] == data[pos + 3]);
            assert(d[4] == data[pos + 4] && d[5] == data[pos + 5] && d[6] == data[pos + 6] && d[7] == data[pos + 7]);
            assert(is_id3_at(out, off) == is_id3_at(data, pos));
            assert(declared_len(out, off, big_endian) == declared_len(data, pos, big_endian));
            assert(clamped_len(out, off, big_endian) == len);
            let off2 = off + 8 + padded(len);
            assert(d.len() + pad_of(len).len() == 8 + padded(len));
            assert(out.subrange(off2, off2 + rest.len()) =~= rest) by {
                assert forall|k: int| 0 <= k < rest.len() implies out.subrange(off2, off2 + rest.len())[k] == rest[k] by {
                    assert(out.subrange(off, off + kb.len())[off2 - off + k] == out[off2 + k]);
                    assert(kb[off2 - off + k] == rest[k]);
                }
            }
            lemma_find_over_kept(data, next, big_endian, out, off2);
        }
    }
}

/// Putting a tag back into a RIFF/FORM container and reading it again gives
/// the tag back, byte for byte, whatever ID3 chunks the container held before.
#[verifier::rlimit(40)]
pub proof fn lemma_read_after_restore_chunk(data: Seq<u8>, tag: Seq<u8>, big_endian: bool)
    requires
        data.len() >= 12,
        tag.len() <= u32::MAX,
        kept_chunks_fit(data, 12, big_endian),
    ensures
        spec_read_chunk(spliced_chunks(data, tag, big_endian), big_endian) == Some(tag),
{
    let out = spliced_chunks(data, tag, big_endian);
    let kb = kept_bytes(data, 12, big_endian);
    assert(out.subrange(12, 12 + kb.len() as int) =~= kb);
    lemma_find_over_kept(data, 12, big_endian, out, 12);
    let p: int = 12 + kb.len() as int;
    let t = tag.len() as u32;
    assert(out.subrange(p, p + 4) =~= tag_chunk_id(big_endian));
    assert(out.subrange(p + 4, p + 8) =~= encode_len(big_endian, t));
    assert(out.subrange(p + 8, p + 8 + tag.len()) =~= tag);
    crate::bytes::lemma_u32_round_trip(t);
    assert(out[p + 4] == encode_len(big_endian, t)[0]);
    assert(out[p + 5] == encode_len(big_endian, t)[1]);
    assert(out[p + 6] == encode_len(big_endian, t)[2]);
    assert(out[p + 7] == encode_len(big_endian, t)[3]);
    assert(declared_len(out, p, big_endian) == t);
    assert(out[p] == tag_chunk_id(big_endian)[0]);
    assert(out[p + 1] == tag_chunk_id(big_endian)[1]);
    assert(out[p + 2] == tag_chunk_id(big_endian)[2]);
    assert(out[p + 3] == tag_chunk_id(big_endian)[3]);
    assert(is_id3_at(out, p));
    assert(clamped_len(out, p, big_endian) == tag.len());
}

/// Putting a whole ID3v2 tag in front of an MP3 and reading it again gives
/// the tag back, whatever tag the file led with before.
pub proof fn lemma_read_after_restore_prefix(data: Seq<u8>, tag: Seq<u8>)
    requires
        10 <= tag.len() <= u64::MAX,
        spec_prefix_len(tag.subrange(0, 10)) == Some(tag.len() as u64),
    ensures
        spec_read_prefix(spec_restore_prefix(data, tag)) == Some(tag),
{
    let out = spec_restore_prefix(data, tag);
    assert(out.subrange(0, 10) =~= tag.subrange(0, 10));
    assert(prefix_end(out) == tag.len());
    assert(out.subrange(0, tag.len() as int) =~= tag);
}

// ---------------------------------------------------------------- MP4 ---

/// `----`, the type of a free-form item.
pub open spec fn free_form_type() -> Seq<u8> {
    seq![0x2du8, 0x2du8, 0x2du8, 0x2du8]
}

/// `moov`.
pub open spec fn moov_type() -> Seq<u8> {
    seq![0x6du8, 0x6fu8, 0x6fu8, 0x76u8]
}

/// `udta`.
pub open spec fn udta_type() -> Seq<u8> {
    seq![0x75u8, 0x64u8, 0x74u8, 0x61u8]
}

/// `meta`.
pub open spec fn meta_type() -> Seq<u8> {
    seq![0x6du8, 0x65u8, 0x74u8, 0x61u8]
}

/// `ilst`.
pub open spec fn ilst_type() -> Seq<u8> {
    seq![0x69u8, 0x6cu8, 0x73u8, 0x74u8]
}

/// Declared length of the box at `at`, 0 when the buffer stops short.
pub open spec fn box_size_at(buf: Seq<u8>, at: int) -> int {
    if 0 <= at && at + 4 <= buf.len() { be32_at(buf, at) as int } else { 0 }
}

/// The first box of type `want` among the boxes from `pos` to `end`.
pub open spec fn find_box_from(buf: Seq<u8>, pos: int, end: int, want: Seq<u8>) -> Option<int>
    decreases end - pos,
{
    if 0 <= pos && pos + 8 <= end && end <= buf.len() {
        let size = box_size_at(buf, pos);
        if size < 8 || pos + size > end {
            None
        } else if buf.subrange(pos + 4, pos + 8) == want {
            Some(pos)
        } else {
            find_box_from(buf, pos + size, end, want)
        }
    } else {
        None
    }
}

/// End of the box at `parent`, cut at the end of the buffer.
pub open spec fn box_end(buf: Seq<u8>, parent: int) -> int {
    let e = parent + box_size_at(buf, parent);
    if e <= buf.len() { e } else { buf.len() as int }
}

/// Offset of `parent`'s first child of type `want`; `skip` covers the bytes
/// a full box carries before its children.
pub open spec fn spec_find_child(buf: Seq<u8>, parent: int, want: Seq<u8>, skip: int) -> Option<int> {
    find_box_from(buf, parent + 8 + skip, box_end(buf, parent), want)
}

/// Offsets of `moov`, `udta`, `meta` and `ilst` inside a moov buffer.
pub open spec fn spec_ilst_chain(moov: Seq<u8>) -> Option<Seq<int>> {
    match spec_find_child(moov, 0, udta_type(), 0) {
        None => None,
        Some(udta) => match spec_find_child(moov, udta, meta_type(), 0) {
            None => None,
            Some(meta) => match spec_find_child(moov, meta, ilst_type(), 4) {
                None => None,
                Some(ilst) => Some(seq![0int, udta, meta, ilst]),
            },
        },
    }
}

/// The free-form items among the boxes from `pos` to `end`, stopping at the
/// first box that does not fit.
pub open spec fn items_from(buf: Seq<u8>, pos: int, end: int) -> Seq<Seq<u8>>
    decreases end - pos,
{
    if 0 <= pos && pos + 8 <= end && end <= buf.len() {
        let size = box_size_at(buf, pos);
        if size < 8 || pos + size > end {
            seq![]
        } else {
            let rest = items_from(buf, pos + size, end);
            if buf.subrange(pos + 4, pos + 8) == free_form_type() {
                seq![buf.subrange(pos, pos + size)] + rest
            } else {
                rest
            }
        }
    } else {
        seq![]
    }
}

/// The free-form `----` items of a moov buffer's `ilst`.
pub open spec fn spec_free_form_items(moov: Seq<u8>) -> Seq<Seq<u8>> {
    match spec_ilst_chain(moov) {
        None => seq![],
        Some(chain) => items_from(moov, chain[3] + 8, box_end(moov, chain[3])),
    }
}

/// The length of the top-level box at `pos`, or None when its 64-bit length
/// runs past the end of the data.
pub open spec fn top_box_size(data: Seq<u8>, pos: int) -> Option<int> {
    let s = be32_at(data, pos);
    if s == 0 {
        Some(data.len() - pos)
    } else if s == 1 {
        if pos + 16 <= data.len() { Some(be64_at(data, pos + 8) as int) } else { None }
    } else {
        Some(s as int)
    }
}

/// The last `moov` among the top-level boxes from `pos`, given the one
/// found so far; Err when a 64-bit length cannot be read.
pub open spec fn moov_from(data: Seq<u8>, pos: int, found: Option<(int, int)>) -> Result<Option<(int, int)>, ()>
    decreases data.len() - pos,
{
    if 0 <= pos && pos + 8 <= data.len() {
        match top_box_size(data, pos) {
            None => Err(()),
            Some(size) => if size < 8 || pos + size > data.len() {
                Ok(found)
            } else if data.subrange(pos + 4, pos + 8) == moov_type() {
                moov_from(data, pos + size, Some((pos, size)))
            } else {
                moov_from(data, pos + size, found)
            },
        }
    } else {
        Ok(found)
    }
}

/// The free-form items of an MP4's bytes; None when there are none, or the
/// `moov` box cannot be found.
pub open spec fn spec_read_free_form(data: Seq<u8>) -> Option<Seq<Seq<u8>>> {
    match moov_from(data, 0, None) {
        Ok(Some((start, size))) => {
            let items = spec_free_form_items(data.subrange(start, start + size));
            if items.len() == 0 { None } else { Some(items) }
        },
        _ => None,
    }
}

/// The moov buffer with each box of `chain` grown by `grow` bytes, in order.
pub open spec fn grow_chain(moov: Seq<u8>, chain: Seq<int>, grow: int) -> Seq<u8>
    decreases chain.len(),
{
    if chain.len() == 0 {
        moov
    } else {
        let before = grow_chain(moov, chain.drop_last(), grow);
        let at = chain.last();
        patch_be32(before, at, (box_size_at(before, at) + grow) as u32)
    }
}

/// Why splicing items into an MP4 fails, or the spliced bytes.
pub open spec fn spec_restore_free_form(data: Seq<u8>, items: Seq<Seq<u8>>) -> Result<Seq<u8>, TagsError> {
    if items.len() == 0 {
        Ok(data)
    } else {
        match moov_from(data, 0, None) {
            Err(()) => Err(TagsError::TruncatedBox),
            Ok(None) => Err(TagsError::NoMoov),
            Ok(Some((start, size))) => {
                let moov = data.subrange(start, start + size);
                if start + size != data.len() {
                    Err(TagsError::MoovNotLast)
                } else {
                    match spec_ilst_chain(moov) {
                        None => Err(TagsError::NoIlst),
                        Some(chain) => {
                            let blob = flatten(items);
                            let at = chain[3] + box_size_at(moov, chain[3]);
                            let grown = grow_chain(moov, chain, blob.len() as int);
                            Ok(data.subrange(0, start) + grown.subrange(0, at) + blob
                                + grown.subrange(at, grown.len() as int))
                        },
                    }
                }
            },
        }
    }
}

/// Declared length of the box at `at`, 0 when the buffer stops short.
pub fn box_size(buf: &[u8], at: usize) -> (n: usize)
    ensures
        n as int == box_size_at(buf@, at as int),
{
    if at <= buf.len() && buf.len() - at >= 4 {
        get_be32(buf, at) as usize
    } else {
        0
    }
}

/// Whether the four type bytes of the box at `pos` are `want`.
fn type_is(buf: &[u8], pos: usize, want: &[u8; 4]) -> (b: bool)
    requires
        pos + 8 <= buf@.len(),
    ensures
        b == (buf@.subrange(pos + 4, pos + 8) == want@),
{
    proof { assert(buf@.len() == buf.len()); }
    let r = buf[pos + 4] == want[0] && buf[pos + 5] == want[1] && buf[pos + 6] == want[2] && buf[pos + 7] == want[3];
    if r {
        assert(buf@.subrange(pos + 4, pos + 8) =~= want@);
    } else {
        assert(buf@.subrange(pos + 4, pos + 8)[0] == buf@[pos + 4]);
        assert(buf@.subrange(pos + 4, pos + 8)[1] == buf@[pos + 5]);
        assert(buf@.subrange(pos + 4, pos + 8)[2] == buf@[pos + 6]);
        assert(buf@.subrange(pos + 4, pos + 8)[3] == buf@[pos + 7]);
    }
    r
}

/// End of the box at `parent`, cut at the end of the buffer.
fn end_of_box(buf: &[u8], parent: usize) -> (e: usize)
    ensures
        e as int == box_end(buf@, parent as int),
{
    let size = box_size(buf, parent);
    if parent <= buf.len() && size <= buf.len() - parent { parent + size } else { buf.len() }
}

/// Offset of `parent`'s first child of type `want`. `skip` covers the extra
/// bytes a full box carries before its children (`meta`'s version and flags).
pub fn find_child(buf: &[u8], parent: usize, want: &[u8; 4], skip: usize) -> (found: Option<usize>)
    ensures
        match found {
            Some(p) => spec_find_child(buf@, parent as int, want@, skip as int) == Some(p as int),
            None => spec_find_child(buf@, parent as int, want@, skip as int) is None,
        },
        found matches Some(p) ==> {
            &&& p >= parent + 8 + skip
            &&& p + 8 <= buf@.len()
            &&& 8 <= box_size_at(buf@, p as int)
            &&& p + box_size_at(buf@, p as int) <= buf@.len()
        },
{
    let end = end_of_box(buf, parent);
    let first = match parent.checked_add(8) {
        Some(a) => match a.checked_add(skip) {
            Some(b) => b,
            None => return None,
        },
        None => return None,
    };
    let mut pos = first;
    while pos <= end && end - pos >= 8
        invariant
            end as int == box_end(buf@, parent as int),
            end <= buf@.len(),
            find_box_from(buf@, pos as int, end as int, want@) == find_box_from(buf@, first as int, end as int, want@),
            first as int == parent + 8 + skip,
            pos >= first,
        decreases end - pos,
    {
        let size = box_size(buf, pos);
        if size < 8 || size > end - pos {
            return None;
        }
        if type_is(buf, pos, want) {
            return Some(pos);
        }
        pos = pos + size;
    }
    None
}

/// Offsets of `moov`, `udta`, `meta` and `ilst` inside a moov buffer. Each one
/// encloses the next, so anything spliced into `ilst` grows all four.
pub fn ilst_chain(moov: &[u8]) -> (chain: Option<[usize; 4]>)
    ensures
        match chain {
            Some(c) => spec_ilst_chain(moov@) == Some(seq![c[0] as int, c[1] as int, c[2] as int, c[3] as int]),
            None => spec_ilst_chain(moov@) is None,
        },
        chain matches Some(c) ==> {
            &&& c[0] == 0
            &&& forall|j: int| 0 <= j < 4 ==> #[trigger] c[j] + 8 <= moov@.len()
            &&& c[3] + box_size_at(moov@, c[3] as int) <= moov@.len()
        },
{
    let udta = match find_child(moov, 0, &[0x75u8, 0x64, 0x74, 0x61], 0) {
        Some(p) => p,
        None => return None,
    };
    assert([0x75u8, 0x64, 0x74, 0x61]@ =~= udta_type());
    let meta = match find_child(moov, udta, &[0x6du8, 0x65, 0x74, 0x61], 0) {
        Some(p) => p,
        None => return None,
    };
    assert([0x6du8, 0x65, 0x74, 0x61]@ =~= meta_type());
    let ilst = match find_child(moov, meta, &[0x69u8, 0x6c, 0x73, 0x74], 4) {
        Some(p) => p,
        None => return None,
    };
    assert([0x69u8, 0x6c, 0x73, 0x74]@ =~= ilst_type());
    let c: [usize; 4] = [0, udta, meta, ilst];
    assert(c[0] == 0 && c[1] == udta && c[2] == meta && c[3] == ilst);
    Some(c)
}

/// The free-form `----` items of a moov buffer's `ilst`, in order.
pub fn free_form_items(moov: &[u8]) -> (items: Vec<Vec<u8>>)
    ensures
        views(items@) == spec_free_form_items(moov@),
{
    let mut items: Vec<Vec<u8>> = Vec::new();
    let chain = match ilst_chain(moov) {
        Some(c) => c,
        None => {
            assert(views(items@) =~= seq![]);
            return items;
        },
    };
    let ilst = chain[3];
    let end = end_of_box(moov, ilst);
    assert(spec_free_form_items(moov@) == items_from(moov@, ilst as int + 8, end as int));
    let first = match ilst.checked_add(8) {
        Some(f) => f,
        None => {
            assert(items_from(moov@, ilst as int + 8, end as int) =~= seq![]);
            assert(views(items@) =~= seq![]);
            return items;
        },
    };
    let mut pos = first;
    while pos <= end && end - pos >= 8
        invariant
            end as int == box_end(moov@, ilst as int),
            end <= moov@.len(),
            views(items@) + items_from(moov@, pos as int, end as int) == items_from(moov@, first as int, end as int),
            spec_free_form_items(moov@) == items_from(moov@, first as int, end as int),
        decreases end - pos,
    {
        let size = box_size(moov, pos);
        if size < 8 || size > end - pos {
            assert(items_from(moov@, pos as int, end as int) =~= seq![]);
            assert(views(items@) + seq![] =~= views(items@));
            return items;
        }
        let ghost before = views(items@);
        if type_is(moov, pos, &[0x2du8, 0x2d, 0x2d, 0x2d]) {
            assert([0x2du8, 0x2d, 0x2d, 0x2d]@ =~= free_form_type());
            let mut item: Vec<u8> = Vec::new();
            crate::bytes::push_all(&mut item, &moov[pos..pos + size]);
            items.push(item);
            assert(views(items@) =~= before.push(moov@.subrange(pos as int, pos + size)));
            assert(before + (seq![moov@.subrange(pos as int, pos + size)] + items_from(moov@, pos + size, end as int))
                =~= views(items@) + items_from(moov@, pos + size, end as int));
        } else {
            assert([0x2du8, 0x2d, 0x2d, 0x2d]@ =~= free_form_type());
        }
        pos = pos + size;
    }
    assert(items_from(moov@, pos as int, end as int) =~= seq![]);
    assert(views(items@) + seq![] =~= views(items@));
    items
}

/// The length of the top-level box at `pos`, None when its 64-bit length
/// runs past the end of the data.
fn read_top_box_size(data: &[u8], pos: usize) -> (size: Option<u64>)
    requires
        pos + 8 <= data@.len(),
    ensures
        match size {
            Some(s) => top_box_size(data@, pos as int) == Some(s as int),
            None => top_box_size(data@, pos as int) is None,
        },
{
    proof { assert(data@.len() == data.len()); }
    let s = get_be32(data, pos);
    if s == 0 {
        Some((data.len() - pos) as u64)
    } else if s == 1 {
        if data.len() - pos >= 16 { Some(get_be64(data, pos + 8)) } else { None }
    } else {
        Some(s as u64)
    }
}

/// Span of the last top-level `moov` box. Err when a 64-bit box length
/// cannot be read.
pub fn find_moov(data: &[u8]) -> (found: Result<Option<(usize, usize)>, TagsError>)
    ensures
        match found {
            Ok(Some((s, n))) => moov_from(data@, 0, None) == Ok::<Option<(int, int)>, ()>(Some((s as int, n as int))),
            Ok(None) => moov_from(data@, 0, None) == Ok::<Option<(int, int)>, ()>(None),
            Err(e) => moov_from(data@, 0, None) is Err && e == TagsError::TruncatedBox,
        },
        found matches Ok(Some((s, n))) ==> s + n <= data@.len(),
{
    let mut pos: usize = 0;
    let mut moov: Option<(usize, usize)> = None;
    let ghost mut g: Option<(int, int)> = None;
    while pos <= data.len() && data.len() - pos >= 8
        invariant
            pos <= data@.len(),
            moov_from(data@, pos as int, g) == moov_from(data@, 0, None),
            match moov {
                Some((s, n)) => g == Some((s as int, n as int)) && s + n <= data@.len(),
                None => g is None,
            },
        decreases data@.len() - pos,
    {
        let size = match read_top_box_size(data, pos) {
            Some(s) => s,
            None => return Err(TagsError::TruncatedBox),
        };
        if size < 8 || size > (data.len() - pos) as u64 {
            assert(moov_from(data@, pos as int, g) == Ok::<Option<(int, int)>, ()>(g));
            return Ok(moov);
        }
        if type_is(data, pos, &[0x6du8, 0x6f, 0x6f, 0x76]) {
            assert([0x6du8, 0x6f, 0x6f, 0x76]@ =~= moov_type());
            moov = Some((pos, size as usize));
            proof { g = Some((pos as int, size as int)); }
        } else {
            assert([0x6du8, 0x6f, 0x6f, 0x76]@ =~= moov_type());
        }
        pos = pos + size as usize;
    }
    Ok(moov)
}

/// The free-form items of an MP4's bytes; None when there are none or the
/// `moov` box cannot be found.
pub fn read_free_form(data: &[u8]) -> (items: Option<Vec<Vec<u8>>>)
    ensures
        match items {
            Some(v) => spec_read_free_form(data@) == Some(views(v@)),
            None => spec_read_free_form(data@) is None,
        },
{
    proof { assert(data@.len() == data.len()); }
    match find_moov(data) {
        Ok(Some((start, size))) => {
            let items = free_form_items(&data[start..start + size]);
            if items.len() == 0 {
                None
            } else {
                Some(items)
            }
        },
        _ => None,
    }
}

/// An MP4's bytes with `items` appended to `moov/udta/meta/ilst`, every box
/// on that chain grown to match. Only a `moov` that is the last box can
/// grow without moving the `mdat` chunk offsets.
pub fn restore_free_form(data: &[u8], items: &[Vec<u8>]) -> (out: Result<Vec<u8>, TagsError>)
    ensures
        match out {
            Ok(o) => spec_restore_free_form(data@, views(items@)) == Ok::<Seq<u8>, TagsError>(o@),
            Err(e) => spec_restore_free_form(data@, views(items@)) == Err::<Seq<u8>, TagsError>(e),
        },
{
    if items.len() == 0 {
        let mut same: Vec<u8> = Vec::new();
        crate::bytes::push_all(&mut same, data);
        assert(same@ =~= data@);
        return Ok(same);
    }
    let (start, size) = match find_moov(data) {
        Err(e) => return Err(e),
        Ok(None) => return Err(TagsError::NoMoov),
        Ok(Some(span)) => span,
    };
    proof { assert(data@.len() == data.len()); }
    if start + size != data.len() {
        return Err(TagsError::MoovNotLast);
    }
    let mut moov: Vec<u8> = Vec::new();
    crate::bytes::push_all(&mut moov, &data[start..start + size]);
    let chain = match ilst_chain(moov.as_slice()) {
        Some(c) => c,
        None => return Err(TagsError::NoIlst),
    };
    let blob = crate::bytes::concat(items);
    let ilst_size = box_size(moov.as_slice(), chain[3]);
    let at = chain[3] + ilst_size;
    let ghost chain_s: Seq<int> = seq![chain[0] as int, chain[1] as int, chain[2] as int, chain[3] as int];
    let ghost moov0 = moov@;
    let ghost grow = blob@.len() as int;
    assert(chain_s.take(0) =~= seq![]);
    let mut k: usize = 0;
    while k < 4
        invariant
            k <= 4,
            moov@ == grow_chain(moov0, chain_s.take(k as int), grow),
            moov@.len() == moov0.len(),
            grow == blob@.len(),
            chain_s == seq![chain[0] as int, chain[1] as int, chain[2] as int, chain[3] as int],
            forall|j: int| 0 <= j < 4 ==> #[trigger] chain[j] + 8 <= moov0.len(),
        decreases 4 - k,
    {
        let parent = chain[k];
        let grown = (box_size(moov.as_slice(), parent) as u128 + blob.len() as u128) as u32;
        crate::bytes::set_be32(&mut moov, parent, grown);
        proof {
            let t = chain_s.take(k + 1);
            assert(t.drop_last() =~= chain_s.take(k as int));
            assert(t.last() == chain[k as int] as int);
        }
        k = k + 1;
    }
    assert(chain_s.take(4) =~= chain_s);
    let mut out: Vec<u8> = Vec::new();
    crate::bytes::push_all(&mut out, &data[0..start]);
    crate::bytes::push_all(&mut out, &moov.as_slice()[0..at]);
    crate::bytes::push_all(&mut out, blob.as_slice());
    crate::bytes::push_all(&mut out, &moov.as_slice()[at..moov.len()]);
    Ok(out)
}

// ------------------------------------------------------------ dispatch ---

/// The carryable metadata of a file with extension `ext` and contents `data`.
pub open spec fn spec_read(ext: Seq<char>, data: Seq<u8>) -> Option<TagsModel> {
    match Container::spec_of(ext) {
        None => None,
        Some(Container::Mp3) => match spec_read_prefix(data) {
            Some(t) => Some(TagsModel::Id3(t)),
            None => None,
        },
        Some(Container::Mp4) => match spec_read_free_form(data) {
            Some(items) => Some(TagsModel::Mp4(items)),
            None => None,
        },
        Some(c) => match spec_read_chunk(data, c == Container::Aiff) {
            Some(t) => Some(TagsModel::Id3(t)),
            None => None,
        },
    }
}

/// The contents of a freshly converted file with extension `ext` once
/// `tags` are put back; a container that does not match the tags is left
/// as it is.
pub open spec fn spec_restore(ext: Seq<char>, data: Seq<u8>, tags: TagsModel) -> Result<Seq<u8>, TagsError> {
    match (Container::spec_of(ext), tags) {
        (Some(Container::Mp3), TagsModel::Id3(t)) => Ok(spec_restore_prefix(data, t)),
        (Some(Container::Aiff), TagsModel::Id3(t)) => if data.len() < 12 {
            Err(TagsError::TruncatedHeader)
        } else {
            Ok(spliced_chunks(data, t, true))
        },
        (Some(Container::Wav), TagsModel::Id3(t)) => if data.len() < 12 {
            Err(TagsError::TruncatedHeader)
        } else {
            Ok(spliced_chunks(data, t, false))
        },
        (Some(Container::Mp4), TagsModel::Mp4(items)) => spec_restore_free_form(data, items),
        _ => Ok(data),
    }
}

/// The file's carryable metadata, or None when it has none or the
/// container needs no help. Pair with [`restore`].
pub fn read(extension: &str, data: &[u8]) -> (tags: Option<Tags>)
    ensures
        match tags {
            Some(t) => spec_read(extension@, data@) == Some(t@),
            None => spec_read(extension@, data@) is None,
        },
{
    match Container::of(extension) {
        None => None,
        Some(Container::Mp3) => match read_prefix(data) {
            Some(t) => Some(Tags::Id3(t)),
            None => None,
        },
        Some(Container::Mp4) => match read_free_form(data) {
            Some(items) => Some(Tags::Mp4(items)),
            None => None,
        },
        Some(c) => match read_chunk(data, c.big_endian()) {
            Some(t) => Some(Tags::Id3(t)),
            None => None,
        },
    }
}

/// Put `tags` back over the bytes of a file ffmpeg has just written.
pub fn restore(extension: &str, data: &[u8], tags: &Tags) -> (out: Result<Vec<u8>, TagsError>)
    ensures
        match out {
            Ok(o) => spec_restore(extension@, data@, tags@) == Ok::<Seq<u8>, TagsError>(o@),
            Err(e) => spec_restore(extension@, data@, tags@) == Err::<Seq<u8>, TagsError>(e),
        },
{
    match (Container::of(extension), tags) {
        (Some(Container::Mp3), Tags::Id3(tag)) => Ok(restore_prefix(data, tag.as_slice())),
        (Some(Container::Aiff), Tags::Id3(tag)) => restore_chunk(data, tag.as_slice(), true),
        (Some(Container::Wav), Tags::Id3(tag)) => restore_chunk(data, tag.as_slice(), false),
        (Some(Container::Mp4), Tags::Mp4(items)) => restore_free_form(data, items.as_slice()),
        _ => {
            let mut same: Vec<u8> = Vec::new();
            crate::bytes::push_all(&mut same, data);
            assert(same@ =~= data@);
            Ok(same)
        },
    }
}

}
