//! The `PMAI` container shared by `.DAT`, `.EXT` and `.2EX` analysis files.
//!
//! A 28-byte header (`PMAI`, `len_header`, `len_file`, three unknown words
//! written as `1, 0x10000, 0x10000`, and a zero) followed by tagged
//! sections, each `tag, len_header, len_section` big-endian then payload.
use vstd::prelude::*;
use vstd::utf8::{decode_utf8, valid_utf8};
use crate::bytes::{be32, be32_at, flatten, push_all, push_be32};
use crate::text::{be16_bytes, be16_units, utf16_decode, utf16_encode};

verus! {

pub const HEADER_LEN: usize = 0x1c;

/// One tagged section, header included.
#[derive(Debug, Clone, PartialEq, Eq)]
pub struct Section {
    pub tag: [u8; 4],
    /// Whole section including the 12-byte tag header.
    pub bytes: Vec<u8>,
}

/// An analysis file: the kept header words and the sections in file order.
#[derive(Debug, Clone, PartialEq, Eq)]
pub struct AnlzFile {
    /// Header words 3..6 (after `PMAI`, `len_header`, `len_file`), kept verbatim.
    pub header_tail: [u8; 16],
    pub sections: Vec<Section>,
}

/// Why bytes are not an analysis file.
#[derive(Debug, Clone, Copy, PartialEq, Eq)]
pub enum AnlzError {
    /// Shorter than the header, or not starting with `PMAI`.
    NotAnalysisFile,
    /// A section whose length is below 12 or runs past the end of the file.
    CorruptSection { tag: [u8; 4], offset: usize },
}

/// The four bytes `PMAI`.
pub open spec fn pmai() -> Seq<u8> {
    seq![0x50u8, 0x4Du8, 0x41u8, 0x49u8]
}

/// The four bytes `PPTH`.
pub open spec fn ppth() -> Seq<u8> {
    seq![0x50u8, 0x50u8, 0x54u8, 0x48u8]
}

/// The sections from `off` on: each starts with its tag and has its whole
/// length at byte 8; a tail shorter than 12 bytes is ignored. `Err` holds
/// the offset of the first section whose length is below 12 or runs past
/// the end.
pub open spec fn parse_sections(data: Seq<u8>, off: int) -> Result<Seq<Seq<u8>>, int>
    decreases data.len() - off,
{
    if off < 0 || off + 12 > data.len() {
        Ok(seq![])
    } else {
        let len = be32_at(data, off + 8) as int;
        if len < 12 || off + len > data.len() {
            Err(off)
        } else {
            match parse_sections(data, off + len) {
                Ok(rest) => Ok(seq![data.subrange(off, off + len)] + rest),
                Err(e) => Err(e),
            }
        }
    }
}

/// What a section is made of: its tag and its bytes.
pub open spec fn section_view(s: Section) -> (Seq<u8>, Seq<u8>) {
    (s.tag@, s.bytes@)
}

/// Sections as their bytes.
pub open spec fn section_bytes(secs: Seq<Section>) -> Seq<Seq<u8>> {
    secs.map_values(|s: Section| s.bytes@)
}

/// A section read from a file: its tag is the first four of its bytes.
pub open spec fn tagged(b: Seq<u8>) -> (Seq<u8>, Seq<u8>) {
    (b.take(4), b)
}

/// The index of the first section from `i` on whose tag is `tag`, or -1.
pub open spec fn find_from(secs: Seq<Section>, tag: Seq<u8>, i: int) -> int
    decreases secs.len() - i,
{
    if i < 0 || i >= secs.len() {
        -1
    } else if secs[i].tag@ == tag {
        i
    } else {
        find_from(secs, tag, i + 1)
    }
}

/// The first match lies in range and carries the tag; none before it does.
pub proof fn lemma_find_from(secs: Seq<Section>, tag: Seq<u8>, i: int)
    requires
        0 <= i,
    ensures
        find_from(secs, tag, i) >= 0 ==> {
            &&& i <= find_from(secs, tag, i) < secs.len()
            &&& secs[find_from(secs, tag, i)].tag@ == tag
        },
        forall|j: int| i <= j < secs.len() && (find_from(secs, tag, i) < 0 || j < find_from(secs, tag, i))
            ==> secs[j].tag@ != tag,
    decreases secs.len() - i,
{
    if i < secs.len() && secs[i].tag@ != tag {
        lemma_find_from(secs, tag, i + 1);
    }
}

/// A section is well formed when it starts with its tag and its length
/// field holds its length, which is at least 12.
pub open spec fn section_wf(s: Section) -> bool {
    &&& s.bytes@.len() >= 12
    &&& s.bytes@.take(4) == s.tag@
    &&& be32_at(s.bytes@, 8) as int == s.bytes@.len()
}

/// A section built from tag, header length and payload.
pub open spec fn spec_section(tag: Seq<u8>, len_header: u32, payload: Seq<u8>) -> Seq<u8> {
    tag + be32(len_header) + be32(((12 + payload.len()) % 0x1_0000_0000) as u32) + payload
}

/// A string with every trailing NUL removed.
pub open spec fn trim_nul(s: Seq<char>) -> Seq<char>
    decreases s.len(),
{
    if s.len() > 0 && s.last() == '\0' { trim_nul(s.drop_last()) } else { s }
}

impl AnlzFile {
    /// The sections as (tag, bytes).
    pub open spec fn parts(&self) -> Seq<(Seq<u8>, Seq<u8>)> {
        self.sections@.map_values(|s: Section| section_view(s))
    }

    /// Every section is well formed.
    pub open spec fn wf(&self) -> bool {
        forall|i: int| 0 <= i < self.sections@.len() ==> #[trigger] section_wf(self.sections@[i])
    }

    /// Header length and sections of `data`, when it is an analysis file.
    pub open spec fn spec_parse(data: Seq<u8>) -> Result<(Seq<u8>, Seq<(Seq<u8>, Seq<u8>)>), AnlzError> {
        if data.len() < HEADER_LEN || data.take(4) != pmai() {
            Err(AnlzError::NotAnalysisFile)
        } else {
            match parse_sections(data, be32_at(data, 4) as int) {
                Ok(secs) => Ok((data.subrange(12, 28), secs.map_values(|b: Seq<u8>| tagged(b)))),
                Err(off) => Err(AnlzError::CorruptSection {
                    tag: [data[off], data[off + 1], data[off + 2], data[off + 3]],
                    offset: off as usize,
                }),
            }
        }
    }

    /// The bytes of the file.
    pub open spec fn spec_to_bytes(&self) -> Seq<u8> {
        let body = flatten(section_bytes(self.sections@));
        pmai() + be32(HEADER_LEN as u32) + be32(((HEADER_LEN + body.len()) % 0x1_0000_0000) as u32)
            + self.header_tail@ + body
    }
}

/// Whether two tags are the same four bytes.
fn same_tag(a: &[u8; 4], b: &[u8; 4]) -> (r: bool)
    ensures
        r == (a@ == b@),
{
    let r = a[0] == b[0] && a[1] == b[1] && a[2] == b[2] && a[3] == b[3];
    if r {
        assert(a@ =~= b@);
    }
    r
}

/// Build a section from tag and payload (everything after the 12-byte tag header).
pub fn section(tag: &[u8; 4], len_header: u32, payload: &[u8]) -> (s: Section)
    requires
        payload@.len() + 12 <= usize::MAX,
    ensures
        s.tag == *tag,
        s.bytes@ == spec_section(tag@, len_header, payload@),
{
    let mut bytes: Vec<u8> = Vec::new();
    push_all(&mut bytes, tag.as_slice());
    push_be32(&mut bytes, len_header);
    let len = (((12 + payload.len()) as u64) % 0x1_0000_0000u64) as u32;
    push_be32(&mut bytes, len);
    push_all(&mut bytes, payload);
    Section { tag: *tag, bytes }
}

impl Section {
    /// The tag as text, `????` when it is not UTF-8.
    pub fn tag_str(&self) -> (r: &str)
        ensures
            valid_utf8(self.tag@) ==> r@ == decode_utf8(self.tag@),
            !valid_utf8(self.tag@) ==> r@ == seq!['?', '?', '?', '?'],
    {
        match crate::text::str_from_utf8(self.tag.as_slice()) {
            Some(s) => s,
            None => {
                proof {
                    reveal_strlit("????");
                    assert("????"@ =~= seq!['?', '?', '?', '?']);
                }
                "????"
            },
        }
    }
}

/// Whether `data` starts with `PMAI`.
fn starts_pmai(data: &[u8]) -> (r: bool)
    requires
        data@.len() >= 4,
    ensures
        r == (data@.take(4) == pmai()),
{
    let r = data[0] == 0x50 && data[1] == 0x4D && data[2] == 0x41 && data[3] == 0x49;
    if r {
        assert(data@.take(4) =~= pmai());
    } else {
        assert(data@.take(4) != pmai()) by {
            if data@.take(4) == pmai() {
                assert(data@.take(4)[0] == data@[0]);
                assert(data@.take(4)[1] == data@[1]);
                assert(data@.take(4)[2] == data@[2]);
                assert(data@.take(4)[3] == data@[3]);
            }
        }
    }
    r
}

impl AnlzFile {
    /// Read an analysis file.
    pub fn parse(data: &[u8]) -> (r: Result<AnlzFile, AnlzError>)
        ensures
            match r {
                Ok(f) => {
                    &&& Self::spec_parse(data@) == Ok::<(Seq<u8>, Seq<(Seq<u8>, Seq<u8>)>), AnlzError>((f.header_tail@, f.parts()))
                    &&& f.wf()
                },
                Err(e) => Self::spec_parse(data@) == Err::<(Seq<u8>, Seq<(Seq<u8>, Seq<u8>)>), AnlzError>(e),
            },
    {
        proof { assert(data@.len() == data.len()); }
        if data.len() < HEADER_LEN || !starts_pmai(data) {
            return Err(AnlzError::NotAnalysisFile);
        }
        assert(data@.take(4) =~= pmai());
        let len_header = crate::bytes::get_be32(data, 4) as usize;
        let header_tail: [u8; 16] = [
            data[12], data[13], data[14], data[15], data[16], data[17], data[18], data[19],
            data[20], data[21], data[22], data[23], data[24], data[25], data[26], data[27],
        ];
        assert(header_tail@ =~= data@.subrange(12, 28));
        let mut sections: Vec<Section> = Vec::new();
        let mut off = len_header;
        let ghost whole = parse_sections(data@, len_header as int);
        assert(section_bytes(sections@) + seq![] =~= seq![]);
        while off <= data.len() && data.len() - off >= 12
            invariant
                whole == parse_sections(data@, len_header as int),
                len_header as int == be32_at(data@, 4) as int,
                data@.take(4) == pmai(),
                data@.len() >= HEADER_LEN,
                data@.subrange(12, 28) == header_tail@,
                data@.len() == data.len(),
                whole == match parse_sections(data@, off as int) {
                    Ok(rest) => Ok(section_bytes(sections@) + rest),
                    Err(e) => Err::<Seq<Seq<u8>>, int>(e),
                },
                forall|i: int| 0 <= i < sections@.len() ==> #[trigger] section_wf(sections@[i]),
            decreases data@.len() - off,
        {
            let tag: [u8; 4] = [data[off], data[off + 1], data[off + 2], data[off + 3]];
            let len = crate::bytes::get_be32(data, off + 8) as usize;
            if len < 12 || len > data.len() - off {
                proof {
                    assert(parse_sections(data@, off as int) == Err::<Seq<Seq<u8>>, int>(off as int));
                }
                return Err(AnlzError::CorruptSection { tag, offset: off });
            }
            let bytes = crate::bytes::copy_range(data, off, len);
            let ghost before = sections@;
            let sec = Section { tag, bytes };
            proof {
                assert(bytes@.take(4) =~= tag@);
                assert(be32_at(bytes@, 8) == be32_at(data@, off + 8));
            }
            sections.push(sec);
            proof {
                assert(section_bytes(sections@) =~= section_bytes(before).push(bytes@));
                match parse_sections(data@, off + len) {
                    Ok(rest) => {
                        assert(section_bytes(before) + (seq![bytes@] + rest) =~= section_bytes(sections@) + rest);
                    },
                    Err(e) => {},
                }
            }
            off = off + len;
        }
        assert(section_bytes(sections@) + seq![] =~= section_bytes(sections@));
        let f = AnlzFile { header_tail, sections };
        proof {
            let secs = section_bytes(f.sections@);
            assert forall|i: int| 0 <= i < f.parts().len() implies
                #[trigger] f.parts()[i] == secs.map_values(|b: Seq<u8>| tagged(b))[i] by {
                assert(section_wf(f.sections@[i]));
            }
            assert(f.parts() =~= secs.map_values(|b: Seq<u8>| tagged(b)));
        }
        Ok(f)
    }
}

impl AnlzFile {
    /// The file's bytes: header with the total length, then every section.
    pub fn to_bytes(&self) -> (out: Vec<u8>)
        requires
            HEADER_LEN + flatten(section_bytes(self.sections@)).len() <= usize::MAX,
        ensures
            out@ == self.spec_to_bytes(),
    {
        let ghost all = section_bytes(self.sections@);
        let mut total: usize = HEADER_LEN;
        let mut i: usize = 0;
        while i < self.sections.len()
            invariant
                all == section_bytes(self.sections@),
                HEADER_LEN + flatten(all).len() <= usize::MAX,
                i <= self.sections@.len(),
                total as int == HEADER_LEN + flatten(all.take(i as int)).len(),
            decreases self.sections@.len() - i,
        {
            proof {
                assert(all.take(i + 1).drop_last() =~= all.take(i as int));
                crate::bytes::lemma_flatten_prefix(all, i + 1);
            }
            total = total + self.sections[i].bytes.len();
            i = i + 1;
        }
        assert(all.take(i as int) =~= all);
        let mut out: Vec<u8> = Vec::new();
        out.push(0x50);
        out.push(0x4D);
        out.push(0x41);
        out.push(0x49);
        push_be32(&mut out, HEADER_LEN as u32);
        push_be32(&mut out, ((total as u64) % 0x1_0000_0000u64) as u32);
        push_all(&mut out, self.header_tail.as_slice());
        let ghost head = out@;
        let mut j: usize = 0;
        while j < self.sections.len()
            invariant
                all == section_bytes(self.sections@),
                j <= self.sections@.len(),
                out@ == head + flatten(all.take(j as int)),
            decreases self.sections@.len() - j,
        {
            push_all(&mut out, self.sections[j].bytes.as_slice());
            proof {
                assert(all.take(j + 1).drop_last() =~= all.take(j as int));
            }
            j = j + 1;
        }
        assert(all.take(j as int) =~= all);
        assert(out@ =~= self.spec_to_bytes());
        out
    }

    /// The position of the first section tagged `tag`.
    fn position(&self, tag: &[u8; 4]) -> (r: Option<usize>)
        ensures
            find_from(self.sections@, tag@, 0) >= 0 ==> r is Some,
            find_from(self.sections@, tag@, 0) < 0 ==> r is None,
            r matches Some(i) ==> i as int == find_from(self.sections@, tag@, 0) && i < self.sections@.len(),
    {
        proof { lemma_find_from(self.sections@, tag@, 0); }
        let mut i: usize = 0;
        while i < self.sections.len()
            invariant
                i <= self.sections@.len(),
                find_from(self.sections@, tag@, 0) == find_from(self.sections@, tag@, i as int),
            decreases self.sections@.len() - i,
        {
            if same_tag(&self.sections[i].tag, tag) {
                return Some(i);
            }
            i = i + 1;
        }
        None
    }

    /// The first section tagged `tag`.
    pub fn find(&self, tag: &[u8; 4]) -> (r: Option<&Section>)
        ensures
            find_from(self.sections@, tag@, 0) >= 0 ==> r == Some(&self.sections@[find_from(self.sections@, tag@, 0)]),
            find_from(self.sections@, tag@, 0) < 0 ==> r is None,
    {
        match self.position(tag) {
            Some(i) => Some(&self.sections[i]),
            None => None,
        }
    }

    /// The first section tagged `tag`, to change in place.
    pub fn find_mut(&mut self, tag: &[u8; 4]) -> (r: Option<&mut Section>)
        ensures
            find_from(old(self).sections@, tag@, 0) < 0 ==> r is None && *final(self) == *old(self),
            find_from(old(self).sections@, tag@, 0) >= 0 ==> r is Some,
            match r {
                Some(s) => {
                    &&& *s == old(self).sections@[find_from(old(self).sections@, tag@, 0)]
                    &&& final(self).sections@ == old(self).sections@.update(find_from(old(self).sections@, tag@, 0), *final(s))
                    &&& final(self).header_tail == old(self).header_tail
                },
                None => true,
            },
    {
        match self.position(tag) {
            Some(i) => Some(&mut self.sections[i]),
            None => None,
        }
    }
}

/// The sections of `secs` whose tag is not `tag`, in order.
pub open spec fn without_tag(secs: Seq<Section>, tag: Seq<u8>) -> Seq<Section>
    decreases secs.len(),
{
    if secs.len() == 0 {
        seq![]
    } else if secs.last().tag@ == tag {
        without_tag(secs.drop_last(), tag)
    } else {
        without_tag(secs.drop_last(), tag).push(secs.last())
    }
}

/// The `PPTH` path of sections `secs`: the UTF-16BE body, its length in
/// bytes at offset 12, without trailing NULs.
pub open spec fn spec_path(secs: Seq<Section>) -> Option<Seq<char>> {
    let k = find_from(secs, ppth(), 0);
    if k < 0 {
        None
    } else {
        let b = secs[k].bytes@;
        if b.len() < 16 {
            None
        } else {
            let n = be32_at(b, 12) as int;
            if 16 + n > b.len() {
                None
            } else {
                Some(trim_nul(utf16_decode(be16_units(b.subrange(16, 16 + n)))))
            }
        }
    }
}

/// The `PPTH` section for `path`: UTF-16BE, NUL-terminated.
pub open spec fn spec_path_section(path: Seq<char>) -> Seq<u8> {
    let body = be16_bytes(utf16_encode(path)) + seq![0u8, 0u8];
    ppth() + be32(16) + be32(((16 + body.len()) % 0x1_0000_0000) as u32)
        + be32((body.len() % 0x1_0000_0000) as u32) + body
}

impl AnlzFile {
    /// Drops every section tagged `tag`.
    pub fn remove(&mut self, tag: &[u8; 4])
        ensures
            final(self).sections@ == without_tag(old(self).sections@, tag@),
            final(self).header_tail == old(self).header_tail,
    {
        let ghost orig = self.sections@;
        let mut i: usize = 0;
        let ghost mut j: int = 0;
        assert(orig.take(0) =~= Seq::<Section>::empty());
        assert(self.sections@ =~= without_tag(orig.take(0), tag@) + orig.skip(0));
        while i < self.sections.len()
            invariant
                0 <= j <= orig.len(),
                self.header_tail == old(self).header_tail,
                orig == old(self).sections@,
                self.sections@ == without_tag(orig.take(j), tag@) + orig.skip(j),
                i as int == without_tag(orig.take(j), tag@).len(),
            decreases orig.len() - j,
        {
            proof {
                assert(orig.take(j + 1).drop_last() =~= orig.take(j));
                assert(orig.skip(j)[0] == orig[j]);
                assert(self.sections@[i as int] == orig[j]);
            }
            if same_tag(&self.sections[i].tag, tag) {
                let _gone = self.sections.remove(i);
                proof {
                    j = j + 1;
                    assert(self.sections@ =~= without_tag(orig.take(j), tag@) + orig.skip(j));
                }
            } else {
                proof {
                    j = j + 1;
                    assert(self.sections@ =~= without_tag(orig.take(j), tag@) + orig.skip(j));
                }
                i = i + 1;
            }
        }
        proof {
            if j < orig.len() {
                assert(self.sections@.len() > i);
            }
            assert(orig.take(j) =~= orig);
            assert(orig.skip(j) =~= Seq::<Section>::empty());
            assert(self.sections@ =~= without_tag(orig, tag@));
        }
    }

    /// The `PPTH` path without its terminator.
    pub fn path(&self) -> (r: Option<String>)
        ensures
            match r {
                Some(p) => spec_path(self.sections@) == Some(p@),
                None => spec_path(self.sections@) is None,
            },
    {
        let s = match self.find(&[0x50u8, 0x50u8, 0x54u8, 0x48u8]) {
            Some(s) => s,
            None => {
                proof { assert([0x50u8, 0x50u8, 0x54u8, 0x48u8]@ =~= ppth()); }
                return None;
            },
        };
        proof {
            assert([0x50u8, 0x50u8, 0x54u8, 0x48u8]@ =~= ppth());
            assert(s.bytes@.len() == s.bytes.len());
        }
        if s.bytes.len() < 16 {
            return None;
        }
        let n = crate::bytes::get_be32(s.bytes.as_slice(), 12) as usize;
        if n > s.bytes.len() - 16 {
            return None;
        }
        let body = crate::bytes::copy_range(s.bytes.as_slice(), 16, n);
        let units = crate::text::read_be16_units(body.as_slice());
        let mut chars = crate::text::decode_utf16_lossy(units.as_slice());
        let mut end = chars.len();
        assert(chars@.take(end as int) =~= chars@);
        while end > 0 && chars[end - 1] == '\0'
            invariant
                end <= chars@.len(),
                trim_nul(chars@) == trim_nul(chars@.take(end as int)),
            decreases end,
        {
            assert(chars@.take(end as int).drop_last() =~= chars@.take(end - 1));
            end = end - 1;
        }
        proof {
            if end > 0 {
                assert(chars@.take(end as int).last() == chars@[end - 1]);
            }
            assert(trim_nul(chars@.take(end as int)) == chars@.take(end as int));
        }
        chars.truncate(end);
        let kept = crate::text::string_from_chars(chars.as_slice());
        Some(kept)
    }
}

/// The `PPTH` section for `usb_path`.
fn path_section(usb_path: &str) -> (s: Section)
    requires
        2 * utf16_encode(usb_path@).len() + 18 <= usize::MAX,
    ensures
        s.tag@ == ppth(),
        s.bytes@ == spec_path_section(usb_path@),
{
    let units = crate::text::encode_utf16(usb_path);
    let mut body: Vec<u8> = Vec::new();
    crate::text::push_be16_units(&mut body, units.as_slice());
    body.push(0);
    body.push(0);
    proof { crate::text::lemma_be16_round_trip(units@); }
    let n = body.len();
    let mut bytes: Vec<u8> = Vec::new();
    bytes.push(0x50);
    bytes.push(0x50);
    bytes.push(0x54);
    bytes.push(0x48);
    push_be32(&mut bytes, 16);
    push_be32(&mut bytes, (((16 + n) as u64) % 0x1_0000_0000u64) as u32);
    push_be32(&mut bytes, ((n as u64) % 0x1_0000_0000u64) as u32);
    push_all(&mut bytes, body.as_slice());
    let tag: [u8; 4] = [0x50, 0x50, 0x54, 0x48];
    assert(tag@ =~= ppth());
    assert(bytes@ =~= spec_path_section(usb_path@));
    Section { tag, bytes }
}

impl AnlzFile {
    /// Replace `PPTH` with `usb_path` (UTF-16BE, NUL-terminated, as on a
    /// stick), or put it first when there is none.
    pub fn set_path(&mut self, usb_path: &str)
        requires
            2 * utf16_encode(usb_path@).len() + 18 <= usize::MAX,
        ensures
            final(self).header_tail == old(self).header_tail,
            find_from(old(self).sections@, ppth(), 0) >= 0 ==> final(self).parts() == old(self).parts().update(
                find_from(old(self).sections@, ppth(), 0), (ppth(), spec_path_section(usb_path@))),
            find_from(old(self).sections@, ppth(), 0) < 0 ==> final(self).parts()
                == seq![(ppth(), spec_path_section(usb_path@))] + old(self).parts(),
    {
        let section = path_section(usb_path);
        proof { lemma_find_from(self.sections@, ppth(), 0); }
        let tag: [u8; 4] = [0x50, 0x50, 0x54, 0x48];
        assert(tag@ =~= ppth());
        let ghost before = self.parts();
        match self.find_mut(&tag) {
            Some(s) => {
                *s = section;
            },
            None => {
                self.sections.insert(0, section);
            },
        }
        proof {
            let k = find_from(old(self).sections@, ppth(), 0);
            if k >= 0 {
                assert(self.sections@[k].tag@ == ppth());
                assert(self.parts() =~= before.update(k, (ppth(), spec_path_section(usb_path@))));
            } else {
                assert(self.parts() =~= seq![(ppth(), spec_path_section(usb_path@))] + before);
            }
        }
    }
}

/// Reading back a list of well-formed sections laid end to end after any
/// prefix gives the same sections.
proof fn lemma_parse_flatten(pre: Seq<u8>, secs: Seq<Seq<u8>>, k: int)
    requires
        0 <= k <= secs.len(),
        forall|i: int| 0 <= i < secs.len() ==> #[trigger] secs[i].len() >= 12
            && be32_at(secs[i], 8) as int == secs[i].len(),
    ensures
        parse_sections(pre + flatten(secs), (pre.len() + flatten(secs.take(k)).len()) as int)
            == Ok::<Seq<Seq<u8>>, int>(secs.skip(k)),
    decreases secs.len() - k,
{
    let data = pre + flatten(secs);
    let off = (pre.len() + flatten(secs.take(k)).len()) as int;
    lemma_flatten_split(secs, k);
    if k == secs.len() {
        assert(secs.take(k) =~= secs);
        assert(secs.skip(k) =~= Seq::<Seq<u8>>::empty());
    } else {
        lemma_flatten_split(secs.skip(k), 1);
        assert(secs.skip(k).take(1) =~= seq![secs[k]]);
        assert(flatten(seq![secs[k]]) =~= secs[k]) by {
            let one = seq![secs[k]];
            assert(one.drop_last() =~= Seq::<Seq<u8>>::empty());
            assert(flatten(one.drop_last()) == Seq::<u8>::empty());
            assert(one.last() == secs[k]);
            assert(Seq::<u8>::empty() + secs[k] =~= secs[k]);
        }
        assert(secs.skip(k).skip(1) =~= secs.skip(k + 1));
        assert(secs.take(k + 1).drop_last() =~= secs.take(k));
        let sec = secs[k];
        assert(data =~= pre + flatten(secs.take(k)) + sec + flatten(secs.skip(k + 1)));
        assert(data.subrange(off, off + sec.len() as int) =~= sec);
        assert(be32_at(data, off + 8) == be32_at(sec, 8));
        lemma_parse_flatten(pre, secs, k + 1);
        assert(secs.skip(k) =~= seq![sec] + secs.skip(k + 1));
    }
}

/// Flattening splits at any point.
proof fn lemma_flatten_split(parts: Seq<Seq<u8>>, k: int)
    requires
        0 <= k <= parts.len(),
    ensures
        flatten(parts) == flatten(parts.take(k)) + flatten(parts.skip(k)),
    decreases parts.len(),
{
    if k == parts.len() {
        assert(parts.take(k) =~= parts);
        assert(parts.skip(k) =~= Seq::<Seq<u8>>::empty());
        assert(flatten(parts) + Seq::<u8>::empty() =~= flatten(parts));
    } else {
        lemma_flatten_split(parts.drop_last(), k);
        assert(parts.drop_last().take(k) =~= parts.take(k));
        assert(parts.skip(k).drop_last() =~= parts.drop_last().skip(k));
        assert(parts.skip(k).last() == parts.last());
    }
}

/// Parsing the bytes a well-formed file writes gives back the file: the
/// same header words and the same sections in the same order.
pub proof fn lemma_parse_to_bytes(f: AnlzFile)
    requires
        f.wf(),
    ensures
        AnlzFile::spec_parse(f.spec_to_bytes()) == Ok::<(Seq<u8>, Seq<(Seq<u8>, Seq<u8>)>), AnlzError>((f.header_tail@, f.parts())),
{
    let secs = section_bytes(f.sections@);
    let body = flatten(secs);
    let head = pmai() + be32(HEADER_LEN as u32) + be32(((HEADER_LEN + body.len()) % 0x1_0000_0000) as u32)
        + f.header_tail@;
    let data = f.spec_to_bytes();
    assert(data =~= head + body);
    assert(head.len() == 28);
    assert(data.take(4) =~= pmai());
    crate::bytes::lemma_u32_round_trip(HEADER_LEN as u32);
    assert(be32_at(data, 4) == HEADER_LEN as u32);
    assert forall|i: int| 0 <= i < secs.len() implies #[trigger] secs[i].len() >= 12
        && be32_at(secs[i], 8) as int == secs[i].len() by {
        assert(section_wf(f.sections@[i]));
    }
    lemma_parse_flatten(head, secs, 0);
    assert(secs.take(0) =~= Seq::<Seq<u8>>::empty());
    assert(secs.skip(0) =~= secs);
    assert(data.subrange(12, 28) =~= f.header_tail@);
    assert forall|i: int| 0 <= i < f.parts().len() implies
        #[trigger] f.parts()[i] == secs.map_values(|b: Seq<u8>| tagged(b))[i] by {
        assert(section_wf(f.sections@[i]));
    }
    assert(f.parts() =~= secs.map_values(|b: Seq<u8>| tagged(b)));
}

/// Big-endian bytes of one more unit append its two bytes.
proof fn lemma_be16_bytes_push(u: Seq<u16>, v: u16)
    ensures
        be16_bytes(u.push(v)) == be16_bytes(u) + crate::bytes::be16(v),
    decreases u.len(),
{
    if u.len() == 0 {
        assert(u.push(v).drop_first() =~= Seq::<u16>::empty());
        assert(be16_bytes(Seq::<u16>::empty()) == Seq::<u8>::empty());
        assert(be16_bytes(u.push(v)) =~= be16_bytes(u) + crate::bytes::be16(v));
    } else {
        lemma_be16_bytes_push(u.drop_first(), v);
        assert(u.push(v).drop_first() =~= u.drop_first().push(v));
        assert(be16_bytes(u.push(v)) =~= be16_bytes(u) + crate::bytes::be16(v));
    }
}

/// The `PPTH` section written for `p` reads back as `p` without trailing NULs.
proof fn lemma_path_section_reads_back(p: Seq<char>)
    requires
        2 * utf16_encode(p).len() + 2 < 0x1_0000_0000,
    ensures
        ({
            let b = spec_path_section(p);
            let n = be32_at(b, 12) as int;
            &&& b.len() >= 16
            &&& 16 + n <= b.len()
            &&& trim_nul(utf16_decode(be16_units(b.subrange(16, 16 + n)))) == trim_nul(p)
        }),
{
    let units = utf16_encode(p);
    crate::text::lemma_be16_round_trip(units);
    let body = be16_bytes(units) + seq![0u8, 0u8];
    let b = spec_path_section(p);
    assert(body.len() < 0x1_0000_0000);
    assert((body.len() % 0x1_0000_0000) == body.len());
    crate::bytes::lemma_u32_round_trip((body.len() % 0x1_0000_0000) as u32);
    assert(b =~= ppth() + be32(16) + be32(((16 + body.len()) % 0x1_0000_0000) as u32)
        + be32(body.len() as u32) + body);
    assert(be32_at(b, 12) == body.len() as u32);
    assert(b.subrange(16, 16 + body.len() as int) =~= body);
    lemma_be16_bytes_push(units, 0);
    assert(crate::bytes::be16(0u16) =~= seq![0u8, 0u8]) by (bit_vector);
    crate::text::lemma_be16_round_trip(units.push(0));
    crate::text::lemma_utf16_encode_push(p, '\0');
    assert(crate::text::units_of('\0') =~= seq![0u16]);
    assert(utf16_encode(p.push('\0')) =~= units.push(0));
    crate::text::lemma_utf16_round_trip(p.push('\0'));
    assert(p.push('\0').drop_last() =~= p);
}

/// After `set_path(p)`, `path()` reads `p` back, without trailing NULs.
pub proof fn lemma_path_after_set_path(before: AnlzFile, after: AnlzFile, p: Seq<char>)
    requires
        2 * utf16_encode(p).len() + 2 < 0x1_0000_0000,
        find_from(before.sections@, ppth(), 0) >= 0 ==> after.parts() == before.parts().update(
            find_from(before.sections@, ppth(), 0), (ppth(), spec_path_section(p))),
        find_from(before.sections@, ppth(), 0) < 0 ==> after.parts()
            == seq![(ppth(), spec_path_section(p))] + before.parts(),
    ensures
        spec_path(after.sections@) == Some(trim_nul(p)),
{
    let k = find_from(before.sections@, ppth(), 0);
    lemma_find_from(before.sections@, ppth(), 0);
    lemma_path_section_reads_back(p);
    let at = if k >= 0 { k } else { 0 };
    assert(after.parts().len() == after.sections@.len());
    assert(after.parts()[at] == section_view(after.sections@[at]));
    assert(after.sections@[at].tag@ == ppth());
    assert(after.sections@[at].bytes@ == spec_path_section(p));
    assert forall|j: int| 0 <= j < at implies #[trigger] after.sections@[j].tag@ != ppth() by {
        assert(after.parts()[j] == section_view(after.sections@[j]));
        assert(before.parts()[j] == section_view(before.sections@[j]));
    }
    lemma_find_from(after.sections@, ppth(), 0);
    assert(find_from(after.sections@, ppth(), 0) == at) by {
        lemma_find_prefix(after.sections@, ppth(), at, 0);
    }
}

/// With no match before `at` and a match at `at`, the search from `i` stops at `at`.
proof fn lemma_find_prefix(secs: Seq<Section>, tag: Seq<u8>, at: int, i: int)
    requires
        0 <= i <= at < secs.len(),
        secs[at].tag@ == tag,
        forall|j: int| 0 <= j < at ==> #[trigger] secs[j].tag@ != tag,
    ensures
        find_from(secs, tag, i) == at,
    decreases at - i,
{
    if i < at {
        lemma_find_prefix(secs, tag, at, i + 1);
    }
}

}
