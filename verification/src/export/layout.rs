//! Where audio goes on the stick: `/Contents/<Artist>/<Album>/<file>`, the
//! way rekordbox lays it out. Names are FAT32-safe, stems are cut at 43
//! characters like rekordbox does, and collisions get a `-1`, `-2` suffix.
use vstd::prelude::*;
use crate::text::{lowercase, lowercase_of, trim};
use crate::cdjsafe::location::{sanitize_filename, spec_sanitize};
use crate::cdjsafe::last_dot;
use crate::export::build::dec;
use crate::export::collection::{after_last_slash, Track};

verus! {

/// The longest stem rekordbox keeps, in characters, suffix included.
pub const MAX_STEM: usize = 43;

/// A directory or stem name: trimmed and sanitized, `fallback` when empty.
pub open spec fn component(s: Seq<char>, fallback: Seq<char>) -> Seq<char> {
    let t = trim(s);
    if t.len() == 0 { fallback } else { spec_sanitize(t) }
}

/// A file name split before its last `.`; a leading dot starts the stem.
pub open spec fn split_ext(name: Seq<char>) -> (Seq<char>, Seq<char>) {
    let d = last_dot(name, name.len() as int);
    if d > 0 { (name.take(d), name.skip(d)) } else { (name, seq![]) }
}

/// The first `n` characters of `s`.
pub open spec fn truncated(s: Seq<char>, n: int) -> Seq<char> {
    if s.len() <= n { s } else { s.take(n) }
}

/// The `/Contents/<Artist>/<Album>` directory of an artist and album.
pub open spec fn dir_for(artist: Seq<char>, album: Seq<char>) -> Seq<char> {
    "/Contents/"@ + component(artist, "UnknownArtist"@) + seq!['/'] + component(album, "UnknownAlbum"@)
}

/// The `/Contents/<Artist>/<Album>` directory of a track.
pub open spec fn track_dir(t: Track) -> Seq<char> {
    dir_for(t.artist@, t.album@)
}

/// The sanitized stem and extension of the file name of a location.
pub open spec fn stem_ext_for(location: Seq<char>) -> (Seq<char>, Seq<char>) {
    let (stem, ext) = split_ext(after_last_slash(location));
    (component(stem, "track"@), spec_sanitize(ext))
}

/// The sanitized stem and extension of a track's file name.
pub open spec fn stem_ext(t: Track) -> (Seq<char>, Seq<char>) {
    stem_ext_for(t.location@)
}

/// The `k`-th path tried for a file at `location` by `artist` on `album`:
/// the stem cut to fit, then `-k` for `k` from 1 on, then the extension.
pub open spec fn candidate_for(artist: Seq<char>, album: Seq<char>, location: Seq<char>, k: nat) -> Seq<char> {
    let dir = dir_for(artist, album);
    let (stem, ext) = stem_ext_for(location);
    if k == 0 {
        dir + seq!['/'] + truncated(stem, MAX_STEM as int) + ext
    } else {
        let suffix = seq!['-'] + dec(k);
        dir + seq!['/'] + truncated(stem, MAX_STEM - suffix.len()) + suffix + ext
    }
}

/// The `k`-th path tried for a track.
pub open spec fn candidate(t: Track, k: nat) -> Seq<char> {
    candidate_for(t.artist@, t.album@, t.location@, k)
}

/// Whether `k` is the candidate a layout with `used` hands out: the first
/// free one, or, were none of the first `used.len()` free, the one after them.
pub open spec fn picks(used: Seq<Seq<char>>, artist: Seq<char>, album: Seq<char>, location: Seq<char>, k: nat) -> bool {
    &&& k <= used.len()
    &&& forall|j: nat| j < k ==> !is_free(used, #[trigger] candidate_for(artist, album, location, j))
    &&& (is_free(used, candidate_for(artist, album, location, k)) || k == used.len())
}

/// The path a layout with `used` hands out.
pub open spec fn assigned_path(used: Seq<Seq<char>>, artist: Seq<char>, album: Seq<char>, location: Seq<char>) -> Seq<char> {
    candidate_for(artist, album, location, choose|k: nat| picks(used, artist, album, location, k))
}

/// Only one candidate is picked.
pub proof fn lemma_picks_unique(used: Seq<Seq<char>>, artist: Seq<char>, album: Seq<char>, location: Seq<char>, k: nat)
    requires
        picks(used, artist, album, location, k),
    ensures
        assigned_path(used, artist, album, location) == candidate_for(artist, album, location, k),
{
    let c = choose|q: nat| picks(used, artist, album, location, q);
    assert(picks(used, artist, album, location, c));
    if c < k {
        assert(!is_free(used, candidate_for(artist, album, location, c)));
    } else if k < c {
        assert(!is_free(used, candidate_for(artist, album, location, k)));
    }
    assert(c == k);
}

/// No path assigned so far equals `c` up to case.
pub open spec fn is_free(used: Seq<Seq<char>>, c: Seq<char>) -> bool {
    !used.contains(lowercase_of(c))
}

/// The paths handed out, as their lower-case forms.
pub struct Layout {
    used: Vec<String>,
}

impl View for Layout {
    type V = Seq<Seq<char>>;

    closed spec fn view(&self) -> Seq<Seq<char>> {
        self.used@.map_values(|s: String| s@)
    }
}

/// `10` to the power `d`.
pub open spec fn pow10(d: nat) -> nat
    decreases d,
{
    if d == 0 { 1 } else { 10 * pow10((d - 1) as nat) }
}

proof fn lemma_dec_len_below(n: nat, d: nat)
    requires
        d >= 1,
        n < pow10(d),
    ensures
        dec(n).len() <= d,
    decreases d,
{
    if n >= 10 {
        assert(d >= 2) by {
            if d == 1 {
                assert(pow10(1) == 10) by { reveal_with_fuel(pow10, 2); }
            }
        }
        assert(n / 10 < pow10((d - 1) as nat));
        lemma_dec_len_below(n / 10, (d - 1) as nat);
    }
}

proof fn lemma_dec_len(n: nat)
    requires
        n < 100000000000000000000,
    ensures
        dec(n).len() <= 20,
{
    assert(pow10(20) == 100000000000000000000nat) by {
        reveal_with_fuel(pow10, 21);
    }
    lemma_dec_len_below(n, 20);
}

impl Layout {
    /// An empty layout.
    pub fn new() -> (l: Layout)
        ensures
            l@ == Seq::<Seq<char>>::empty(),
    {
        let l = Layout { used: Vec::new() };
        assert(l@ =~= Seq::<Seq<char>>::empty());
        l
    }

    /// Whether `c` is taken, up to case.
    fn taken(&self, c: &str) -> (r: bool)
        ensures
            r == !is_free(self@, c@),
    {
        let low = lowercase(c);
        crate::text::contains_str(&self.used, low.as_str())
    }

    /// The `k`-th path tried for `t`.
    fn candidate_of(dir: &Vec<char>, stem: &Vec<char>, ext: &Vec<char>, k: usize, Ghost(t): Ghost<Track>) -> (c: String)
        requires
            dir@ == track_dir(t),
            (stem@, ext@) == stem_ext(t),
        ensures
            c@ == candidate(t, k as nat),
    {
        let mut out: Vec<char> = Vec::new();
        push_chars(&mut out, dir);
        out.push('/');
        let mut suffix: Vec<char> = Vec::new();
        if k > 0 {
            suffix.push('-');
            crate::export::build::push_dec(&mut suffix, k as u64);
            proof {
                lemma_dec_len(k as nat);
                assert(suffix@ =~= seq!['-'] + dec(k as nat));
            }
        }
        let keep: usize = MAX_STEM - suffix.len();
        let n = if stem.len() <= keep { stem.len() } else { keep };
        let ghost before = out@;
        let mut i: usize = 0;
        while i < n
            invariant
                i <= n <= stem@.len(),
                out@ == before + stem@.take(i as int),
            decreases n - i,
        {
            out.push(stem[i]);
            i = i + 1;
            assert(out@ =~= before + stem@.take(i as int));
        }
        assert(stem@.take(n as int) =~= truncated(stem@, keep as int));
        push_chars(&mut out, &suffix);
        push_chars(&mut out, ext);
        proof {
            if k == 0 {
                assert(suffix@ =~= Seq::<char>::empty());
                assert(out@ =~= track_dir(t) + seq!['/'] + truncated(stem@, MAX_STEM as int) + ext@);
            } else {
                assert(out@ =~= track_dir(t) + seq!['/'] + truncated(stem@, MAX_STEM - (seq!['-'] + dec(k as nat)).len())
                    + (seq!['-'] + dec(k as nat)) + ext@);
            }
        }
        crate::text::string_from_chars(out.as_slice())
    }

    /// The stick path of `track`, unique up to case within this layout:
    /// the first free candidate, the name cut so that stem and suffix stay
    /// within 43 characters. Candidates differ in their `-k` digits, so
    /// among the first `n + 1`, with `n` paths assigned, one is free as long
    /// as lower-casing keeps them apart; were none free, the last of them is
    /// taken.
    pub fn assign(&mut self, track: &Track) -> (path: String)
        requires
            old(self)@.len() < usize::MAX,
        ensures
            exists|k: nat| {
                &&& k <= old(self)@.len()
                &&& path@ == candidate(*track, k)
                &&& forall|j: nat| j < k ==> !is_free(old(self)@, #[trigger] candidate(*track, j))
                &&& (is_free(old(self)@, candidate(*track, k)) || k == old(self)@.len())
            },
            path@ == assigned_path(old(self)@, track.artist@, track.album@, track.location@),
            final(self)@ == old(self)@.push(lowercase_of(path@)),
    {
        let dir = track_dir_of(track);
        let (stem, ext) = stem_ext_of(track);
        let bound = self.used.len();
        let mut k: usize = 0;
        let mut c = Self::candidate_of(&dir, &stem, &ext, 0, Ghost(*track));
        while k < bound && self.taken(c.as_str())
            invariant
                k <= bound == self@.len(),
                bound < usize::MAX,
                dir@ == track_dir(*track),
                (stem@, ext@) == stem_ext(*track),
                c@ == candidate(*track, k as nat),
                forall|j: nat| j < k ==> !is_free(self@, #[trigger] candidate(*track, j)),
            decreases bound - k,
        {
            k = k + 1;
            c = Self::candidate_of(&dir, &stem, &ext, k, Ghost(*track));
        }
        let is_taken = self.taken(c.as_str());
        assert(!is_taken || k == bound);
        proof {
            assert forall|j: nat| j < k implies !is_free(self@, #[trigger] candidate_for(track.artist@, track.album@, track.location@, j)) by {
                assert(!is_free(self@, candidate(*track, j)));
            }
            assert(c@ == candidate_for(track.artist@, track.album@, track.location@, k as nat));
            assert(picks(self@, track.artist@, track.album@, track.location@, k as nat));
            lemma_picks_unique(self@, track.artist@, track.album@, track.location@, k as nat);
        }
        let low = lowercase(c.as_str());
        let ghost before = self@;
        self.used.push(low);
        assert(self@ =~= before.push(lowercase_of(c@)));
        c
    }
}

impl Default for Layout {
    fn default() -> (l: Layout)
        ensures
            l@ == Seq::<Seq<char>>::empty(),
    {
        Layout::new()
    }
}

/// Appends the characters of `s`.
fn push_chars(out: &mut Vec<char>, s: &Vec<char>)
    ensures
        final(out)@ == old(out)@ + s@,
{
    let mut i: usize = 0;
    while i < s.len()
        invariant
            i <= s@.len(),
            out@ == old(out)@ + s@.take(i as int),
        decreases s@.len() - i,
    {
        out.push(s[i]);
        i = i + 1;
        assert(out@ =~= old(out)@ + s@.take(i as int));
    }
    assert(s@.take(i as int) =~= s@);
}

/// The component of `s`, `fallback` when it is blank.
fn component_of(s: &str, fallback: &str) -> (out: Vec<char>)
    ensures
        out@ == component(s@, fallback@),
{
    let cs = crate::text::chars_of(s);
    let t = crate::text::trim_chars(cs.as_slice(), 0, cs.len());
    assert(cs@.subrange(0, cs@.len() as int) =~= s@);
    if t.len() == 0 {
        crate::text::chars_of(fallback)
    } else {
        let ts = crate::text::string_from_chars(t.as_slice());
        let san = sanitize_filename(ts.as_str());
        crate::text::chars_of(san.as_str())
    }
}

/// The directory of a track.
fn track_dir_of(t: &Track) -> (dir: Vec<char>)
    ensures
        dir@ == track_dir(*t),
{
    let mut dir = crate::text::chars_of("/Contents/");
    let a = component_of(t.artist.as_str(), "UnknownArtist");
    push_chars(&mut dir, &a);
    dir.push('/');
    let b = component_of(t.album.as_str(), "UnknownAlbum");
    push_chars(&mut dir, &b);
    dir
}

/// The sanitized stem and extension of a track's file name.
fn stem_ext_of(t: &Track) -> (r: (Vec<char>, Vec<char>))
    ensures
        (r.0@, r.1@) == stem_ext(*t),
{
    let name = t.file_name();
    let cs = crate::text::chars_of(name.as_str());
    let mut d = cs.len();
    while d > 0 && cs[d - 1] != '.'
        invariant
            d <= cs@.len(),
            cs@ == name@,
            last_dot(name@, name@.len() as int) == last_dot(name@, d as int),
        decreases d,
    {
        d = d - 1;
    }
    let split: usize = if d > 1 { d - 1 } else { cs.len() };
    assert(split < cs@.len() ==> last_dot(name@, name@.len() as int) == split as int && split > 0);
    assert(split == cs@.len() ==> last_dot(name@, name@.len() as int) <= 0);
    let mut stem: Vec<char> = Vec::new();
    let mut ext: Vec<char> = Vec::new();
    let mut i: usize = 0;
    while i < cs.len()
        invariant
            split <= cs@.len(),
            i <= cs@.len(),
            i <= split ==> stem@ == cs@.take(i as int) && ext@ == Seq::<char>::empty(),
            i > split ==> stem@ == cs@.take(split as int) && ext@ == cs@.subrange(split as int, i as int),
        decreases cs@.len() - i,
    {
        if i < split {
            stem.push(cs[i]);
        } else {
            ext.push(cs[i]);
        }
        i = i + 1;
        assert(i <= split ==> stem@ =~= cs@.take(i as int));
        assert(i > split ==> ext@ =~= cs@.subrange(split as int, i as int));
    }
    proof {
        if split == cs@.len() {
            assert(stem@ =~= cs@);
        } else {
            assert(ext@ =~= cs@.skip(split as int));
        }
    }
    let stem_s = crate::text::string_from_chars(stem.as_slice());
    let ext_s = crate::text::string_from_chars(ext.as_slice());
    let st = component_of(stem_s.as_str(), "track");
    let ex = sanitize_filename(ext_s.as_str());
    (st, crate::text::chars_of(ex.as_str()))
}


// ------------------------------------------------------ sample depth ---

/// `h[off..off + 4]` is the tag `t`.
pub open spec fn tag_at(h: Seq<u8>, off: int, t: Seq<u8>) -> bool {
    0 <= off && off + 4 <= h.len() && h.subrange(off, off + 4) == t
}

/// The big-endian `u32` at `off`.
pub open spec fn be32_at(h: Seq<u8>, off: int) -> int {
    h[off] * 0x1000000 + h[off + 1] * 0x10000 + h[off + 2] * 0x100 + h[off + 3]
}

/// The little-endian `u32` at `off`.
pub open spec fn le32_at(h: Seq<u8>, off: int) -> int {
    h[off + 3] * 0x1000000 + h[off + 2] * 0x10000 + h[off + 1] * 0x100 + h[off]
}

/// Walks the chunks from `off` (each an id, a 32-bit length in the given
/// byte order, and the body padded to even length) to the one tagged `id`
/// and reads the 16-bit value `at` bytes into it. `Some(None)` when no
/// chunk header fits any more; `None` where the value would lie past the
/// end, which the reader does not survive.
pub open spec fn chunk_walk(h: Seq<u8>, off: int, big: bool, id: Seq<u8>, at: int) -> Option<Option<u16>>
    decreases h.len() - off,
{
    if off < 0 || off + 8 > h.len() {
        Some(None)
    } else {
        let l = if big { be32_at(h, off + 4) } else { le32_at(h, off + 4) };
        if h.subrange(off, off + 4) == id {
            if off + at + 2 > h.len() {
                None
            } else if big {
                Some(Some((h[off + at] * 0x100 + h[off + at + 1]) as u16))
            } else {
                Some(Some((h[off + at + 1] * 0x100 + h[off + at]) as u16))
            }
        } else {
            let next = off + 8 + l + l % 2;
            if next + 8 > h.len() { Some(None) } else { chunk_walk(h, next, big, id, at) }
        }
    }
}

/// The first position from `from` on where the tag `t` starts, or -1.
pub open spec fn find_tag(h: Seq<u8>, t: Seq<u8>, from: int) -> int
    decreases h.len() - from,
{
    if from < 0 || from + 4 > h.len() {
        -1
    } else if h.subrange(from, from + 4) == t {
        from
    } else {
        find_tag(h, t, from + 1)
    }
}

pub open spec fn tag_flac() -> Seq<u8> { seq![0x66u8, 0x4c, 0x61, 0x43] }
pub open spec fn tag_form() -> Seq<u8> { seq![0x46u8, 0x4f, 0x52, 0x4d] }
pub open spec fn tag_aiff() -> Seq<u8> { seq![0x41u8, 0x49, 0x46, 0x46] }
pub open spec fn tag_aifc() -> Seq<u8> { seq![0x41u8, 0x49, 0x46, 0x43] }
pub open spec fn tag_comm() -> Seq<u8> { seq![0x43u8, 0x4f, 0x4d, 0x4d] }
pub open spec fn tag_riff() -> Seq<u8> { seq![0x52u8, 0x49, 0x46, 0x46] }
pub open spec fn tag_wave() -> Seq<u8> { seq![0x57u8, 0x41, 0x56, 0x45] }
pub open spec fn tag_fmt() -> Seq<u8> { seq![0x66u8, 0x6d, 0x74, 0x20] }
pub open spec fn tag_alac() -> Seq<u8> { seq![0x61u8, 0x6c, 0x61, 0x63] }
pub open spec fn tag_ftyp() -> Seq<u8> { seq![0x66u8, 0x74, 0x79, 0x70] }

/// The bit depth an MP4 states in its ALAC sample entry.
pub open spec fn mp4_depth(h: Seq<u8>) -> Option<Option<u16>> {
    let i = find_tag(h, tag_alac(), 0);
    if i < 0 {
        Some(None)
    } else if h.len() < 8 {
        None
    } else if h.subrange(4, 8) != tag_ftyp() {
        Some(None)
    } else {
        let j = find_tag(h, tag_alac(), i + 4);
        if j < 0 || j + 13 >= h.len() { Some(None) } else { Some(Some(h[j + 13] as u16)) }
    }
}

/// The bit depth a file's first bytes state: FLAC's STREAMINFO, an AIFF's
/// `COMM` chunk, a WAV's `fmt ` chunk, or an MP4's ALAC configuration;
/// `Some(None)` when they state none, `None` for the truncated headers the
/// reader does not survive.
pub open spec fn header_depth_spec(h: Seq<u8>) -> Option<Option<u16>> {
    if h.len() >= 4 && h.subrange(0, 4) == tag_flac() {
        if h.len() < 22 { None } else { Some(Some(((h[20] % 2) * 16 + h[21] / 16 + 1) as u16)) }
    } else {
        let form = h.len() >= 4 && h.subrange(0, 4) == tag_form();
        if form && h.len() < 12 {
            None
        } else {
            let aiff = form && (h.subrange(8, 12) == tag_aiff() || h.subrange(8, 12) == tag_aifc());
            let a = if aiff { chunk_walk(h, 12, true, tag_comm(), 14) } else { Some(None) };
            match a {
                None => None,
                Some(Some(d)) => Some(Some(d)),
                Some(None) => {
                    let riff = h.len() >= 4 && h.subrange(0, 4) == tag_riff();
                    if riff && h.len() < 12 {
                        None
                    } else {
                        let w = if riff && h.subrange(8, 12) == tag_wave() { chunk_walk(h, 12, false, tag_fmt(), 22) } else { Some(None) };
                        match w {
                            None => None,
                            Some(Some(d)) => Some(Some(d)),
                            Some(None) => mp4_depth(h),
                        }
                    }
                },
            }
        }
    }
}

/// Whether `h[off..off + 4]` is the tag `a b c d`.
fn tag_is(h: &[u8], off: usize, a: u8, b: u8, c: u8, d: u8) -> (r: bool)
    ensures
        r == tag_at(h@, off as int, seq![a, b, c, d]),
{
    if off > h.len() || h.len() - off < 4 {
        return false;
    }
    let r = h[off] == a && h[off + 1] == b && h[off + 2] == c && h[off + 3] == d;
    assert(r == (h@.subrange(off as int, off + 4) =~= seq![a, b, c, d]));
    r
}

/// Walks the chunks from `off` to the one tagged `id`.
fn walk_chunks(h: &[u8], off: usize, big: bool, id: (u8, u8, u8, u8), at: usize) -> (r: Option<Option<u16>>)
    requires
        at <= 22,
    ensures
        r == chunk_walk(h@, off as int, big, seq![id.0, id.1, id.2, id.3], at as int),
{
    let ghost tid = seq![id.0, id.1, id.2, id.3];
    if off > h.len() || h.len() - off < 8 {
        return Some(None);
    }
    let mut p: usize = off;
    loop
        invariant
            at <= 22,
            p + 8 <= h.len(),
            tid == seq![id.0, id.1, id.2, id.3],
            chunk_walk(h@, off as int, big, tid, at as int) == chunk_walk(h@, p as int, big, tid, at as int),
        decreases h@.len() - p,
    {
        let l: u64 = if big {
            (h[p + 4] as u64) * 0x1000000 + (h[p + 5] as u64) * 0x10000 + (h[p + 6] as u64) * 0x100 + (h[p + 7] as u64)
        } else {
            (h[p + 7] as u64) * 0x1000000 + (h[p + 6] as u64) * 0x10000 + (h[p + 5] as u64) * 0x100 + (h[p + 4] as u64)
        };
        if tag_is(h, p, id.0, id.1, id.2, id.3) {
            if at + 2 > h.len() - p {
                return None;
            }
            let v: u16 = if big {
                (h[p + at] as u16) * 0x100 + (h[p + at + 1] as u16)
            } else {
                (h[p + at + 1] as u16) * 0x100 + (h[p + at] as u16)
            };
            return Some(Some(v));
        }
        let next: u128 = (p as u128) + 8 + (l as u128) + (l as u128) % 2;
        if next + 8 > h.len() as u128 {
            return Some(None);
        }
        p = next as usize;
    }
}

/// The first position from `from` on where the tag `a b c d` starts.
fn find_tag_from(h: &[u8], from: usize, a: u8, b: u8, c: u8, d: u8) -> (r: Option<usize>)
    ensures
        match r {
            Some(k) => find_tag(h@, seq![a, b, c, d], from as int) == k as int && k + 4 <= h@.len(),
            None => find_tag(h@, seq![a, b, c, d], from as int) < 0,
        },
{
    let ghost t = seq![a, b, c, d];
    let mut k = from;
    while k <= h.len() && h.len() - k >= 4
        invariant
            from <= k,
            t == seq![a, b, c, d],
            find_tag(h@, t, from as int) == find_tag(h@, t, k as int),
        decreases h@.len() - k,
    {
        let hit = tag_is(h, k, a, b, c, d);

        if hit {
            return Some(k);
        }
        k = k + 1;
    }
    None
}

/// The bit depth a file's first bytes state; see `header_depth_spec`.
pub fn header_depth(h: &[u8]) -> (r: Option<Option<u16>>)
    ensures
        r == header_depth_spec(h@),
{
    if tag_is(h, 0, 0x66, 0x4c, 0x61, 0x43) {
        if h.len() < 22 {
            return None;
        }
        let v: u16 = ((h[20] % 2) as u16) * 16 + (h[21] / 16) as u16 + 1;
        return Some(Some(v));
    }
    let form = tag_is(h, 0, 0x46, 0x4f, 0x52, 0x4d);
    if form && h.len() < 12 {
        return None;
    }
    let aiff = form && (tag_is(h, 8, 0x41, 0x49, 0x46, 0x46) || tag_is(h, 8, 0x41, 0x49, 0x46, 0x43));
    let a = if aiff { walk_chunks(h, 12, true, (0x43, 0x4f, 0x4d, 0x4d), 14) } else { Some(None) };
    match a {
        None => { return None; },
        Some(Some(d)) => { return Some(Some(d)); },
        Some(None) => {},
    }
    let riff = tag_is(h, 0, 0x52, 0x49, 0x46, 0x46);
    if riff && h.len() < 12 {
        return None;
    }
    let wave = riff && tag_is(h, 8, 0x57, 0x41, 0x56, 0x45);
    let w = if wave { walk_chunks(h, 12, false, (0x66, 0x6d, 0x74, 0x20), 22) } else { Some(None) };
    match w {
        None => { return None; },
        Some(Some(d)) => { return Some(Some(d)); },
        Some(None) => {},
    }
    match find_tag_from(h, 0, 0x61, 0x6c, 0x61, 0x63) {
        None => Some(None),
        Some(i) => {
            if h.len() < 8 {
                return None;
            }
            if !tag_is(h, 4, 0x66, 0x74, 0x79, 0x70) {
                return Some(None);
            }
            match find_tag_from(h, i + 4, 0x61, 0x6c, 0x61, 0x63) {
                None => Some(None),
                Some(j) => {
                    if h.len() <= 13 || j >= h.len() - 13 {
                        Some(None)
                    } else {
                        Some(Some(h[j + 13] as u16))
                    }
                },
            }
        },
    }
}

/// Bit depth of a lossless file from its first bytes (up to 64 KiB of it);
/// lossy formats and anything unreadable report 16, which is what rekordbox
/// writes for them, as does a stated depth outside 8..=32.
pub fn sample_depth(h: &[u8]) -> (d: u16)
    requires
        header_depth_spec(h@) is Some,
    ensures
        d == match header_depth_spec(h@) {
            Some(Some(v)) => if 8 <= v <= 32 { v } else { 16 },
            _ => 16,
        },
{
    match header_depth(h) {
        Some(Some(v)) => if 8 <= v && v <= 32 { v } else { 16 },
        _ => 16,
    }
}

}
