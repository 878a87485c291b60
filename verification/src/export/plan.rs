//! The decisions of planning an export: which playlists, which tracks, and
//! where a transcoded track's file goes.
use vstd::prelude::*;
use super::collection::{after_last_slash, playlist_views, track_views, Library, PlaylistView, Track, TrackView};
use super::layout::{assigned_path, Layout};
use super::build::model::DeviceTrack;
use super::build::{dec, spec_file_type};
use super::anlz::hash::{hex_upper, spec_anlz_hash};
use super::pdb::rows::FILE_TYPE_MP3;
use crate::text::lowercase_of;

verus! {

/// Why no playlist could be picked.
#[derive(Debug, Clone, PartialEq, Eq)]
pub enum SelectError {
    /// No playlist has this path.
    PlaylistNotFound(String),
    /// The playlist holds file paths, not TrackIDs.
    UnsupportedPlaylistType { path: String, key_type: String },
    /// Nothing exportable was selected.
    NoPlaylists,
}

/// The playlists an export takes when none is named: every TrackID
/// playlist, in document order.
pub open spec fn exportable(v: Seq<PlaylistView>, n: int) -> Seq<usize>
    decreases n,
{
    if n <= 0 || n > v.len() {
        seq![]
    } else if !v[n - 1].is_folder && v[n - 1].key_type == "0"@ {
        exportable(v, n - 1).push((n - 1) as usize)
    } else {
        exportable(v, n - 1)
    }
}

/// `s` without leading and trailing `/`.
pub open spec fn trim_slashes(s: Seq<char>) -> Seq<char>
    decreases s.len(),
{
    if s.len() > 0 && s[0] == '/' {
        trim_slashes(s.drop_first())
    } else if s.len() > 0 && s.last() == '/' {
        trim_slashes(s.drop_last())
    } else {
        s
    }
}

/// A requested playlist name as looked up: trimmed, then without leading
/// and trailing `/`.
pub open spec fn lookup_name(name: Seq<char>) -> Seq<char> {
    trim_slashes(crate::text::trim(name))
}

/// The playlists picked for the first `n` names, or the first name's
/// failure.
pub open spec fn picked(v: Seq<PlaylistView>, names: Seq<Seq<char>>, n: int) -> Result<Seq<usize>, (Seq<char>, Option<Seq<char>>)>
    decreases n,
{
    if n <= 0 || n > names.len() {
        Ok(seq![])
    } else {
        match picked(v, names, n - 1) {
            Err(e) => Err(e),
            Ok(out) => {
                let name = lookup_name(names[n - 1]);
                let i = super::collection::find_playlist(v, name, 0);
                if i < 0 {
                    Err((name, None))
                } else if v[i].key_type != "0"@ {
                    Err((v[i].path, Some(v[i].key_type)))
                } else if out.contains(i as usize) {
                    Ok(out)
                } else {
                    Ok(out.push(i as usize))
                }
            },
        }
    }
}

/// The plain form of a selection error: the name or path, and the
/// `KeyType` of an unsupported playlist.
pub open spec fn select_error_view(e: SelectError) -> Option<(Seq<char>, Option<Seq<char>>)> {
    match e {
        SelectError::PlaylistNotFound(n) => Some((n@, None)),
        SelectError::UnsupportedPlaylistType { path, key_type } => Some((path@, Some(key_type@))),
        SelectError::NoPlaylists => None,
    }
}

/// `s` with leading and trailing `/` removed.
fn strip_slashes(s: &[char]) -> (out: Vec<char>)
    ensures
        out@ == trim_slashes(s@),
{
    let mut a: usize = 0;
    let mut b: usize = s.len();
    assert(s@.subrange(0, s@.len() as int) =~= s@);
    while a < b && s[a] == '/'
        invariant
            a <= b == s@.len(),
            trim_slashes(s@) == trim_slashes(s@.subrange(a as int, b as int)),
        decreases b - a,
    {
        assert(s@.subrange(a as int, b as int).drop_first() =~= s@.subrange(a + 1, b as int));
        a = a + 1;
    }
    while a < b && s[b - 1] == '/'
        invariant
            a <= b <= s@.len(),
            trim_slashes(s@) == trim_slashes(s@.subrange(a as int, b as int)),
            a < b ==> s@[a as int] != '/',
        decreases b - a,
    {
        assert(s@.subrange(a as int, b as int).drop_last() =~= s@.subrange(a as int, b - 1));
        assert(s@.subrange(a as int, b as int)[0] == s@[a as int]);
        b = b - 1;
    }
    if a < b {
        assert(s@.subrange(a as int, b as int)[0] == s@[a as int]);
        assert(s@.subrange(a as int, b as int).last() == s@[b - 1]);
    }
    let mut out: Vec<char> = Vec::new();
    let mut k = a;
    while k < b
        invariant
            a <= k <= b <= s@.len(),
            out@ == s@.subrange(a as int, k as int),
        decreases b - k,
    {
        out.push(s[k]);
        k = k + 1;
        assert(out@ =~= s@.subrange(a as int, k as int));
    }
    out
}

/// Whether `v` holds `x`.
fn holds(v: &Vec<usize>, x: usize) -> (r: bool)
    ensures
        r == v@.contains(x),
{
    let mut i: usize = 0;
    while i < v.len()
        invariant
            i <= v@.len(),
            forall|j: int| 0 <= j < i ==> v@[j] != x,
        decreases v@.len() - i,
    {
        if v[i] == x {
            assert(v@[i as int] == x);
            return true;
        }
        i = i + 1;
    }
    false
}

/// The playlists to export, as indices into `library.playlists`: every
/// TrackID playlist when `names` is empty, else each named one (trimmed,
/// without leading or trailing `/`) once, in the order named.
pub fn select_playlists(library: &Library, names: &[String]) -> (r: Result<Vec<usize>, SelectError>)
    ensures
        ({
            let v = playlist_views(library.playlists@);
            let want = if names@.len() == 0 {
                Ok::<Seq<usize>, (Seq<char>, Option<Seq<char>>)>(exportable(v, v.len() as int))
            } else {
                picked(v, crate::rbsort::xml::strings(names@), names@.len() as int)
            };
            match r {
                Ok(out) => want == Ok::<Seq<usize>, (Seq<char>, Option<Seq<char>>)>(out@) && out@.len() > 0,
                Err(SelectError::NoPlaylists) => want matches Ok(s) && s.len() == 0,
                Err(e) => want == Err::<Seq<usize>, (Seq<char>, Option<Seq<char>>)>(select_error_view(e).unwrap()),
            }
        }),
{
    let ghost v = playlist_views(library.playlists@);
    let ghost nv = crate::rbsort::xml::strings(names@);
    let mut out: Vec<usize> = Vec::new();
    if names.len() == 0 {
        let mut i: usize = 0;
        while i < library.playlists.len()
            invariant
                i <= library.playlists@.len(),
                v == playlist_views(library.playlists@),
                out@ == exportable(v, i as int),
            decreases library.playlists@.len() - i,
        {
            assert(v[i as int] == library.playlists@[i as int]@);
            if !library.playlists[i].is_folder && crate::text::str_eq(library.playlists[i].key_type.as_str(), "0") {
                out.push(i);
            }
            i = i + 1;
        }
    } else {
        let mut k: usize = 0;
        while k < names.len()
            invariant
                k <= names@.len(),
                names@.len() > 0,
                v == playlist_views(library.playlists@),
                nv == crate::rbsort::xml::strings(names@),
                picked(v, nv, k as int) == Ok::<Seq<usize>, (Seq<char>, Option<Seq<char>>)>(out@),
            decreases names@.len() - k,
        {
            let cs = crate::text::chars_of(names[k].as_str());
            let t = crate::text::trim_chars(cs.as_slice(), 0, cs.len());
            assert(cs@.subrange(0, cs@.len() as int) =~= names@[k as int]@);
            let n = strip_slashes(t.as_slice());
            let name = crate::text::string_from_chars(n.as_slice());
            assert(nv[k as int] == names@[k as int]@);
            let i = match library.playlist(name.as_str()) {
                Some(i) => i,
                None => {
                    proof { lemma_picked_err(v, nv, k as int + 1, nv.len() as int); }
                    return Err(SelectError::PlaylistNotFound(name));
                },
            };
            assert(v[i as int] == library.playlists@[i as int]@);
            if !crate::text::str_eq(library.playlists[i].key_type.as_str(), "0") {
                proof { lemma_picked_err(v, nv, k as int + 1, nv.len() as int); }
                return Err(SelectError::UnsupportedPlaylistType {
                    path: library.playlists[i].path.clone(),
                    key_type: library.playlists[i].key_type.clone(),
                });
            }
            if !holds(&out, i) {
                out.push(i);
            }
            k = k + 1;
        }
    }
    if out.len() == 0 {
        return Err(SelectError::NoPlaylists);
    }
    Ok(out)
}

proof fn lemma_picked_err(v: Seq<PlaylistView>, names: Seq<Seq<char>>, k: int, n: int)
    requires
        0 <= k <= n <= names.len(),
        picked(v, names, k) is Err,
    ensures
        picked(v, names, n) == picked(v, names, k),
    decreases n - k,
{
    if n > k {
        lemma_picked_err(v, names, k, n - 1);
    }
}

/// What a transcoded track's file is called: the source's directory, its
/// stem (the file name before its last `.`), and `.mp3`.
pub open spec fn spec_mp3_location(location: Seq<char>) -> Seq<char> {
    let name = after_last_slash(location);
    let stem = match last_index_of(name, '.', name.len() as int) {
        Some(i) => name.take(i),
        None => name,
    };
    let dir = match last_index_of(location, '/', location.len() as int) {
        Some(i) => location.take(i),
        None => seq![],
    };
    dir + "/"@ + stem + ".mp3"@
}

/// The last index below `n` holding `c`.
pub open spec fn last_index_of(s: Seq<char>, c: char, n: int) -> Option<int>
    decreases n,
{
    if n <= 0 || n > s.len() {
        None
    } else if s[n - 1] == c {
        Some(n - 1)
    } else {
        last_index_of(s, c, n - 1)
    }
}

/// The last index of `c` in `s`.
fn last_index(s: &[char], c: char) -> (r: Option<usize>)
    ensures
        match r {
            Some(i) => last_index_of(s@, c, s@.len() as int) == Some(i as int) && i < s@.len(),
            None => last_index_of(s@, c, s@.len() as int) is None,
        },
{
    let mut n = s.len();
    while n > 0
        invariant
            n <= s@.len(),
            last_index_of(s@, c, s@.len() as int) == last_index_of(s@, c, n as int),
        decreases n,
    {
        if s[n - 1] == c {
            return Some(n - 1);
        }
        n = n - 1;
    }
    None
}

/// `a` followed by `b`.
fn push_chars(out: &mut Vec<char>, b: &[char])
    ensures
        final(out)@ == old(out)@ + b@,
{
    let mut i: usize = 0;
    while i < b.len()
        invariant
            i <= b@.len(),
            out@ == old(out)@ + b@.take(i as int),
        decreases b@.len() - i,
    {
        out.push(b[i]);
        i = i + 1;
        assert(out@ =~= old(out)@ + b@.take(i as int));
    }
    assert(b@.take(i as int) =~= b@);
}

/// Where a transcoded track's file goes, next to its source.
pub fn mp3_location(location: &str) -> (out: String)
    ensures
        out@ == spec_mp3_location(location@),
{
    let name = super::collection::tail_after_slash(location);
    let nc = crate::text::chars_of(name.as_str());
    let lc = crate::text::chars_of(location);
    let mut out: Vec<char> = Vec::new();
    match last_index(lc.as_slice(), '/') {
        Some(i) => {
            let mut k: usize = 0;
            while k < i
                invariant
                    k <= i < lc@.len(),
                    out@ == lc@.take(k as int),
                decreases i - k,
            {
                out.push(lc[k]);
                k = k + 1;
                assert(out@ =~= lc@.take(k as int));
            }
        },
        None => {},
    }
    push_chars(&mut out, crate::text::chars_of("/").as_slice());
    match last_index(nc.as_slice(), '.') {
        Some(i) => {
            let mut k: usize = 0;
            let ghost head = out@;
            while k < i
                invariant
                    k <= i < nc@.len(),
                    out@ == head + nc@.take(k as int),
                decreases i - k,
            {
                out.push(nc[k]);
                k = k + 1;
                assert(out@ =~= head + nc@.take(k as int));
            }
        },
        None => push_chars(&mut out, nc.as_slice()),
    }
    push_chars(&mut out, crate::text::chars_of(".mp3").as_slice());
    crate::text::string_from_chars(out.as_slice())
}


/// The values of `s` in order, each at its first occurrence only.
pub open spec fn first_occurrences(s: Seq<u64>) -> Seq<u64>
    decreases s.len(),
{
    if s.len() == 0 {
        seq![]
    } else {
        let d = first_occurrences(s.drop_last());
        if d.contains(s.last()) { d } else { d.push(s.last()) }
    }
}

/// The TrackIDs of the playlists `sel`, one playlist after the other.
pub open spec fn selected_refs(v: Seq<PlaylistView>, sel: Seq<usize>) -> Seq<u64>
    decreases sel.len(),
{
    if sel.len() == 0 {
        seq![]
    } else {
        selected_refs(v, sel.drop_last()) + v[sel.last() as int].track_ids
    }
}

/// The collection index of a TrackID, when the collection has it.
pub open spec fn track_index(lib_tracks: Seq<super::collection::TrackView>, id: u64) -> Option<usize> {
    let i = super::collection::find_track(lib_tracks, id, 0);
    if i >= 0 { Some(i as usize) } else { None }
}

/// The tracks an export plans, in order: every TrackID of the selected
/// playlists once, at its first occurrence, with the index of its
/// collection entry, or `None` when the collection has none (such a track
/// is reported as skipped).
pub fn planned_refs(library: &Library, selected: &[usize]) -> (out: Vec<(u64, Option<usize>)>)
    requires
        forall|k: int| 0 <= k < selected@.len() ==> #[trigger] selected@[k] < library.playlists@.len(),
    ensures
        ({
            let ids = first_occurrences(selected_refs(playlist_views(library.playlists@), selected@));
            &&& out@.len() == ids.len()
            &&& forall|i: int| 0 <= i < out@.len() ==> (#[trigger] out@[i]).0 == ids[i]
                && out@[i].1 == track_index(super::collection::track_views(library.tracks@), ids[i])
        }),
{
    let ghost v = playlist_views(library.playlists@);
    let ghost tv = super::collection::track_views(library.tracks@);
    let mut seen: Vec<u64> = Vec::new();
    let mut out: Vec<(u64, Option<usize>)> = Vec::new();
    let mut k: usize = 0;
    assert(selected@.take(0) =~= Seq::<usize>::empty());
    while k < selected.len()
        invariant
            k <= selected@.len(),
            v == playlist_views(library.playlists@),
            tv == super::collection::track_views(library.tracks@),
            forall|j: int| 0 <= j < selected@.len() ==> #[trigger] selected@[j] < library.playlists@.len(),
            seen@ == first_occurrences(selected_refs(v, selected@.take(k as int))),
            out@.len() == seen@.len(),
            forall|i: int| 0 <= i < out@.len() ==> (#[trigger] out@[i]).0 == seen@[i]
                && out@[i].1 == track_index(tv, seen@[i]),
        decreases selected@.len() - k,
    {
        let pi = selected[k];
        let ids = &library.playlists[pi].track_ids;
        assert(v[pi as int].track_ids == ids@);
        let ghost base = selected_refs(v, selected@.take(k as int));
        let mut j: usize = 0;
        assert(base + ids@.take(0) =~= base);
        while j < ids.len()
            invariant
                j <= ids@.len(),
                tv == super::collection::track_views(library.tracks@),
                seen@ == first_occurrences(base + ids@.take(j as int)),
                out@.len() == seen@.len(),
                forall|i: int| 0 <= i < out@.len() ==> (#[trigger] out@[i]).0 == seen@[i]
                    && out@[i].1 == track_index(tv, seen@[i]),
            decreases ids@.len() - j,
        {
            let tid = ids[j];
            proof {
                let s = base + ids@.take(j + 1);
                assert(s.drop_last() =~= base + ids@.take(j as int));
                assert(s.last() == tid);
            }
            let mut found = false;
            let mut m: usize = 0;
            while m < seen.len()
                invariant
                    m <= seen@.len(),
                    found == exists|q: int| 0 <= q < m && seen@[q] == tid,
                decreases seen@.len() - m,
            {
                if seen[m] == tid {
                    found = true;
                }
                m = m + 1;
            }
            if !found {
                let idx = library.track(tid);
                seen.push(tid);
                out.push((tid, idx));
            }
            j = j + 1;
        }
        proof {
            assert(selected@.take(k + 1).drop_last() =~= selected@.take(k as int));
            assert(ids@.take(j as int) =~= ids@);
        }
        k = k + 1;
    }
    assert(selected@.take(k as int) =~= selected@);
    out
}


/// The planned TrackIDs hold each TrackID of the selected playlists
/// exactly once.
pub proof fn lemma_first_occurrences(s: Seq<u64>)
    ensures
        forall|i: int, j: int| 0 <= i < j < first_occurrences(s).len()
            ==> #[trigger] first_occurrences(s)[i] != #[trigger] first_occurrences(s)[j],
        forall|x: u64| #[trigger] first_occurrences(s).contains(x) <==> s.contains(x),
    decreases s.len(),
{
    if s.len() > 0 {
        let init = s.drop_last();
        lemma_first_occurrences(init);
        let d = first_occurrences(init);
        assert forall|x: u64| #[trigger] first_occurrences(s).contains(x) <==> s.contains(x) by {
            if s.contains(x) && x != s.last() {
                let k = choose|k: int| 0 <= k < s.len() && s[k] == x;
                assert(init[k] == x);
                assert(init.contains(x));
            }
            if init.contains(x) {
                let k = choose|k: int| 0 <= k < init.len() && init[k] == x;
                assert(s[k] == x);
            }
            if !d.contains(s.last()) {
                assert(d.push(s.last())[d.len() as int] == s.last());
                if d.contains(x) {
                    let k = choose|k: int| 0 <= k < d.len() && d[k] == x;
                    assert(d.push(s.last())[k] == x);
                }
                if d.push(s.last()).contains(x) && x != s.last() {
                    let k = choose|k: int| 0 <= k < d.len() + 1 && d.push(s.last())[k] == x;
                    assert(d[k] == x);
                }
            }
            assert(s[s.len() - 1] == s.last());
        }
    }
}


// ------------------------------------------------------------- tracks ---

/// What the caller found out on disk about one planned track.
#[derive(Debug, Clone, Copy, PartialEq, Eq)]
pub struct TrackProbe {
    /// The size of the source file, `None` when it is missing.
    pub size: Option<u64>,
    /// The analysis file found for the track, by the caller's index.
    pub analysis: Option<usize>,
    /// The sample depth read from the source file's header.
    pub sample_depth: u16,
    /// `AverageBpm` times 100, rounded.
    pub tempo: u32,
}

/// A track the export takes.
#[derive(Debug, Clone)]
pub struct PlanTrack {
    pub device: DeviceTrack,
    /// Where the audio is read from.
    pub source: String,
    /// The analysis file to copy, by the caller's index; `None` means it is
    /// generated from the audio.
    pub analysis: Option<usize>,
}

/// A track the export leaves out, and why.
#[derive(Debug, Clone, PartialEq, Eq)]
pub struct Skipped {
    pub name: String,
    pub reason: String,
}

/// Why an export has nothing to write.
#[derive(Debug, Clone, Copy, PartialEq, Eq)]
pub enum PlanError {
    /// Every planned track was skipped.
    NothingToExport,
}

/// A planned track as plain values.
pub struct PlannedView {
    /// Its collection entry.
    pub track: usize,
    pub usb_path: Seq<char>,
    pub file_size: u64,
    pub sample_depth: u16,
    pub file_type: u16,
    pub bitrate: u32,
    pub sample_rate: u32,
    pub tempo: u32,
    pub analysis: Option<usize>,
}

/// What becomes of one planned track.
pub enum Decision {
    Skip(Seq<char>, Seq<char>),
    Take(PlannedView),
}

/// The TrackIDs an export plans, each with its collection entry.
pub open spec fn planned_ids(tv: Seq<TrackView>, v: Seq<PlaylistView>, sel: Seq<usize>) -> Seq<(u64, Option<usize>)> {
    first_occurrences(selected_refs(v, sel)).map_values(|id: u64| (id, track_index(tv, id)))
}

/// Why a track without analysis is left out.
pub open spec fn no_analysis_reason() -> Seq<char> {
    "no rekordbox analysis found (analyse it in rekordbox first, or pass --generate-analysis)"@
}

/// The analysis directory of a path on the stick.
pub open spec fn anlz_dir_for(usb_path: Seq<char>) -> Seq<char> {
    "/PIONEER/USBANLZ/P"@ + hex_upper(spec_anlz_hash(usb_path).0 as int, 3)
        + seq!['/'] + hex_upper(spec_anlz_hash(usb_path).1 as int, 8)
}

/// What becomes of the planned track `r`, probed as `p`, with the paths
/// `used` handed out so far: a TrackID the collection lacks, a missing
/// source file, or (unless analysis is generated) a track without analysis
/// is skipped; any other is laid out, as an MP3 next to its source when the
/// export makes everything CDJ-safe (320 kbps, 44.1 kHz, 16 bit).
pub open spec fn decide(tracks: Seq<Track>, r: (u64, Option<usize>), p: TrackProbe, generate: bool, cdjsafe: bool, used: Seq<Seq<char>>) -> Decision {
    if !(r.1 matches Some(i) && i < tracks.len()) {
        Decision::Skip("TrackID "@ + dec(r.0 as nat), "not in the collection"@)
    } else {
        let i = r.1->0;
        let t = tracks[i as int];
        match p.size {
            None => Decision::Skip(t.name@, "source file missing: "@ + t.location@),
            Some(size) => if p.analysis is None && !generate {
                Decision::Skip(t.name@, no_analysis_reason())
            } else {
                let loc = if cdjsafe { spec_mp3_location(t.location@) } else { t.location@ };
                Decision::Take(PlannedView {
                    track: i,
                    usb_path: assigned_path(used, t.artist@, t.album@, loc),
                    file_size: size,
                    sample_depth: if cdjsafe { 16 } else { p.sample_depth },
                    file_type: if cdjsafe { FILE_TYPE_MP3 } else { spec_file_type(t.kind@, after_last_slash(t.location@)) },
                    bitrate: if cdjsafe { 320 } else { t.bit_rate },
                    sample_rate: if cdjsafe { 44100 } else { t.sample_rate },
                    tempo: p.tempo,
                    analysis: p.analysis,
                })
            },
        }
    }
}

/// The first `n` planned tracks decided in order: the tracks taken, the
/// tracks skipped with their reasons, and the paths handed out.
pub open spec fn plan_fold(
    tracks: Seq<Track>,
    refs: Seq<(u64, Option<usize>)>,
    probes: Seq<TrackProbe>,
    generate: bool,
    cdjsafe: bool,
    used: Seq<Seq<char>>,
    n: int,
) -> (Seq<PlannedView>, Seq<(Seq<char>, Seq<char>)>, Seq<Seq<char>>)
    decreases n,
{
    if n <= 0 || n > refs.len() {
        (seq![], seq![], used)
    } else {
        let (ts, sk, u) = plan_fold(tracks, refs, probes, generate, cdjsafe, used, n - 1);
        match decide(tracks, refs[n - 1], probes[n - 1], generate, cdjsafe, u) {
            Decision::Skip(name, reason) => (ts, sk.push((name, reason)), u),
            Decision::Take(v) => (ts.push(v), sk, u.push(lowercase_of(v.usb_path))),
        }
    }
}

/// A planned track holds the values `v` gives it.
pub open spec fn plan_track_is(p: PlanTrack, tracks: Seq<Track>, v: PlannedView) -> bool {
    &&& v.track < tracks.len()
    &&& p.device.track@ == tracks[v.track as int]@
    &&& p.device.usb_path@ == v.usb_path
    &&& p.device.anlz_dir@ == anlz_dir_for(v.usb_path)
    &&& p.device.file_size == v.file_size
    &&& p.device.sample_depth == v.sample_depth
    &&& p.device.file_type == v.file_type
    &&& p.device.bitrate == v.bitrate
    &&& p.device.sample_rate == v.sample_rate
    &&& p.device.tempo == v.tempo
    &&& p.source@ == tracks[v.track as int].location@
    &&& p.analysis == v.analysis
}

/// Skipped tracks as plain values.
pub open spec fn skipped_views(s: Seq<Skipped>) -> Seq<(Seq<char>, Seq<char>)> {
    s.map_values(|k: Skipped| (k.name@, k.reason@))
}

/// The track that stands for `t` in the layout: its artist and album, with
/// the file at `location`.
fn layout_key(t: &Track, location: String) -> (k: Track)
    ensures
        k.artist@ == t.artist@,
        k.album@ == t.album@,
        k.location@ == location@,
{
    let mut k = Track::default();
    k.artist = t.artist.clone();
    k.album = t.album.clone();
    k.location = location;
    k
}

/// The tracks of an export, decided one by one in the order
/// `planned_refs` gives: each TrackID of the `selected` playlists once,
/// probed on disk by the caller as `probes` says. Skipped tracks come back
/// with their reasons; when no track is left the export has nothing to do.
pub fn plan_tracks(
    library: &Library,
    selected: &[usize],
    probes: &[TrackProbe],
    generate: bool,
    cdjsafe: bool,
    layout: &mut Layout,
) -> (r: Result<(Vec<PlanTrack>, Vec<Skipped>), PlanError>)
    requires
        forall|k: int| 0 <= k < selected@.len() ==> #[trigger] selected@[k] < library.playlists@.len(),
        probes@.len() == planned_ids(track_views(library.tracks@), playlist_views(library.playlists@), selected@).len(),
        old(layout)@.len() + probes@.len() < usize::MAX,
    ensures
        ({
            let refs = planned_ids(track_views(library.tracks@), playlist_views(library.playlists@), selected@);
            let (pv, sk, used) = plan_fold(library.tracks@, refs, probes@, generate, cdjsafe, old(layout)@, refs.len() as int);
            &&& final(layout)@ == used
            &&& match r {
                Ok((ts, ss)) => pv.len() > 0 && ts@.len() == pv.len()
                    && (forall|i: int| 0 <= i < pv.len() ==> plan_track_is(#[trigger] ts@[i], library.tracks@, pv[i]))
                    && skipped_views(ss@) == sk,
                Err(e) => pv.len() == 0 && e == PlanError::NothingToExport,
            }
        }),
{
    let ghost refs = planned_ids(track_views(library.tracks@), playlist_views(library.playlists@), selected@);
    let ghost start = layout@;
    let ghost lib_tracks = library.tracks@;
    let planned = planned_refs(library, selected);
    assert(planned@ =~= refs);
    let mut tracks: Vec<PlanTrack> = Vec::new();
    let mut skipped: Vec<Skipped> = Vec::new();
    let mut i: usize = 0;
    while i < planned.len()
        invariant
            i <= planned@.len() == refs.len() == probes@.len(),
            planned@ == refs,
            lib_tracks == library.tracks@,
            start.len() + probes@.len() < usize::MAX,
            layout@.len() <= start.len() + i,
            ({
                let (pv, sk, used) = plan_fold(lib_tracks, refs, probes@, generate, cdjsafe, start, i as int);
                &&& layout@ == used
                &&& tracks@.len() == pv.len()
                &&& (forall|j: int| 0 <= j < pv.len() ==> plan_track_is(#[trigger] tracks@[j], lib_tracks, pv[j]))
                &&& skipped_views(skipped@) == sk
            }),
        decreases planned@.len() - i,
    {
        let ghost (pv0, sk0, used0) = plan_fold(lib_tracks, refs, probes@, generate, cdjsafe, start, i as int);
        let ghost d = decide(lib_tracks, refs[i as int], probes@[i as int], generate, cdjsafe, used0);
        let (id, idx) = planned[i];
        let p = probes[i];
        let ghost before_sk = skipped@;
        match idx {
            Some(ix) if ix < library.tracks.len() => {
                let t = &library.tracks[ix];
                match p.size {
                    None => {
                        let reason = crate::text::concat_str("source file missing: ", t.location.as_str());
                        skipped.push(Skipped { name: t.name.clone(), reason });
                        assert(skipped_views(skipped@) =~= skipped_views(before_sk).push((t.name@, "source file missing: "@ + t.location@)));
                    },
                    Some(size) => {
                        if p.analysis.is_none() && !generate {
                            let reason = "no rekordbox analysis found (analyse it in rekordbox first, or pass --generate-analysis)".to_owned();
                            skipped.push(Skipped { name: t.name.clone(), reason });
                            assert(skipped_views(skipped@) =~= skipped_views(before_sk).push((t.name@, no_analysis_reason())));
                        } else {
                            let loc = if cdjsafe { mp3_location(t.location.as_str()) } else { t.location.clone() };
                            let key = layout_key(t, loc);
                            let usb_path = layout.assign(&key);
                            let anlz = super::anlz::hash::anlz_dir(usb_path.as_str());
                            let file_type = if cdjsafe {
                                FILE_TYPE_MP3
                            } else {
                                super::build::file_type_for(t.kind.as_str(), t.file_name().as_str())
                            };
                            let device = DeviceTrack {
                                track: t.copy(),
                                usb_path,
                                anlz_dir: anlz,
                                file_size: size,
                                sample_depth: if cdjsafe { 16 } else { p.sample_depth },
                                file_type,
                                bitrate: if cdjsafe { 320 } else { t.bit_rate },
                                sample_rate: if cdjsafe { 44100 } else { t.sample_rate },
                                tempo: p.tempo,
                            };
                            let ghost before_t = tracks@;
                            tracks.push(PlanTrack { device, source: t.location.clone(), analysis: p.analysis });
                            proof {
                                let v = d->Take_0;
                                assert(plan_track_is(tracks@[before_t.len() as int], lib_tracks, v));
                                assert forall|j: int| 0 <= j < pv0.push(v).len() implies plan_track_is(#[trigger] tracks@[j], lib_tracks, pv0.push(v)[j]) by {
                                    if j < pv0.len() {
                                        assert(tracks@[j] == before_t[j]);
                                    }
                                }
                            }
                        }
                    },
                }
            },
            _ => {
                let mut name = crate::text::chars_of("TrackID ");
                super::build::push_dec(&mut name, id);
                let name = crate::text::string_from_chars(name.as_slice());
                let reason = "not in the collection".to_owned();
                skipped.push(Skipped { name, reason });
                assert(skipped_views(skipped@) =~= skipped_views(before_sk).push(("TrackID "@ + dec(id as nat), "not in the collection"@)));
            },
        }
        i = i + 1;
    }
    if tracks.len() == 0 {
        return Err(PlanError::NothingToExport);
    }
    Ok((tracks, skipped))
}


/// Whether a path component names a file or folder (not the root, `.` or
/// `..`).
pub open spec fn is_named(c: Seq<char>) -> bool {
    c != "/"@ && c != "."@ && c != ".."@
}

/// The name the stick gets: the one given, else the name of the device's
/// folder (the last of its path components, when that names one), else
/// `USB`.
pub open spec fn spec_device_name(given: Option<Seq<char>>, device: Seq<Seq<char>>) -> Seq<char> {
    match given {
        Some(g) => g,
        None => if device.len() > 0 && is_named(device.last()) { device.last() } else { "USB"@ },
    }
}

/// The name the stick gets, the device given as its path components.
pub fn device_name(given: Option<&str>, device: &[String]) -> (n: String)
    ensures
        n@ == spec_device_name(match given { Some(g) => Some(g@), None => None }, device@.map_values(|c: String| c@)),
{
    let ghost dv = device@.map_values(|c: String| c@);
    match given {
        Some(g) => g.to_owned(),
        None => {
            let k = device.len();
            if k > 0 {
                let last = device[k - 1].as_str();
                assert(dv.last() == last@);
                if !crate::text::str_eq(last, "/") && !crate::text::str_eq(last, ".") && !crate::text::str_eq(last, "..") {
                    return last.to_owned();
                }
            }
            "USB".to_owned()
        },
    }
}

}
