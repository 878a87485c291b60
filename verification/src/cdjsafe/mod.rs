//! Make a playlist safe for CDJs: locations, file names and formats, and
//! the decisions of the two phases, planning (which tracks, which files)
//! and converting (what each track becomes, the new XML entries).
use vstd::prelude::*;
use crate::rbsort::xml::strings;
use crate::rbsort::{kept_segments, split_playlist_path, split_slash};
use xml::{source_views, CdjError, NewTrack, SourceTrack, SourceView};
use transcode::SourceInfo;

pub mod location;
pub mod transcode;
pub mod xml;

verus! {

/// What happens to one track.
#[derive(Debug, Clone, Copy, PartialEq, Eq, Structural)]
pub enum Action {
    /// Source already 320 kbps CBR MP3 at 44.1 kHz: copied byte for byte.
    Copy,
    /// Re-encoded from a lossless source.
    Reencode,
    /// Re-encoded from a lossy source (generation loss, shown in the report).
    ReencodeLossy,
}

/// What a probed source becomes.
pub open spec fn spec_action(codec: Seq<char>, compatible: bool) -> Action {
    if compatible {
        Action::Copy
    } else if codec == "mp3"@ || codec == "aac"@ {
        Action::ReencodeLossy
    } else {
        Action::Reencode
    }
}

/// What a source with this probe result becomes.
pub fn action_for(info: &SourceInfo) -> (a: Action)
    ensures
        a == spec_action(info.codec@, info.codec@ == "mp3"@ && info.sample_rate == transcode::SAFE_SAMPLE_RATE
            && info.bitrate_kbps == Some(transcode::SAFE_BITRATE_KBPS)),
{
    if info.is_compatible_mp3() {
        Action::Copy
    } else if info.is_lossy() {
        Action::ReencodeLossy
    } else {
        Action::Reencode
    }
}

/// What a probed source becomes, by its kind: the CDJ profile itself (MP3
/// at 320 kbps and 44.1 kHz) is copied; any other MP3 or AAC source is
/// lossy and re-encoded with generation loss; every other codec is
/// re-encoded as a lossless source.
pub proof fn lemma_action_classes(codec: Seq<char>, sample_rate: u32, bitrate_kbps: Option<u32>)
    ensures
        ({
            let profile = codec == "mp3"@ && sample_rate == 44100 && bitrate_kbps == Some(320u32);
            let a = spec_action(codec, codec == "mp3"@ && sample_rate == transcode::SAFE_SAMPLE_RATE
                && bitrate_kbps == Some(transcode::SAFE_BITRATE_KBPS));
            &&& (a == Action::Copy <==> profile)
            &&& (a == Action::ReencodeLossy <==> (codec == "mp3"@ || codec == "aac"@) && !profile)
            &&& (a == Action::Reencode <==> codec != "mp3"@ && codec != "aac"@)
        }),
{
}

/// How many of `actions` are `a`.
pub open spec fn action_count(actions: Seq<Action>, a: Action) -> nat
    decreases actions.len(),
{
    if actions.len() == 0 {
        0
    } else {
        action_count(actions.drop_last(), a) + if actions.last() == a { 1nat } else { 0nat }
    }
}

proof fn lemma_action_count_le(actions: Seq<Action>, a: Action)
    ensures
        action_count(actions, a) <= actions.len(),
    decreases actions.len(),
{
    if actions.len() > 0 {
        lemma_action_count_le(actions.drop_last(), a);
    }
}

/// How many tracks got action `a`.
pub fn count(actions: &[Action], a: Action) -> (n: usize)
    ensures
        n == action_count(actions@, a),
{
    let mut n: usize = 0;
    let mut i: usize = 0;
    while i < actions.len()
        invariant
            i <= actions@.len(),
            n == action_count(actions@.take(i as int), a),
        decreases actions@.len() - i,
    {
        proof {
            assert(actions@.take(i + 1).drop_last() =~= actions@.take(i as int));
            lemma_action_count_le(actions@.take(i as int), a);
        }
        if actions[i] == a {
            n = n + 1;
        }
        i = i + 1;
    }
    assert(actions@.take(i as int) =~= actions@);
    n
}

/// A playlist entry whose file is not on disk; skipped rather than fatal,
/// so everything that exists still gets written.
#[derive(Debug, Clone, PartialEq, Eq)]
pub struct SkippedTrack {
    pub name: String,
    pub track_id: String,
    pub location: String,
}

/// Why planning failed.
#[derive(Debug, Clone, PartialEq, Eq)]
pub enum PlanError {
    /// The playlist path has no segment.
    EmptyPlaylistPath,
    /// The playlist has no entry.
    EmptyPlaylist,
    /// No entry's file is on disk; `count` entries were missing.
    AllSourcesMissing { count: usize },
    Xml(CdjError),
}

/// The playlist path, split into its segments; an error when it has none.
pub fn plan_target(playlist: &str) -> (r: Result<Vec<String>, PlanError>)
    ensures
        match r {
            Ok(t) => strings(t@) == kept_segments(split_slash(playlist@)) && t@.len() > 0,
            Err(e) => kept_segments(split_slash(playlist@)).len() == 0 && e == PlanError::EmptyPlaylistPath,
        },
{
    let t = split_playlist_path(playlist);
    assert(strings(t@) == t@.map_values(|p: String| p@));
    if t.len() == 0 {
        return Err(PlanError::EmptyPlaylistPath);
    }
    Ok(t)
}

/// Find the playlist and capture its tracks: the tracks in playlist order
/// and the largest numeric TrackID; an empty playlist is an error.
pub fn plan_tracks(data: &[u8], target: &[String]) -> (r: Result<(Vec<SourceTrack>, u64), PlanError>)
    ensures
        match r {
            Ok((tracks, max)) => xml::spec_find_playlist(data@, strings(target@)) matches Ok((ids, m))
                && m == max && ids.len() > 0
                && xml::spec_collect(data@, ids) == Ok::<Seq<SourceView>, xml::CdjFail>(source_views(tracks@)),
            Err(PlanError::EmptyPlaylist) => xml::spec_find_playlist(data@, strings(target@)) matches Ok((ids, m)) && ids.len() == 0,
            Err(PlanError::Xml(x)) => match xml::spec_find_playlist(data@, strings(target@)) {
                Err(f) => f == x@,
                Ok((ids, m)) => xml::spec_collect(data@, ids) == Err::<Seq<SourceView>, xml::CdjFail>(x@),
            },
            Err(_) => false,
        },
{
    let (ids, max) = match xml::find_playlist(data, target) {
        Ok(t) => t,
        Err(x) => return Err(PlanError::Xml(x)),
    };
    if ids.len() == 0 {
        return Err(PlanError::EmptyPlaylist);
    }
    match xml::collect_tracks(data, ids.as_slice()) {
        Ok(tracks) => Ok((tracks, max)),
        Err(x) => Err(PlanError::Xml(x)),
    }
}

/// The entries whose file is not present, as skipped tracks.
pub open spec fn skipped_of(all: Seq<SourceView>, present: Seq<bool>) -> Seq<(Seq<char>, Seq<char>, Seq<char>)>
    decreases all.len(),
{
    if all.len() == 0 || present.len() != all.len() {
        seq![]
    } else if present.last() {
        skipped_of(all.drop_last(), present.drop_last())
    } else {
        skipped_of(all.drop_last(), present.drop_last()).push((all.last().name, all.last().id, all.last().location))
    }
}

/// The entries whose file is present.
pub open spec fn present_of(all: Seq<SourceView>, present: Seq<bool>) -> Seq<SourceView>
    decreases all.len(),
{
    if all.len() == 0 || present.len() != all.len() {
        seq![]
    } else if present.last() {
        present_of(all.drop_last(), present.drop_last()).push(all.last())
    } else {
        present_of(all.drop_last(), present.drop_last())
    }
}

/// A skipped track as plain values.
pub open spec fn skipped_view(s: SkippedTrack) -> (Seq<char>, Seq<char>, Seq<char>) {
    (s.name@, s.track_id@, s.location@)
}

/// Split the captured tracks by whether their files are on disk
/// (`present[i]` for track `i`), in playlist order. None present is an
/// error that counts the missing ones.
pub fn partition(all: Vec<SourceTrack>, present: &[bool]) -> (r: Result<(Vec<SourceTrack>, Vec<SkippedTrack>), PlanError>)
    requires
        present@.len() == all@.len(),
    ensures
        match r {
            Ok((s, k)) => source_views(s@) == present_of(source_views(all@), present@) && s@.len() > 0
                && k@.map_values(|t: SkippedTrack| skipped_view(t)) == skipped_of(source_views(all@), present@),
            Err(e) => present_of(source_views(all@), present@).len() == 0
                && e == PlanError::AllSourcesMissing { count: all@.len() as usize },
        },
{
    let ghost av = source_views(all@);
    let ghost pv = present@;
    let mut sources: Vec<SourceTrack> = Vec::new();
    let mut skipped: Vec<SkippedTrack> = Vec::new();
    assert(source_views(sources@) =~= seq![]);
    assert(skipped@.map_values(|t: SkippedTrack| skipped_view(t)) =~= seq![]);
    let mut i: usize = 0;
    while i < all.len()
        invariant
            i <= all@.len(),
            av == source_views(all@),
            pv == present@,
            present@.len() == all@.len(),
            source_views(sources@) == present_of(av.take(i as int), pv.take(i as int)),
            skipped@.map_values(|t: SkippedTrack| skipped_view(t)) == skipped_of(av.take(i as int), pv.take(i as int)),
        decreases all@.len() - i,
    {
        proof {
            assert(av.take(i + 1).drop_last() =~= av.take(i as int));
            assert(pv.take(i + 1).drop_last() =~= pv.take(i as int));
            assert(av.take(i + 1).last() == all@[i as int]@);
            assert(pv.take(i + 1).last() == present@[i as int]);
        }
        if present[i] {
            let ghost before = sources@;
            let t = xml::copy_source(&all[i]);
            sources.push(t);
            assert(source_views(sources@) =~= source_views(before).push(all@[i as int]@));
        } else {
            let ghost before = skipped@;
            let t = SkippedTrack {
                name: all[i].name.clone(),
                track_id: all[i].id.clone(),
                location: all[i].location.clone(),
            };
            skipped.push(t);
            assert(skipped@.map_values(|t: SkippedTrack| skipped_view(t))
                =~= before.map_values(|t: SkippedTrack| skipped_view(t)).push(skipped_view(t)));
        }
        i = i + 1;
    }
    assert(av.take(i as int) =~= av);
    assert(pv.take(i as int) =~= pv);
    if sources.len() == 0 {
        return Err(PlanError::AllSourcesMissing { count: all.len() });
    }
    Ok((sources, skipped))
}

/// Name of the playlist the conversion adds: the source playlist's name
/// (the last segment of its path) with `-CDJ-safe` appended, so importing
/// it never collides with the original.
pub fn output_playlist_name(target: &[String]) -> (name: String)
    ensures
        name@ == (if target@.len() > 0 { target@.last()@ } else { Seq::<char>::empty() }) + "-CDJ-safe"@,
{
    let mut cs: Vec<char> = if target.len() > 0 {
        crate::text::chars_of(target[target.len() - 1].as_str())
    } else {
        Vec::new()
    };
    let suffix = crate::text::chars_of("-CDJ-safe");
    let ghost head = cs@;
    let mut i: usize = 0;
    while i < suffix.len()
        invariant
            i <= suffix@.len(),
            suffix@ == "-CDJ-safe"@,
            cs@ == head + suffix@.take(i as int),
        decreases suffix@.len() - i,
    {
        cs.push(suffix[i]);
        i = i + 1;
        assert(cs@ =~= head + suffix@.take(i as int));
    }
    assert(suffix@.take(i as int) =~= suffix@);
    crate::text::string_from_chars(cs.as_slice())
}

/// Names of the tracks whose `<TRACK>` lacks `TotalTime`; rekordbox skips
/// cue import for those.
pub open spec fn without_total_time(v: Seq<SourceView>) -> Seq<Seq<char>>
    decreases v.len(),
{
    if v.len() == 0 {
        seq![]
    } else if v.last().has_total_time {
        without_total_time(v.drop_last())
    } else {
        without_total_time(v.drop_last()).push(v.last().name)
    }
}

/// Names of the tracks whose `<TRACK>` lacks `TotalTime`.
pub fn missing_total_time(sources: &[SourceTrack]) -> (names: Vec<String>)
    ensures
        strings(names@) == without_total_time(source_views(sources@)),
{
    let ghost sv = source_views(sources@);
    let mut names: Vec<String> = Vec::new();
    let mut i: usize = 0;
    assert(strings(names@) =~= seq![]);
    while i < sources.len()
        invariant
            i <= sources@.len(),
            sv == source_views(sources@),
            strings(names@) == without_total_time(sv.take(i as int)),
        decreases sources@.len() - i,
    {
        assert(sv.take(i + 1).drop_last() =~= sv.take(i as int));
        assert(sv.take(i + 1).last() == sources@[i as int]@);
        if !sources[i].has_total_time {
            let ghost before = names@;
            let n = sources[i].name.clone();
            names.push(n);
            assert(strings(names@) =~= strings(before).push(sources@[i as int].name@));
        }
        i = i + 1;
    }
    assert(sv.take(i as int) =~= sv);
    names
}

/// The XML entries of the converted tracks: TrackIDs counting on from the
/// largest one in the collection, each with its file's `Location` and size.
pub fn new_tracks(location_urls: Vec<String>, sizes: &[u64], max_track_id: u64) -> (v: Vec<NewTrack>)
    requires
        sizes@.len() == location_urls@.len(),
        max_track_id + location_urls@.len() <= u64::MAX,
    ensures
        v@.len() == location_urls@.len(),
        forall|i: int| 0 <= i < v@.len() ==> #[trigger] v@[i]@ == (xml::NewView {
            track_id: (max_track_id + 1 + i) as u64,
            location_url: location_urls@[i]@,
            size: sizes@[i],
        }),
{
    let mut v: Vec<NewTrack> = Vec::new();
    let mut i: usize = 0;
    while i < location_urls.len()
        invariant
            i <= location_urls@.len(),
            sizes@.len() == location_urls@.len(),
            max_track_id + location_urls@.len() <= u64::MAX,
            v@.len() == i,
            forall|j: int| 0 <= j < i ==> #[trigger] v@[j]@ == (xml::NewView {
                track_id: (max_track_id + 1 + j) as u64,
                location_url: location_urls@[j]@,
                size: sizes@[j],
            }),
        decreases location_urls@.len() - i,
    {
        v.push(NewTrack {
            track_id: max_track_id + 1 + i as u64,
            location_url: location_urls[i].clone(),
            size: sizes[i],
        });
        i = i + 1;
    }
    v
}

/// The position of the last `.` of `s`, or -1.
pub open spec fn last_dot(s: Seq<char>, n: int) -> int
    decreases n,
{
    if n <= 0 || n > s.len() {
        -1
    } else if s[n - 1] == '.' {
        n - 1
    } else {
        last_dot(s, n - 1)
    }
}

/// The name of the default output file of an XML named `name`: `-out`
/// appended to the stem, the extension kept (`c.xml` becomes `c-out.xml`).
/// A leading dot starts the stem, not an extension.
pub open spec fn spec_out_file_name(name: Seq<char>) -> Seq<char> {
    let d = last_dot(name, name.len() as int);
    if d > 0 {
        name.take(d) + "-out"@ + name.skip(d)
    } else {
        name + "-out"@
    }
}

/// The file name of the default output XML next to the input.
pub fn out_file_name(name: &str) -> (out: String)
    ensures
        out@ == spec_out_file_name(name@),
{
    let cs = crate::text::chars_of(name);
    let mut d = cs.len();
    while d > 0 && cs[d - 1] != '.'
        invariant
            d <= cs@.len(),
            cs@ == name@,
            last_dot(name@, name@.len() as int) == last_dot(name@, d as int),
        decreases d,
    {
        d = d - 1;
    }
    let dot: usize = if d > 0 { d - 1 } else { 0 };
    assert(d > 0 ==> last_dot(name@, name@.len() as int) == dot);
    assert(d == 0 ==> last_dot(name@, name@.len() as int) == -1);
    let suffix = crate::text::chars_of("-out");
    let split = if d > 1 { dot } else { cs.len() };
    let mut out: Vec<char> = Vec::new();
    let mut i: usize = 0;
    while i < split
        invariant
            i <= split <= cs@.len(),
            out@ == cs@.take(i as int),
        decreases split - i,
    {
        out.push(cs[i]);
        i = i + 1;
        assert(out@ =~= cs@.take(i as int));
    }
    let mut j: usize = 0;
    while j < suffix.len()
        invariant
            j <= suffix@.len(),
            i == split,
            out@ == cs@.take(split as int) + suffix@.take(j as int),
        decreases suffix@.len() - j,
    {
        out.push(suffix[j]);
        j = j + 1;
        assert(out@ =~= cs@.take(split as int) + suffix@.take(j as int));
    }
    assert(suffix@.take(j as int) =~= suffix@);
    let mut k = split;
    while k < cs.len()
        invariant
            split <= k <= cs@.len(),
            out@ == cs@.take(split as int) + suffix@ + cs@.subrange(split as int, k as int),
        decreases cs@.len() - k,
    {
        out.push(cs[k]);
        k = k + 1;
        assert(out@ =~= cs@.take(split as int) + suffix@ + cs@.subrange(split as int, k as int));
    }
    assert(cs@.subrange(split as int, cs@.len() as int) =~= cs@.skip(split as int));
    assert(cs@.take(cs@.len() as int) =~= cs@);
    assert(cs@.skip(cs@.len() as int) =~= Seq::<char>::empty());
    crate::text::string_from_chars(out.as_slice())
}


// ------------------------------------------------------- output names ---

/// `Path::file_stem` of a source location: the file name without its last
/// extension (a leading dot starts the stem); the track name when the path
/// has no file name.
pub open spec fn source_stem(location: Seq<char>, name: Seq<char>) -> Seq<char> {
    let f = crate::export::collection::after_last_slash(location);
    if f.len() == 0 || f == ".."@ {
        name
    } else {
        let d = last_dot(f, f.len() as int);
        if d > 0 { f.take(d) } else { f }
    }
}

/// The `n`-th file name tried for a stem: `stem.mp3`, then `stem (2).mp3`,
/// `stem (3).mp3`, ...
pub open spec fn mp3_name(stem: Seq<char>, n: nat) -> Seq<char> {
    if n <= 1 { stem + ".mp3"@ } else { stem + " ("@ + crate::export::build::dec(n) + ").mp3"@ }
}

/// The first number from `n` on whose name is free up to case, stopping at
/// `last`.
pub open spec fn free_number(taken: Seq<Seq<char>>, stem: Seq<char>, n: nat, last: nat) -> nat
    decreases last - n,
{
    if n >= last || !taken.contains(crate::text::lowercase_of(mp3_name(stem, n))) {
        n
    } else {
        free_number(taken, stem, n + 1, last)
    }
}

/// The names taken (in lower case) and the names given after the first `k`
/// sources.
pub open spec fn names_fold(srcs: Seq<SourceView>, k: int) -> (Seq<Seq<char>>, Seq<Seq<char>>)
    decreases k,
{
    if k <= 0 || k > srcs.len() {
        (seq![], seq![])
    } else {
        let (taken, names) = names_fold(srcs, k - 1);
        let stem = location::spec_sanitize(source_stem(srcs[k - 1].location, srcs[k - 1].name));
        let name = mp3_name(stem, free_number(taken, stem, 1, (taken.len() + 1) as nat));
        (taken.push(crate::text::lowercase_of(name)), names.push(name))
    }
}

/// `dir` joined with a relative name.
pub open spec fn joined(dir: Seq<char>, name: Seq<char>) -> Seq<char> {
    if dir.len() > 0 && dir.last() == '/' { dir + name } else { dir + seq!['/'] + name }
}

/// The stem of a source's file.
fn stem_of(location: &str, name: &str) -> (out: String)
    ensures
        out@ == source_stem(location@, name@),
{
    let f = crate::export::collection::tail_after_slash(location);
    if f.as_str().is_empty() || crate::text::str_eq(f.as_str(), "..") {
        return name.to_string();
    }
    let cs = crate::text::chars_of(f.as_str());
    let mut d = cs.len();
    while d > 0 && cs[d - 1] != '.'
        invariant
            d <= cs@.len(),
            cs@ == f@,
            last_dot(f@, f@.len() as int) == last_dot(f@, d as int),
        decreases d,
    {
        d = d - 1;
    }
    let end: usize = if d > 1 { d - 1 } else { cs.len() };
    let mut out: Vec<char> = Vec::new();
    let mut i: usize = 0;
    while i < end
        invariant
            i <= end <= cs@.len(),
            out@ == cs@.take(i as int),
        decreases end - i,
    {
        out.push(cs[i]);
        i = i + 1;
        assert(out@ =~= cs@.take(i as int));
    }
    assert(end == cs@.len() ==> out@ =~= cs@);
    crate::text::string_from_chars(out.as_slice())
}

/// The `n`-th file name tried for `stem`.
fn mp3_name_of(stem: &str, n: usize) -> (out: String)
    ensures
        out@ == mp3_name(stem@, n as nat),
{
    if n <= 1 {
        crate::text::concat_str(stem, ".mp3")
    } else {
        let mut digits: Vec<char> = Vec::new();
        crate::export::build::push_dec(&mut digits, n as u64);
        let d = crate::text::string_from_chars(digits.as_slice());
        let a = crate::text::concat_str(stem, " (");
        let b = crate::text::concat_str(a.as_str(), d.as_str());
        let c = crate::text::concat_str(b.as_str(), ").mp3");
        assert(c@ =~= stem@ + " ("@ + crate::export::build::dec(n as nat) + ").mp3"@);
        c
    }
}

/// The output file of each source in `out_dir`: the source's stem,
/// sanitized for FAT32, with a `.mp3` extension, and ` (2)`, ` (3)`, ...
/// before it when the name is already taken up to case (FAT32 and exFAT do
/// not tell case apart). With `k` names given, one of the first `k + 1`
/// tried is free as long as lower-casing keeps them apart; were none free,
/// the last of them is given.
pub fn plan_filenames(sources: &[SourceTrack], out_dir: &str) -> (out: Vec<String>)
    requires
        sources@.len() < usize::MAX,
    ensures
        out@.len() == sources@.len(),
        forall|i: int| 0 <= i < out@.len() ==> (#[trigger] out@[i])@
            == joined(out_dir@, names_fold(source_views(sources@), sources@.len() as int).1[i]),
{
    let ghost sv = source_views(sources@);
    let mut taken: Vec<String> = Vec::new();
    let mut out: Vec<String> = Vec::new();
    let ghost mut names: Seq<Seq<char>> = seq![];
    let mut k: usize = 0;
    while k < sources.len()
        invariant
            k <= sources@.len() < usize::MAX,
            sv == source_views(sources@),
            (taken@.map_values(|x: String| x@), names) == names_fold(sv, k as int),
            taken@.len() == k,
            names.len() == k,
            out@.len() == k,
            forall|i: int| 0 <= i < k ==> (#[trigger] out@[i])@ == joined(out_dir@, names[i]),
        decreases sources@.len() - k,
    {
        let src = &sources[k];
        assert(sv[k as int] == src@);
        let raw = stem_of(src.location.as_str(), src.name.as_str());
        let stem = location::sanitize_filename(raw.as_str());
        let ghost tv = taken@.map_values(|x: String| x@);
        let last = taken.len() + 1;
        let mut n: usize = 1;
        let mut name = mp3_name_of(stem.as_str(), n);
        loop
            invariant
                1 <= n <= last,
                last == taken@.len() + 1,
                tv == taken@.map_values(|x: String| x@),
                name@ == mp3_name(stem@, n as nat),
                free_number(tv, stem@, 1, last as nat) == free_number(tv, stem@, n as nat, last as nat),
            ensures
                1 <= n <= last,
                name@ == mp3_name(stem@, n as nat),
                free_number(tv, stem@, 1, last as nat) == n,
            decreases last - n,
        {
            if n >= last {
                break;
            }
            let low = crate::text::lowercase(name.as_str());
            if !crate::text::contains_str(&taken, low.as_str()) {
                break;
            }
            n = n + 1;
            name = mp3_name_of(stem.as_str(), n);
        }
        let low = crate::text::lowercase(name.as_str());
        taken.push(low);
        proof {
            reveal_strlit("/");
        }
        let path = if ends_with_slash(out_dir) {
            crate::text::concat_str(out_dir, name.as_str())
        } else {
            let d = crate::text::concat_str(out_dir, "/");
            crate::text::concat_str(d.as_str(), name.as_str())
        };
        proof {
            assert(taken@.map_values(|x: String| x@) =~= tv.push(crate::text::lowercase_of(name@)));
            names = names.push(name@);
        }
        assert(path@ == joined(out_dir@, name@));
        let ghost prev = out@;
        out.push(path);
        assert(forall|i: int| 0 <= i < k ==> out@[i] == prev[i]);
        k = k + 1;
    }
    out
}

/// Whether `s` ends with `/`.
fn ends_with_slash(s: &str) -> (r: bool)
    ensures
        r == (s@.len() > 0 && s@.last() == '/'),
{
    let cs = crate::text::chars_of(s);
    cs.len() > 0 && cs[cs.len() - 1] == '/'
}


// ------------------------------------------------------- output path ---

/// `p` without trailing `/` and `/.`.
pub open spec fn trim_slashes_end(p: Seq<char>) -> Seq<char>
    decreases p.len(),
{
    if p.len() > 0 && (p.last() == '/' || (p.len() >= 2 && p.last() == '.' && p[p.len() - 2] == '/')) {
        trim_slashes_end(p.drop_last())
    } else {
        p
    }
}

/// The default output XML next to `input`: `-out` appended to the stem, the
/// extension kept (`/a/b/c.xml` becomes `/a/b/c-out.xml`); None when the
/// path names no file (it is empty, a root, `.`, or ends in `..`). Trailing
/// `/` and `/.` name the directory before them.
pub open spec fn spec_default_output(input: Seq<char>) -> Option<Seq<char>> {
    let p = trim_slashes_end(input);
    let name = crate::export::collection::after_last_slash(p);
    if name.len() == 0 || name == "."@ || name == ".."@ {
        None
    } else {
        Some(p.take(p.len() - name.len()) + spec_out_file_name(name))
    }
}

proof fn lemma_after_last_slash_suffix(p: Seq<char>)
    ensures
        crate::export::collection::after_last_slash(p).len() <= p.len(),
        p.subrange(p.len() - crate::export::collection::after_last_slash(p).len(), p.len() as int)
            == crate::export::collection::after_last_slash(p),
    decreases p.len(),
{
    if p.len() > 0 && p.last() != '/' {
        lemma_after_last_slash_suffix(p.drop_last());
        let a = crate::export::collection::after_last_slash(p.drop_last());
        assert(p.subrange(p.len() - a.len() - 1, p.len() as int) =~= p.drop_last().subrange(p.len() - 1 - a.len(), p.len() - 1).push(p.last()));
    }
}

/// The default output XML path next to `input`; None when `input` names
/// no file.
pub fn default_output_path(input: &str) -> (out: Option<String>)
    ensures
        match out {
            Some(o) => spec_default_output(input@) == Some(o@),
            None => spec_default_output(input@) is None,
        },
{
    let cs = crate::text::chars_of(input);
    let mut end = cs.len();
    assert(cs@.take(end as int) =~= cs@);
    while end > 0 && (cs[end - 1] == '/' || (end >= 2 && cs[end - 1] == '.' && cs[end - 2] == '/'))
        invariant
            end <= cs@.len(),
            cs@ == input@,
            trim_slashes_end(input@) == trim_slashes_end(cs@.take(end as int)),
        decreases end,
    {
        assert(cs@.take(end as int).drop_last() =~= cs@.take(end - 1));
        end = end - 1;
    }
    let ghost p = cs@.take(end as int);
    assert(trim_slashes_end(p) == p);
    let mut pv: Vec<char> = Vec::new();
    let mut i: usize = 0;
    while i < end
        invariant
            i <= end <= cs@.len(),
            pv@ == cs@.take(i as int),
        decreases end - i,
    {
        pv.push(cs[i]);
        i = i + 1;
        assert(pv@ =~= cs@.take(i as int));
    }
    let ps = crate::text::string_from_chars(pv.as_slice());
    let name = crate::export::collection::tail_after_slash(ps.as_str());
    proof { lemma_after_last_slash_suffix(p); }
    if name.as_str().is_empty() || crate::text::str_eq(name.as_str(), ".") || crate::text::str_eq(name.as_str(), "..") {
        return None;
    }
    let keep = end - crate::text::chars_of(name.as_str()).len();
    let mut dir: Vec<char> = Vec::new();
    let mut j: usize = 0;
    while j < keep
        invariant
            j <= keep <= end <= cs@.len(),
            dir@ == cs@.take(j as int),
        decreases keep - j,
    {
        dir.push(cs[j]);
        j = j + 1;
        assert(dir@ =~= cs@.take(j as int));
    }
    assert(dir@ =~= p.take(p.len() - name@.len()));
    let ds = crate::text::string_from_chars(dir.as_slice());
    let file = out_file_name(name.as_str());
    Some(crate::text::concat_str(ds.as_str(), file.as_str()))
}

// ------------------------------------------------------- conversion ---

/// Why a conversion writes no XML.
#[derive(Debug, Clone, PartialEq, Eq)]
pub enum ConvertError {
    /// The run was cancelled.
    Cancelled,
    /// These tracks failed, each as `name: reason`, of `total` tracks.
    ConversionFailed { failures: Vec<String>, total: usize },
}

/// The results that came back, in order.
pub open spec fn returned(results: Seq<Option<Result<Action, String>>>) -> Seq<Result<Action, String>>
    decreases results.len(),
{
    if results.len() == 0 {
        seq![]
    } else {
        match results.last() {
            Some(r) => returned(results.drop_last()).push(r),
            None => returned(results.drop_last()),
        }
    }
}

/// The actions of the first `k` returned results and the failures among
/// them, each failure named by the track at its place.
pub open spec fn outcome_fold(names: Seq<Seq<char>>, rs: Seq<Result<Action, String>>, k: int) -> (Seq<Action>, Seq<Seq<char>>)
    decreases k,
{
    if k <= 0 || k > rs.len() {
        (seq![], seq![])
    } else {
        let (acts, fails) = outcome_fold(names, rs, k - 1);
        match rs[k - 1] {
            Ok(a) => (acts.push(a), fails),
            Err(e) => (acts, fails.push(if k - 1 < names.len() { names[k - 1] } else { seq![] } + ": "@ + e@)),
        }
    }
}

/// What a conversion run decides once every track came back: a cancelled
/// run, or one where any track failed, writes no XML; otherwise the actions
/// of the tracks, in order. `results` holds, per track, what came back,
/// None for a track not started once the run was cancelled, and the reason
/// of a failure as text.
pub fn conversion_outcome(names: &[String], results: &[Option<Result<Action, String>>], cancelled: bool)
    -> (r: Result<Vec<Action>, ConvertError>)
    ensures
        ({
            let rs = returned(results@);
            let (acts, fails) = outcome_fold(strings(names@), rs, rs.len() as int);
            if cancelled {
                r == Err::<Vec<Action>, ConvertError>(ConvertError::Cancelled)
            } else if fails.len() > 0 {
                r matches Err(ConvertError::ConversionFailed { failures, total })
                    && strings(failures@) == fails && total == names@.len()
            } else {
                r matches Ok(v) && v@ == acts
            }
        }),
{
    if cancelled {
        return Err(ConvertError::Cancelled);
    }
    let ghost nv = strings(names@);
    let mut actions: Vec<Action> = Vec::new();
    let mut failures: Vec<String> = Vec::new();
    let mut i: usize = 0;
    let mut k: usize = 0;
    while i < results.len()
        invariant
            i <= results@.len(),
            k <= i,
            nv == strings(names@),
            k as int == returned(results@.take(i as int)).len(),
            (actions@, strings(failures@)) == outcome_fold(nv, returned(results@.take(i as int)), k as int),
        decreases results@.len() - i,
    {
        let ghost before = returned(results@.take(i as int));
        proof {
            assert(results@.take(i + 1).drop_last() =~= results@.take(i as int));
        }
        match &results[i] {
            None => {},
            Some(res) => {
                let ghost now = before.push(*res);
                proof {
                    assert(now.take(k as int) =~= before);
                    lemma_outcome_prefix(nv, now, k as int);
                }
                match res {
                    Ok(a) => {
                        actions.push(*a);
                    },
                    Err(e) => {
                        let name: String = if k < names.len() { names[k].clone() } else { String::new() };
                        assert(name@ == if k < nv.len() { nv[k as int] } else { seq![] });
                        let a = crate::text::concat_str(name.as_str(), ": ");
                        let f = crate::text::concat_str(a.as_str(), e.as_str());
                        let ghost fb = failures@;
                        failures.push(f);
                        assert(strings(failures@) =~= strings(fb).push(f@));
                    },
                }
                k = k + 1;
            },
        }
        i = i + 1;
    }
    assert(results@.take(i as int) =~= results@);
    if failures.len() > 0 {
        return Err(ConvertError::ConversionFailed { failures, total: names.len() });
    }
    Ok(actions)
}

proof fn lemma_outcome_prefix(names: Seq<Seq<char>>, rs: Seq<Result<Action, String>>, k: int)
    requires
        0 <= k < rs.len(),
    ensures
        outcome_fold(names, rs, k) == outcome_fold(names, rs.take(k), k),
    decreases k,
{
    if k > 0 {
        lemma_outcome_prefix(names, rs, k - 1);
        lemma_outcome_prefix(names, rs.take(k), k - 1);
        assert(rs.take(k).take(k - 1) =~= rs.take(k - 1));
    }
}

}
