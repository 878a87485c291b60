//! The database model of an export: one row per track with the ids of its
//! artist, album, genre, label, key and colour, the name tables those ids
//! index, and the playlist tree of the selected playlists.
use vstd::prelude::*;
use crate::text::trim;
use crate::export::collection::{after_last_slash, Library, PlaylistView, Track};
use crate::export::pdb::rows::TrackRow;
use crate::export::pdb::writer::{Export, ExportPlaylist};

verus! {

/// A track as it will exist on the stick.
#[derive(Debug, Clone)]
pub struct DeviceTrack {
    pub track: Track,
    /// `/Contents/...`
    pub usb_path: String,
    /// `/PIONEER/USBANLZ/Pxxx/xxxxxxxx`
    pub anlz_dir: String,
    pub file_size: u64,
    pub sample_depth: u16,
    pub file_type: u16,
    pub bitrate: u32,
    pub sample_rate: u32,
    /// BPM x 100, rounded.
    pub tempo: u32,
}

// ------------------------------------------------------------ name ids ---

/// The first index from `i` on holding `name`, or -1.
pub open spec fn index_of(rows: Seq<Seq<char>>, name: Seq<char>, i: int) -> int
    decreases rows.len() - i,
{
    if i < 0 || i >= rows.len() {
        -1
    } else if rows[i] == name {
        i
    } else {
        index_of(rows, name, i + 1)
    }
}

/// The id of a name in a name table, adding it when new: the trimmed name,
/// 0 for an empty one, else its row number counted from 1.
pub open spec fn intern(rows: Seq<Seq<char>>, name: Seq<char>) -> (Seq<Seq<char>>, u32) {
    let t = trim(name);
    if t.len() == 0 {
        (rows, 0)
    } else {
        let k = index_of(rows, t, 0);
        if k >= 0 { (rows, (k + 1) as u32) } else { (rows.push(t), (rows.len() + 1) as u32) }
    }
}

/// The text of each string.
pub open spec fn texts(v: Seq<String>) -> Seq<Seq<char>> {
    v.map_values(|s: String| s@)
}

/// The row index of `name`.
fn find_name(rows: &Vec<String>, name: &str) -> (r: Option<usize>)
    ensures
        match r {
            Some(k) => index_of(texts(rows@), name@, 0) == k as int && k < rows@.len(),
            None => index_of(texts(rows@), name@, 0) < 0,
        },
{
    let ghost tv = texts(rows@);
    let mut i: usize = 0;
    while i < rows.len()
        invariant
            i <= rows@.len(),
            tv == texts(rows@),
            index_of(tv, name@, 0) == index_of(tv, name@, i as int),
        decreases rows@.len() - i,
    {
        assert(tv[i as int] == rows@[i as int]@);
        if crate::text::str_eq(rows[i].as_str(), name) {
            return Some(i);
        }
        i = i + 1;
    }
    None
}

/// The trimmed text.
fn trimmed(s: &str) -> (t: String)
    ensures
        t@ == trim(s@),
{
    let cs = crate::text::chars_of(s);
    let t = crate::text::trim_chars(cs.as_slice(), 0, cs.len());
    assert(cs@.subrange(0, cs@.len() as int) =~= s@);
    crate::text::string_from_chars(t.as_slice())
}

/// The id of `name`, added to `rows` when new.
fn intern_name(rows: &mut Vec<String>, name: &str) -> (id: u32)
    requires
        old(rows)@.len() < u32::MAX,
    ensures
        intern(texts(old(rows)@), name@) == (texts(final(rows)@), id),
        final(rows)@.len() <= old(rows)@.len() + 1,
{
    let t = trimmed(name);
    if t.as_str().is_empty() {
        return 0;
    }
    match find_name(rows, t.as_str()) {
        Some(k) => (k + 1) as u32,
        None => {
            let ghost before = texts(rows@);
            let ghost tv = t@;
            rows.push(t);
            assert(texts(rows@) =~= before.push(tv));
            rows.len() as u32
        },
    }
}

// -------------------------------------------------------------- tracks ---

/// The name tables as they grow.
pub struct NamesView {
    pub artists: Seq<Seq<char>>,
    pub genres: Seq<Seq<char>>,
    pub labels: Seq<Seq<char>>,
    pub albums: Seq<Seq<char>>,
    /// The one artist of each album, None once its tracks disagree.
    pub album_artist: Seq<Option<u32>>,
}

/// The ids of one track's names.
pub struct RowIds {
    pub artist: u32,
    pub album: u32,
    pub composer: u32,
    pub label: u32,
    pub remixer: u32,
    pub genre: u32,
}

/// One track's names enter the tables, in the order the row takes them:
/// artist, album, composer, label, remixer, genre.
pub open spec fn names_step(st: NamesView, t: Track) -> (NamesView, RowIds) {
    let f = t.fields();
    let (a1, artist) = intern(st.artists, f.artist);
    let al = trim(f.album);
    let k = index_of(st.albums, al, 0);
    let albums = if al.len() == 0 || k >= 0 { st.albums } else { st.albums.push(al) };
    let album_artist = if al.len() == 0 {
        st.album_artist
    } else if k >= 0 {
        st.album_artist.update(k, if st.album_artist[k] == Some(artist) { Some(artist) } else { None })
    } else {
        st.album_artist.push(Some(artist))
    };
    let album: u32 = if al.len() == 0 { 0 } else if k >= 0 { (k + 1) as u32 } else { (st.albums.len() + 1) as u32 };
    let (a2, composer) = intern(a1, f.composer);
    let (labels, label) = intern(st.labels, f.label);
    let (a3, remixer) = intern(a2, f.remixer);
    let (genres, genre) = intern(st.genres, f.genre);
    (NamesView { artists: a3, genres, labels, albums, album_artist }, RowIds { artist, album, composer, label, remixer, genre })
}

/// The tables after the first `n` tracks, and each track's ids.
pub open spec fn names_fold(ts: Seq<DeviceTrack>, n: int) -> (NamesView, Seq<RowIds>)
    decreases n,
{
    if n <= 0 || n > ts.len() {
        (NamesView { artists: seq![], genres: seq![], labels: seq![], albums: seq![], album_artist: seq![] }, seq![])
    } else {
        let (st, ids) = names_fold(ts, n - 1);
        let (st2, r) = names_step(st, ts[n - 1].track);
        (st2, ids.push(r))
    }
}

/// The key id of a tonality: its position in the key table counted from 1,
/// 0 when it is not there.
pub open spec fn key_id(keys: Seq<Seq<char>>, tonality: Seq<char>) -> u32 {
    let k = index_of(keys, trim(tonality), 0);
    if k >= 0 { (k + 1) as u32 } else { 0 }
}

/// The first colour from `i` on with this `0xRRGGBB`, or -1.
pub open spec fn colour_index(colors: Seq<(u8, u32)>, rgb: u32, i: int) -> int
    decreases colors.len() - i,
{
    if i < 0 || i >= colors.len() {
        -1
    } else if colors[i].1 == rgb {
        i
    } else {
        colour_index(colors, rgb, i + 1)
    }
}

/// The colour id of a track colour, 0 without one or without a match.
pub open spec fn color_id(colors: Seq<(u8, u32)>, colour: Option<u32>) -> u8 {
    match colour {
        Some(c) => {
            let k = colour_index(colors, c, 0);
            if k >= 0 { colors[k].0 } else { 0 }
        },
        None => 0,
    }
}

/// Row `r` is track `dt`'s, at position `i`, with its names' ids.
pub open spec fn row_ok(
    r: TrackRow,
    i: int,
    dt: DeviceTrack,
    ids: RowIds,
    keys: Seq<Seq<char>>,
    colors: Seq<(u8, u32)>,
    export_date: Seq<char>,
) -> bool {
    let t = dt.track;
    &&& r.id == (i + 1) as u32
    &&& r.sample_rate == dt.sample_rate
    &&& r.composer_id == ids.composer
    &&& r.file_size == if dt.file_size < u32::MAX { dt.file_size as u32 } else { u32::MAX }
    &&& r.artwork_id == 0
    &&& r.key_id == key_id(keys, t.tonality@)
    &&& r.original_artist_id == 0
    &&& r.label_id == ids.label
    &&& r.remixer_id == ids.remixer
    &&& r.bitrate == dt.bitrate
    &&& r.track_number == t.track_number
    &&& r.tempo == dt.tempo
    &&& r.genre_id == ids.genre
    &&& r.album_id == ids.album
    &&& r.artist_id == ids.artist
    &&& r.disc_number == t.disc_number as u16
    &&& r.play_count == t.play_count as u16
    &&& r.year == t.year as u16
    &&& r.sample_depth == dt.sample_depth
    &&& r.duration_seconds == t.total_time as u16
    &&& r.color_id == color_id(colors, t.colour)
    &&& r.rating == (if t.rating / 51 < 5 { t.rating / 51 } else { 5 }) as u8
    &&& r.file_type == dt.file_type
    &&& r.date_added@ == t.date_added@
    &&& r.release_date@ == Seq::<char>::empty()
    &&& r.mix_name@ == t.mix@
    &&& r.analyze_path@ == dt.anlz_dir@ + "/ANLZ0000.DAT"@
    &&& r.analyze_date@ == export_date
    &&& r.comment@ == t.comments@
    &&& r.title@ == t.name@
    &&& r.filename@ == after_last_slash(dt.usb_path@)
    &&& r.file_path@ == dt.usb_path@
}

/// The key id of a tonality.
fn key_id_of(keys: &Vec<String>, tonality: &str) -> (id: u32)
    requires
        keys@.len() < u32::MAX,
    ensures
        id == key_id(texts(keys@), tonality@),
{
    let t = trimmed(tonality);
    match find_name(keys, t.as_str()) {
        Some(k) => (k + 1) as u32,
        None => 0,
    }
}

/// The colour id of a track colour.
fn color_id_of(colors: &[(u8, u32)], colour: Option<u32>) -> (id: u8)
    ensures
        id == color_id(colors@, colour),
{
    match colour {
        None => 0,
        Some(c) => {
            let mut i: usize = 0;
            while i < colors.len()
                invariant
                    i <= colors@.len(),
                    colour == Some(c),
                    colour_index(colors@, c, 0) == colour_index(colors@, c, i as int),
                decreases colors@.len() - i,
            {
                if colors[i].1 == c {
                    return colors[i].0;
                }
                i = i + 1;
            }
            0
        },
    }
}

/// The row of track `dt` at position `i`.
fn track_row(
    dt: &DeviceTrack,
    i: usize,
    ids: &RowIdsExec,
    keys: &Vec<String>,
    colors: &[(u8, u32)],
    export_date: &str,
) -> (r: TrackRow)
    requires
        i < u32::MAX,
        keys@.len() < u32::MAX,
    ensures
        row_ok(r, i as int, *dt, ids.view(), texts(keys@), colors@, export_date@),
{
    let t = &dt.track;
    let key = key_id_of(keys, t.tonality.as_str());
    let color = color_id_of(colors, t.colour);
    let stars = t.stars();
    let file_size: u32 = if dt.file_size < 0xFFFF_FFFF { dt.file_size as u32 } else { 0xFFFF_FFFF };
    TrackRow {
        id: (i + 1) as u32,
        sample_rate: dt.sample_rate,
        composer_id: ids.composer,
        file_size,
        artwork_id: 0,
        key_id: key,
        original_artist_id: 0,
        label_id: ids.label,
        remixer_id: ids.remixer,
        bitrate: dt.bitrate,
        track_number: t.track_number,
        tempo: dt.tempo,
        genre_id: ids.genre,
        album_id: ids.album,
        artist_id: ids.artist,
        disc_number: t.disc_number as u16,
        play_count: t.play_count as u16,
        year: t.year as u16,
        sample_depth: dt.sample_depth,
        duration_seconds: t.total_time as u16,
        color_id: color,
        rating: stars,
        file_type: dt.file_type,
        date_added: t.date_added.clone(),
        release_date: String::new(),
        mix_name: t.mix.clone(),
        analyze_path: crate::text::concat_str(dt.anlz_dir.as_str(), "/ANLZ0000.DAT"),
        analyze_date: export_date.to_string(),
        comment: t.comments.clone(),
        title: t.name.clone(),
        filename: crate::export::collection::tail_after_slash(dt.usb_path.as_str()),
        file_path: dt.usb_path.clone(),
    }
}

/// The ids of one track's names.
pub struct RowIdsExec {
    pub artist: u32,
    pub album: u32,
    pub composer: u32,
    pub label: u32,
    pub remixer: u32,
    pub genre: u32,
}

impl RowIdsExec {
    pub open spec fn view(&self) -> RowIds {
        RowIds { artist: self.artist, album: self.album, composer: self.composer, label: self.label, remixer: self.remixer, genre: self.genre }
    }
}

/// The name tables.
struct Names {
    artists: Vec<String>,
    genres: Vec<String>,
    labels: Vec<String>,
    albums: Vec<String>,
    album_artist: Vec<Option<u32>>,
}

impl Names {
    spec fn model(&self) -> NamesView {
        NamesView {
            artists: texts(self.artists@),
            genres: texts(self.genres@),
            labels: texts(self.labels@),
            albums: texts(self.albums@),
            album_artist: self.album_artist@,
        }
    }

    spec fn small(&self, n: int) -> bool {
        &&& self.artists@.len() <= 3 * n
        &&& self.genres@.len() <= n
        &&& self.labels@.len() <= n
        &&& self.albums@.len() <= n
        &&& self.album_artist@.len() == self.albums@.len()
    }

    fn step(&mut self, t: &Track, Ghost(n): Ghost<int>) -> (ids: RowIdsExec)
        requires
            old(self).small(n),
            3 * n + 3 < u32::MAX,
        ensures
            final(self).small(n + 1),
            names_step(old(self).model(), *t) == (final(self).model(), ids.view()),
    {
        let artist = intern_name(&mut self.artists, t.artist.as_str());
        let al = trimmed(t.album.as_str());
        let album: u32 = if al.as_str().is_empty() {
            0
        } else {
            match find_name(&self.albums, al.as_str()) {
                Some(k) => {
                    let ghost before = self.album_artist@;
                    let prev = self.album_artist[k];
                    let keep: Option<u32> = match prev {
                        Some(a) => if a == artist { Some(a) } else { None },
                        None => None,
                    };
                    self.album_artist.set(k, keep);
                    assert(self.album_artist@ =~= before.update(k as int, if before[k as int] == Some(artist) { Some(artist) } else { None }));
                    (k + 1) as u32
                },
                None => {
                    let ghost before = texts(self.albums@);
                    let ghost alv = al@;
                    self.albums.push(al);
                    assert(texts(self.albums@) =~= before.push(alv));
                    self.album_artist.push(Some(artist));
                    self.albums.len() as u32
                },
            }
        };
        let composer = intern_name(&mut self.artists, t.composer.as_str());
        let label = intern_name(&mut self.labels, t.label.as_str());
        let remixer = intern_name(&mut self.artists, t.remixer.as_str());
        let genre = intern_name(&mut self.genres, t.genre.as_str());
        RowIdsExec { artist, album, composer, label, remixer, genre }
    }
}

// ------------------------------------------------------------ playlists ---

/// Parents come before their children.
pub open spec fn tree_ok(v: Seq<PlaylistView>) -> bool {
    forall|i: int| 0 <= i < v.len() ==> (#[trigger] v[i].parent matches Some(p) ==> p < i)
}

/// Parents come first in the playlists read so far, and every open NODE
/// on the stack is one of them.
pub open spec fn reading_ok(st: crate::export::collection::ParseView) -> bool {
    tree_ok(st.playlists) && crate::export::collection::stack_ok(st.stack, st.playlists.len() as int)
}

proof fn lemma_push_node_keeps(pls: Seq<PlaylistView>, stack: Seq<Option<usize>>, a: (Seq<(Seq<u8>, Seq<u8>)>, bool))
    requires
        tree_ok(pls),
        crate::export::collection::stack_ok(stack, pls.len() as int),
    ensures
        crate::export::collection::spec_push_node(pls, stack, a) matches Ok((p2, idx)) ==> {
            &&& tree_ok(p2)
            &&& p2.len() >= pls.len()
            &&& crate::export::collection::stack_ok(stack.push(idx), p2.len() as int)
        },
{
    if let Ok((p2, idx)) = crate::export::collection::spec_push_node(pls, stack, a) {
        if p2.len() > pls.len() {
            assert forall|i: int| 0 <= i < p2.len() implies (#[trigger] p2[i].parent matches Some(p) ==> p < i) by {
                if i < pls.len() {
                    assert(p2[i] == pls[i]);
                } else {
                    if stack.len() > 0 {
                        assert(stack[stack.len() - 1] == stack.last());
                    }
                }
            }
        }
        assert forall|i: int| 0 <= i < stack.push(idx).len() implies (#[trigger] stack.push(idx)[i] matches Some(p) ==> p < p2.len()) by {
            if i < stack.len() {
                assert(stack.push(idx)[i] == stack[i]);
            }
        }
    }
}

proof fn lemma_step_keeps(data: Seq<u8>, st: crate::export::collection::ParseView, e: crate::xml::EventView)
    requires
        reading_ok(st),
    ensures
        crate::export::collection::parse_step(data, st, e) matches Ok(s2) ==> reading_ok(s2),
{
    let a = crate::xml::spec_attrs(data, e);
    lemma_push_node_keeps(st.playlists, st.stack, a);
    if let Ok(s2) = crate::export::collection::parse_step(data, st, e) {
        if s2.playlists.len() == st.playlists.len() && s2.playlists != st.playlists {
            assert forall|i: int| 0 <= i < s2.playlists.len() implies (#[trigger] s2.playlists[i].parent matches Some(p) ==> p < i) by {
                assert(s2.playlists[i].parent == st.playlists[i].parent);
            }
        }
        assert forall|i: int| 0 <= i < s2.stack.len() implies (#[trigger] s2.stack[i] matches Some(p) ==> p < s2.playlists.len()) by {
            if s2.stack.len() == st.stack.len() + 1 {
                assert(crate::export::collection::stack_ok(st.stack.push(s2.stack.last()), s2.playlists.len() as int));
                assert(s2.stack =~= st.stack.push(s2.stack.last()));
                assert(s2.stack[i] == st.stack.push(s2.stack.last())[i]);
            } else if s2.stack.len() < st.stack.len() {
                assert(s2.stack[i] == st.stack[i]);
            } else {
                assert(s2.stack[i] == st.stack[i]);
            }
        }
    }
}

proof fn lemma_fold_keeps(data: Seq<u8>, evs: Seq<crate::xml::EventView>, n: int)
    ensures
        crate::export::collection::parse_fold(data, evs, n) matches Ok(st) ==> reading_ok(st),
    decreases n,
{
    if !(n <= 0 || n > evs.len()) {
        lemma_fold_keeps(data, evs, n - 1);
        if let Ok(st) = crate::export::collection::parse_fold(data, evs, n - 1) {
            lemma_step_keeps(data, st, evs[n - 1]);
        }
    } else {
        assert(crate::export::collection::parse_start().stack.len() == 0);
    }
}

/// The playlists a document holds come after the folders holding them,
/// as `build` needs.
pub proof fn lemma_library_is_tree(data: Seq<u8>)
    requires
        crate::export::collection::spec_library(data) is Ok,
    ensures
        tree_ok(crate::export::collection::spec_library(data)->Ok_0.1),
{
    if let Some(evs) = crate::xml::xml_events_of(data) {
        lemma_fold_keeps(data, evs, evs.len() as int);
    }
}

/// Whether every playlist's parent comes before it, as `build` needs.
pub fn is_tree(pls: &Vec<crate::export::collection::Playlist>) -> (r: bool)
    ensures
        r == tree_ok(crate::export::collection::playlist_views(pls@)),
{
    let ghost v = crate::export::collection::playlist_views(pls@);
    let mut i: usize = 0;
    while i < pls.len()
        invariant
            i <= pls@.len(),
            v == crate::export::collection::playlist_views(pls@),
            forall|j: int| 0 <= j < i ==> (#[trigger] v[j].parent matches Some(p) ==> p < j),
        decreases pls@.len() - i,
    {
        assert(v[i as int] == pls@[i as int]@);
        match pls[i].parent {
            Some(p) => {
                if p >= i {
                    assert(!(v[i as int].parent matches Some(q) ==> q < i));
                    return false;
                }
            },
            None => {},
        }
        i = i + 1;
    }
    true
}

/// `a` is `i` or one of its ancestors.
pub open spec fn reaches(v: Seq<PlaylistView>, a: int, i: int) -> bool
    decreases i,
{
    if i < 0 || i >= v.len() {
        false
    } else if a == i {
        true
    } else {
        match v[i].parent {
            Some(p) => if p < i { reaches(v, a, p as int) } else { false },
            None => false,
        }
    }
}

/// Playlist `a` is one of the selected or a folder holding one.
pub open spec fn included(v: Seq<PlaylistView>, sel: Seq<usize>, a: int) -> bool {
    exists|k: int| 0 <= k < sel.len() && reaches(v, a, #[trigger] sel[k] as int)
}

/// How many of the first `n` playlists are included.
pub open spec fn included_before(v: Seq<PlaylistView>, sel: Seq<usize>, n: int) -> nat
    decreases n,
{
    if n <= 0 {
        0
    } else {
        included_before(v, sel, n - 1) + if included(v, sel, n - 1) { 1nat } else { 0nat }
    }
}

/// How many of the first `n` playlists are included and have parent `parent`.
pub open spec fn siblings_before(v: Seq<PlaylistView>, sel: Seq<usize>, parent: Option<usize>, n: int) -> nat
    decreases n,
{
    if n <= 0 {
        0
    } else {
        siblings_before(v, sel, parent, n - 1)
            + if included(v, sel, n - 1) && n - 1 < v.len() && v[n - 1].parent == parent { 1nat } else { 0nat }
    }
}

/// The row id of the last device track with TrackID `tid` among the first `n`.
pub open spec fn row_of(ts: Seq<DeviceTrack>, tid: u64, n: int) -> Option<u32>
    decreases n,
{
    if n <= 0 || n > ts.len() {
        None
    } else if ts[n - 1].track.id == tid {
        Some(n as u32)
    } else {
        row_of(ts, tid, n - 1)
    }
}

/// A playlist's TrackIDs as row ids, dropping the tracks not exported.
pub open spec fn mapped(ts: Seq<DeviceTrack>, tids: Seq<u64>) -> Seq<u32>
    decreases tids.len(),
{
    if tids.len() == 0 {
        seq![]
    } else {
        mapped(ts, tids.drop_last()) + match row_of(ts, tids.last(), ts.len() as int) {
            Some(r) => seq![r],
            None => seq![],
        }
    }
}

/// The indices of the included playlists among the first `n`, in order.
pub open spec fn included_indices(v: Seq<PlaylistView>, sel: Seq<usize>, n: int) -> Seq<int>
    decreases n,
{
    if n <= 0 {
        seq![]
    } else if included(v, sel, n - 1) {
        included_indices(v, sel, n - 1).push(n - 1)
    } else {
        included_indices(v, sel, n - 1)
    }
}

/// The node of playlist `i` in the database: ids count the included
/// playlists in document order from 1, a top-level node has parent 0, and
/// siblings are numbered from 0 in document order.
pub open spec fn node_ok(ep: ExportPlaylist, v: Seq<PlaylistView>, sel: Seq<usize>, ts: Seq<DeviceTrack>, i: int) -> bool {
    &&& ep.id == included_before(v, sel, i) + 1
    &&& ep.parent == match v[i].parent {
            Some(p) => if included(v, sel, p as int) { (included_before(v, sel, p as int) + 1) as u32 } else { 0 },
            None => 0,
        }
    &&& ep.sort_order == siblings_before(v, sel, v[i].parent, i)
    &&& ep.is_folder == v[i].is_folder
    &&& ep.name@ == v[i].name
    &&& ep.track_ids@ == if v[i].is_folder { seq![] } else { mapped(ts, v[i].track_ids) }
}

proof fn lemma_reaches_step(v: Seq<PlaylistView>, a: int, cur: int, p: usize)
    requires
        0 <= cur < v.len(),
        v[cur].parent == Some(p),
        p < cur,
    ensures
        reaches(v, a, cur) == (a == cur || reaches(v, a, p as int)),
{
    reveal_with_fuel(reaches, 2);
}

proof fn lemma_reaches_le(v: Seq<PlaylistView>, a: int, i: int)
    requires
        reaches(v, a, i),
    ensures
        0 <= a <= i < v.len(),
    decreases i,
{
    if a != i {
        match v[i].parent {
            Some(p) => {
                if p < i {
                    lemma_reaches_le(v, a, p as int);
                }
            },
            None => {},
        }
    }
}

/// Which playlists are included.
fn mark_included(pls: &Vec<super::super::collection::Playlist>, selected: &[usize]) -> (inc: Vec<bool>)
    requires
        tree_ok(crate::export::collection::playlist_views(pls@)),
        forall|k: int| 0 <= k < selected@.len() ==> #[trigger] selected@[k] < pls@.len(),
    ensures
        inc@.len() == pls@.len(),
        forall|a: int| 0 <= a < inc@.len() ==> #[trigger] inc@[a] == included(crate::export::collection::playlist_views(pls@), selected@, a),
{
    let ghost v = crate::export::collection::playlist_views(pls@);
    let mut inc: Vec<bool> = Vec::new();
    while inc.len() < pls.len()
        invariant
            inc@.len() <= pls@.len(),
            forall|a: int| 0 <= a < inc@.len() ==> !#[trigger] inc@[a],
        decreases pls@.len() - inc@.len(),
    {
        inc.push(false);
    }
    let mut k: usize = 0;
    while k < selected.len()
        invariant
            k <= selected@.len(),
            v == crate::export::collection::playlist_views(pls@),
            tree_ok(v),
            inc@.len() == pls@.len(),
            forall|j: int| 0 <= j < selected@.len() ==> #[trigger] selected@[j] < pls@.len(),
            forall|a: int| 0 <= a < inc@.len() ==> #[trigger] inc@[a]
                == exists|j: int| 0 <= j < k && reaches(v, a, #[trigger] selected@[j] as int),
        decreases selected@.len() - k,
    {
        let s = selected[k];
        let ghost before = inc@;
        let mut cur = s;
        loop
            invariant_except_break
                forall|a: int| 0 <= a < inc@.len() ==> #[trigger] inc@[a]
                    == (before[a] || (reaches(v, a, s as int) && !reaches(v, a, cur as int))),
            invariant
                v == crate::export::collection::playlist_views(pls@),
                tree_ok(v),
                inc@.len() == pls@.len(),
                before.len() == inc@.len(),
                cur < pls@.len(),
                reaches(v, cur as int, s as int),
            ensures
                inc@.len() == pls@.len(),
                forall|a: int| 0 <= a < inc@.len() ==> #[trigger] inc@[a] == (before[a] || reaches(v, a, s as int)),
            decreases cur,
        {
            inc.set(cur, true);
            assert(v[cur as int] == pls@[cur as int]@);
            match pls[cur].parent {
                Some(p) => {
                    assert(v[cur as int].parent == Some(p));
                    assert(p < cur);
                    proof {
                        lemma_reaches_step(v, p as int, cur as int, p);
                        lemma_reaches_trans(v, p as int, cur as int, s as int);
                        assert forall|a: int| 0 <= a < inc@.len() implies #[trigger] inc@[a]
                            == (before[a] || (reaches(v, a, s as int) && !reaches(v, a, p as int))) by {
                            lemma_reaches_step(v, a, cur as int, p);
                            if a == cur {
                                if reaches(v, a, p as int) {
                                    lemma_reaches_le(v, a, p as int);
                                }
                            }
                        }
                    }
                    cur = p;
                },
                None => {
                    proof {
                        assert forall|a: int| 0 <= a < inc@.len() implies #[trigger] inc@[a]
                            == (before[a] || reaches(v, a, s as int)) by {
                            if a != cur {
                                assert(!reaches(v, a, cur as int));
                            }
                        }
                    }
                    break;
                },
            }
        }
        proof {
            assert forall|a: int| 0 <= a < inc@.len() implies #[trigger] inc@[a]
                == exists|j: int| 0 <= j < k + 1 && reaches(v, a, #[trigger] selected@[j] as int) by {
                if reaches(v, a, s as int) {
                    assert(selected@[k as int] == s);
                }
            }
        }
        k = k + 1;
    }
    proof {
        assert forall|a: int| 0 <= a < inc@.len() implies #[trigger] inc@[a] == included(v, selected@, a) by {
        }
    }
    inc
}

proof fn lemma_reaches_trans(v: Seq<PlaylistView>, a: int, b: int, c: int)
    requires
        reaches(v, a, b),
        reaches(v, b, c),
    ensures
        reaches(v, a, c),
    decreases c,
{
    if b != c {
        match v[c].parent {
            Some(p) => {
                if p < c {
                    lemma_reaches_trans(v, a, b, p as int);
                }
            },
            None => {},
        }
    }
}


proof fn lemma_counts_bounded(v: Seq<PlaylistView>, sel: Seq<usize>, parent: Option<usize>, n: int)
    requires
        0 <= n,
    ensures
        included_before(v, sel, n) <= n,
        siblings_before(v, sel, parent, n) <= n,
        included_indices(v, sel, n).len() == included_before(v, sel, n),
    decreases n,
{
    if n > 0 {
        lemma_counts_bounded(v, sel, parent, n - 1);
    }
}

/// The row id of the last device track with TrackID `tid`.
fn row_for(tracks: &[DeviceTrack], tid: u64) -> (r: Option<u32>)
    requires
        tracks@.len() < u32::MAX,
    ensures
        r == row_of(tracks@, tid, tracks@.len() as int),
{
    let mut n = tracks.len();
    while n > 0
        invariant
            n <= tracks@.len() < u32::MAX,
            row_of(tracks@, tid, tracks@.len() as int) == row_of(tracks@, tid, n as int),
        decreases n,
    {
        if tracks[n - 1].track.id == tid {
            return Some(n as u32);
        }
        n = n - 1;
    }
    None
}

/// A playlist's TrackIDs as row ids.
fn map_ids(tracks: &[DeviceTrack], tids: &Vec<u64>) -> (out: Vec<u32>)
    requires
        tracks@.len() < u32::MAX,
    ensures
        out@ == mapped(tracks@, tids@),
{
    let mut out: Vec<u32> = Vec::new();
    let mut k: usize = 0;
    while k < tids.len()
        invariant
            k <= tids@.len(),
            tracks@.len() < u32::MAX,
            out@ == mapped(tracks@, tids@.take(k as int)),
        decreases tids@.len() - k,
    {
        let r = row_for(tracks, tids[k]);
        proof {
            let t = tids@.take(k + 1);
            assert(t.drop_last() =~= tids@.take(k as int));
            assert(t.last() == tids@[k as int]);
        }
        match r {
            Some(x) => {
                out.push(x);
            },
            None => {},
        }
        k = k + 1;
        assert(out@ =~= mapped(tracks@, tids@.take(k as int)));
    }
    assert(tids@.take(k as int) =~= tids@);
    out
}

/// The parent that slot `s` of the sibling counters counts: 0 for the top
/// level, `p + 1` for playlist `p`.
pub open spec fn slot_parent(s: int) -> Option<usize> {
    if s == 0 { None } else { Some((s - 1) as usize) }
}

/// The playlist tree of the export: the selected playlists and every folder
/// above them, in document order.
pub fn export_playlists(
    pls: &Vec<crate::export::collection::Playlist>,
    selected: &[usize],
    tracks: &[DeviceTrack],
) -> (out: Vec<ExportPlaylist>)
    requires
        tree_ok(crate::export::collection::playlist_views(pls@)),
        forall|k: int| 0 <= k < selected@.len() ==> #[trigger] selected@[k] < pls@.len(),
        pls@.len() < u32::MAX,
        tracks@.len() < u32::MAX,
    ensures
        ({
            let v = crate::export::collection::playlist_views(pls@);
            let idx = included_indices(v, selected@, v.len() as int);
            &&& out@.len() == idx.len()
            &&& forall|j: int| 0 <= j < out@.len() ==> #[trigger] node_ok(out@[j], v, selected@, tracks@, idx[j])
        }),
{
    let ghost v = crate::export::collection::playlist_views(pls@);
    let inc = mark_included(pls, selected);
    let n = pls.len();
    let mut node_id: Vec<u32> = Vec::new();
    let mut counts: Vec<u32> = Vec::new();
    while node_id.len() < n
        invariant
            node_id@.len() <= n,
            forall|a: int| 0 <= a < node_id@.len() ==> #[trigger] node_id@[a] == 0,
        decreases n - node_id@.len(),
    {
        node_id.push(0);
    }
    while counts.len() <= n
        invariant
            counts@.len() <= n + 1,
            n < u32::MAX,
            forall|a: int| 0 <= a < counts@.len() ==> #[trigger] counts@[a] == 0,
        decreases n + 1 - counts@.len(),
    {
        counts.push(0);
    }
    let mut out: Vec<ExportPlaylist> = Vec::new();
    let mut next: u32 = 1;
    let mut i: usize = 0;
    while i < n
        invariant
            n == pls@.len() < u32::MAX,
            v == crate::export::collection::playlist_views(pls@),
            v.len() == n,
            tree_ok(v),
            tracks@.len() < u32::MAX,
            i <= n,
            inc@.len() == n,
            forall|a: int| 0 <= a < n ==> #[trigger] inc@[a] == included(v, selected@, a),
            node_id@.len() == n,
            counts@.len() == n + 1,
            next == included_before(v, selected@, i as int) + 1,
            forall|a: int| 0 <= a < n ==> #[trigger] node_id@[a]
                == if a < i && included(v, selected@, a) { (included_before(v, selected@, a) + 1) as u32 } else { 0 },
            forall|s: int| 0 <= s <= n ==> #[trigger] counts@[s] == siblings_before(v, selected@, slot_parent(s), i as int),
            out@.len() == included_indices(v, selected@, i as int).len(),
            forall|j: int| 0 <= j < out@.len() ==> #[trigger] node_ok(out@[j], v, selected@, tracks@, included_indices(v, selected@, i as int)[j]),
        decreases n - i,
    {
        proof {
            lemma_counts_bounded(v, selected@, None, i as int);
        }
        assert(v[i as int] == pls@[i as int]@);
        if inc[i] {
            let p = &pls[i];
            let slot: usize = match p.parent {
                Some(q) => {
                    assert(v[i as int].parent == Some(q));
                    q + 1
                },
                None => 0,
            };
            assert(slot_parent(slot as int) == v[i as int].parent);
            proof {
                lemma_counts_bounded(v, selected@, slot_parent(slot as int), i as int);
            }
            let sort_order = counts[slot];
            let parent_id: u32 = match p.parent {
                Some(q) => node_id[q],
                None => 0,
            };
            let ids: Vec<u32> = if p.is_folder { Vec::new() } else { map_ids(tracks, &p.track_ids) };
            let ep = ExportPlaylist {
                id: next,
                parent: parent_id,
                sort_order,
                is_folder: p.is_folder,
                name: p.name.clone(),
                track_ids: ids,
            };
            assert(node_ok(ep, v, selected@, tracks@, i as int));
            let ghost before = out@;
            out.push(ep);
            node_id.set(i, next);
            counts.set(slot, sort_order + 1);
            next = next + 1;
            proof {
                assert(included_indices(v, selected@, i + 1) == included_indices(v, selected@, i as int).push(i as int));
                assert forall|j: int| 0 <= j < out@.len() implies #[trigger] node_ok(out@[j], v, selected@, tracks@, included_indices(v, selected@, i + 1)[j]) by {
                    if j < before.len() {
                        assert(out@[j] == before[j]);
                    }
                }
                assert forall|s: int| 0 <= s <= n implies #[trigger] counts@[s] == siblings_before(v, selected@, slot_parent(s), i + 1) by {
                    if s != slot {
                        if s == 0 {
                            assert(slot_parent(s) != slot_parent(slot as int));
                        } else {
                            assert(slot_parent(s) != slot_parent(slot as int));
                        }
                    }
                }
            }
        } else {
            proof {
                assert forall|s: int| 0 <= s <= n implies #[trigger] counts@[s] == siblings_before(v, selected@, slot_parent(s), i + 1) by {
                }
            }
        }
        i = i + 1;
    }
    out
}


// -------------------------------------------------------------- export ---

/// The rows of the tracks, and the name tables they fill.
fn track_rows(
    tracks: &[DeviceTrack],
    keys: &Vec<String>,
    colors: &[(u8, u32)],
    export_date: &str,
) -> (res: (Vec<TrackRow>, Names))
    requires
        3 * tracks@.len() + 3 < u32::MAX,
        keys@.len() < u32::MAX,
    ensures
        res.1.model() == names_fold(tracks@, tracks@.len() as int).0,
        res.1.small(tracks@.len() as int),
        res.0@.len() == tracks@.len(),
        forall|i: int| 0 <= i < tracks@.len() ==> #[trigger] row_ok(res.0@[i], i, tracks@[i],
            names_fold(tracks@, tracks@.len() as int).1[i], texts(keys@), colors@, export_date@),
{
    let mut names = Names {
        artists: Vec::new(),
        genres: Vec::new(),
        labels: Vec::new(),
        albums: Vec::new(),
        album_artist: Vec::new(),
    };
    proof {
        assert(texts(names.artists@) =~= seq![]);
        assert(texts(names.genres@) =~= seq![]);
        assert(texts(names.labels@) =~= seq![]);
        assert(texts(names.albums@) =~= seq![]);
    }
    let mut rows: Vec<TrackRow> = Vec::new();
    let ghost mut ids: Seq<RowIds> = seq![];
    let mut i: usize = 0;
    while i < tracks.len()
        invariant
            i <= tracks@.len(),
            3 * tracks@.len() + 3 < u32::MAX,
            keys@.len() < u32::MAX,
            names.small(i as int),
            names.model() == names_fold(tracks@, i as int).0,
            ids == names_fold(tracks@, i as int).1,
            ids.len() == i,
            rows@.len() == i,
            forall|j: int| 0 <= j < i ==> #[trigger] row_ok(rows@[j], j, tracks@[j], ids[j], texts(keys@), colors@, export_date@),
        decreases tracks@.len() - i,
    {
        let dt = &tracks[i];
        let r_ids = names.step(&dt.track, Ghost(i as int));
        let row = track_row(dt, i, &r_ids, keys, colors, export_date);
        rows.push(row);
        proof {
            ids = ids.push(r_ids.view());
        }
        i = i + 1;
    }
    (rows, names)
}

/// Rows `out` number the names `names` from 1.
pub open spec fn numbered_ok(out: Seq<(u32, String)>, names: Seq<Seq<char>>) -> bool {
    &&& out.len() == names.len()
    &&& forall|k: int| 0 <= k < out.len() ==> (#[trigger] out[k]).0 == k + 1 && out[k].1@ == names[k]
}

/// Album rows `out` number the albums from 1 and carry each album's one
/// artist, 0 when its tracks disagree.
pub open spec fn albums_ok(out: Seq<(u32, u32, String)>, names: Seq<Seq<char>>, artists: Seq<Option<u32>>) -> bool {
    &&& out.len() == names.len()
    &&& forall|k: int| 0 <= k < out.len() ==> {
        &&& (#[trigger] out[k]).0 == k + 1
        &&& out[k].1 == match artists[k] { Some(a) => a, None => 0u32 }
        &&& out[k].2@ == names[k]
    }
}

/// A name table numbered from 1.
fn numbered(rows: &Vec<String>) -> (out: Vec<(u32, String)>)
    requires
        rows@.len() < u32::MAX,
    ensures
        numbered_ok(out@, texts(rows@)),
{
    let mut out: Vec<(u32, String)> = Vec::new();
    let mut k: usize = 0;
    while k < rows.len()
        invariant
            k <= rows@.len() < u32::MAX,
            out@.len() == k,
            forall|j: int| 0 <= j < k ==> (#[trigger] out@[j]).0 == j + 1 && out@[j].1@ == rows@[j]@,
        decreases rows@.len() - k,
    {
        out.push(((k + 1) as u32, rows[k].clone()));
        k = k + 1;
    }
    out
}

/// The album table numbered from 1, with each album's artist.
fn album_rows(names: &Vec<String>, artists: &Vec<Option<u32>>) -> (out: Vec<(u32, u32, String)>)
    requires
        names@.len() < u32::MAX,
        artists@.len() == names@.len(),
    ensures
        albums_ok(out@, texts(names@), artists@),
{
    let mut out: Vec<(u32, u32, String)> = Vec::new();
    let mut k: usize = 0;
    while k < names.len()
        invariant
            k <= names@.len() < u32::MAX,
            artists@.len() == names@.len(),
            out@.len() == k,
            forall|j: int| 0 <= j < k ==> {
                &&& (#[trigger] out@[j]).0 == j + 1
                &&& out@[j].1 == match artists@[j] { Some(a) => a, None => 0u32 }
                &&& out@[j].2@ == names@[j]@
            },
        decreases names@.len() - k,
    {
        let a: u32 = match artists[k] {
            Some(x) => x,
            None => 0,
        };
        out.push(((k + 1) as u32, a, names[k].clone()));
        k = k + 1;
    }
    out
}

/// The database model of an export: a row per device track, in order, with
/// ids from 1; the artist, album, genre and label tables those rows index;
/// the tree of the selected playlists and the folders above them; the
/// device name and the export date. `keys` is the key table and `colors`
/// holds `(id, 0xRRGGBB)` of each track colour.
pub fn build(
    library: &Library,
    tracks: &[DeviceTrack],
    selected: &[usize],
    device_name: &str,
    export_date: &str,
    keys: &Vec<String>,
    colors: &[(u8, u32)],
) -> (e: Export)
    requires
        tree_ok(crate::export::collection::playlist_views(library.playlists@)),
        forall|k: int| 0 <= k < selected@.len() ==> #[trigger] selected@[k] < library.playlists@.len(),
        library.playlists@.len() < u32::MAX,
        3 * tracks@.len() + 3 < u32::MAX,
        keys@.len() < u32::MAX,
    ensures
        ({
            let (st, ids) = names_fold(tracks@, tracks@.len() as int);
            let v = crate::export::collection::playlist_views(library.playlists@);
            let idx = included_indices(v, selected@, v.len() as int);
            &&& e.tracks@.len() == tracks@.len()
            &&& forall|i: int| 0 <= i < tracks@.len() ==> #[trigger] row_ok(e.tracks@[i], i, tracks@[i], ids[i],
                texts(keys@), colors@, export_date@)
            &&& numbered_ok(e.artists@, st.artists)
            &&& albums_ok(e.albums@, st.albums, st.album_artist)
            &&& numbered_ok(e.genres@, st.genres)
            &&& numbered_ok(e.labels@, st.labels)
            &&& e.playlists@.len() == idx.len()
            &&& forall|j: int| 0 <= j < e.playlists@.len() ==> #[trigger] node_ok(e.playlists@[j], v, selected@, tracks@, idx[j])
            &&& e.device_name@ == device_name@
            &&& e.export_date@ == export_date@
        }),
{
    let (rows, names) = track_rows(tracks, keys, colors, export_date);
    let artists = numbered(&names.artists);
    let albums = album_rows(&names.albums, &names.album_artist);
    let genres = numbered(&names.genres);
    let labels = numbered(&names.labels);
    let playlists = export_playlists(&library.playlists, selected, tracks);
    Export {
        tracks: rows,
        artists,
        albums,
        genres,
        labels,
        playlists,
        device_name: device_name.to_string(),
        export_date: export_date.to_string(),
    }
}

}
