//! The three passes over a rekordbox XML that add a CDJ-safe copy of one
//! playlist: find the playlist, capture its tracks verbatim, and write the
//! document back with the new tracks and a folder holding the new playlist.
use vstd::prelude::*;
use crate::xml::{
    attrs, event_views, events, get_attr, name_is, node_attrs, spec_attrs, spec_get_attr,
    spec_node_attrs, value, xml_events_of, Attrs, EventView, XmlError, XmlEvent, XmlKind,
    COLLECTION, KEY, NODE, PLAYLISTS, TRACK, TRACK_ID,
};
use crate::rbsort::xml::{strings, tail_eq};
use super::location::{decode_location, spec_decode_location, LocationError};
use super::transcode::{parse_u64, spec_parse_max};

verus! {

/// Name of the folder NODE that holds the CDJ-safe playlist.
pub const CDJSAFE_FOLDER_NAME: &'static str = "CDJ-safe (MP3)";

/// Why a pass failed.
#[derive(Debug, Clone, PartialEq, Eq)]
pub enum CdjError {
    Xml(XmlError),
    /// The target playlist holds file paths; the field is its `KeyType`.
    NotTrackIds(String),
    PlaylistNotFound,
    /// A captured `<TRACK>` has no closing tag.
    UnclosedTrack,
    /// The playlist references this TrackID, and `<COLLECTION>` has no
    /// track left with it.
    MissingTrack(String),
    /// A track's `Location` does not decode.
    BadLocation { name: String, id: String, error: LocationError },
}

/// A pass's failure as plain values.
pub enum CdjFail {
    Xml(XmlError),
    NotTrackIds(Seq<char>),
    PlaylistNotFound,
    UnclosedTrack,
    MissingTrack(Seq<char>),
    BadLocation(Seq<char>, Seq<char>, LocationError),
}

impl View for CdjError {
    type V = CdjFail;

    open spec fn view(&self) -> CdjFail {
        match self {
            CdjError::Xml(x) => CdjFail::Xml(*x),
            CdjError::NotTrackIds(k) => CdjFail::NotTrackIds(k@),
            CdjError::PlaylistNotFound => CdjFail::PlaylistNotFound,
            CdjError::UnclosedTrack => CdjFail::UnclosedTrack,
            CdjError::MissingTrack(id) => CdjFail::MissingTrack(id@),
            CdjError::BadLocation { name, id, error } => CdjFail::BadLocation(name@, id@, *error),
        }
    }
}

/// The value of a `TrackID`: its number, 0 when it is not one.
pub open spec fn id_value(id: Seq<char>) -> u64 {
    match spec_parse_max(id, u64::MAX as int) {
        Some(v) => v as u64,
        None => 0,
    }
}

/// What the search for the playlist has read so far.
pub struct FindView {
    pub in_collection: bool,
    pub in_playlists: bool,
    pub max_id: u64,
    pub stack: Seq<Seq<char>>,
    pub capture: Option<Seq<Seq<char>>>,
    pub found: Option<Seq<Seq<char>>>,
}

/// Before the first event.
pub open spec fn find_start() -> FindView {
    FindView { in_collection: false, in_playlists: false, max_id: 0, stack: seq![], capture: None, found: None }
}

/// The largest TrackID once a collection track is read.
pub open spec fn with_track_id(st: FindView, a: (Seq<(Seq<u8>, Seq<u8>)>, bool)) -> Result<FindView, CdjFail> {
    match spec_get_attr(a, TRACK_ID@) {
        Err(x) => Err(CdjFail::Xml(x)),
        Ok(None) => Ok(st),
        Ok(Some(id)) => Ok(FindView {
            max_id: if id_value(id) > st.max_id { id_value(id) } else { st.max_id },
            ..st
        }),
    }
}

/// The stack below ROOT is `target`.
pub open spec fn at_target(stack: Seq<Seq<char>>, target: Seq<Seq<char>>) -> bool {
    stack.len() > 1 && stack.subrange(1, stack.len() as int) == target
}

/// One event of the search.
pub open spec fn find_step(data: Seq<u8>, target: Seq<Seq<char>>, st: FindView, e: EventView) -> Result<FindView, CdjFail> {
    let (kind, name, _s, _t) = e;
    let a = spec_attrs(data, e);
    if kind == XmlKind::Start {
        if name == COLLECTION@ {
            Ok(FindView { in_collection: true, ..st })
        } else if name == PLAYLISTS@ {
            Ok(FindView { in_playlists: true, ..st })
        } else if name == TRACK@ && st.in_collection {
            with_track_id(st, a)
        } else if name == NODE@ && st.in_playlists {
            match spec_node_attrs(a) {
                Err(x) => Err(CdjFail::Xml(x)),
                Ok((nm, ty, kt)) => {
                    let stack = st.stack.push(nm);
                    if ty == "1"@ && at_target(stack, target) {
                        if kt != "0"@ {
                            Err(CdjFail::NotTrackIds(kt))
                        } else {
                            Ok(FindView { stack, capture: Some(seq![]), ..st })
                        }
                    } else {
                        Ok(FindView { stack, ..st })
                    }
                },
            }
        } else {
            Ok(st)
        }
    } else if kind == XmlKind::Empty {
        if name == TRACK@ && st.in_collection {
            with_track_id(st, a)
        } else if name == TRACK@ && st.capture is Some {
            match spec_get_attr(a, KEY@) {
                Err(x) => Err(CdjFail::Xml(x)),
                Ok(None) => Ok(st),
                Ok(Some(k)) => Ok(FindView { capture: Some(st.capture.unwrap().push(k)), ..st }),
            }
        } else {
            Ok(st)
        }
    } else if kind == XmlKind::End {
        if name == COLLECTION@ {
            Ok(FindView { in_collection: false, ..st })
        } else if name == PLAYLISTS@ {
            Ok(FindView { in_playlists: false, ..st })
        } else if name == NODE@ && st.in_playlists {
            let stack = if st.stack.len() > 0 { st.stack.drop_last() } else { st.stack };
            if st.capture is Some && at_target(st.stack, target) {
                Ok(FindView { stack, found: st.capture, capture: None, ..st })
            } else {
                Ok(FindView { stack, ..st })
            }
        } else {
            Ok(st)
        }
    } else {
        Ok(st)
    }
}

/// The search after the first `n` events.
pub open spec fn find_fold(data: Seq<u8>, target: Seq<Seq<char>>, evs: Seq<EventView>, n: int) -> Result<FindView, CdjFail>
    decreases n,
{
    if n <= 0 || n > evs.len() {
        Ok(find_start())
    } else {
        match find_fold(data, target, evs, n - 1) {
            Err(e) => Err(e),
            Ok(st) => find_step(data, target, st, evs[n - 1]),
        }
    }
}

/// The target playlist's TrackIDs in playlist order, and the largest
/// numeric TrackID of the collection.
pub open spec fn spec_find_playlist(data: Seq<u8>, target: Seq<Seq<char>>) -> Result<(Seq<Seq<char>>, u64), CdjFail> {
    match xml_events_of(data) {
        None => Err(CdjFail::Xml(XmlError::Syntax)),
        Some(evs) => match find_fold(data, target, evs, evs.len() as int) {
            Err(e) => Err(e),
            Ok(st) => match st.found {
                Some(ids) => Ok((ids, st.max_id)),
                None => Err(CdjFail::PlaylistNotFound),
            },
        },
    }
}

proof fn lemma_find_err(data: Seq<u8>, target: Seq<Seq<char>>, evs: Seq<EventView>, k: int, n: int)
    requires
        0 <= k <= n <= evs.len(),
        find_fold(data, target, evs, k) is Err,
    ensures
        find_fold(data, target, evs, n) == find_fold(data, target, evs, k),
    decreases n - k,
{
    if n > k {
        lemma_find_err(data, target, evs, k, n - 1);
    }
}

struct FindState {
    in_collection: bool,
    in_playlists: bool,
    max_id: u64,
    stack: Vec<String>,
    capture: Option<Vec<String>>,
    found: Option<Vec<String>>,
}

impl View for FindState {
    type V = FindView;

    closed spec fn view(&self) -> FindView {
        FindView {
            in_collection: self.in_collection,
            in_playlists: self.in_playlists,
            max_id: self.max_id,
            stack: strings(self.stack@),
            capture: match self.capture {
                Some(c) => Some(strings(c@)),
                None => None,
            },
            found: match self.found {
                Some(c) => Some(strings(c@)),
                None => None,
            },
        }
    }
}

impl FindState {
    fn track_id(&mut self, a: &Attrs) -> (r: Result<(), CdjError>)
        ensures
            match r {
                Ok(()) => with_track_id(old(self)@, a@) == Ok::<FindView, CdjFail>(final(self)@),
                Err(x) => with_track_id(old(self)@, a@) == Err::<FindView, CdjFail>(x@),
            },
    {
        match get_attr(a, &TRACK_ID) {
            Err(x) => Err(CdjError::Xml(x)),
            Ok(None) => Ok(()),
            Ok(Some(id)) => {
                let v = match parse_u64(id.as_str()) {
                    Some(v) => v,
                    None => 0,
                };
                if v > self.max_id {
                    self.max_id = v;
                }
                Ok(())
            },
        }
    }

    fn step(&mut self, data: &[u8], target: &[String], e: &XmlEvent) -> (r: Result<(), CdjError>)
        ensures
            match r {
                Ok(()) => find_step(data@, strings(target@), old(self)@, e@) == Ok::<FindView, CdjFail>(final(self)@),
                Err(x) => find_step(data@, strings(target@), old(self)@, e@) == Err::<FindView, CdjFail>(x@),
            },
    {
        let a = attrs(data, e);
        match e.kind {
            XmlKind::Start => {
                if name_is(e, &COLLECTION) {
                    self.in_collection = true;
                } else if name_is(e, &PLAYLISTS) {
                    self.in_playlists = true;
                } else if name_is(e, &TRACK) && self.in_collection {
                    return self.track_id(&a);
                } else if name_is(e, &NODE) && self.in_playlists {
                    let (name, ty, key_type) = match node_attrs(&a) {
                        Ok(t) => t,
                        Err(x) => return Err(CdjError::Xml(x)),
                    };
                    let ghost name_v = name@;
                    self.stack.push(name);
                    assert(strings(self.stack@) =~= strings(old(self).stack@).push(name_v));
                    if crate::text::str_eq(ty.as_str(), "1") && self.stack.len() > 1
                        && tail_eq(self.stack.as_slice(), 1, target) {
                        if !crate::text::str_eq(key_type.as_str(), "0") {
                            return Err(CdjError::NotTrackIds(key_type));
                        }
                        let ids: Vec<String> = Vec::new();
                        assert(strings(ids@) =~= seq![]);
                        self.capture = Some(ids);
                    }
                }
            },
            XmlKind::Empty => {
                if name_is(e, &TRACK) && self.in_collection {
                    return self.track_id(&a);
                } else if name_is(e, &TRACK) && self.capture.is_some() {
                    match get_attr(&a, &KEY) {
                        Err(x) => return Err(CdjError::Xml(x)),
                        Ok(None) => {},
                        Ok(Some(k)) => {
                            let mut c = self.capture.take().unwrap();
                            let ghost before = c@;
                            let ghost k_v = k@;
                            c.push(k);
                            assert(strings(c@) =~= strings(before).push(k_v));
                            self.capture = Some(c);
                        },
                    }
                }
            },
            XmlKind::End => {
                if name_is(e, &COLLECTION) {
                    self.in_collection = false;
                } else if name_is(e, &PLAYLISTS) {
                    self.in_playlists = false;
                } else if name_is(e, &NODE) && self.in_playlists {
                    if self.capture.is_some() && self.stack.len() > 1 && tail_eq(self.stack.as_slice(), 1, target) {
                        self.found = self.capture.take();
                    }
                    if self.stack.len() > 0 {
                        self.stack.pop();
                        assert(strings(self.stack@) =~= strings(old(self).stack@).drop_last());
                    }
                }
            },
            XmlKind::Other => {},
        }
        Ok(())
    }
}

/// The search over a document's events, as [`find_fold`] says.
pub fn find_playlist_events(data: &[u8], evs: &[XmlEvent], target: &[String]) -> (r: Result<(Vec<String>, u64), CdjError>)
    ensures
        match r {
            Ok((ids, max)) => find_fold(data@, strings(target@), event_views(evs@), evs@.len() as int) matches Ok(st)
                && st.found == Some(strings(ids@)) && st.max_id == max,
            Err(x) => match find_fold(data@, strings(target@), event_views(evs@), evs@.len() as int) {
                Ok(st) => st.found is None && x@ == CdjFail::PlaylistNotFound,
                Err(f) => f == x@,
            },
        },
{
    let ghost ev = event_views(evs@);
    let ghost tv = strings(target@);
    let mut st = FindState { in_collection: false, in_playlists: false, max_id: 0, stack: Vec::new(), capture: None, found: None };
    assert(st@ =~= find_start()) by {
        assert(strings(st.stack@) =~= seq![]);
    }
    let mut i: usize = 0;
    while i < evs.len()
        invariant
            i <= evs@.len(),
            ev == event_views(evs@),
            tv == strings(target@),
            find_fold(data@, tv, ev, i as int) == Ok::<FindView, CdjFail>(st@),
        decreases evs@.len() - i,
    {
        assert(ev[i as int] == evs@[i as int]@);
        match st.step(data, target, &evs[i]) {
            Ok(()) => {},
            Err(x) => {
                proof { lemma_find_err(data@, tv, ev, i + 1, ev.len() as int); }
                return Err(x);
            },
        }
        i = i + 1;
    }
    match st.found {
        Some(ids) => Ok((ids, st.max_id)),
        None => Err(CdjError::PlaylistNotFound),
    }
}

/// Find the playlist at `target` (its path under ROOT): its TrackIDs in
/// playlist order and the largest numeric TrackID in the collection.
pub fn find_playlist(data: &[u8], target: &[String]) -> (r: Result<(Vec<String>, u64), CdjError>)
    ensures
        match r {
            Ok((ids, max)) => spec_find_playlist(data@, strings(target@)) == Ok::<(Seq<Seq<char>>, u64), CdjFail>((strings(ids@), max)),
            Err(x) => spec_find_playlist(data@, strings(target@)) == Err::<(Seq<Seq<char>>, u64), CdjFail>(x@),
        },
{
    match events(data) {
        Err(x) => Err(CdjError::Xml(x)),
        Ok(evs) => find_playlist_events(data, evs.as_slice(), target),
    }
}

/// A source `<TRACK>` captured verbatim from `<COLLECTION>`: its raw
/// (still escaped) attributes and the bytes of its children (`<TEMPO>`,
/// `<POSITION_MARK>`, the whitespace between), so cues and beat grid carry
/// over untouched.
#[derive(Debug)]
pub struct SourceTrack {
    pub id: String,
    pub name: String,
    /// The decoded path.
    pub location: String,
    pub has_total_time: bool,
    pub attrs: Vec<(Vec<u8>, Vec<u8>)>,
    pub children: Vec<u8>,
}

/// A source track as plain values.
pub struct SourceView {
    pub id: Seq<char>,
    pub name: Seq<char>,
    pub location: Seq<char>,
    pub has_total_time: bool,
    pub attrs: Seq<(Seq<u8>, Seq<u8>)>,
    pub children: Seq<u8>,
}

impl View for SourceTrack {
    type V = SourceView;

    open spec fn view(&self) -> SourceView {
        SourceView {
            id: self.id@,
            name: self.name@,
            location: self.location@,
            has_total_time: self.has_total_time,
            attrs: crate::xml::pair_views(self.attrs@),
            children: self.children@,
        }
    }
}

/// The views of source tracks.
pub open spec fn source_views(v: Seq<SourceTrack>) -> Seq<SourceView> {
    v.map_values(|t: SourceTrack| t@)
}

/// `Name`.
pub const NAME: [u8; 4] = [0x4e, 0x61, 0x6d, 0x65];
/// `Location`.
pub const LOCATION: [u8; 8] = [0x4c, 0x6f, 0x63, 0x61, 0x74, 0x69, 0x6f, 0x6e];
/// `TotalTime`.
pub const TOTAL_TIME: [u8; 9] = [0x54, 0x6f, 0x74, 0x61, 0x6c, 0x54, 0x69, 0x6d, 0x65];

/// `Name`, the raw `Location` text and whether `TotalTime` is there, after
/// the first `n` attributes.
pub open spec fn source_fold(l: Seq<(Seq<u8>, Seq<u8>)>, n: int) -> Result<(Seq<char>, Seq<char>, bool), XmlError>
    decreases n,
{
    if n <= 0 || n > l.len() {
        Ok((seq![], seq![], false))
    } else {
        match source_fold(l, n - 1) {
            Err(x) => Err(x),
            Ok((nm, loc, tt)) => {
                let k = l[n - 1].0;
                if k == NAME@ {
                    match crate::xml::spec_value(l[n - 1].1) {
                        Ok(v) => Ok((v, loc, tt)),
                        Err(x) => Err(x),
                    }
                } else if k == LOCATION@ {
                    match crate::xml::spec_value(l[n - 1].1) {
                        Ok(v) => Ok((nm, v, tt)),
                        Err(x) => Err(x),
                    }
                } else if k == TOTAL_TIME@ {
                    Ok((nm, loc, true))
                } else {
                    Ok((nm, loc, tt))
                }
            },
        }
    }
}

proof fn lemma_source_err(l: Seq<(Seq<u8>, Seq<u8>)>, k: int, n: int)
    requires
        0 <= k <= n <= l.len(),
        source_fold(l, k) is Err,
    ensures
        source_fold(l, n) == source_fold(l, k),
    decreases n - k,
{
    if n > k {
        lemma_source_err(l, k, n - 1);
    }
}

/// The source track of a `<TRACK>` with TrackID `id` and attributes `a`.
pub open spec fn spec_source(a: (Seq<(Seq<u8>, Seq<u8>)>, bool), id: Seq<char>) -> Result<SourceView, CdjFail> {
    match source_fold(a.0, a.0.len() as int) {
        Err(x) => Err(CdjFail::Xml(x)),
        Ok((nm, loc, tt)) => if !a.1 {
            Err(CdjFail::Xml(XmlError::Attribute))
        } else {
            match spec_decode_location(loc) {
                Err(le) => Err(CdjFail::BadLocation(nm, id, le)),
                Ok(p) => Ok(SourceView { id, name: nm, location: p, has_total_time: tt, attrs: a.0, children: seq![] }),
            }
        },
    }
}

/// A copy of raw attribute pairs.
fn copy_pairs(v: &Vec<(Vec<u8>, Vec<u8>)>) -> (out: Vec<(Vec<u8>, Vec<u8>)>)
    ensures
        crate::xml::pair_views(out@) == crate::xml::pair_views(v@),
{
    let mut out: Vec<(Vec<u8>, Vec<u8>)> = Vec::new();
    let mut i: usize = 0;
    while i < v.len()
        invariant
            i <= v@.len(),
            crate::xml::pair_views(out@) == crate::xml::pair_views(v@).take(i as int),
        decreases v@.len() - i,
    {
        let k = crate::bytes::copy_range(v[i].0.as_slice(), 0, v[i].0.len());
        let x = crate::bytes::copy_range(v[i].1.as_slice(), 0, v[i].1.len());
        assert(k@ =~= v@[i as int].0@);
        assert(x@ =~= v@[i as int].1@);
        let ghost before = out@;
        let ghost kv = k@;
        let ghost xv = x@;
        out.push((k, x));
        assert(crate::xml::pair_views(out@) =~= crate::xml::pair_views(before).push((kv, xv)));
        i = i + 1;
        assert(crate::xml::pair_views(out@) =~= crate::xml::pair_views(v@).take(i as int));
    }
    assert(crate::xml::pair_views(v@).take(i as int) =~= crate::xml::pair_views(v@));
    out
}

/// The source track of a `<TRACK>` with TrackID `id`.
fn source_track_from(a: &Attrs, id: String) -> (r: Result<SourceTrack, CdjError>)
    ensures
        match r {
            Ok(t) => spec_source(a@, id@) == Ok::<SourceView, CdjFail>(t@),
            Err(x) => spec_source(a@, id@) == Err::<SourceView, CdjFail>(x@),
        },
{
    let ghost l = a@.0;
    let mut name = String::new();
    let mut loc = String::new();
    let mut tt = false;
    let mut i: usize = 0;
    while i < a.list.len()
        invariant
            l == crate::xml::pair_views(a.list@),
            i <= a.list@.len(),
            source_fold(l, i as int) == Ok::<(Seq<char>, Seq<char>, bool), XmlError>((name@, loc@, tt)),
        decreases a.list@.len() - i,
    {
        let k = a.list[i].0.as_slice();
        assert(l[i as int].0 == k@);
        assert(l[i as int].1 == a.list@[i as int].1@);
        if crate::xml::bytes_eq(k, &NAME) {
            match value(a.list[i].1.as_slice()) {
                Ok(v) => name = v,
                Err(x) => {
                    proof { lemma_source_err(l, i + 1, l.len() as int); }
                    return Err(CdjError::Xml(x));
                },
            }
        } else if crate::xml::bytes_eq(k, &LOCATION) {
            match value(a.list[i].1.as_slice()) {
                Ok(v) => loc = v,
                Err(x) => {
                    proof { lemma_source_err(l, i + 1, l.len() as int); }
                    return Err(CdjError::Xml(x));
                },
            }
        } else if crate::xml::bytes_eq(k, &TOTAL_TIME) {
            tt = true;
        }
        i = i + 1;
    }
    if !a.complete {
        return Err(CdjError::Xml(XmlError::Attribute));
    }
    match decode_location(loc.as_str()) {
        Err(error) => Err(CdjError::BadLocation { name, id, error }),
        Ok(location) => {
            let attrs = copy_pairs(&a.list);
            let children: Vec<u8> = Vec::new();
            assert(children@ =~= seq![]);
            Ok(SourceTrack { id, name, location, has_total_time: tt, attrs, children })
        },
    }
}

/// The bytes from `a` to `b`, nothing when that is not a span of `data`.
pub open spec fn span(data: Seq<u8>, a: int, b: int) -> Seq<u8> {
    if 0 <= a <= b <= data.len() { data.subrange(a, b) } else { seq![] }
}

/// What the capture has read so far.
pub struct CollectView {
    pub in_collection: bool,
    /// A wanted track being captured: the track, where its children start,
    /// and the nesting depth below it.
    pub inside: Option<(SourceView, int, int)>,
    /// The nesting depth of same-named elements in a track being skipped.
    pub skipping: Option<int>,
    /// Captured tracks in document order.
    pub by_id: Seq<SourceView>,
}

/// Before the first event.
pub open spec fn collect_start() -> CollectView {
    CollectView { in_collection: false, inside: None, skipping: None, by_id: seq![] }
}

/// The TrackID of a collection track, empty when it has none.
pub open spec fn track_id_of(a: (Seq<(Seq<u8>, Seq<u8>)>, bool)) -> Result<Seq<char>, CdjFail> {
    match spec_get_attr(a, TRACK_ID@) {
        Err(x) => Err(CdjFail::Xml(x)),
        Ok(None) => Ok(seq![]),
        Ok(Some(id)) => Ok(id),
    }
}

/// One event of the capture.
pub open spec fn collect_step(data: Seq<u8>, ids: Seq<Seq<char>>, st: CollectView, e: EventView) -> Result<CollectView, CdjFail> {
    let (kind, name, s, t) = e;
    match st.inside {
        Some((tr, cstart, depth)) => if kind == XmlKind::Start {
            Ok(CollectView { inside: Some((tr, cstart, depth + 1)), ..st })
        } else if kind == XmlKind::End {
            if depth == 0 && name == TRACK@ {
                Ok(CollectView {
                    inside: None,
                    by_id: st.by_id.push(SourceView { children: span(data, cstart, s as int), ..tr }),
                    ..st
                })
            } else {
                Ok(CollectView { inside: Some((tr, cstart, depth - 1)), ..st })
            }
        } else {
            Ok(st)
        },
        None => match st.skipping {
            Some(d) => if kind == XmlKind::Start && name == TRACK@ {
                Ok(CollectView { skipping: Some(d + 1), ..st })
            } else if kind == XmlKind::End && name == TRACK@ {
                Ok(CollectView { skipping: if d == 0 { None } else { Some(d - 1) }, ..st })
            } else {
                Ok(st)
            },
            None => if kind == XmlKind::Start && name == COLLECTION@ {
                Ok(CollectView { in_collection: true, ..st })
            } else if kind == XmlKind::End && name == COLLECTION@ {
                Ok(CollectView { in_collection: false, ..st })
            } else if kind == XmlKind::Start && st.in_collection && name == TRACK@ {
                let a = spec_attrs(data, e);
                match track_id_of(a) {
                    Err(x) => Err(x),
                    Ok(id) => if ids.contains(id) {
                        match spec_source(a, id) {
                            Err(x) => Err(x),
                            Ok(tr) => Ok(CollectView { inside: Some((tr, t as int, 0)), ..st }),
                        }
                    } else {
                        Ok(CollectView { skipping: Some(0), ..st })
                    },
                }
            } else if kind == XmlKind::Empty && st.in_collection && name == TRACK@ {
                let a = spec_attrs(data, e);
                match track_id_of(a) {
                    Err(x) => Err(x),
                    Ok(id) => if ids.contains(id) {
                        match spec_source(a, id) {
                            Err(x) => Err(x),
                            Ok(tr) => Ok(CollectView { by_id: st.by_id.push(tr), ..st }),
                        }
                    } else {
                        Ok(st)
                    },
                }
            } else {
                Ok(st)
            },
        },
    }
}

/// The capture after the first `n` events.
pub open spec fn collect_fold(data: Seq<u8>, ids: Seq<Seq<char>>, evs: Seq<EventView>, n: int) -> Result<CollectView, CdjFail>
    decreases n,
{
    if n <= 0 || n > evs.len() {
        Ok(collect_start())
    } else {
        match collect_fold(data, ids, evs, n - 1) {
            Err(e) => Err(e),
            Ok(st) => collect_step(data, ids, st, evs[n - 1]),
        }
    }
}

proof fn lemma_collect_err(data: Seq<u8>, ids: Seq<Seq<char>>, evs: Seq<EventView>, k: int, n: int)
    requires
        0 <= k <= n <= evs.len(),
        collect_fold(data, ids, evs, k) is Err,
    ensures
        collect_fold(data, ids, evs, n) == collect_fold(data, ids, evs, k),
    decreases n - k,
{
    if n > k {
        lemma_collect_err(data, ids, evs, k, n - 1);
    }
}

/// The last captured track with TrackID `id` among the first `n`, or -1.
pub open spec fn last_with_id(by_id: Seq<SourceView>, id: Seq<char>, n: int) -> int
    decreases n,
{
    if n <= 0 || n > by_id.len() {
        -1
    } else if by_id[n - 1].id == id {
        n - 1
    } else {
        last_with_id(by_id, id, n - 1)
    }
}

/// The tracks of the first `n` playlist entries, each captured track handed
/// out once: an entry whose TrackID was captured by none, or whose track an
/// earlier entry took, is an error.
pub open spec fn pick(by_id: Seq<SourceView>, ids: Seq<Seq<char>>, n: int) -> Result<Seq<SourceView>, CdjFail>
    decreases n,
{
    if n <= 0 || n > ids.len() {
        Ok(seq![])
    } else {
        match pick(by_id, ids, n - 1) {
            Err(x) => Err(x),
            Ok(out) => {
                let id = ids[n - 1];
                let k = last_with_id(by_id, id, by_id.len() as int);
                if ids.take(n - 1).contains(id) || k < 0 {
                    Err(CdjFail::MissingTrack(id))
                } else {
                    Ok(out.push(by_id[k]))
                }
            },
        }
    }
}

proof fn lemma_pick_err(by_id: Seq<SourceView>, ids: Seq<Seq<char>>, k: int, n: int)
    requires
        0 <= k <= n <= ids.len(),
        pick(by_id, ids, k) is Err,
    ensures
        pick(by_id, ids, n) == pick(by_id, ids, k),
    decreases n - k,
{
    if n > k {
        lemma_pick_err(by_id, ids, k, n - 1);
    }
}

/// The captured tracks of the playlist entries `ids`, in playlist order.
pub open spec fn spec_collect(data: Seq<u8>, ids: Seq<Seq<char>>) -> Result<Seq<SourceView>, CdjFail> {
    match xml_events_of(data) {
        None => Err(CdjFail::Xml(XmlError::Syntax)),
        Some(evs) => match collect_fold(data, ids, evs, evs.len() as int) {
            Err(x) => Err(x),
            Ok(st) => if st.inside is Some {
                Err(CdjFail::UnclosedTrack)
            } else if st.skipping is Some {
                Err(CdjFail::Xml(XmlError::Syntax))
            } else {
                pick(st.by_id, ids, ids.len() as int)
            },
        },
    }
}

struct CollectState {
    in_collection: bool,
    /// The track being captured, its children's start, its depth.
    inside: Option<(SourceTrack, usize, i128)>,
    skipping: Option<u128>,
    by_id: Vec<SourceTrack>,
}

impl CollectState {
    spec fn model(&self) -> CollectView {
        CollectView {
            in_collection: self.in_collection,
            inside: match self.inside {
                Some((t, c, d)) => Some((t@, c as int, d as int)),
                None => None,
            },
            skipping: match self.skipping {
                Some(d) => Some(d as int),
                None => None,
            },
            by_id: source_views(self.by_id@),
        }
    }

    /// The event count bounds the depths.
    spec fn bounded(&self, n: int) -> bool {
        &&& (self.inside matches Some((t, c, d)) ==> -n <= d <= n)
        &&& (self.skipping matches Some(d) ==> d <= n)
    }
}

/// Whether `ids` holds `id`.
fn contains_id(ids: &[String], id: &str) -> (r: bool)
    ensures
        r == strings(ids@).contains(id@),
{
    let mut i: usize = 0;
    while i < ids.len()
        invariant
            i <= ids@.len(),
            forall|j: int| 0 <= j < i ==> strings(ids@)[j] != id@,
        decreases ids@.len() - i,
    {
        if crate::text::str_eq(ids[i].as_str(), id) {
            assert(strings(ids@)[i as int] == id@);
            return true;
        }
        i = i + 1;
    }
    false
}

/// The bytes from `a` to `b` of `data`.
fn copy_span(data: &[u8], a: usize, b: usize) -> (out: Vec<u8>)
    ensures
        out@ == span(data@, a as int, b as int),
{
    proof { assert(data@.len() == data.len()); }
    if a <= b && b <= data.len() {
        crate::bytes::copy_range(data, a, b - a)
    } else {
        let v: Vec<u8> = Vec::new();
        assert(v@ =~= span(data@, a as int, b as int));
        v
    }
}

impl CollectState {
    fn step(&mut self, data: &[u8], ids: &[String], e: &XmlEvent, Ghost(n): Ghost<int>) -> (r: Result<(), CdjError>)
        requires
            old(self).bounded(n),
            0 <= n <= usize::MAX,
        ensures
            match r {
                Ok(()) => final(self).bounded(n + 1)
                    && collect_step(data@, strings(ids@), old(self).model(), e@) == Ok::<CollectView, CdjFail>(final(self).model()),
                Err(x) => collect_step(data@, strings(ids@), old(self).model(), e@) == Err::<CollectView, CdjFail>(x@),
            },
    {
        if self.inside.is_some() {
            let (tr, cstart, depth) = self.inside.take().unwrap();
            match e.kind {
                XmlKind::Start => {
                    self.inside = Some((tr, cstart, depth + 1));
                },
                XmlKind::End => {
                    if depth == 0 && name_is(e, &TRACK) {
                        let mut tr = tr;
                        let ghost before = tr@;
                        tr.children = copy_span(data, cstart, e.start);
                        let ghost old_ids = self.by_id@;
                        self.by_id.push(tr);
                        assert(source_views(self.by_id@) =~= source_views(old_ids).push(
                            SourceView { children: span(data@, cstart as int, e.start as int), ..before }));
                    } else {
                        self.inside = Some((tr, cstart, depth - 1));
                    }
                },
                _ => {
                    self.inside = Some((tr, cstart, depth));
                },
            }
            return Ok(());
        }
        if self.skipping.is_some() {
            let d = self.skipping.unwrap();
            if e.kind == XmlKind::Start && name_is(e, &TRACK) {
                self.skipping = Some(d + 1);
            } else if e.kind == XmlKind::End && name_is(e, &TRACK) {
                self.skipping = if d == 0 { None } else { Some(d - 1) };
            }
            return Ok(());
        }
        if e.kind == XmlKind::Start && name_is(e, &COLLECTION) {
            self.in_collection = true;
        } else if e.kind == XmlKind::End && name_is(e, &COLLECTION) {
            self.in_collection = false;
        } else if (e.kind == XmlKind::Start || e.kind == XmlKind::Empty) && self.in_collection && name_is(e, &TRACK) {
            let a = attrs(data, e);
            let id = match get_attr(&a, &TRACK_ID) {
                Err(x) => return Err(CdjError::Xml(x)),
                Ok(None) => String::new(),
                Ok(Some(id)) => id,
            };
            if contains_id(ids, id.as_str()) {
                let tr = match source_track_from(&a, id) {
                    Err(x) => return Err(x),
                    Ok(t) => t,
                };
                if e.kind == XmlKind::Start {
                    self.inside = Some((tr, e.end, 0));
                } else {
                    let ghost old_ids = self.by_id@;
                    let ghost tv = tr@;
                    self.by_id.push(tr);
                    assert(source_views(self.by_id@) =~= source_views(old_ids).push(tv));
                }
            } else if e.kind == XmlKind::Start {
                self.skipping = Some(0);
            }
        }
        Ok(())
    }
}

/// A copy of a source track.
pub fn copy_source(t: &SourceTrack) -> (out: SourceTrack)
    ensures
        out@ == t@,
{
    let children = crate::bytes::copy_range(t.children.as_slice(), 0, t.children.len());
    assert(children@ =~= t.children@);
    SourceTrack {
        id: t.id.clone(),
        name: t.name.clone(),
        location: t.location.clone(),
        has_total_time: t.has_total_time,
        attrs: copy_pairs(&t.attrs),
        children,
    }
}

/// The tracks of the playlist entries, each captured track handed out once.
fn pick_tracks(by_id: &[SourceTrack], ids: &[String]) -> (r: Result<Vec<SourceTrack>, CdjError>)
    ensures
        match r {
            Ok(v) => pick(source_views(by_id@), strings(ids@), ids@.len() as int) == Ok::<Seq<SourceView>, CdjFail>(source_views(v@)),
            Err(x) => pick(source_views(by_id@), strings(ids@), ids@.len() as int) == Err::<Seq<SourceView>, CdjFail>(x@),
        },
{
    let ghost bv = source_views(by_id@);
    let ghost iv = strings(ids@);
    let mut out: Vec<SourceTrack> = Vec::new();
    assert(source_views(out@) =~= seq![]);
    let mut i: usize = 0;
    while i < ids.len()
        invariant
            i <= ids@.len(),
            bv == source_views(by_id@),
            iv == strings(ids@),
            pick(bv, iv, i as int) == Ok::<Seq<SourceView>, CdjFail>(source_views(out@)),
        decreases ids@.len() - i,
    {
        let id = ids[i].as_str();
        assert(iv[i as int] == id@);
        let earlier = contains_id(&ids[0..i], id);
        assert(strings(ids@.subrange(0, i as int)) =~= iv.take(i as int));
        let mut k = by_id.len();
        while k > 0 && !crate::text::str_eq(by_id[k - 1].id.as_str(), id)
            invariant
                k <= by_id@.len(),
                bv == source_views(by_id@),
                last_with_id(bv, id@, by_id@.len() as int) == last_with_id(bv, id@, k as int),
            decreases k,
        {
            k = k - 1;
        }
        if k == 0 || earlier {
            proof {
                assert(iv.take(i as int).contains(id@) || last_with_id(bv, id@, bv.len() as int) < 0);
                assert(pick(bv, iv, i + 1) is Err);
                lemma_pick_err(bv, iv, i + 1, iv.len() as int);
            }
            return Err(CdjError::MissingTrack(ids[i].clone()));
        }
        let k = k - 1;
        assert(last_with_id(bv, id@, bv.len() as int) == k);
        let ghost before = out@;
        let t = copy_source(&by_id[k]);
        out.push(t);
        assert(source_views(out@) =~= source_views(before).push(bv[k as int]));
        i = i + 1;
    }
    Ok(out)
}

/// The capture over a document's events, as [`collect_fold`] and [`pick`] say.
pub fn collect_tracks_events(data: &[u8], evs: &[XmlEvent], ids: &[String]) -> (r: Result<Vec<SourceTrack>, CdjError>)
    ensures
        match r {
            Ok(v) => collect_fold(data@, strings(ids@), event_views(evs@), evs@.len() as int) matches Ok(st)
                && st.inside is None && st.skipping is None
                && pick(st.by_id, strings(ids@), ids@.len() as int) == Ok::<Seq<SourceView>, CdjFail>(source_views(v@)),
            Err(x) => match collect_fold(data@, strings(ids@), event_views(evs@), evs@.len() as int) {
                Err(f) => f == x@,
                Ok(st) => if st.inside is Some {
                    x@ == CdjFail::UnclosedTrack
                } else if st.skipping is Some {
                    x@ == CdjFail::Xml(XmlError::Syntax)
                } else {
                    pick(st.by_id, strings(ids@), ids@.len() as int) == Err::<Seq<SourceView>, CdjFail>(x@)
                },
            },
        },
{
    let ghost ev = event_views(evs@);
    let ghost iv = strings(ids@);
    let mut st = CollectState { in_collection: false, inside: None, skipping: None, by_id: Vec::new() };
    assert(st.model() =~= collect_start()) by {
        assert(source_views(st.by_id@) =~= seq![]);
    }
    let mut i: usize = 0;
    while i < evs.len()
        invariant
            i <= evs@.len(),
            ev == event_views(evs@),
            iv == strings(ids@),
            st.bounded(i as int),
            collect_fold(data@, iv, ev, i as int) == Ok::<CollectView, CdjFail>(st.model()),
        decreases evs@.len() - i,
    {
        assert(ev[i as int] == evs@[i as int]@);
        match st.step(data, ids, &evs[i], Ghost(i as int)) {
            Ok(()) => {},
            Err(x) => {
                proof { lemma_collect_err(data@, iv, ev, i + 1, ev.len() as int); }
                return Err(x);
            },
        }
        i = i + 1;
    }
    if st.inside.is_some() {
        return Err(CdjError::UnclosedTrack);
    }
    if st.skipping.is_some() {
        return Err(CdjError::Xml(XmlError::Syntax));
    }
    pick_tracks(st.by_id.as_slice(), ids)
}

/// Capture the full `<TRACK>` element (attributes and children, verbatim)
/// of every playlist entry `ids`, in playlist order.
pub fn collect_tracks(data: &[u8], ids: &[String]) -> (r: Result<Vec<SourceTrack>, CdjError>)
    ensures
        match r {
            Ok(v) => spec_collect(data@, strings(ids@)) == Ok::<Seq<SourceView>, CdjFail>(source_views(v@)),
            Err(x) => spec_collect(data@, strings(ids@)) == Err::<Seq<SourceView>, CdjFail>(x@),
        },
{
    match events(data) {
        Err(x) => Err(CdjError::Xml(x)),
        Ok(evs) => collect_tracks_events(data, evs.as_slice(), ids),
    }
}

/// The recomputed fields of one emitted MP3 track; everything else comes
/// from its source track.
#[derive(Debug, Clone)]
pub struct NewTrack {
    pub track_id: u64,
    pub location_url: String,
    pub size: u64,
}

/// A new track as plain values.
pub struct NewView {
    pub track_id: u64,
    pub location_url: Seq<char>,
    pub size: u64,
}

impl View for NewTrack {
    type V = NewView;

    open spec fn view(&self) -> NewView {
        NewView { track_id: self.track_id, location_url: self.location_url@, size: self.size }
    }
}

/// The views of new tracks.
pub open spec fn new_views(v: Seq<NewTrack>) -> Seq<NewView> {
    v.map_values(|t: NewTrack| t@)
}

/// The bytes of a text.
pub open spec fn utf8(s: &str) -> Seq<u8> {
    vstd::utf8::encode_utf8(s@)
}

/// The decimal digits of a number.
pub open spec fn digits(n: int) -> Seq<u8> {
    super::transcode::decimal(n as nat)
}

/// ` key="value"` with the value escaped.
pub open spec fn esc_attr(key: Seq<u8>, value: Seq<u8>) -> Seq<u8> {
    crate::xml::attr_bytes(key, crate::xml::escape(value))
}

/// The marker appended to the `Comments` of every emitted track.
pub open spec fn marker() -> Seq<u8> {
    utf8("[cdjsafe]")
}

/// One source attribute as the emitted track carries it: the recomputed
/// ones replaced, `Comments` marked, the rest as they were.
pub open spec fn emitted_attr(k: Seq<u8>, raw: Seq<u8>, n: NewView) -> Seq<u8> {
    if k == utf8("TrackID") {
        esc_attr(k, digits(n.track_id as int))
    } else if k == utf8("Location") {
        esc_attr(k, vstd::utf8::encode_utf8(n.location_url))
    } else if k == utf8("Kind") {
        esc_attr(k, utf8("MP3 File"))
    } else if k == utf8("Size") {
        esc_attr(k, digits(n.size as int))
    } else if k == utf8("BitRate") {
        esc_attr(k, utf8("320"))
    } else if k == utf8("SampleRate") {
        esc_attr(k, utf8("44100"))
    } else if k == utf8("Comments") {
        crate::xml::attr_bytes(k, if raw.len() > 0 { raw + seq![0x20u8] + marker() } else { marker() })
    } else {
        crate::xml::attr_bytes(k, raw)
    }
}

/// The first `n` source attributes as emitted.
pub open spec fn emitted_attrs(l: Seq<(Seq<u8>, Seq<u8>)>, nt: NewView, n: int) -> Seq<u8>
    decreases n,
{
    if n <= 0 || n > l.len() {
        seq![]
    } else {
        emitted_attrs(l, nt, n - 1) + emitted_attr(l[n - 1].0, l[n - 1].1, nt)
    }
}

/// Some attribute is named `k`.
pub open spec fn has_key(l: Seq<(Seq<u8>, Seq<u8>)>, k: Seq<u8>) -> bool {
    exists|i: int| 0 <= i < l.len() && #[trigger] l[i].0 == k
}

/// The recomputed attributes missing from a track, given which of `Kind`,
/// `Size`, `BitRate`, `SampleRate` and `Comments` it has.
pub open spec fn added_for(seen: (bool, bool, bool, bool, bool), n: NewView) -> Seq<u8> {
    (if seen.0 { seq![] } else { esc_attr(utf8("Kind"), utf8("MP3 File")) })
    + (if seen.1 { seq![] } else { esc_attr(utf8("Size"), digits(n.size as int)) })
    + (if seen.2 { seq![] } else { esc_attr(utf8("BitRate"), utf8("320")) })
    + (if seen.3 { seq![] } else { esc_attr(utf8("SampleRate"), utf8("44100")) })
    + (if seen.4 { seq![] } else { crate::xml::attr_bytes(utf8("Comments"), marker()) })
}

/// The recomputed attributes the source lacked.
pub open spec fn added_attrs(l: Seq<(Seq<u8>, Seq<u8>)>, n: NewView) -> Seq<u8> {
    added_for((has_key(l, utf8("Kind")), has_key(l, utf8("Size")), has_key(l, utf8("BitRate")),
        has_key(l, utf8("SampleRate")), has_key(l, utf8("Comments"))), n)
}

/// The emitted `<TRACK>` element of a source track.
pub open spec fn track_bytes(src: SourceView, n: NewView) -> Seq<u8> {
    utf8("<TRACK") + emitted_attrs(src.attrs, n, src.attrs.len() as int) + added_attrs(src.attrs, n)
        + if src.children.len() == 0 { utf8("/>") } else { utf8(">") + src.children + utf8("</TRACK>") }
}

/// The first `n` emitted tracks.
pub open spec fn tracks_bytes(srcs: Seq<SourceView>, news: Seq<NewView>, n: int) -> Seq<u8>
    decreases n,
{
    if n <= 0 || n > srcs.len() || n > news.len() {
        seq![]
    } else {
        tracks_bytes(srcs, news, n - 1) + track_bytes(srcs[n - 1], news[n - 1])
    }
}

/// `<TRACK Key="id"/>` refs of the first `n` new tracks.
pub open spec fn refs_bytes(news: Seq<NewView>, n: int) -> Seq<u8>
    decreases n,
{
    if n <= 0 || n > news.len() {
        seq![]
    } else {
        refs_bytes(news, n - 1) + utf8("<TRACK") + esc_attr(utf8("Key"), digits(news[n - 1].track_id as int)) + utf8("/>")
    }
}

/// The folder holding the new playlist and its refs.
pub open spec fn folder_bytes(name: Seq<char>, news: Seq<NewView>) -> Seq<u8> {
    utf8("<NODE") + esc_attr(utf8("Type"), utf8("0")) + esc_attr(utf8("Name"), utf8(CDJSAFE_FOLDER_NAME))
        + esc_attr(utf8("Count"), utf8("1")) + utf8(">")
        + utf8("<NODE") + esc_attr(utf8("Name"), vstd::utf8::encode_utf8(name)) + esc_attr(utf8("Type"), utf8("1"))
        + esc_attr(utf8("KeyType"), utf8("0")) + esc_attr(utf8("Entries"), digits(news.len() as int)) + utf8(">")
        + refs_bytes(news, news.len() as int) + utf8("</NODE>") + utf8("</NODE>")
}

/// The number a count attribute holds: its trimmed text as a `usize`, 0
/// when it is not one.
pub open spec fn count_value(raw: Seq<u8>) -> int {
    if vstd::utf8::valid_utf8(raw) {
        match spec_parse_max(crate::text::trim(vstd::utf8::decode_utf8(raw)), usize::MAX as int) {
            Some(v) => v,
            None => 0,
        }
    } else {
        0
    }
}

/// The first `n` attributes of a tag with the count `key` raised by `add`,
/// and whether the count was there.
pub open spec fn bump_fold(l: Seq<(Seq<u8>, Seq<u8>)>, key: Seq<u8>, add: int, n: int) -> (Seq<u8>, bool)
    decreases n,
{
    if n <= 0 || n > l.len() {
        (seq![], false)
    } else {
        let (out, seen) = bump_fold(l, key, add, n - 1);
        if l[n - 1].0 == key {
            (out + esc_attr(key, digits(count_value(l[n - 1].1) + add)), true)
        } else {
            (out + crate::xml::attr_bytes(l[n - 1].0, l[n - 1].1), seen)
        }
    }
}

/// A start tag rewritten with its count `key` raised by `add`; a tag
/// without the count gets one holding `add`.
pub open spec fn bumped(name: Seq<u8>, a: (Seq<(Seq<u8>, Seq<u8>)>, bool), key: Seq<u8>, add: int) -> Result<Seq<u8>, CdjFail> {
    if !a.1 {
        Err(CdjFail::Xml(XmlError::Attribute))
    } else {
        let (out, seen) = bump_fold(a.0, key, add, a.0.len() as int);
        Ok(utf8("<") + name + out + (if seen { seq![] } else { esc_attr(key, digits(add)) }) + utf8(">"))
    }
}

/// What the rewrite has written so far.
pub struct WriteView {
    pub out: Seq<u8>,
    pub in_playlists: bool,
    pub depth: int,
}

/// One event of the rewrite.
pub open spec fn write_step(
    data: Seq<u8>,
    srcs: Seq<SourceView>,
    news: Seq<NewView>,
    name: Seq<char>,
    st: WriteView,
    e: EventView,
) -> Result<WriteView, CdjFail> {
    let (kind, tag, _s, _t) = e;
    let raw = crate::rbsort::xml::raw(data, e);
    if kind == XmlKind::Start {
        if tag == COLLECTION@ {
            match bumped(tag, spec_attrs(data, e), utf8("Entries"), news.len() as int) {
                Err(x) => Err(x),
                Ok(b) => Ok(WriteView { out: st.out + b, ..st }),
            }
        } else if tag == PLAYLISTS@ {
            Ok(WriteView { out: st.out + raw, in_playlists: true, depth: 0 })
        } else if tag == NODE@ && st.in_playlists {
            if st.depth + 1 == 1 {
                match bumped(tag, spec_attrs(data, e), utf8("Count"), 1) {
                    Err(x) => Err(x),
                    Ok(b) => Ok(WriteView { out: st.out + b, depth: st.depth + 1, ..st }),
                }
            } else {
                Ok(WriteView { out: st.out + raw, depth: st.depth + 1, ..st })
            }
        } else {
            Ok(WriteView { out: st.out + raw, ..st })
        }
    } else if kind == XmlKind::End {
        if tag == COLLECTION@ {
            Ok(WriteView { out: st.out + tracks_bytes(srcs, news, srcs.len() as int) + raw, ..st })
        } else if tag == NODE@ && st.in_playlists {
            let folder = if st.depth == 1 { folder_bytes(name, news) } else { seq![] };
            Ok(WriteView { out: st.out + folder + raw, depth: st.depth - 1, ..st })
        } else if tag == PLAYLISTS@ {
            Ok(WriteView { out: st.out + raw, in_playlists: false, ..st })
        } else {
            Ok(WriteView { out: st.out + raw, ..st })
        }
    } else {
        Ok(WriteView { out: st.out + raw, ..st })
    }
}

/// The rewrite after the first `n` events.
pub open spec fn write_fold(
    data: Seq<u8>,
    srcs: Seq<SourceView>,
    news: Seq<NewView>,
    name: Seq<char>,
    evs: Seq<EventView>,
    n: int,
) -> Result<WriteView, CdjFail>
    decreases n,
{
    if n <= 0 || n > evs.len() {
        Ok(WriteView { out: seq![], in_playlists: false, depth: 0 })
    } else {
        match write_fold(data, srcs, news, name, evs, n - 1) {
            Err(x) => Err(x),
            Ok(st) => write_step(data, srcs, news, name, st, evs[n - 1]),
        }
    }
}

/// The document with the new tracks at the end of `<COLLECTION>` (its
/// `Entries` raised to match) and, at the end of the ROOT NODE (its `Count`
/// raised by one), a folder holding the new playlist; every other event's
/// bytes as they are.
pub open spec fn spec_rewrite_xml(data: Seq<u8>, srcs: Seq<SourceView>, news: Seq<NewView>, name: Seq<char>) -> Result<Seq<u8>, CdjFail> {
    match xml_events_of(data) {
        None => Err(CdjFail::Xml(XmlError::Syntax)),
        Some(evs) => match write_fold(data, srcs, news, name, evs, evs.len() as int) {
            Err(x) => Err(x),
            Ok(st) => Ok(st.out),
        },
    }
}

proof fn lemma_write_err(data: Seq<u8>, srcs: Seq<SourceView>, news: Seq<NewView>, name: Seq<char>, evs: Seq<EventView>, k: int, n: int)
    requires
        0 <= k <= n <= evs.len(),
        write_fold(data, srcs, news, name, evs, k) is Err,
    ensures
        write_fold(data, srcs, news, name, evs, n) == write_fold(data, srcs, news, name, evs, k),
    decreases n - k,
{
    if n > k {
        lemma_write_err(data, srcs, news, name, evs, k, n - 1);
    }
}

/// Whether some attribute among the first `n` is named `k`.
pub open spec fn has_key_before(l: Seq<(Seq<u8>, Seq<u8>)>, k: Seq<u8>, n: int) -> bool {
    exists|i: int| 0 <= i < n && i < l.len() && #[trigger] l[i].0 == k
}

/// Appends one source attribute as the emitted track carries it.
fn push_emitted_attr(out: &mut Vec<u8>, k: &[u8], raw: &[u8], n: &NewTrack)
    ensures
        final(out)@ == old(out)@ + emitted_attr(k@, raw@, n@),
{
    if crate::xml::bytes_eq(k, "TrackID".as_bytes()) {
        let mut d: Vec<u8> = Vec::new();
        super::transcode::push_decimal(&mut d, n.track_id as u128);
        assert(d@ =~= digits(n.track_id as int));
        crate::xml::push_attribute(out, k, d.as_slice());
    } else if crate::xml::bytes_eq(k, "Location".as_bytes()) {
        crate::xml::push_attribute(out, k, n.location_url.as_str().as_bytes());
    } else if crate::xml::bytes_eq(k, "Kind".as_bytes()) {
        crate::xml::push_attribute(out, k, "MP3 File".as_bytes());
    } else if crate::xml::bytes_eq(k, "Size".as_bytes()) {
        let mut d: Vec<u8> = Vec::new();
        super::transcode::push_decimal(&mut d, n.size as u128);
        assert(d@ =~= digits(n.size as int));
        crate::xml::push_attribute(out, k, d.as_slice());
    } else if crate::xml::bytes_eq(k, "BitRate".as_bytes()) {
        crate::xml::push_attribute(out, k, "320".as_bytes());
    } else if crate::xml::bytes_eq(k, "SampleRate".as_bytes()) {
        crate::xml::push_attribute(out, k, "44100".as_bytes());
    } else if crate::xml::bytes_eq(k, "Comments".as_bytes()) {
        let mut v: Vec<u8> = Vec::new();
        crate::bytes::push_all(&mut v, raw);
        if raw.len() > 0 {
            v.push(0x20);
        }
        crate::bytes::push_all(&mut v, "[cdjsafe]".as_bytes());
        assert(v@ =~= if raw@.len() > 0 { raw@ + seq![0x20u8] + marker() } else { marker() });
        crate::xml::push_raw_attribute(out, k, v.as_slice());
    } else {
        crate::xml::push_raw_attribute(out, k, raw);
    }
}

/// Appends the source attributes as emitted; tells which of the
/// recomputed ones (`Kind`, `Size`, `BitRate`, `SampleRate`, `Comments`)
/// were there.
fn push_emitted_attrs(out: &mut Vec<u8>, src: &SourceTrack, n: &NewTrack) -> (seen: (bool, bool, bool, bool, bool))
    ensures
        final(out)@ == old(out)@ + emitted_attrs(src@.attrs, n@, src@.attrs.len() as int),
        seen == (has_key(src@.attrs, utf8("Kind")), has_key(src@.attrs, utf8("Size")), has_key(src@.attrs, utf8("BitRate")),
            has_key(src@.attrs, utf8("SampleRate")), has_key(src@.attrs, utf8("Comments"))),
{
    let ghost l = src@.attrs;
    let mut kind = false;
    let mut size = false;
    let mut bit_rate = false;
    let mut sample_rate = false;
    let mut comments = false;
    let mut i: usize = 0;
    while i < src.attrs.len()
        invariant
            i <= src.attrs@.len(),
            l == crate::xml::pair_views(src.attrs@),
            out@ == old(out)@ + emitted_attrs(l, n@, i as int),
            kind == has_key_before(l, utf8("Kind"), i as int),
            size == has_key_before(l, utf8("Size"), i as int),
            bit_rate == has_key_before(l, utf8("BitRate"), i as int),
            sample_rate == has_key_before(l, utf8("SampleRate"), i as int),
            comments == has_key_before(l, utf8("Comments"), i as int),
        decreases src.attrs@.len() - i,
    {
        let k = src.attrs[i].0.as_slice();
        let raw = src.attrs[i].1.as_slice();
        assert(l[i as int] == (k@, raw@));
        push_emitted_attr(out, k, raw, n);
        if crate::xml::bytes_eq(k, "Kind".as_bytes()) { kind = true; }
        if crate::xml::bytes_eq(k, "Size".as_bytes()) { size = true; }
        if crate::xml::bytes_eq(k, "BitRate".as_bytes()) { bit_rate = true; }
        if crate::xml::bytes_eq(k, "SampleRate".as_bytes()) { sample_rate = true; }
        if crate::xml::bytes_eq(k, "Comments".as_bytes()) { comments = true; }
        i = i + 1;
        assert(out@ =~= old(out)@ + emitted_attrs(l, n@, i as int));
    }
    (kind, size, bit_rate, sample_rate, comments)
}

/// Appends the recomputed attributes the source lacked.
#[verifier::rlimit(60)]
fn push_added_attrs(out: &mut Vec<u8>, n: &NewTrack, seen: (bool, bool, bool, bool, bool))
    ensures
        final(out)@ == old(out)@ + added_for(seen, n@),
{
    let (kind, size, bit_rate, sample_rate, comments) = seen;
    let ghost s0 = out@;
    if !kind {
        crate::xml::push_attribute(out, "Kind".as_bytes(), "MP3 File".as_bytes());
    }
    let ghost s1 = out@;
    assert(s1 == s0 + (if kind { seq![] } else { esc_attr(utf8("Kind"), utf8("MP3 File")) }));
    if !size {
        let mut d: Vec<u8> = Vec::new();
        super::transcode::push_decimal(&mut d, n.size as u128);
        assert(d@ =~= digits(n.size as int));
        crate::xml::push_attribute(out, "Size".as_bytes(), d.as_slice());
    }
    let ghost s2 = out@;
    assert(s2 == s1 + (if size { seq![] } else { esc_attr(utf8("Size"), digits(n.size as int)) }));
    if !bit_rate {
        crate::xml::push_attribute(out, "BitRate".as_bytes(), "320".as_bytes());
    }
    let ghost s3 = out@;
    assert(s3 == s2 + (if bit_rate { seq![] } else { esc_attr(utf8("BitRate"), utf8("320")) }));
    if !sample_rate {
        crate::xml::push_attribute(out, "SampleRate".as_bytes(), "44100".as_bytes());
    }
    let ghost s4 = out@;
    assert(s4 == s3 + (if sample_rate { seq![] } else { esc_attr(utf8("SampleRate"), utf8("44100")) }));
    if !comments {
        crate::xml::push_raw_attribute(out, "Comments".as_bytes(), "[cdjsafe]".as_bytes());
    }
    assert(out@ == s4 + (if comments { seq![] } else { crate::xml::attr_bytes(utf8("Comments"), marker()) }));
    assert(out@ =~= old(out)@ + added_for(seen, n@));
}

/// Appends the emitted `<TRACK>` element of a source track.
#[verifier::rlimit(60)]
fn push_track(out: &mut Vec<u8>, src: &SourceTrack, n: &NewTrack)
    ensures
        final(out)@ == old(out)@ + track_bytes(src@, n@),
{
    crate::bytes::push_all(out, "<TRACK".as_bytes());
    let seen = push_emitted_attrs(out, src, n);
    let ghost s1 = out@;
    push_added_attrs(out, n, seen);
    assert(out@ == s1 + added_attrs(src@.attrs, n@));
    if src.children.len() == 0 {
        crate::bytes::push_all(out, "/>".as_bytes());
    } else {
        crate::bytes::push_all(out, ">".as_bytes());
        crate::bytes::push_all(out, src.children.as_slice());
        crate::bytes::push_all(out, "</TRACK>".as_bytes());
    }
    assert(out@ =~= old(out)@ + track_bytes(src@, n@));
}

/// Appends every emitted track.
fn push_tracks(out: &mut Vec<u8>, srcs: &[SourceTrack], news: &[NewTrack])
    requires
        srcs@.len() == news@.len(),
    ensures
        final(out)@ == old(out)@ + tracks_bytes(source_views(srcs@), new_views(news@), srcs@.len() as int),
{
    let ghost sv = source_views(srcs@);
    let ghost nv = new_views(news@);
    let mut i: usize = 0;
    while i < srcs.len()
        invariant
            i <= srcs@.len(),
            srcs@.len() == news@.len(),
            sv == source_views(srcs@),
            nv == new_views(news@),
            out@ == old(out)@ + tracks_bytes(sv, nv, i as int),
        decreases srcs@.len() - i,
    {
        push_track(out, &srcs[i], &news[i]);
        assert(sv[i as int] == srcs@[i as int]@);
        assert(nv[i as int] == news@[i as int]@);
        i = i + 1;
        assert(out@ =~= old(out)@ + tracks_bytes(sv, nv, i as int));
    }
}

/// Appends the folder holding the new playlist.
#[verifier::rlimit(60)]
fn push_folder(out: &mut Vec<u8>, name: &str, news: &[NewTrack])
    ensures
        final(out)@ == old(out)@ + folder_bytes(name@, new_views(news@)),
{
    let ghost nv = new_views(news@);
    crate::bytes::push_all(out, "<NODE".as_bytes());
    crate::xml::push_attribute(out, "Type".as_bytes(), "0".as_bytes());
    crate::xml::push_attribute(out, "Name".as_bytes(), CDJSAFE_FOLDER_NAME.as_bytes());
    crate::xml::push_attribute(out, "Count".as_bytes(), "1".as_bytes());
    crate::bytes::push_all(out, ">".as_bytes());
    crate::bytes::push_all(out, "<NODE".as_bytes());
    crate::xml::push_attribute(out, "Name".as_bytes(), name.as_bytes());
    crate::xml::push_attribute(out, "Type".as_bytes(), "1".as_bytes());
    crate::xml::push_attribute(out, "KeyType".as_bytes(), "0".as_bytes());
    let mut d: Vec<u8> = Vec::new();
    super::transcode::push_decimal(&mut d, news.len() as u128);
    assert(d@ =~= digits(nv.len() as int));
    crate::xml::push_attribute(out, "Entries".as_bytes(), d.as_slice());
    crate::bytes::push_all(out, ">".as_bytes());
    let ghost head = out@;
    let mut i: usize = 0;
    while i < news.len()
        invariant
            i <= news@.len(),
            nv == new_views(news@),
            out@ == head + refs_bytes(nv, i as int),
        decreases news@.len() - i,
    {
        let mut t: Vec<u8> = Vec::new();
        super::transcode::push_decimal(&mut t, news[i].track_id as u128);
        assert(nv[i as int] == news@[i as int]@);
        assert(t@ =~= digits(nv[i as int].track_id as int));
        crate::bytes::push_all(out, "<TRACK".as_bytes());
        crate::xml::push_attribute(out, "Key".as_bytes(), t.as_slice());
        crate::bytes::push_all(out, "/>".as_bytes());
        i = i + 1;
        assert(out@ =~= head + refs_bytes(nv, i as int));
    }
    crate::bytes::push_all(out, "</NODE>".as_bytes());
    crate::bytes::push_all(out, "</NODE>".as_bytes());
    assert(out@ =~= old(out)@ + folder_bytes(name@, nv));
}

/// The number a count attribute holds.
fn count_of(raw: &[u8]) -> (n: usize)
    ensures
        n as int == count_value(raw@),
{
    match crate::text::str_from_utf8(raw) {
        None => 0,
        Some(s) => {
            let cs = crate::text::chars_of(s);
            let t = crate::text::trim_chars(cs.as_slice(), 0, cs.len());
            assert(cs@.subrange(0, cs@.len() as int) =~= s@);
            let ts = crate::text::string_from_chars(t.as_slice());
            match super::transcode::parse_usize(ts.as_str()) {
                Some(v) => v,
                None => 0,
            }
        },
    }
}

/// Appends a start tag with its count `key` raised by `add`.
fn push_bumped(out: &mut Vec<u8>, name: &[u8], a: &Attrs, key: &[u8], add: usize) -> (r: Result<(), CdjError>)
    ensures
        match r {
            Ok(()) => bumped(name@, a@, key@, add as int) matches Ok(b) && final(out)@ == old(out)@ + b,
            Err(x) => bumped(name@, a@, key@, add as int) == Err::<Seq<u8>, CdjFail>(x@),
        },
{
    if !a.complete {
        return Err(CdjError::Xml(XmlError::Attribute));
    }
    let ghost l = a@.0;
    let mut body: Vec<u8> = Vec::new();
    let mut seen = false;
    let mut i: usize = 0;
    while i < a.list.len()
        invariant
            i <= a.list@.len(),
            l == crate::xml::pair_views(a.list@),
            bump_fold(l, key@, add as int, i as int) == (body@, seen),
        decreases a.list@.len() - i,
    {
        let k = a.list[i].0.as_slice();
        let raw = a.list[i].1.as_slice();
        assert(l[i as int] == (k@, raw@));
        if crate::xml::bytes_eq(k, key) {
            let total = count_of(raw) as u128 + add as u128;
            let mut d: Vec<u8> = Vec::new();
            super::transcode::push_decimal(&mut d, total);
            assert(d@ =~= digits(count_value(raw@) + add));
            crate::xml::push_attribute(&mut body, key, d.as_slice());
            seen = true;
        } else {
            crate::xml::push_raw_attribute(&mut body, k, raw);
        }
        i = i + 1;
    }
    crate::bytes::push_all(out, "<".as_bytes());
    crate::bytes::push_all(out, name);
    crate::bytes::push_all(out, body.as_slice());
    if !seen {
        let mut d: Vec<u8> = Vec::new();
        super::transcode::push_decimal(&mut d, add as u128);
        assert(d@ =~= digits(add as int));
        crate::xml::push_attribute(out, key, d.as_slice());
    }
    crate::bytes::push_all(out, ">".as_bytes());
    proof {
        let (bo, sn) = bump_fold(l, key@, add as int, l.len() as int);
        assert(out@ =~= old(out)@ + (utf8("<") + name@ + bo + (if sn { seq![] } else { esc_attr(key@, digits(add as int)) }) + utf8(">")));
    }
    Ok(())
}

/// The rewrite over a document's events, as [`write_fold`] says.
pub fn rewrite_xml_events(
    data: &[u8],
    evs: &[XmlEvent],
    sources: &[SourceTrack],
    new_tracks: &[NewTrack],
    playlist_name: &str,
) -> (r: Result<Vec<u8>, CdjError>)
    requires
        sources@.len() == new_tracks@.len(),
    ensures
        match r {
            Ok(out) => write_fold(data@, source_views(sources@), new_views(new_tracks@), playlist_name@, event_views(evs@), evs@.len() as int)
                matches Ok(st) && st.out == out@,
            Err(x) => write_fold(data@, source_views(sources@), new_views(new_tracks@), playlist_name@, event_views(evs@), evs@.len() as int)
                == Err::<WriteView, CdjFail>(x@),
        },
{
    let ghost ev = event_views(evs@);
    let ghost sv = source_views(sources@);
    let ghost nv = new_views(new_tracks@);
    let mut out: Vec<u8> = Vec::new();
    let mut in_playlists = false;
    let mut depth: i128 = 0;
    let mut i: usize = 0;
    assert(out@ =~= seq![]);
    while i < evs.len()
        invariant
            i <= evs@.len(),
            ev == event_views(evs@),
            sv == source_views(sources@),
            nv == new_views(new_tracks@),
            sources@.len() == new_tracks@.len(),
            -(i as int) <= depth <= i as int,
            write_fold(data@, sv, nv, playlist_name@, ev, i as int)
                == Ok::<WriteView, CdjFail>(WriteView { out: out@, in_playlists, depth: depth as int }),
        decreases evs@.len() - i,
    {
        let e = &evs[i];
        assert(ev[i as int] == e@);
        let r: Result<(), CdjError> = match e.kind {
            XmlKind::Start => {
                if name_is(e, &COLLECTION) {
                    let a = attrs(data, e);
                    push_bumped(&mut out, e.name.as_slice(), &a, "Entries".as_bytes(), new_tracks.len())
                } else if name_is(e, &PLAYLISTS) {
                    in_playlists = true;
                    depth = 0;
                    crate::rbsort::xml::push_raw(&mut out, data, e);
                    Ok(())
                } else if name_is(e, &NODE) && in_playlists {
                    depth = depth + 1;
                    if depth == 1 {
                        let a = attrs(data, e);
                        push_bumped(&mut out, e.name.as_slice(), &a, "Count".as_bytes(), 1)
                    } else {
                        crate::rbsort::xml::push_raw(&mut out, data, e);
                        Ok(())
                    }
                } else {
                    crate::rbsort::xml::push_raw(&mut out, data, e);
                    Ok(())
                }
            },
            XmlKind::End => {
                if name_is(e, &COLLECTION) {
                    push_tracks(&mut out, sources, new_tracks);
                } else if name_is(e, &NODE) && in_playlists {
                    if depth == 1 {
                        push_folder(&mut out, playlist_name, new_tracks);
                    }
                    depth = depth - 1;
                } else if name_is(e, &PLAYLISTS) {
                    in_playlists = false;
                }
                crate::rbsort::xml::push_raw(&mut out, data, e);
                Ok(())
            },
            _ => {
                crate::rbsort::xml::push_raw(&mut out, data, e);
                Ok(())
            },
        };
        match r {
            Ok(()) => {},
            Err(x) => {
                proof { lemma_write_err(data@, sv, nv, playlist_name@, ev, i + 1, ev.len() as int); }
                return Err(x);
            },
        }
        i = i + 1;
    }
    Ok(out)
}

/// Write the document with the new tracks appended to `<COLLECTION>` and a
/// `CDJ-safe (MP3)` folder holding the new playlist under the ROOT NODE.
pub fn rewrite_xml(data: &[u8], sources: &[SourceTrack], new_tracks: &[NewTrack], playlist_name: &str) -> (r: Result<Vec<u8>, CdjError>)
    requires
        sources@.len() == new_tracks@.len(),
    ensures
        match r {
            Ok(out) => spec_rewrite_xml(data@, source_views(sources@), new_views(new_tracks@), playlist_name@) == Ok::<Seq<u8>, CdjFail>(out@),
            Err(x) => spec_rewrite_xml(data@, source_views(sources@), new_views(new_tracks@), playlist_name@) == Err::<Seq<u8>, CdjFail>(x@),
        },
{
    match events(data) {
        Err(x) => Err(CdjError::Xml(x)),
        Ok(evs) => rewrite_xml_events(data, evs.as_slice(), sources, new_tracks, playlist_name),
    }
}

}
