//! The passes over a rekordbox XML that sort playlists where they live: a
//! scan that collects the collection's keys and the playlists, and a
//! rewrite that puts each sorted playlist's `<TRACK Key=…/>` refs back into
//! its own `<NODE>`, every other byte passing through.
use vstd::prelude::*;
use crate::xml::{
    attrs, event_views, events, get_attr, name_is, node_attrs, push_attribute, spec_attrs,
    spec_get_attr, spec_node_attrs, spec_value, value, xml_events_of, Attrs, EventView, XmlError,
    XmlEvent, XmlKind, COLLECTION, ENTRIES, KEY, NODE, PLAYLISTS, TRACK, TRACK_ID,
};
use super::camelot::{camelot_splittable, is_splittable, parse_camelot, spec_parse_camelot};

verus! {

/// The text of each string.
pub open spec fn strings(v: Seq<String>) -> Seq<Seq<char>> {
    v.map_values(|s: String| s@)
}

/// A playlist the scan found: its path under ROOT, its `KeyType`, and its
/// `<TRACK Key=…/>` refs in order.
#[derive(Debug, Clone)]
pub struct CollectedPlaylist {
    pub path: Vec<String>,
    pub key_type: String,
    pub track_ids: Vec<String>,
}

/// A collected playlist as plain values.
pub struct PlaylistView {
    pub path: Seq<Seq<char>>,
    pub key_type: Seq<char>,
    pub track_ids: Seq<Seq<char>>,
}

impl View for CollectedPlaylist {
    type V = PlaylistView;

    open spec fn view(&self) -> PlaylistView {
        PlaylistView { path: strings(self.path@), key_type: self.key_type@, track_ids: strings(self.track_ids@) }
    }
}

/// A collection track as the sort reads it: its `TrackID`, the Camelot
/// index of its `Tonality`, and the text of its `AverageBpm`.
#[derive(Debug, Clone)]
pub struct CollectionEntry {
    pub id: String,
    pub camelot: Option<u8>,
    pub bpm: Option<String>,
}

/// A collection entry as plain values.
pub struct EntryView {
    pub id: Seq<char>,
    pub camelot: Option<u8>,
    pub bpm: Option<Seq<char>>,
}

impl View for CollectionEntry {
    type V = EntryView;

    open spec fn view(&self) -> EntryView {
        EntryView {
            id: self.id@,
            camelot: self.camelot,
            bpm: match self.bpm {
                Some(b) => Some(b@),
                None => None,
            },
        }
    }
}

/// Why sorting a document's playlists failed.
#[derive(Debug, Clone, PartialEq, Eq)]
pub enum SortError {
    Xml(XmlError),
    /// A `Tonality` of two or three bytes whose number part does not end
    /// on a character boundary, which the key parser cannot split.
    KeyNotSplittable,
    /// No playlist has the requested path.
    PlaylistNotFound,
    /// The requested playlist holds file paths, not TrackIDs; the field is
    /// its `KeyType`.
    NotTrackIds(String),
    /// There is no TrackID playlist to sort.
    NothingToSort,
    /// The requested playlist path has no segment.
    EmptyPlaylistPath,
}

/// What the scan has read so far.
pub struct ScanView {
    pub in_collection: bool,
    pub in_playlists: bool,
    /// Names of the NODEs enclosing the position, ROOT first.
    pub stack: Seq<Seq<char>>,
    /// The playlist whose refs are being collected.
    pub current: Option<PlaylistView>,
    pub collection: Seq<EntryView>,
    pub playlists: Seq<PlaylistView>,
}

/// Before the first event.
pub open spec fn scan_start() -> ScanView {
    ScanView {
        in_collection: false,
        in_playlists: false,
        stack: seq![],
        current: None,
        collection: seq![],
        playlists: seq![],
    }
}

/// `Tonality`.
pub open spec fn tonality_key() -> Seq<u8> {
    seq![0x54u8, 0x6f, 0x6e, 0x61, 0x6c, 0x69, 0x74, 0x79]
}

/// `AverageBpm`.
pub open spec fn bpm_key() -> Seq<u8> {
    seq![0x41u8, 0x76, 0x65, 0x72, 0x61, 0x67, 0x65, 0x42, 0x70, 0x6d]
}

/// `TrackID`, Camelot index and BPM text after the first `n` attributes of a
/// collection track, each from the last attribute that sets it.
pub open spec fn record_fold(l: Seq<(Seq<u8>, Seq<u8>)>, n: int) -> Result<(Option<Seq<char>>, Option<u8>, Option<Seq<char>>), SortError>
    decreases n,
{
    if n <= 0 || n > l.len() {
        Ok((None, None, None))
    } else {
        match record_fold(l, n - 1) {
            Err(e) => Err(e),
            Ok((id, cam, bpm)) => {
                let k = l[n - 1].0;
                let v = spec_value(l[n - 1].1);
                if k == TRACK_ID@ {
                    match v {
                        Ok(s) => Ok((Some(s), cam, bpm)),
                        Err(e) => Err(SortError::Xml(e)),
                    }
                } else if k == tonality_key() {
                    match v {
                        Ok(s) => if camelot_splittable(s) {
                            Ok((id, spec_parse_camelot(s), bpm))
                        } else {
                            Err(SortError::KeyNotSplittable)
                        },
                        Err(e) => Err(SortError::Xml(e)),
                    }
                } else if k == bpm_key() {
                    match v {
                        Ok(s) => Ok((id, cam, Some(s))),
                        Err(e) => Err(SortError::Xml(e)),
                    }
                } else {
                    Ok((id, cam, bpm))
                }
            },
        }
    }
}

/// Once the record fails it stays failed.
proof fn lemma_record_err(l: Seq<(Seq<u8>, Seq<u8>)>, k: int, n: int)
    requires
        0 <= k <= n <= l.len(),
        record_fold(l, k) is Err,
    ensures
        record_fold(l, n) == record_fold(l, k),
    decreases n - k,
{
    if n > k {
        lemma_record_err(l, k, n - 1);
    }
}

/// The entry a collection track adds, None when it has no `TrackID`.
pub open spec fn spec_record(a: (Seq<(Seq<u8>, Seq<u8>)>, bool)) -> Result<Option<EntryView>, SortError> {
    match record_fold(a.0, a.0.len() as int) {
        Err(e) => Err(e),
        Ok((id, cam, bpm)) => if !a.1 {
            Err(SortError::Xml(XmlError::Attribute))
        } else {
            match id {
                Some(i) => Ok(Some(EntryView { id: i, camelot: cam, bpm })),
                None => Ok(None),
            }
        },
    }
}

/// The state once a collection track's entry is recorded.
pub open spec fn with_record(st: ScanView, r: Result<Option<EntryView>, SortError>) -> Result<ScanView, SortError> {
    match r {
        Err(e) => Err(e),
        Ok(None) => Ok(st),
        Ok(Some(entry)) => Ok(ScanView { collection: st.collection.push(entry), ..st }),
    }
}

/// A playlist NODE opens: its name goes on the stack, and a playlist
/// (`Type` 1) below ROOT starts collecting refs unless one already is.
pub open spec fn open_node(st: ScanView, r: Result<(Seq<char>, Seq<char>, Seq<char>), XmlError>) -> Result<ScanView, SortError> {
    match r {
        Err(e) => Err(SortError::Xml(e)),
        Ok((name, ty, kt)) => {
            let stack = st.stack.push(name);
            let current = if ty == "1"@ && stack.len() > 1 && st.current is None {
                Some(PlaylistView { path: stack.subrange(1, stack.len() as int), key_type: kt, track_ids: seq![] })
            } else {
                st.current
            };
            Ok(ScanView { stack, current, ..st })
        },
    }
}

/// A self-closing NODE: an empty playlist below ROOT is listed as it is.
pub open spec fn empty_node(st: ScanView, r: Result<(Seq<char>, Seq<char>, Seq<char>), XmlError>) -> Result<ScanView, SortError> {
    match r {
        Err(e) => Err(SortError::Xml(e)),
        Ok((name, ty, kt)) => {
            let stack = st.stack.push(name);
            if ty == "1"@ && stack.len() > 1 {
                Ok(ScanView {
                    playlists: st.playlists.push(PlaylistView { path: stack.subrange(1, stack.len() as int), key_type: kt, track_ids: seq![] }),
                    ..st
                })
            } else {
                Ok(st)
            }
        },
    }
}

/// A NODE closes: the playlist being collected is complete when this is its
/// own NODE; the name leaves the stack.
pub open spec fn close_node(st: ScanView) -> ScanView {
    let stack = if st.stack.len() > 0 { st.stack.drop_last() } else { st.stack };
    match st.current {
        Some(cur) => if st.stack.len() > 1 && st.stack.subrange(1, st.stack.len() as int) == cur.path {
            ScanView { stack, current: None, playlists: st.playlists.push(cur), ..st }
        } else {
            ScanView { stack, ..st }
        },
        None => ScanView { stack, ..st },
    }
}

/// A ref inside the playlist being collected.
pub open spec fn track_ref(st: ScanView, a: (Seq<(Seq<u8>, Seq<u8>)>, bool)) -> Result<ScanView, SortError> {
    match st.current {
        None => Ok(st),
        Some(cur) => match spec_get_attr(a, KEY@) {
            Err(e) => Err(SortError::Xml(e)),
            Ok(None) => Ok(st),
            Ok(Some(k)) => Ok(ScanView { current: Some(PlaylistView { track_ids: cur.track_ids.push(k), ..cur }), ..st }),
        },
    }
}

/// One event of the scan.
pub open spec fn scan_step(data: Seq<u8>, st: ScanView, e: EventView) -> Result<ScanView, SortError> {
    let (kind, name, _s, _t) = e;
    let a = spec_attrs(data, e);
    if kind == XmlKind::Start {
        if name == COLLECTION@ {
            match spec_get_attr(a, ENTRIES@) {
                Err(x) => Err(SortError::Xml(x)),
                Ok(_) => Ok(ScanView { in_collection: true, ..st }),
            }
        } else if name == PLAYLISTS@ {
            Ok(ScanView { in_playlists: true, ..st })
        } else if name == NODE@ && st.in_playlists {
            open_node(st, spec_node_attrs(a))
        } else if name == TRACK@ && st.in_collection {
            with_record(st, spec_record(a))
        } else {
            Ok(st)
        }
    } else if kind == XmlKind::Empty {
        if name == TRACK@ && st.in_collection {
            with_record(st, spec_record(a))
        } else if name == TRACK@ {
            track_ref(st, a)
        } else if name == NODE@ && st.in_playlists {
            empty_node(st, spec_node_attrs(a))
        } else {
            Ok(st)
        }
    } else if kind == XmlKind::End {
        if name == COLLECTION@ {
            Ok(ScanView { in_collection: false, ..st })
        } else if name == PLAYLISTS@ {
            Ok(ScanView { in_playlists: false, ..st })
        } else if name == NODE@ && st.in_playlists {
            Ok(close_node(st))
        } else {
            Ok(st)
        }
    } else {
        Ok(st)
    }
}

/// The scan after the first `n` events.
pub open spec fn scan_fold(data: Seq<u8>, evs: Seq<EventView>, n: int) -> Result<ScanView, SortError>
    decreases n,
{
    if n <= 0 || n > evs.len() {
        Ok(scan_start())
    } else {
        match scan_fold(data, evs, n - 1) {
            Err(e) => Err(e),
            Ok(st) => scan_step(data, st, evs[n - 1]),
        }
    }
}

/// Once the scan fails it stays failed.
proof fn lemma_scan_err(data: Seq<u8>, evs: Seq<EventView>, k: int, n: int)
    requires
        0 <= k <= n <= evs.len(),
        scan_fold(data, evs, k) is Err,
    ensures
        scan_fold(data, evs, n) == scan_fold(data, evs, k),
    decreases n - k,
{
    if n > k {
        lemma_scan_err(data, evs, k, n - 1);
    }
}

/// What the scan of a whole document finds: the collection entries in
/// document order and the playlists in the order their NODEs close.
pub open spec fn spec_scan(data: Seq<u8>) -> Result<(Seq<EntryView>, Seq<PlaylistView>), SortError> {
    match xml_events_of(data) {
        None => Err(SortError::Xml(XmlError::Syntax)),
        Some(evs) => match scan_fold(data, evs, evs.len() as int) {
            Err(e) => Err(e),
            Ok(st) => Ok((st.collection, st.playlists)),
        },
    }
}

/// The views of collection entries.
pub open spec fn entry_views(v: Seq<CollectionEntry>) -> Seq<EntryView> {
    v.map_values(|e: CollectionEntry| e@)
}

/// The views of collected playlists.
pub open spec fn playlist_views(v: Seq<CollectedPlaylist>) -> Seq<PlaylistView> {
    v.map_values(|p: CollectedPlaylist| p@)
}

/// What a scan found.
#[derive(Debug)]
pub struct Scan {
    pub collection: Vec<CollectionEntry>,
    pub playlists: Vec<CollectedPlaylist>,
}

struct ScanState {
    in_collection: bool,
    in_playlists: bool,
    stack: Vec<String>,
    current: Option<CollectedPlaylist>,
    collection: Vec<CollectionEntry>,
    playlists: Vec<CollectedPlaylist>,
}

impl View for ScanState {
    type V = ScanView;

    closed spec fn view(&self) -> ScanView {
        ScanView {
            in_collection: self.in_collection,
            in_playlists: self.in_playlists,
            stack: strings(self.stack@),
            current: match self.current {
                Some(c) => Some(c@),
                None => None,
            },
            collection: entry_views(self.collection@),
            playlists: playlist_views(self.playlists@),
        }
    }
}

/// The entry a collection track adds.
fn record(a: &Attrs) -> (r: Result<Option<CollectionEntry>, SortError>)
    ensures
        match r {
            Ok(Some(e)) => spec_record(a@) == Ok::<Option<EntryView>, SortError>(Some(e@)),
            Ok(None) => spec_record(a@) == Ok::<Option<EntryView>, SortError>(None),
            Err(e) => spec_record(a@) == Err::<Option<EntryView>, SortError>(e),
        },
{
    let ghost l = a@.0;
    let tonality: [u8; 8] = [0x54, 0x6f, 0x6e, 0x61, 0x6c, 0x69, 0x74, 0x79];
    let bpm_name: [u8; 10] = [0x41, 0x76, 0x65, 0x72, 0x61, 0x67, 0x65, 0x42, 0x70, 0x6d];
    assert(tonality@ =~= tonality_key());
    assert(bpm_name@ =~= bpm_key());
    let mut id: Option<String> = None;
    let mut cam: Option<u8> = None;
    let mut bpm: Option<String> = None;
    let mut i: usize = 0;
    while i < a.list.len()
        invariant
            l == crate::xml::pair_views(a.list@),
            i <= a.list@.len(),
            tonality@ == tonality_key(),
            bpm_name@ == bpm_key(),
            record_fold(l, i as int) == Ok::<(Option<Seq<char>>, Option<u8>, Option<Seq<char>>), SortError>((
                match id { Some(s) => Some(s@), None => None },
                cam,
                match bpm { Some(s) => Some(s@), None => None },
            )),
        decreases a.list@.len() - i,
    {
        let k = a.list[i].0.as_slice();
        assert(l[i as int].0 == k@);
        assert(l[i as int].1 == a.list@[i as int].1@);
        if crate::xml::bytes_eq(k, &TRACK_ID) {
            match value(a.list[i].1.as_slice()) {
                Ok(v) => id = Some(v),
                Err(e) => {
                    proof { lemma_record_err(l, i + 1, l.len() as int); }
                    return Err(SortError::Xml(e));
                },
            }
        } else if crate::xml::bytes_eq(k, &tonality) {
            match value(a.list[i].1.as_slice()) {
                Ok(v) => {
                    if !is_splittable(v.as_str()) {
                        proof { lemma_record_err(l, i + 1, l.len() as int); }
                        return Err(SortError::KeyNotSplittable);
                    }
                    cam = parse_camelot(v.as_str());
                },
                Err(e) => {
                    proof { lemma_record_err(l, i + 1, l.len() as int); }
                    return Err(SortError::Xml(e));
                },
            }
        } else if crate::xml::bytes_eq(k, &bpm_name) {
            match value(a.list[i].1.as_slice()) {
                Ok(v) => bpm = Some(v),
                Err(e) => {
                    proof { lemma_record_err(l, i + 1, l.len() as int); }
                    return Err(SortError::Xml(e));
                },
            }
        }
        i = i + 1;
    }
    if !a.complete {
        return Err(SortError::Xml(XmlError::Attribute));
    }
    match id {
        Some(id) => Ok(Some(CollectionEntry { id, camelot: cam, bpm })),
        None => Ok(None),
    }
}

/// Whether `a[from..]` holds the same strings as `b`.
pub fn tail_eq(a: &[String], from: usize, b: &[String]) -> (r: bool)
    requires
        from <= a@.len(),
    ensures
        r == (strings(a@).subrange(from as int, a@.len() as int) == strings(b@)),
{
    if a.len() - from != b.len() {
        proof {
            assert(strings(a@).subrange(from as int, a@.len() as int).len() != strings(b@).len());
        }
        return false;
    }
    proof { assert(a@.len() == a.len()); }
    let mut i: usize = 0;
    while i < b.len()
        invariant
            from <= a@.len(),
            a@.len() == a.len(),
            a@.len() - from == b@.len(),
            i <= b@.len(),
            forall|j: int| 0 <= j < i ==> a@[from + j]@ == b@[j]@,
        decreases b@.len() - i,
    {
        if !crate::text::str_eq(a[from + i].as_str(), b[i].as_str()) {
            proof {
                assert(strings(a@).subrange(from as int, a@.len() as int)[i as int] != strings(b@)[i as int]);
            }
            return false;
        }
        i = i + 1;
    }
    assert(strings(a@).subrange(from as int, a@.len() as int) =~= strings(b@));
    true
}

/// A copy of `a[from..]`.
fn tail_of(a: &[String], from: usize) -> (out: Vec<String>)
    requires
        from <= a@.len(),
    ensures
        strings(out@) == strings(a@).subrange(from as int, a@.len() as int),
{
    let mut out: Vec<String> = Vec::new();
    let mut i = from;
    while i < a.len()
        invariant
            from <= i <= a@.len(),
            strings(out@) == strings(a@).subrange(from as int, i as int),
        decreases a@.len() - i,
    {
        let ghost before = out@;
        let c = a[i].clone();
        assert(c@ == a@[i as int]@);
        out.push(c);
        assert(out@ == before.push(c));
        assert(strings(out@) =~= strings(before).push(c@));
        i = i + 1;
        assert(strings(out@) =~= strings(a@).subrange(from as int, i as int));
    }
    out
}

impl ScanState {
    fn on_start(&mut self, data: &[u8], e: &XmlEvent) -> (r: Result<(), SortError>)
        requires
            e.kind == XmlKind::Start,
        ensures
            match r {
                Ok(()) => scan_step(data@, old(self)@, e@) == Ok::<ScanView, SortError>(final(self)@),
                Err(x) => scan_step(data@, old(self)@, e@) == Err::<ScanView, SortError>(x),
            },
    {
        let a = attrs(data, e);
        if name_is(e, &COLLECTION) {
            match get_attr(&a, &ENTRIES) {
                Err(x) => return Err(SortError::Xml(x)),
                Ok(_) => self.in_collection = true,
            }
        } else if name_is(e, &PLAYLISTS) {
            self.in_playlists = true;
        } else if name_is(e, &NODE) && self.in_playlists {
            let (name, ty, key_type) = match node_attrs(&a) {
                Ok(t) => t,
                Err(x) => return Err(SortError::Xml(x)),
            };
            let ghost name_v = name@;
            self.stack.push(name);
            assert(strings(self.stack@) =~= strings(old(self).stack@).push(name_v));
            if crate::text::str_eq(ty.as_str(), "1") && self.stack.len() > 1 && self.current.is_none() {
                let path = tail_of(self.stack.as_slice(), 1);
                let ids: Vec<String> = Vec::new();
                assert(strings(ids@) =~= seq![]);
                self.current = Some(CollectedPlaylist { path, key_type, track_ids: ids });
            }
        } else if name_is(e, &TRACK) && self.in_collection {
            match record(&a) {
                Err(x) => return Err(x),
                Ok(None) => {},
                Ok(Some(entry)) => {
                    self.collection.push(entry);
                    assert(entry_views(self.collection@) =~= entry_views(old(self).collection@).push(entry@));
                },
            }
        }
        Ok(())
    }

    fn on_empty(&mut self, data: &[u8], e: &XmlEvent) -> (r: Result<(), SortError>)
        requires
            e.kind == XmlKind::Empty,
        ensures
            match r {
                Ok(()) => scan_step(data@, old(self)@, e@) == Ok::<ScanView, SortError>(final(self)@),
                Err(x) => scan_step(data@, old(self)@, e@) == Err::<ScanView, SortError>(x),
            },
    {
        let a = attrs(data, e);
        if name_is(e, &TRACK) && self.in_collection {
            match record(&a) {
                Err(x) => return Err(x),
                Ok(None) => {},
                Ok(Some(entry)) => {
                    self.collection.push(entry);
                    assert(entry_views(self.collection@) =~= entry_views(old(self).collection@).push(entry@));
                },
            }
        } else if name_is(e, &TRACK) {
            if self.current.is_some() {
                match get_attr(&a, &KEY) {
                    Err(x) => return Err(SortError::Xml(x)),
                    Ok(None) => {},
                    Ok(Some(k)) => {
                        let mut cur = self.current.take().unwrap();
                        let ghost before = cur@;
                        cur.track_ids.push(k);
                        assert(strings(cur.track_ids@) =~= before.track_ids.push(k@));
                        self.current = Some(cur);
                    },
                }
            }
        } else if name_is(e, &NODE) && self.in_playlists {
            let (name, ty, key_type) = match node_attrs(&a) {
                Ok(t) => t,
                Err(x) => return Err(SortError::Xml(x)),
            };
            if crate::text::str_eq(ty.as_str(), "1") && self.stack.len() >= 1 {
                let mut path = tail_of(self.stack.as_slice(), 1);
                let ghost pv = path@;
                let ghost name_v = name@;
                path.push(name);
                assert(strings(path@) =~= strings(pv).push(name_v));
                proof {
                    let full = strings(self.stack@).push(name_v);
                    assert(strings(path@) =~= full.subrange(1, full.len() as int));
                }
                let ids: Vec<String> = Vec::new();
                assert(strings(ids@) =~= seq![]);
                self.playlists.push(CollectedPlaylist { path, key_type, track_ids: ids });
                assert(playlist_views(self.playlists@) =~= playlist_views(old(self).playlists@).push(self.playlists@.last()@));
            }
        }
        Ok(())
    }

    fn on_end(&mut self, e: &XmlEvent, data: &[u8])
        requires
            e.kind == XmlKind::End,
        ensures
            scan_step(data@, old(self)@, e@) == Ok::<ScanView, SortError>(final(self)@),
    {
        if name_is(e, &COLLECTION) {
            self.in_collection = false;
        } else if name_is(e, &PLAYLISTS) {
            self.in_playlists = false;
        } else if name_is(e, &NODE) && self.in_playlists {
            let closes = match &self.current {
                Some(cur) => self.stack.len() > 1 && tail_eq(self.stack.as_slice(), 1, cur.path.as_slice()),
                None => false,
            };
            if closes {
                let cur = self.current.take().unwrap();
                self.playlists.push(cur);
                assert(playlist_views(self.playlists@) =~= playlist_views(old(self).playlists@).push(cur@));
            }
            if self.stack.len() > 0 {
                self.stack.pop();
                assert(strings(self.stack@) =~= strings(old(self).stack@).drop_last());
            }
        }
    }
}

/// The scan over a document's events: the collection entries and the
/// playlists found, as [`scan_fold`] says.
pub fn scan_events(data: &[u8], evs: &[XmlEvent]) -> (r: Result<Scan, SortError>)
    ensures
        match r {
            Ok(s) => scan_fold(data@, event_views(evs@), evs@.len() as int) matches Ok(st)
                && st.collection == entry_views(s.collection@) && st.playlists == playlist_views(s.playlists@),
            Err(e) => scan_fold(data@, event_views(evs@), evs@.len() as int) == Err::<ScanView, SortError>(e),
        },
{
    let ghost ev = event_views(evs@);
    let mut st = ScanState {
        in_collection: false,
        in_playlists: false,
        stack: Vec::new(),
        current: None,
        collection: Vec::new(),
        playlists: Vec::new(),
    };
    assert(st@ =~= scan_start()) by {
        assert(strings(st.stack@) =~= seq![]);
        assert(entry_views(st.collection@) =~= seq![]);
        assert(playlist_views(st.playlists@) =~= seq![]);
    }
    let mut i: usize = 0;
    while i < evs.len()
        invariant
            i <= evs@.len(),
            ev == event_views(evs@),
            scan_fold(data@, ev, i as int) == Ok::<ScanView, SortError>(st@),
        decreases evs@.len() - i,
    {
        let e = &evs[i];
        assert(ev[i as int] == e@);
        match e.kind {
            XmlKind::Start => {
                match st.on_start(data, e) {
                    Ok(()) => {},
                    Err(x) => {
                        proof { lemma_scan_err(data@, ev, i + 1, ev.len() as int); }
                        return Err(x);
                    },
                }
            },
            XmlKind::Empty => {
                match st.on_empty(data, e) {
                    Ok(()) => {},
                    Err(x) => {
                        proof { lemma_scan_err(data@, ev, i + 1, ev.len() as int); }
                        return Err(x);
                    },
                }
            },
            XmlKind::End => st.on_end(e, data),
            XmlKind::Other => {},
        }
        i = i + 1;
    }
    Ok(Scan { collection: st.collection, playlists: st.playlists })
}

/// Scan a whole document: the collection entries in document order and the
/// playlists in the order their NODEs close.
pub fn scan(data: &[u8]) -> (r: Result<Scan, SortError>)
    ensures
        match r {
            Ok(s) => spec_scan(data@) == Ok::<(Seq<EntryView>, Seq<PlaylistView>), SortError>((entry_views(s.collection@), playlist_views(s.playlists@))),
            Err(e) => spec_scan(data@) == Err::<(Seq<EntryView>, Seq<PlaylistView>), SortError>(e),
        },
{
    match events(data) {
        Err(x) => Err(SortError::Xml(x)),
        Ok(evs) => scan_events(data, evs.as_slice()),
    }
}

/// The playlists that reference tracks by TrackID (`KeyType` 0), in order.
pub open spec fn track_id_playlists(v: Seq<PlaylistView>) -> Seq<PlaylistView>
    decreases v.len(),
{
    if v.len() == 0 {
        seq![]
    } else if v.last().key_type == "0"@ {
        track_id_playlists(v.drop_last()).push(v.last())
    } else {
        track_id_playlists(v.drop_last())
    }
}

/// The first index from `i` on whose playlist has path `path`, or -1.
pub open spec fn find_path(v: Seq<PlaylistView>, path: Seq<Seq<char>>, i: int) -> int
    decreases v.len() - i,
{
    if i < 0 || i >= v.len() {
        -1
    } else if v[i].path == path {
        i
    } else {
        find_path(v, path, i + 1)
    }
}

/// Why no playlist could be picked, as plain values.
pub enum SelectError {
    NotFound,
    NotTrackIds(Seq<char>),
}

/// The plain form of a selection error.
pub open spec fn select_error(e: SortError) -> SelectError {
    match e {
        SortError::NotTrackIds(k) => SelectError::NotTrackIds(k@),
        _ => SelectError::NotFound,
    }
}

/// The playlists to sort: every TrackID playlist, or the one at `target`,
/// which must exist and reference tracks by TrackID.
pub open spec fn spec_select(all: Seq<PlaylistView>, target: Option<Seq<Seq<char>>>) -> Result<Seq<PlaylistView>, SelectError> {
    match target {
        None => Ok(track_id_playlists(all)),
        Some(path) => {
            let k = find_path(all, path, 0);
            if k < 0 {
                Err(SelectError::NotFound)
            } else if all[k].key_type != "0"@ {
                Err(SelectError::NotTrackIds(all[k].key_type))
            } else {
                Ok(seq![all[k]])
            }
        },
    }
}

/// A copy of a playlist.
fn copy_playlist(p: &CollectedPlaylist) -> (q: CollectedPlaylist)
    ensures
        q@ == p@,
{
    let path = tail_of(p.path.as_slice(), 0);
    let ids = tail_of(p.track_ids.as_slice(), 0);
    assert(strings(p.path@).subrange(0, p.path@.len() as int) =~= strings(p.path@));
    assert(strings(p.track_ids@).subrange(0, p.track_ids@.len() as int) =~= strings(p.track_ids@));
    CollectedPlaylist { path, key_type: p.key_type.clone(), track_ids: ids }
}

/// Pick the playlists to sort: all TrackID playlists when `target` is None,
/// else the one at that path.
pub fn select_targets(all: Vec<CollectedPlaylist>, target: Option<&[String]>) -> (r: Result<Vec<CollectedPlaylist>, SortError>)
    ensures
        match r {
            Ok(v) => spec_select(playlist_views(all@), match target { Some(t) => Some(strings(t@)), None => None })
                == Ok::<Seq<PlaylistView>, SelectError>(playlist_views(v@)),
            Err(e) => (e is PlaylistNotFound || e is NotTrackIds)
                && spec_select(playlist_views(all@), match target { Some(t) => Some(strings(t@)), None => None })
                == Err::<Seq<PlaylistView>, SelectError>(select_error(e)),
        },
{
    let ghost av = playlist_views(all@);
    match target {
        None => {
            let mut out: Vec<CollectedPlaylist> = Vec::new();
            let mut i: usize = 0;
            while i < all.len()
                invariant
                    i <= all@.len(),
                    av == playlist_views(all@),
                    playlist_views(out@) == track_id_playlists(av.take(i as int)),
                decreases all@.len() - i,
            {
                let ghost t = av.take(i + 1);
                assert(t.drop_last() =~= av.take(i as int));
                assert(t.last() == all@[i as int]@);
                if crate::text::str_eq(all[i].key_type.as_str(), "0") {
                    let ghost before = out@;
                    out.push(copy_playlist(&all[i]));
                    assert(playlist_views(out@) =~= playlist_views(before).push(all@[i as int]@));
                }
                i = i + 1;
            }
            assert(av.take(i as int) =~= av);
            Ok(out)
        },
        Some(path) => {
            let ghost pv = strings(path@);
            let mut i: usize = 0;
            while i < all.len()
                invariant
                    i <= all@.len(),
                    av == playlist_views(all@),
                    pv == strings(path@),
                    (match target { Some(t) => Some(strings(t@)), None => None }) == Some(pv),
                    find_path(av, pv, 0) == find_path(av, pv, i as int),
                decreases all@.len() - i,
            {
                if tail_eq(all[i].path.as_slice(), 0, path) {
                    assert(strings(all@[i as int].path@).subrange(0, all@[i as int].path@.len() as int) =~= strings(all@[i as int].path@));
                    assert(av[i as int] == all@[i as int]@);
                    assert(av[i as int].path == pv);
                    assert(find_path(av, pv, i as int) == i);
                    assert(av[i as int].key_type == all@[i as int].key_type@);
                    if !crate::text::str_eq(all[i].key_type.as_str(), "0") {
                        let k = all[i].key_type.clone();
                        assert(spec_select(av, Some(pv)) == Err::<Seq<PlaylistView>, SelectError>(SelectError::NotTrackIds(k@)));
                        return Err(SortError::NotTrackIds(k));
                    }
                    assert(spec_select(av, Some(pv)) == Ok::<Seq<PlaylistView>, SelectError>(seq![av[i as int]]));
                    let mut all = all;
                    let p = all.swap_remove(i);
                    let mut out: Vec<CollectedPlaylist> = Vec::new();
                    out.push(p);
                    assert(playlist_views(out@) =~= seq![av[i as int]]);
                    return Ok(out);
                }
                assert(strings(all@[i as int].path@).subrange(0, all@[i as int].path@.len() as int) =~= strings(all@[i as int].path@));
                i = i + 1;
            }
            Err(SortError::PlaylistNotFound)
        },
    }
}

/// A playlist's refs in sorted order, to be written back into its NODE.
#[derive(Debug, Clone)]
pub struct SortedPlaylist {
    /// Path under ROOT.
    pub path: Vec<String>,
    pub track_ids: Vec<String>,
}

/// A sorted playlist as plain values.
pub struct SortedView {
    pub path: Seq<Seq<char>>,
    pub track_ids: Seq<Seq<char>>,
}

impl View for SortedPlaylist {
    type V = SortedView;

    open spec fn view(&self) -> SortedView {
        SortedView { path: strings(self.path@), track_ids: strings(self.track_ids@) }
    }
}

/// The views of sorted playlists.
pub open spec fn sorted_views(v: Seq<SortedPlaylist>) -> Seq<SortedView> {
    v.map_values(|p: SortedPlaylist| p@)
}

/// Sort the refs of each selected playlist; there must be at least one.
pub fn sort_selected(selected: Vec<CollectedPlaylist>, collection: &[(String, super::order::TrackMeta)]) -> (r: Result<Vec<SortedPlaylist>, SortError>)
    ensures
        match r {
            Ok(v) => v@.len() == selected@.len() && selected@.len() > 0
                && forall|i: int| 0 <= i < v@.len() ==> strings(#[trigger] v@[i].path@) == strings(selected@[i].path@)
                    && super::order::sorted_ids(selected@[i].track_ids@, collection@, v@[i].track_ids@),
            Err(e) => selected@.len() == 0 && e == SortError::NothingToSort,
        },
{
    if selected.len() == 0 {
        return Err(SortError::NothingToSort);
    }
    let mut out: Vec<SortedPlaylist> = Vec::new();
    let mut i: usize = 0;
    while i < selected.len()
        invariant
            i <= selected@.len(),
            out@.len() == i,
            forall|j: int| 0 <= j < i ==> strings(#[trigger] out@[j].path@) == strings(selected@[j].path@)
                && super::order::sorted_ids(selected@[j].track_ids@, collection@, out@[j].track_ids@),
        decreases selected@.len() - i,
    {
        let ids = super::order::sort_tracks(selected[i].track_ids.as_slice(), collection);
        let path = tail_of(selected[i].path.as_slice(), 0);
        assert(strings(selected@[i as int].path@).subrange(0, selected@[i as int].path@.len() as int) =~= strings(selected@[i as int].path@));
        out.push(SortedPlaylist { path, track_ids: ids });
        i = i + 1;
    }
    Ok(out)
}

/// The rewrite's state, as plain values.
pub struct RewriteView {
    pub out: Seq<u8>,
    pub in_playlists: bool,
    pub stack: Seq<Seq<char>>,
    /// Depth of the playlist NODE being rewritten, and the refs left to write.
    pub active: Option<(int, Seq<Seq<char>>)>,
    /// Paths already handed out.
    pub taken: Seq<Seq<Seq<char>>>,
}

/// Before the first event.
pub open spec fn rewrite_start() -> RewriteView {
    RewriteView { out: seq![], in_playlists: false, stack: seq![], active: None, taken: seq![] }
}

/// The last index below `n` whose playlist has path `path`, or -1.
pub open spec fn last_with_path(v: Seq<SortedView>, path: Seq<Seq<char>>, n: int) -> int
    decreases n,
{
    if n <= 0 || n > v.len() {
        -1
    } else if v[n - 1].path == path {
        n - 1
    } else {
        last_with_path(v, path, n - 1)
    }
}

/// The refs waiting for the playlist at `path`: the last sorted playlist
/// with that path, once.
pub open spec fn pending(v: Seq<SortedView>, taken: Seq<Seq<Seq<char>>>, path: Seq<Seq<char>>) -> Option<Seq<Seq<char>>> {
    let k = last_with_path(v, path, v.len() as int);
    if taken.contains(path) || k < 0 {
        None
    } else {
        Some(v[k].track_ids)
    }
}

/// The bytes an event spans in the document.
pub open spec fn raw(data: Seq<u8>, e: EventView) -> Seq<u8> {
    if e.2 <= e.3 && e.3 <= data.len() {
        data.subrange(e.2 as int, e.3 as int)
    } else {
        seq![]
    }
}

/// `<TRACK Key="id"/>`, the id escaped.
pub open spec fn track_tag(id: Seq<char>) -> Seq<u8> {
    seq![0x3cu8] + TRACK@ + crate::xml::attr_bytes(KEY@, crate::xml::escape(vstd::utf8::encode_utf8(id)))
        + seq![0x2fu8, 0x3e]
}

/// One event of the rewrite.
pub open spec fn rewrite_step(data: Seq<u8>, v: Seq<SortedView>, st: RewriteView, e: EventView) -> Result<RewriteView, SortError> {
    let (kind, name, _s, _t) = e;
    let out = st.out + raw(data, e);
    if kind == XmlKind::Start {
        if name == PLAYLISTS@ {
            Ok(RewriteView { out, in_playlists: true, ..st })
        } else if name == NODE@ && st.in_playlists {
            match spec_node_attrs(spec_attrs(data, e)) {
                Err(x) => Err(SortError::Xml(x)),
                Ok((nm, ty, _kt)) => {
                    let stack = st.stack.push(nm);
                    let path = stack.subrange(1, stack.len() as int);
                    if ty == "1"@ && st.active is None && stack.len() > 1 && pending(v, st.taken, path) is Some {
                        Ok(RewriteView {
                            out,
                            stack,
                            active: Some((stack.len() as int, pending(v, st.taken, path).unwrap())),
                            taken: st.taken.push(path),
                            ..st
                        })
                    } else {
                        Ok(RewriteView { out, stack, ..st })
                    }
                },
            }
        } else {
            Ok(RewriteView { out, ..st })
        }
    } else if kind == XmlKind::Empty {
        match st.active {
            Some((d, ids)) => if name == TRACK@ && ids.len() > 0 {
                Ok(RewriteView { out: st.out + track_tag(ids[0]), active: Some((d, ids.drop_first())), ..st })
            } else {
                Ok(RewriteView { out, ..st })
            },
            None => Ok(RewriteView { out, ..st }),
        }
    } else if kind == XmlKind::End {
        if name == PLAYLISTS@ {
            Ok(RewriteView { out, in_playlists: false, ..st })
        } else if name == NODE@ && st.in_playlists {
            let stack = if st.stack.len() > 0 { st.stack.drop_last() } else { st.stack };
            let active = match st.active {
                Some((d, ids)) => if d == st.stack.len() { None } else { st.active },
                None => None,
            };
            Ok(RewriteView { out, stack, active, ..st })
        } else {
            Ok(RewriteView { out, ..st })
        }
    } else {
        Ok(RewriteView { out, ..st })
    }
}

/// The rewrite after the first `n` events.
pub open spec fn rewrite_fold(data: Seq<u8>, v: Seq<SortedView>, evs: Seq<EventView>, n: int) -> Result<RewriteView, SortError>
    decreases n,
{
    if n <= 0 || n > evs.len() {
        Ok(rewrite_start())
    } else {
        match rewrite_fold(data, v, evs, n - 1) {
            Err(e) => Err(e),
            Ok(st) => rewrite_step(data, v, st, evs[n - 1]),
        }
    }
}

/// The rewritten document: every event's bytes as they are, except that
/// the `<TRACK/>` refs inside each sorted playlist's NODE become its sorted
/// refs, in order.
pub open spec fn spec_rewrite(data: Seq<u8>, v: Seq<SortedView>) -> Result<Seq<u8>, SortError> {
    match xml_events_of(data) {
        None => Err(SortError::Xml(XmlError::Syntax)),
        Some(evs) => match rewrite_fold(data, v, evs, evs.len() as int) {
            Err(e) => Err(e),
            Ok(st) => Ok(st.out),
        },
    }
}

/// Once the rewrite fails it stays failed.
proof fn lemma_rewrite_err(data: Seq<u8>, v: Seq<SortedView>, evs: Seq<EventView>, k: int, n: int)
    requires
        0 <= k <= n <= evs.len(),
        rewrite_fold(data, v, evs, k) is Err,
    ensures
        rewrite_fold(data, v, evs, n) == rewrite_fold(data, v, evs, k),
    decreases n - k,
{
    if n > k {
        lemma_rewrite_err(data, v, evs, k, n - 1);
    }
}

struct RewriteState {
    out: Vec<u8>,
    in_playlists: bool,
    stack: Vec<String>,
    /// Depth, index of the sorted playlist, refs of it written so far.
    active: Option<(usize, usize, usize)>,
    taken: Vec<Vec<String>>,
}

impl RewriteState {
    spec fn wf(&self, v: Seq<SortedView>) -> bool {
        match self.active {
            Some((d, k, n)) => k < v.len() && n <= v[k as int].track_ids.len(),
            None => true,
        }
    }

    spec fn model(&self, v: Seq<SortedView>) -> RewriteView {
        RewriteView {
            out: self.out@,
            in_playlists: self.in_playlists,
            stack: strings(self.stack@),
            active: match self.active {
                Some((d, k, n)) => Some((d as int, v[k as int].track_ids.skip(n as int))),
                None => None,
            },
            taken: self.taken@.map_values(|p: Vec<String>| strings(p@)),
        }
    }
}

/// Whether `path` was already handed out.
fn is_taken(taken: &Vec<Vec<String>>, path: &[String]) -> (r: bool)
    ensures
        r == taken@.map_values(|p: Vec<String>| strings(p@)).contains(strings(path@)),
{
    let ghost tv = taken@.map_values(|p: Vec<String>| strings(p@));
    let mut i: usize = 0;
    while i < taken.len()
        invariant
            i <= taken@.len(),
            tv == taken@.map_values(|p: Vec<String>| strings(p@)),
            forall|j: int| 0 <= j < i ==> tv[j] != strings(path@),
        decreases taken@.len() - i,
    {
        if tail_eq(taken[i].as_slice(), 0, path) {
            assert(strings(taken@[i as int]@).subrange(0, taken@[i as int]@.len() as int) =~= strings(taken@[i as int]@));
            assert(tv[i as int] == strings(path@));
            return true;
        }
        assert(strings(taken@[i as int]@).subrange(0, taken@[i as int]@.len() as int) =~= strings(taken@[i as int]@));
        i = i + 1;
    }
    false
}

/// The last sorted playlist with path `path`.
fn find_last(v: &[SortedPlaylist], path: &[String]) -> (r: Option<usize>)
    ensures
        match r {
            Some(k) => last_with_path(sorted_views(v@), strings(path@), v@.len() as int) == k as int && k < v@.len(),
            None => last_with_path(sorted_views(v@), strings(path@), v@.len() as int) < 0,
        },
{
    let ghost sv = sorted_views(v@);
    let mut n = v.len();
    while n > 0
        invariant
            n <= v@.len(),
            sv == sorted_views(v@),
            last_with_path(sv, strings(path@), v@.len() as int) == last_with_path(sv, strings(path@), n as int),
        decreases n,
    {
        assert(strings(v@[n - 1].path@).subrange(0, v@[n - 1].path@.len() as int) =~= strings(v@[n - 1].path@));
        if tail_eq(v[n - 1].path.as_slice(), 0, path) {
            return Some(n - 1);
        }
        n = n - 1;
    }
    None
}

/// `<TRACK Key="id"/>`.
fn push_track_tag(out: &mut Vec<u8>, id: &str)
    ensures
        final(out)@ == old(out)@ + track_tag(id@),
{
    out.push(0x3c);
    crate::bytes::push_all(out, &TRACK);
    crate::xml::push_attribute(out, &KEY, id.as_bytes());
    out.push(0x2f);
    out.push(0x3e);
    assert(out@ =~= old(out)@ + track_tag(id@));
}

/// Appends the bytes an event spans.
pub fn push_raw(out: &mut Vec<u8>, data: &[u8], e: &XmlEvent)
    ensures
        final(out)@ == old(out)@ + raw(data@, e@),
{
    proof { assert(data@.len() == data.len()); }
    if e.start <= e.end && e.end <= data.len() {
        let piece = crate::bytes::copy_range(data, e.start, e.end - e.start);
        crate::bytes::push_all(out, piece.as_slice());
    } else {
        assert(raw(data@, e@) =~= seq![]);
        assert(out@ =~= old(out)@ + raw(data@, e@));
    }
}

impl RewriteState {
    fn step(&mut self, data: &[u8], v: &[SortedPlaylist], e: &XmlEvent) -> (r: Result<(), SortError>)
        requires
            old(self).wf(sorted_views(v@)),
        ensures
            match r {
                Ok(()) => final(self).wf(sorted_views(v@))
                    && rewrite_step(data@, sorted_views(v@), old(self).model(sorted_views(v@)), e@)
                        == Ok::<RewriteView, SortError>(final(self).model(sorted_views(v@))),
                Err(x) => rewrite_step(data@, sorted_views(v@), old(self).model(sorted_views(v@)), e@)
                    == Err::<RewriteView, SortError>(x),
            },
    {
        let ghost sv = sorted_views(v@);
        match e.kind {
            XmlKind::Start => {
                if name_is(e, &PLAYLISTS) {
                    self.in_playlists = true;
                } else if name_is(e, &NODE) && self.in_playlists {
                    let a = attrs(data, e);
                    let (name, ty, _kt) = match node_attrs(&a) {
                        Ok(t) => t,
                        Err(x) => return Err(SortError::Xml(x)),
                    };
                    let ghost name_v = name@;
                    self.stack.push(name);
                    assert(strings(self.stack@) =~= strings(old(self).stack@).push(name_v));
                    if crate::text::str_eq(ty.as_str(), "1") && self.active.is_none() && self.stack.len() > 1 {
                        let path = tail_of(self.stack.as_slice(), 1);
                        if !is_taken(&self.taken, path.as_slice()) {
                            match find_last(v, path.as_slice()) {
                                Some(k) => {
                                    let depth = self.stack.len();
                                    let ghost pv = strings(path@);
                                    self.taken.push(path);
                                    assert(self.taken@.map_values(|p: Vec<String>| strings(p@))
                                        =~= old(self).taken@.map_values(|p: Vec<String>| strings(p@)).push(pv));
                                    self.active = Some((depth, k, 0));
                                    assert(sv[k as int].track_ids.skip(0) =~= sv[k as int].track_ids);
                                },
                                None => {},
                            }
                        }
                    }
                }
                push_raw(&mut self.out, data, e);
            },
            XmlKind::Empty => {
                let mut wrote = false;
                match self.active {
                    Some((d, k, n)) => {
                        assert(sv[k as int] == v@[k as int]@);
                        if name_is(e, &TRACK) && n < v[k].track_ids.len() {
                            push_track_tag(&mut self.out, v[k].track_ids[n].as_str());
                            proof {
                                let ids = sv[k as int].track_ids;
                                assert(ids.skip(n as int)[0] == ids[n as int]);
                                assert(ids.skip(n as int).drop_first() =~= ids.skip(n + 1));
                            }
                            self.active = Some((d, k, n + 1));
                            wrote = true;
                        }
                    },
                    None => {},
                }
                if !wrote {
                    push_raw(&mut self.out, data, e);
                }
            },
            XmlKind::End => {
                if name_is(e, &PLAYLISTS) {
                    self.in_playlists = false;
                } else if name_is(e, &NODE) && self.in_playlists {
                    match self.active {
                        Some((d, _, _)) => {
                            if d == self.stack.len() {
                                self.active = None;
                            }
                        },
                        None => {},
                    }
                    if self.stack.len() > 0 {
                        self.stack.pop();
                        assert(strings(self.stack@) =~= strings(old(self).stack@).drop_last());
                    }
                }
                push_raw(&mut self.out, data, e);
            },
            XmlKind::Other => {
                push_raw(&mut self.out, data, e);
            },
        }
        Ok(())
    }
}

/// The rewrite over a document's events, as [`rewrite_fold`] says.
pub fn rewrite_events(data: &[u8], evs: &[XmlEvent], sorted: &[SortedPlaylist]) -> (r: Result<Vec<u8>, SortError>)
    ensures
        match r {
            Ok(out) => rewrite_fold(data@, sorted_views(sorted@), event_views(evs@), evs@.len() as int) matches Ok(st)
                && st.out == out@,
            Err(e) => rewrite_fold(data@, sorted_views(sorted@), event_views(evs@), evs@.len() as int) == Err::<RewriteView, SortError>(e),
        },
{
    let ghost ev = event_views(evs@);
    let ghost sv = sorted_views(sorted@);
    let mut st = RewriteState { out: Vec::new(), in_playlists: false, stack: Vec::new(), active: None, taken: Vec::new() };
    assert(st.model(sv) =~= rewrite_start()) by {
        assert(strings(st.stack@) =~= seq![]);
        assert(st.taken@.map_values(|p: Vec<String>| strings(p@)) =~= seq![]);
    }
    let mut i: usize = 0;
    while i < evs.len()
        invariant
            i <= evs@.len(),
            ev == event_views(evs@),
            sv == sorted_views(sorted@),
            st.wf(sv),
            rewrite_fold(data@, sv, ev, i as int) == Ok::<RewriteView, SortError>(st.model(sv)),
        decreases evs@.len() - i,
    {
        assert(ev[i as int] == evs@[i as int]@);
        match st.step(data, sorted, &evs[i]) {
            Ok(()) => {},
            Err(x) => {
                proof { lemma_rewrite_err(data@, sv, ev, i + 1, ev.len() as int); }
                return Err(x);
            },
        }
        i = i + 1;
    }
    Ok(st.out)
}

/// Rewrite a document with each sorted playlist's refs put back in order.
pub fn rewrite(data: &[u8], sorted: &[SortedPlaylist]) -> (r: Result<Vec<u8>, SortError>)
    ensures
        match r {
            Ok(out) => spec_rewrite(data@, sorted_views(sorted@)) == Ok::<Seq<u8>, SortError>(out@),
            Err(e) => spec_rewrite(data@, sorted_views(sorted@)) == Err::<Seq<u8>, SortError>(e),
        },
{
    match events(data) {
        Err(x) => Err(SortError::Xml(x)),
        Ok(evs) => rewrite_events(data, evs.as_slice(), sorted),
    }
}

}
