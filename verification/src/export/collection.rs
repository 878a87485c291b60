//! `collection.xml` (rekordbox "Export Collection in xml format") to a
//! typed model: the tracks with their beat grid and cues, and the playlist
//! tree. Times and tempos stay the text the XML holds; reading them as
//! numbers is the caller's.
use vstd::prelude::*;
use crate::xml::{
    attrs, event_views, events, get_attr, name_is, spec_attrs, spec_get_attr, spec_value, value,
    xml_events_of, Attrs, EventView, XmlError, XmlEvent, XmlKind, COLLECTION, KEY, NODE, PLAYLISTS,
    TRACK,
};
use crate::rbsort::xml::strings;
use crate::cdjsafe::location::{decode_location, spec_decode_location, LocationError};
use crate::cdjsafe::transcode::{parse_u64, spec_parse_max};

verus! {

/// Why the collection could not be read.
#[derive(Debug, Clone, Copy, PartialEq, Eq)]
pub enum LibraryError {
    Xml(XmlError),
    /// A track's `Location` does not decode.
    Location(LocationError),
    /// A playlist ref's `Key`, a cue's colour or its `Num` is not a number.
    Number,
}

/// One `TEMPO` of a track's beat grid, its numbers as written.
#[derive(Debug, Clone)]
pub struct Tempo {
    pub inizio: Option<String>,
    pub bpm: Option<String>,
    pub metro: String,
    pub battito: Option<String>,
}

/// One `POSITION_MARK`.
#[derive(Debug, Clone)]
pub struct Cue {
    pub name: String,
    /// rekordbox `Type`: 0 cue, 1 fade-in, 2 fade-out, 3 load, 4 loop.
    pub kind: Option<String>,
    pub start: Option<String>,
    pub end: Option<String>,
    /// -1 memory cue, 0..=7 hot cue A..H.
    pub num: i32,
    pub rgb: Option<(u8, u8, u8)>,
}

impl Cue {
    /// A hot cue has a pad number.
    pub fn is_hot(&self) -> (b: bool)
        ensures
            b == (self.num >= 0),
    {
        self.num >= 0
    }
}

/// A collection track.
#[derive(Debug, Clone)]
pub struct Track {
    pub id: u64,
    pub name: String,
    pub artist: String,
    pub composer: String,
    pub album: String,
    pub grouping: String,
    pub genre: String,
    pub kind: String,
    pub size: u64,
    pub total_time: u32,
    pub disc_number: u32,
    pub track_number: u32,
    pub year: u32,
    /// `AverageBpm` as written.
    pub average_bpm: String,
    pub date_added: String,
    pub bit_rate: u32,
    pub sample_rate: u32,
    pub comments: String,
    pub play_count: u32,
    /// 0, 51, 102, 153, 204, 255 for 0..=5 stars.
    pub rating: u32,
    /// Decoded filesystem path.
    pub location: String,
    pub remixer: String,
    pub tonality: String,
    pub label: String,
    pub mix: String,
    /// `0xRRGGBB`.
    pub colour: Option<u32>,
    pub tempos: Vec<Tempo>,
    pub cues: Vec<Cue>,
}

/// A playlist or folder of the tree.
#[derive(Debug, Clone)]
pub struct Playlist {
    pub name: String,
    /// `Folder/Sub/Name` under ROOT.
    pub path: String,
    pub is_folder: bool,
    /// `KeyType` for playlists; only "0" (TrackID references) is exportable.
    pub key_type: String,
    /// Index into `Library::playlists` of the containing folder.
    pub parent: Option<usize>,
    pub track_ids: Vec<u64>,
}

/// The whole collection.
#[derive(Debug, Clone)]
pub struct Library {
    pub tracks: Vec<Track>,
    /// Document order, folders before their children.
    pub playlists: Vec<Playlist>,
}

// ----------------------------------------------------------- attributes ---

/// `TrackID`.
pub const TRACK_ID_K: [u8; 7] = [0x54, 0x72, 0x61, 0x63, 0x6b, 0x49, 0x44];
/// `Name`.
pub const NAME_K: [u8; 4] = [0x4e, 0x61, 0x6d, 0x65];
/// `Artist`.
pub const ARTIST_K: [u8; 6] = [0x41, 0x72, 0x74, 0x69, 0x73, 0x74];
/// `Composer`.
pub const COMPOSER_K: [u8; 8] = [0x43, 0x6f, 0x6d, 0x70, 0x6f, 0x73, 0x65, 0x72];
/// `Album`.
pub const ALBUM_K: [u8; 5] = [0x41, 0x6c, 0x62, 0x75, 0x6d];
/// `Grouping`.
pub const GROUPING_K: [u8; 8] = [0x47, 0x72, 0x6f, 0x75, 0x70, 0x69, 0x6e, 0x67];
/// `Genre`.
pub const GENRE_K: [u8; 5] = [0x47, 0x65, 0x6e, 0x72, 0x65];
/// `Kind`.
pub const KIND_K: [u8; 4] = [0x4b, 0x69, 0x6e, 0x64];
/// `Size`.
pub const SIZE_K: [u8; 4] = [0x53, 0x69, 0x7a, 0x65];
/// `TotalTime`.
pub const TOTAL_TIME_K: [u8; 9] = [0x54, 0x6f, 0x74, 0x61, 0x6c, 0x54, 0x69, 0x6d, 0x65];
/// `DiscNumber`.
pub const DISC_NUMBER_K: [u8; 10] = [0x44, 0x69, 0x73, 0x63, 0x4e, 0x75, 0x6d, 0x62, 0x65, 0x72];
/// `TrackNumber`.
pub const TRACK_NUMBER_K: [u8; 11] = [0x54, 0x72, 0x61, 0x63, 0x6b, 0x4e, 0x75, 0x6d, 0x62, 0x65, 0x72];
/// `Year`.
pub const YEAR_K: [u8; 4] = [0x59, 0x65, 0x61, 0x72];
/// `AverageBpm`.
pub const AVERAGE_BPM_K: [u8; 10] = [0x41, 0x76, 0x65, 0x72, 0x61, 0x67, 0x65, 0x42, 0x70, 0x6d];
/// `DateAdded`.
pub const DATE_ADDED_K: [u8; 9] = [0x44, 0x61, 0x74, 0x65, 0x41, 0x64, 0x64, 0x65, 0x64];
/// `BitRate`.
pub const BIT_RATE_K: [u8; 7] = [0x42, 0x69, 0x74, 0x52, 0x61, 0x74, 0x65];
/// `SampleRate`.
pub const SAMPLE_RATE_K: [u8; 10] = [0x53, 0x61, 0x6d, 0x70, 0x6c, 0x65, 0x52, 0x61, 0x74, 0x65];
/// `Comments`.
pub const COMMENTS_K: [u8; 8] = [0x43, 0x6f, 0x6d, 0x6d, 0x65, 0x6e, 0x74, 0x73];
/// `PlayCount`.
pub const PLAY_COUNT_K: [u8; 9] = [0x50, 0x6c, 0x61, 0x79, 0x43, 0x6f, 0x75, 0x6e, 0x74];
/// `Rating`.
pub const RATING_K: [u8; 6] = [0x52, 0x61, 0x74, 0x69, 0x6e, 0x67];
/// `Location`.
pub const LOCATION_K: [u8; 8] = [0x4c, 0x6f, 0x63, 0x61, 0x74, 0x69, 0x6f, 0x6e];
/// `Remixer`.
pub const REMIXER_K: [u8; 7] = [0x52, 0x65, 0x6d, 0x69, 0x78, 0x65, 0x72];
/// `Tonality`.
pub const TONALITY_K: [u8; 8] = [0x54, 0x6f, 0x6e, 0x61, 0x6c, 0x69, 0x74, 0x79];
/// `Label`.
pub const LABEL_K: [u8; 5] = [0x4c, 0x61, 0x62, 0x65, 0x6c];
/// `Mix`.
pub const MIX_K: [u8; 3] = [0x4d, 0x69, 0x78];
/// `Colour`.
pub const COLOUR_K: [u8; 6] = [0x43, 0x6f, 0x6c, 0x6f, 0x75, 0x72];

/// The value of a hex digit character.
pub open spec fn hex_digit(c: char) -> Option<int> {
    if '0' <= c <= '9' {
        Some(c as int - 48)
    } else if 'a' <= c <= 'f' {
        Some(c as int - 87)
    } else if 'A' <= c <= 'F' {
        Some(c as int - 55)
    } else {
        None
    }
}

/// The value of a run of hex digits; None when one is not.
pub open spec fn hex_value(d: Seq<char>) -> Option<int>
    decreases d.len(),
{
    if d.len() == 0 {
        Some(0)
    } else {
        match (hex_value(d.drop_last()), hex_digit(d.last())) {
            (Some(a), Some(b)) => Some(a * 16 + b),
            _ => None,
        }
    }
}

/// `s` without every leading `0x`.
pub open spec fn strip_0x(s: Seq<char>) -> Seq<char>
    decreases s.len(),
{
    if s.len() >= 2 && s[0] == '0' && s[1] == 'x' { strip_0x(s.skip(2)) } else { s }
}

/// `u32::from_str_radix(_, 16)`: an optional `+`, then at least one hex
/// digit, the value fitting in 32 bits.
pub open spec fn spec_parse_hex(s: Seq<char>) -> Option<u32> {
    let d = if s.len() > 0 && s[0] == '+' { s.drop_first() } else { s };
    if d.len() == 0 {
        None
    } else {
        match hex_value(d) {
            Some(v) => if v <= u32::MAX { Some(v as u32) } else { None },
            None => None,
        }
    }
}

/// The first attribute from `i` on that a track cannot take: one whose
/// value does not decode, or a `Location` that is not a file URL; -1 when
/// there is none.
pub open spec fn first_bad(l: Seq<(Seq<u8>, Seq<u8>)>, i: int) -> int
    decreases l.len() - i,
{
    if i < 0 || i >= l.len() {
        -1
    } else {
        match spec_value(l[i].1) {
            Err(_) => i,
            Ok(v) => if l[i].0 == LOCATION_K@ && spec_decode_location(v) is Err {
                i
            } else {
                first_bad(l, i + 1)
            },
        }
    }
}

/// Why a track's attributes cannot make a track, if they cannot.
pub open spec fn track_error(a: (Seq<(Seq<u8>, Seq<u8>)>, bool)) -> Option<LibraryError> {
    let l = a.0;
    let b = first_bad(l, 0);
    if b >= 0 {
        match spec_value(l[b].1) {
            Err(x) => Some(LibraryError::Xml(x)),
            Ok(v) => match spec_decode_location(v) {
                Err(e) => Some(LibraryError::Location(e)),
                Ok(_) => None,
            },
        }
    } else if !a.1 {
        Some(LibraryError::Xml(XmlError::Attribute))
    } else {
        None
    }
}

/// The fields of a track an attribute can set, as plain values.
pub struct TrackFields {
    pub id: u64,
    pub name: Seq<char>,
    pub artist: Seq<char>,
    pub composer: Seq<char>,
    pub album: Seq<char>,
    pub grouping: Seq<char>,
    pub genre: Seq<char>,
    pub kind: Seq<char>,
    pub size: u64,
    pub total_time: u32,
    pub disc_number: u32,
    pub track_number: u32,
    pub year: u32,
    pub average_bpm: Seq<char>,
    pub date_added: Seq<char>,
    pub bit_rate: u32,
    pub sample_rate: u32,
    pub comments: Seq<char>,
    pub play_count: u32,
    pub rating: u32,
    pub location: Seq<char>,
    pub remixer: Seq<char>,
    pub tonality: Seq<char>,
    pub label: Seq<char>,
    pub mix: Seq<char>,
    pub colour: Option<u32>,
}

/// A track's fields before any attribute.
pub open spec fn blank_fields() -> TrackFields {
    TrackFields { id: 0, name: seq![], artist: seq![], composer: seq![], album: seq![], grouping: seq![], genre: seq![], kind: seq![], size: 0, total_time: 0, disc_number: 0, track_number: 0, year: 0, average_bpm: seq![], date_added: seq![], bit_rate: 0, sample_rate: 0, comments: seq![], play_count: 0, rating: 0, location: seq![], remixer: seq![], tonality: seq![], label: seq![], mix: seq![], colour: None }
}

/// The trimmed text as a `u64`, 0 when it is not one.
pub open spec fn num_value(v: Seq<char>) -> u64 {
    match spec_parse_max(crate::text::trim(v), u64::MAX as int) {
        Some(x) => x as u64,
        None => 0,
    }
}

/// The field attribute `k` sets to `v`: numbers read as `u64` (0 when not
/// one) and cut to their field's width, the `Location` decoded, the
/// `Colour` read as hex; an attribute of no field sets nothing.
pub open spec fn set_field(f: TrackFields, k: Seq<u8>, v: Seq<char>) -> TrackFields {
    if k == TRACK_ID_K@ {
        TrackFields { id: num_value(v), ..f }
    } else if k == NAME_K@ {
        TrackFields { name: v, ..f }
    } else if k == ARTIST_K@ {
        TrackFields { artist: v, ..f }
    } else if k == COMPOSER_K@ {
        TrackFields { composer: v, ..f }
    } else if k == ALBUM_K@ {
        TrackFields { album: v, ..f }
    } else if k == GROUPING_K@ {
        TrackFields { grouping: v, ..f }
    } else if k == GENRE_K@ {
        TrackFields { genre: v, ..f }
    } else if k == KIND_K@ {
        TrackFields { kind: v, ..f }
    } else if k == SIZE_K@ {
        TrackFields { size: num_value(v), ..f }
    } else if k == TOTAL_TIME_K@ {
        TrackFields { total_time: num_value(v) as u32, ..f }
    } else if k == DISC_NUMBER_K@ {
        TrackFields { disc_number: num_value(v) as u32, ..f }
    } else if k == TRACK_NUMBER_K@ {
        TrackFields { track_number: num_value(v) as u32, ..f }
    } else if k == YEAR_K@ {
        TrackFields { year: num_value(v) as u32, ..f }
    } else if k == AVERAGE_BPM_K@ {
        TrackFields { average_bpm: v, ..f }
    } else if k == DATE_ADDED_K@ {
        TrackFields { date_added: v, ..f }
    } else if k == BIT_RATE_K@ {
        TrackFields { bit_rate: num_value(v) as u32, ..f }
    } else if k == SAMPLE_RATE_K@ {
        TrackFields { sample_rate: num_value(v) as u32, ..f }
    } else if k == COMMENTS_K@ {
        TrackFields { comments: v, ..f }
    } else if k == PLAY_COUNT_K@ {
        TrackFields { play_count: num_value(v) as u32, ..f }
    } else if k == RATING_K@ {
        TrackFields { rating: num_value(v) as u32, ..f }
    } else if k == LOCATION_K@ {
        TrackFields { location: match spec_decode_location(v) { Ok(p) => p, Err(_) => f.location }, ..f }
    } else if k == REMIXER_K@ {
        TrackFields { remixer: v, ..f }
    } else if k == TONALITY_K@ {
        TrackFields { tonality: v, ..f }
    } else if k == LABEL_K@ {
        TrackFields { label: v, ..f }
    } else if k == MIX_K@ {
        TrackFields { mix: v, ..f }
    } else if k == COLOUR_K@ {
        TrackFields { colour: spec_parse_hex(strip_0x(crate::text::trim(v))), ..f }
    } else {
        f
    }
}

/// The fields after the first `n` attributes, each setting its field in turn.
pub open spec fn fields_fold(l: Seq<(Seq<u8>, Seq<u8>)>, n: int) -> TrackFields
    decreases n,
{
    if n <= 0 || n > l.len() {
        blank_fields()
    } else {
        match spec_value(l[n - 1].1) {
            Ok(v) => set_field(fields_fold(l, n - 1), l[n - 1].0, v),
            Err(_) => fields_fold(l, n - 1),
        }
    }
}

/// A track with every text empty, every number 0 and no colour, grid or cues.
pub open spec fn is_blank(t: Track) -> bool {
    &&& t.id == 0 && t.size == 0 && t.total_time == 0 && t.disc_number == 0 && t.track_number == 0
    &&& t.year == 0 && t.bit_rate == 0 && t.sample_rate == 0 && t.play_count == 0 && t.rating == 0
    &&& t.name@.len() == 0 && t.artist@.len() == 0 && t.composer@.len() == 0 && t.album@.len() == 0
    &&& t.grouping@.len() == 0 && t.genre@.len() == 0 && t.kind@.len() == 0 && t.average_bpm@.len() == 0
    &&& t.date_added@.len() == 0 && t.comments@.len() == 0 && t.location@.len() == 0 && t.remixer@.len() == 0
    &&& t.tonality@.len() == 0 && t.label@.len() == 0 && t.mix@.len() == 0
    &&& t.colour is None && t.tempos@.len() == 0 && t.cues@.len() == 0
}

impl Default for Track {
    fn default() -> (t: Track)
        ensures
            is_blank(t),
    {
        Track {
            id: 0,
            name: String::new(),
            artist: String::new(),
            composer: String::new(),
            album: String::new(),
            grouping: String::new(),
            genre: String::new(),
            kind: String::new(),
            size: 0,
            total_time: 0,
            disc_number: 0,
            track_number: 0,
            year: 0,
            average_bpm: String::new(),
            date_added: String::new(),
            bit_rate: 0,
            sample_rate: 0,
            comments: String::new(),
            play_count: 0,
            rating: 0,
            location: String::new(),
            remixer: String::new(),
            tonality: String::new(),
            label: String::new(),
            mix: String::new(),
            colour: None,
            tempos: Vec::new(),
            cues: Vec::new(),
        }
    }
}

impl Track {
    /// The attribute-set fields.
    pub open spec fn fields(&self) -> TrackFields {
        TrackFields {
            id: self.id,
            name: self.name@,
            artist: self.artist@,
            composer: self.composer@,
            album: self.album@,
            grouping: self.grouping@,
            genre: self.genre@,
            kind: self.kind@,
            size: self.size,
            total_time: self.total_time,
            disc_number: self.disc_number,
            track_number: self.track_number,
            year: self.year,
            average_bpm: self.average_bpm@,
            date_added: self.date_added@,
            bit_rate: self.bit_rate,
            sample_rate: self.sample_rate,
            comments: self.comments@,
            play_count: self.play_count,
            rating: self.rating,
            location: self.location@,
            remixer: self.remixer@,
            tonality: self.tonality@,
            label: self.label@,
            mix: self.mix@,
            colour: self.colour,
        }
    }
}

/// The trimmed text as a `u64`, 0 when it is not one.
fn num_of(v: &str) -> (n: u64)
    ensures
        n == match spec_parse_max(crate::text::trim(v@), u64::MAX as int) {
            Some(x) => x as u64,
            None => 0,
        },
{
    let cs = crate::text::chars_of(v);
    let t = crate::text::trim_chars(cs.as_slice(), 0, cs.len());
    assert(cs@.subrange(0, cs@.len() as int) =~= v@);
    let ts = crate::text::string_from_chars(t.as_slice());
    match parse_u64(ts.as_str()) {
        Some(x) => x,
        None => 0,
    }
}

/// The value of a run of hex digits, None when one is not or it exceeds
/// 32 bits.
fn hex_of(d: &[char]) -> (r: Option<u32>)
    ensures
        match r {
            Some(v) => hex_value(d@) == Some(v as int),
            None => hex_value(d@) is None || hex_value(d@).unwrap() > u32::MAX,
        },
{
    let mut v: u64 = 0;
    let mut i: usize = 0;
    while i < d.len()
        invariant
            i <= d@.len(),
            hex_value(d@.take(i as int)) == Some(v as int),
            v <= u32::MAX,
        decreases d@.len() - i,
    {
        assert(d@.take(i + 1).drop_last() =~= d@.take(i as int));
        let c = d[i];
        let x: u64 = if '0' <= c && c <= '9' {
            c as u64 - 48
        } else if 'a' <= c && c <= 'f' {
            c as u64 - 87
        } else if 'A' <= c && c <= 'F' {
            c as u64 - 55
        } else {
            proof { lemma_hex_none(d@, i as int); }
            return None;
        };
        let next = v * 16 + x;
        if next > 0xFFFF_FFFF {
            proof { lemma_hex_grows(d@, i + 1); }
            return None;
        }
        v = next;
        i = i + 1;
    }
    assert(d@.take(i as int) =~= d@);
    Some(v as u32)
}

proof fn lemma_hex_none(d: Seq<char>, i: int)
    requires
        0 <= i < d.len(),
        hex_digit(d[i]) is None,
    ensures
        hex_value(d) is None,
    decreases d.len(),
{
    if i < d.len() - 1 {
        lemma_hex_none(d.drop_last(), i);
    }
}

proof fn lemma_hex_grows(d: Seq<char>, k: int)
    requires
        0 <= k <= d.len(),
        hex_value(d.take(k)) matches Some(v) && v > u32::MAX,
    ensures
        hex_value(d) is None || hex_value(d).unwrap() > u32::MAX,
    decreases d.len() - k,
{
    if k < d.len() {
        assert(d.take(k + 1).drop_last() =~= d.take(k));
        assert(d.take(k + 1).last() == d[k]);
        if hex_digit(d[k]) is None {
            lemma_hex_none(d, k);
        } else {
            lemma_hex_grows(d, k + 1);
        }
    } else {
        assert(d.take(k) =~= d);
    }
}

/// A track's `Colour`: the trimmed text without leading `0x`s, as hex.
fn colour_of(v: &str) -> (r: Option<u32>)
    ensures
        r == spec_parse_hex(strip_0x(crate::text::trim(v@))),
{
    let cs = crate::text::chars_of(v);
    let t = crate::text::trim_chars(cs.as_slice(), 0, cs.len());
    assert(cs@.subrange(0, cs@.len() as int) =~= v@);
    let mut a: usize = 0;
    assert(t@.skip(0) =~= t@);
    while a < t.len() && t.len() - a > 1 && t[a] == '0' && t[a + 1] == 'x'
        invariant
            a <= t@.len(),
            strip_0x(t@) == strip_0x(t@.skip(a as int)),
        decreases t@.len() - a,
    {
        assert(t@.skip(a as int).skip(2) =~= t@.skip(a + 2));
        a = a + 2;
    }
    let ghost s = t@.skip(a as int);
    assert(strip_0x(s) == s);
    let start = if a < t.len() && t[a] == '+' { a + 1 } else { a };
    let ghost d = if s.len() > 0 && s[0] == '+' { s.drop_first() } else { s };
    let mut digits: Vec<char> = Vec::new();
    let mut i = start;
    while i < t.len()
        invariant
            start <= i <= t@.len(),
            digits@ == t@.subrange(start as int, i as int),
        decreases t@.len() - i,
    {
        digits.push(t[i]);
        i = i + 1;
        assert(digits@ =~= t@.subrange(start as int, i as int));
    }
    assert(digits@ =~= d);
    if digits.len() == 0 {
        return None;
    }
    hex_of(digits.as_slice())
}

proof fn lemma_first_bad_here(l: Seq<(Seq<u8>, Seq<u8>)>, i: int)
    requires
        0 <= i < l.len(),
        first_bad(l, 0) == first_bad(l, i),
        spec_value(l[i].1) is Err || (l[i].0 == LOCATION_K@ && (match spec_value(l[i].1) {
            Ok(v) => spec_decode_location(v) is Err,
            Err(_) => true,
        })),
    ensures
        first_bad(l, 0) == i,
{
}

/// The track a `<TRACK>` tag's attributes make: each field from the last
/// attribute naming it, numbers read as `u64` (0 when not one) and cut to
/// their field's width. Every attribute's value must decode, and the
/// `Location` must be a file URL.
pub fn track_from(a: &Attrs) -> (r: Result<Track, LibraryError>)
    ensures
        match r {
            Ok(t) => track_error(a@) is None && t.fields() == fields_fold(a@.0, a@.0.len() as int)
                && t.tempos@.len() == 0 && t.cues@.len() == 0,
            Err(e) => track_error(a@) == Some(e),
        },
{
    let ghost l = a@.0;
    let mut t = Track { id: 0, name: String::new(), artist: String::new(), composer: String::new(), album: String::new(), grouping: String::new(), genre: String::new(), kind: String::new(), size: 0, total_time: 0, disc_number: 0, track_number: 0, year: 0, average_bpm: String::new(), date_added: String::new(), bit_rate: 0, sample_rate: 0, comments: String::new(), play_count: 0, rating: 0, location: String::new(), remixer: String::new(), tonality: String::new(), label: String::new(), mix: String::new(), colour: None, tempos: Vec::new(), cues: Vec::new() };
    assert(t.fields() == blank_fields());
    assert(first_bad(l, 0) == first_bad(l, 0));
    let mut i: usize = 0;
    while i < a.list.len()
        invariant
            i <= a.list@.len(),
            l == crate::xml::pair_views(a.list@),
            first_bad(l, 0) == first_bad(l, i as int),
            t.fields() == fields_fold(l, i as int),
            t.tempos@.len() == 0,
            t.cues@.len() == 0,
        decreases a.list@.len() - i,
    {
        let k = a.list[i].0.as_slice();
        assert(l[i as int].0 == k@);
        assert(l[i as int].1 == a.list@[i as int].1@);
        let v = match value(a.list[i].1.as_slice()) {
            Ok(v) => v,
            Err(x) => {
                proof { lemma_first_bad_here(l, i as int); }
                return Err(LibraryError::Xml(x));
            },
        };
        if crate::xml::bytes_eq(k, &TRACK_ID_K) {
            t.id = num_of(v.as_str());
        } else if crate::xml::bytes_eq(k, &NAME_K) {
            t.name = v;
        } else if crate::xml::bytes_eq(k, &ARTIST_K) {
            t.artist = v;
        } else if crate::xml::bytes_eq(k, &COMPOSER_K) {
            t.composer = v;
        } else if crate::xml::bytes_eq(k, &ALBUM_K) {
            t.album = v;
        } else if crate::xml::bytes_eq(k, &GROUPING_K) {
            t.grouping = v;
        } else if crate::xml::bytes_eq(k, &GENRE_K) {
            t.genre = v;
        } else if crate::xml::bytes_eq(k, &KIND_K) {
            t.kind = v;
        } else if crate::xml::bytes_eq(k, &SIZE_K) {
            t.size = num_of(v.as_str());
        } else if crate::xml::bytes_eq(k, &TOTAL_TIME_K) {
            t.total_time = num_of(v.as_str()) as u32;
        } else if crate::xml::bytes_eq(k, &DISC_NUMBER_K) {
            t.disc_number = num_of(v.as_str()) as u32;
        } else if crate::xml::bytes_eq(k, &TRACK_NUMBER_K) {
            t.track_number = num_of(v.as_str()) as u32;
        } else if crate::xml::bytes_eq(k, &YEAR_K) {
            t.year = num_of(v.as_str()) as u32;
        } else if crate::xml::bytes_eq(k, &AVERAGE_BPM_K) {
            t.average_bpm = v;
        } else if crate::xml::bytes_eq(k, &DATE_ADDED_K) {
            t.date_added = v;
        } else if crate::xml::bytes_eq(k, &BIT_RATE_K) {
            t.bit_rate = num_of(v.as_str()) as u32;
        } else if crate::xml::bytes_eq(k, &SAMPLE_RATE_K) {
            t.sample_rate = num_of(v.as_str()) as u32;
        } else if crate::xml::bytes_eq(k, &COMMENTS_K) {
            t.comments = v;
        } else if crate::xml::bytes_eq(k, &PLAY_COUNT_K) {
            t.play_count = num_of(v.as_str()) as u32;
        } else if crate::xml::bytes_eq(k, &RATING_K) {
            t.rating = num_of(v.as_str()) as u32;
        } else if crate::xml::bytes_eq(k, &LOCATION_K) {
            match decode_location(v.as_str()) {
                Ok(p) => t.location = p,
                Err(e) => {
                    proof { lemma_first_bad_here(l, i as int); }
                    return Err(LibraryError::Location(e));
                },
            }
        } else if crate::xml::bytes_eq(k, &REMIXER_K) {
            t.remixer = v;
        } else if crate::xml::bytes_eq(k, &TONALITY_K) {
            t.tonality = v;
        } else if crate::xml::bytes_eq(k, &LABEL_K) {
            t.label = v;
        } else if crate::xml::bytes_eq(k, &MIX_K) {
            t.mix = v;
        } else if crate::xml::bytes_eq(k, &COLOUR_K) {
            t.colour = colour_of(v.as_str());
        }
        i = i + 1;
    }
    if !a.complete {
        return Err(LibraryError::Xml(XmlError::Attribute));
    }
    Ok(t)
}

// --------------------------------------------------------------- numbers ---

/// `str::parse::<i32>`: an optional sign, then at least one digit, the
/// value in range.
pub open spec fn spec_parse_i32(s: Seq<char>) -> Option<i32> {
    if s.len() > 0 && s[0] == '-' {
        let d = s.drop_first();
        if d.len() > 0 && crate::cdjsafe::transcode::all_digits(d)
            && crate::cdjsafe::transcode::digits_value(d) <= 0x8000_0000 {
            Some((-crate::cdjsafe::transcode::digits_value(d)) as i32)
        } else {
            None
        }
    } else {
        match spec_parse_max(s, i32::MAX as int) {
            Some(v) => Some(v as i32),
            None => None,
        }
    }
}

/// `str::parse::<i32>`.
pub fn parse_i32(s: &str) -> (r: Option<i32>)
    ensures
        r == spec_parse_i32(s@),
{
    let cs = crate::text::chars_of(s);
    if cs.len() > 0 && cs[0] == '-' {
        let mut rest: Vec<char> = Vec::new();
        let mut i: usize = 1;
        while i < cs.len()
            invariant
                1 <= i <= cs@.len(),
                rest@ == cs@.subrange(1, i as int),
            decreases cs@.len() - i,
        {
            rest.push(cs[i]);
            i = i + 1;
            assert(rest@ =~= cs@.subrange(1, i as int));
        }
        assert(rest@ =~= s@.drop_first());
        if rest.len() > 0 && rest[0] == '+' {
            assert(!crate::cdjsafe::transcode::all_digits(rest@));
            return None;
        }
        let rs = crate::text::string_from_chars(rest.as_slice());
        match parse_u64(rs.as_str()) {
            Some(v) => {
                if v <= 0x8000_0000 {
                    Some((0 - (v as i64)) as i32)
                } else {
                    None
                }
            },
            None => None,
        }
    } else {
        match parse_u64(s) {
            Some(v) => if v <= 0x7FFF_FFFF { Some(v as i32) } else { None },
            None => None,
        }
    }
}

/// `str::parse::<u8>`.
pub fn parse_u8(s: &str) -> (r: Option<u8>)
    ensures
        match r {
            Some(v) => spec_parse_max(s@, 255) == Some(v as int),
            None => spec_parse_max(s@, 255) is None,
        },
{
    match parse_u64(s) {
        Some(v) => if v <= 255 { Some(v as u8) } else { None },
        None => None,
    }
}

/// The trimmed text.
fn trimmed(s: &str) -> (t: String)
    ensures
        t@ == crate::text::trim(s@),
{
    let cs = crate::text::chars_of(s);
    let t = crate::text::trim_chars(cs.as_slice(), 0, cs.len());
    assert(cs@.subrange(0, cs@.len() as int) =~= s@);
    crate::text::string_from_chars(t.as_slice())
}

// ----------------------------------------------------------------- model ---

/// `TEMPO`, `POSITION_MARK` and the attributes they use.
pub const TEMPO: [u8; 5] = [0x54, 0x45, 0x4d, 0x50, 0x4f];
/// `POSITION_MARK`.
pub const POSITION_MARK: [u8; 13] = [0x50, 0x4f, 0x53, 0x49, 0x54, 0x49, 0x4f, 0x4e, 0x5f, 0x4d, 0x41, 0x52, 0x4b];

/// A tempo as plain values.
pub struct TempoView {
    pub inizio: Option<Seq<char>>,
    pub bpm: Option<Seq<char>>,
    pub metro: Seq<char>,
    pub battito: Option<Seq<char>>,
}

/// An optional text as plain values.
pub open spec fn opt_text(o: Option<String>) -> Option<Seq<char>> {
    match o {
        Some(s) => Some(s@),
        None => None,
    }
}

impl View for Tempo {
    type V = TempoView;

    open spec fn view(&self) -> TempoView {
        TempoView { inizio: opt_text(self.inizio), bpm: opt_text(self.bpm), metro: self.metro@, battito: opt_text(self.battito) }
    }
}

/// A cue as plain values.
pub struct CueView {
    pub name: Seq<char>,
    pub kind: Option<Seq<char>>,
    pub start: Option<Seq<char>>,
    pub end: Option<Seq<char>>,
    pub num: i32,
    pub rgb: Option<(u8, u8, u8)>,
}

impl View for Cue {
    type V = CueView;

    open spec fn view(&self) -> CueView {
        CueView { name: self.name@, kind: opt_text(self.kind), start: opt_text(self.start), end: opt_text(self.end), num: self.num, rgb: self.rgb }
    }
}

/// A track as plain values.
pub struct TrackView {
    pub fields: TrackFields,
    pub tempos: Seq<TempoView>,
    pub cues: Seq<CueView>,
}

impl View for Track {
    type V = TrackView;

    open spec fn view(&self) -> TrackView {
        TrackView {
            fields: self.fields(),
            tempos: self.tempos@.map_values(|t: Tempo| t@),
            cues: self.cues@.map_values(|c: Cue| c@),
        }
    }
}

/// A playlist as plain values.
pub struct PlaylistView {
    pub name: Seq<char>,
    pub path: Seq<char>,
    pub is_folder: bool,
    pub key_type: Seq<char>,
    pub parent: Option<usize>,
    pub track_ids: Seq<u64>,
}

impl View for Playlist {
    type V = PlaylistView;

    open spec fn view(&self) -> PlaylistView {
        PlaylistView {
            name: self.name@,
            path: self.path@,
            is_folder: self.is_folder,
            key_type: self.key_type@,
            parent: self.parent,
            track_ids: self.track_ids@,
        }
    }
}

/// The views of tracks.
pub open spec fn track_views(v: Seq<Track>) -> Seq<TrackView> {
    v.map_values(|t: Track| t@)
}

/// The views of playlists.
pub open spec fn playlist_views(v: Seq<Playlist>) -> Seq<PlaylistView> {
    v.map_values(|p: Playlist| p@)
}

/// What the reading has built so far.
pub struct ParseView {
    pub in_collection: bool,
    pub in_playlists: bool,
    /// The track whose `<TRACK>` is open.
    pub current: Option<TrackView>,
    /// For each open playlist NODE below ROOT, its index; None for ROOT.
    pub stack: Seq<Option<usize>>,
    pub tracks: Seq<TrackView>,
    pub playlists: Seq<PlaylistView>,
}

/// Before the first event.
pub open spec fn parse_start() -> ParseView {
    ParseView { in_collection: false, in_playlists: false, current: None, stack: seq![], tracks: seq![], playlists: seq![] }
}

/// The track a `<TRACK>` tag makes.
pub open spec fn spec_track(a: (Seq<(Seq<u8>, Seq<u8>)>, bool)) -> Result<TrackView, LibraryError> {
    match track_error(a) {
        Some(e) => Err(e),
        None => Ok(TrackView { fields: fields_fold(a.0, a.0.len() as int), tempos: seq![], cues: seq![] }),
    }
}

/// An attribute's value, as an error of the reading.
pub open spec fn lib_attr(a: (Seq<(Seq<u8>, Seq<u8>)>, bool), key: Seq<u8>) -> Result<Option<Seq<char>>, LibraryError> {
    match spec_get_attr(a, key) {
        Err(x) => Err(LibraryError::Xml(x)),
        Ok(v) => Ok(v),
    }
}

/// `Inizio`, `Bpm`, `Metro`, `Battito`.
pub const INIZIO: [u8; 6] = [0x49, 0x6e, 0x69, 0x7a, 0x69, 0x6f];
/// `Bpm`.
pub const BPM: [u8; 3] = [0x42, 0x70, 0x6d];
/// `Metro`.
pub const METRO: [u8; 5] = [0x4d, 0x65, 0x74, 0x72, 0x6f];
/// `Battito`.
pub const BATTITO: [u8; 7] = [0x42, 0x61, 0x74, 0x74, 0x69, 0x74, 0x6f];

/// The tempo a `TEMPO` tag makes.
pub open spec fn spec_tempo(a: (Seq<(Seq<u8>, Seq<u8>)>, bool)) -> Result<TempoView, LibraryError> {
    match (lib_attr(a, INIZIO@), lib_attr(a, BPM@), lib_attr(a, METRO@), lib_attr(a, BATTITO@)) {
        (Err(e), _, _, _) => Err(e),
        (Ok(_), Err(e), _, _) => Err(e),
        (Ok(_), Ok(_), Err(e), _) => Err(e),
        (Ok(_), Ok(_), Ok(_), Err(e)) => Err(e),
        (Ok(i), Ok(b), Ok(m), Ok(t)) => Ok(TempoView {
            inizio: i,
            bpm: b,
            metro: match m { Some(x) => x, None => seq![] },
            battito: t,
        }),
    }
}

/// `Red`, `Green`, `Blue`, `Type`, `Start`, `End`, `Num`.
pub const RED: [u8; 3] = [0x52, 0x65, 0x64];
/// `Green`.
pub const GREEN: [u8; 5] = [0x47, 0x72, 0x65, 0x65, 0x6e];
/// `Blue`.
pub const BLUE: [u8; 4] = [0x42, 0x6c, 0x75, 0x65];
/// `Type`.
pub const TYPE: [u8; 4] = [0x54, 0x79, 0x70, 0x65];
/// `Start`.
pub const START: [u8; 5] = [0x53, 0x74, 0x61, 0x72, 0x74];
/// `End`.
pub const END: [u8; 3] = [0x45, 0x6e, 0x64];
/// `Num`.
pub const NUM: [u8; 3] = [0x4e, 0x75, 0x6d];
/// `KeyType`.
pub const KEY_TYPE: [u8; 7] = [0x4b, 0x65, 0x79, 0x54, 0x79, 0x70, 0x65];

/// A colour channel: the text as a `u8`.
pub open spec fn channel(s: Seq<char>) -> Option<u8> {
    match spec_parse_max(s, 255) {
        Some(v) => Some(v as u8),
        None => None,
    }
}

/// The colour of a cue: all three channels, or none.
pub open spec fn spec_rgb(a: (Seq<(Seq<u8>, Seq<u8>)>, bool)) -> Result<Option<(u8, u8, u8)>, LibraryError> {
    match (lib_attr(a, RED@), lib_attr(a, GREEN@), lib_attr(a, BLUE@)) {
        (Err(e), _, _) => Err(e),
        (Ok(_), Err(e), _) => Err(e),
        (Ok(_), Ok(_), Err(e)) => Err(e),
        (Ok(Some(r)), Ok(Some(g)), Ok(Some(b))) => match (channel(r), channel(g), channel(b)) {
            (Some(x), Some(y), Some(z)) => Ok(Some((x, y, z))),
            _ => Err(LibraryError::Number),
        },
        _ => Ok(None),
    }
}

/// The cue a `POSITION_MARK` tag makes.
pub open spec fn spec_cue(a: (Seq<(Seq<u8>, Seq<u8>)>, bool)) -> Result<CueView, LibraryError> {
    match spec_rgb(a) {
        Err(e) => Err(e),
        Ok(rgb) => match (lib_attr(a, NAME_K@), lib_attr(a, TYPE@), lib_attr(a, START@), lib_attr(a, END@), lib_attr(a, NUM@)) {
            (Err(e), _, _, _, _) => Err(e),
            (Ok(_), Err(e), _, _, _) => Err(e),
            (Ok(_), Ok(_), Err(e), _, _) => Err(e),
            (Ok(_), Ok(_), Ok(_), Err(e), _) => Err(e),
            (Ok(_), Ok(_), Ok(_), Ok(_), Err(e)) => Err(e),
            (Ok(n), Ok(k), Ok(s), Ok(e), Ok(num)) => {
                let nv: Option<i32> = match num {
                    Some(t) => spec_parse_i32(crate::text::trim(t)),
                    None => Some(-1i32),
                };
                match nv {
                    None => Err(LibraryError::Number),
                    Some(x) => Ok(CueView {
                        name: match n { Some(v) => v, None => seq![] },
                        kind: k,
                        start: s,
                        end: e,
                        num: x,
                        rgb,
                    }),
                }
            },
        },
    }
}

/// A NODE below the stack `stack` joins the tree: ROOT (a folder with no
/// enclosing NODE) is left out; any other gets the next index, its
/// parent's path followed by `/` and its name, and its parent.
pub open spec fn spec_push_node(pls: Seq<PlaylistView>, stack: Seq<Option<usize>>, a: (Seq<(Seq<u8>, Seq<u8>)>, bool))
    -> Result<(Seq<PlaylistView>, Option<usize>), LibraryError> {
    match (lib_attr(a, NAME_K@), lib_attr(a, TYPE@)) {
        (Err(e), _) => Err(e),
        (Ok(_), Err(e)) => Err(e),
        (Ok(n), Ok(t)) => {
            let name = match n { Some(v) => v, None => seq![] };
            let ty = match t { Some(v) => v, None => seq![] };
            if stack.len() == 0 && ty == "0"@ {
                Ok((pls, None))
            } else {
                let parent = if stack.len() > 0 { stack.last() } else { None };
                match lib_attr(a, KEY_TYPE@) {
                    Err(e) => Err(e),
                    Ok(kt) => {
                        let path = match parent {
                            Some(p) => pls[p as int].path + "/"@ + name,
                            None => name,
                        };
                        Ok((pls.push(PlaylistView {
                            name,
                            path,
                            is_folder: ty == "0"@,
                            key_type: match kt { Some(v) => v, None => seq![] },
                            parent,
                            track_ids: seq![],
                        }), Some(pls.len() as usize)))
                    },
                }
            }
        },
    }
}

/// A playlist ref: the TrackID joins the innermost open playlist.
pub open spec fn spec_ref(st: ParseView, a: (Seq<(Seq<u8>, Seq<u8>)>, bool)) -> Result<ParseView, LibraryError> {
    match lib_attr(a, KEY@) {
        Err(e) => Err(e),
        Ok(key) => if st.stack.len() > 0 && st.stack.last() is Some && key is Some {
            let idx = st.stack.last().unwrap();
            match spec_parse_max(crate::text::trim(key.unwrap()), u64::MAX as int) {
                None => Err(LibraryError::Number),
                Some(v) => {
                    let p = st.playlists[idx as int];
                    Ok(ParseView {
                        playlists: st.playlists.update(idx as int, PlaylistView { track_ids: p.track_ids.push(v as u64), ..p }),
                        ..st
                    })
                },
            }
        } else {
            Ok(st)
        },
    }
}

/// One event of the reading.
pub open spec fn parse_step(data: Seq<u8>, st: ParseView, e: EventView) -> Result<ParseView, LibraryError> {
    let (kind, name, _s, _t) = e;
    let a = spec_attrs(data, e);
    if kind == XmlKind::Start {
        if name == COLLECTION@ {
            Ok(ParseView { in_collection: true, ..st })
        } else if name == PLAYLISTS@ {
            Ok(ParseView { in_playlists: true, ..st })
        } else if name == TRACK@ && st.in_collection {
            match spec_track(a) {
                Err(x) => Err(x),
                Ok(t) => Ok(ParseView { current: Some(t), ..st }),
            }
        } else if name == NODE@ && st.in_playlists {
            match spec_push_node(st.playlists, st.stack, a) {
                Err(x) => Err(x),
                Ok((pls, idx)) => Ok(ParseView { playlists: pls, stack: st.stack.push(idx), ..st }),
            }
        } else {
            Ok(st)
        }
    } else if kind == XmlKind::Empty {
        if name == TRACK@ && st.in_collection {
            match spec_track(a) {
                Err(x) => Err(x),
                Ok(t) => Ok(ParseView { tracks: st.tracks.push(t), ..st }),
            }
        } else if name == TRACK@ && st.in_playlists {
            spec_ref(st, a)
        } else if name == TEMPO@ {
            match st.current {
                None => Ok(st),
                Some(cur) => match spec_tempo(a) {
                    Err(x) => Err(x),
                    Ok(tp) => Ok(ParseView { current: Some(TrackView { tempos: cur.tempos.push(tp), ..cur }), ..st }),
                },
            }
        } else if name == POSITION_MARK@ {
            match st.current {
                None => Ok(st),
                Some(cur) => match spec_cue(a) {
                    Err(x) => Err(x),
                    Ok(c) => Ok(ParseView { current: Some(TrackView { cues: cur.cues.push(c), ..cur }), ..st }),
                },
            }
        } else if name == NODE@ && st.in_playlists {
            match spec_push_node(st.playlists, st.stack, a) {
                Err(x) => Err(x),
                Ok((pls, idx)) => Ok(ParseView { playlists: pls, ..st }),
            }
        } else {
            Ok(st)
        }
    } else if kind == XmlKind::End {
        if name == COLLECTION@ {
            Ok(ParseView { in_collection: false, ..st })
        } else if name == PLAYLISTS@ {
            Ok(ParseView { in_playlists: false, ..st })
        } else if name == TRACK@ && st.in_collection {
            match st.current {
                Some(t) => Ok(ParseView { tracks: st.tracks.push(t), current: None, ..st }),
                None => Ok(st),
            }
        } else if name == NODE@ && st.in_playlists {
            Ok(ParseView { stack: if st.stack.len() > 0 { st.stack.drop_last() } else { st.stack }, ..st })
        } else {
            Ok(st)
        }
    } else {
        Ok(st)
    }
}

/// The reading after the first `n` events.
pub open spec fn parse_fold(data: Seq<u8>, evs: Seq<EventView>, n: int) -> Result<ParseView, LibraryError>
    decreases n,
{
    if n <= 0 || n > evs.len() {
        Ok(parse_start())
    } else {
        match parse_fold(data, evs, n - 1) {
            Err(x) => Err(x),
            Ok(st) => parse_step(data, st, evs[n - 1]),
        }
    }
}

/// The collection a document holds.
pub open spec fn spec_library(data: Seq<u8>) -> Result<(Seq<TrackView>, Seq<PlaylistView>), LibraryError> {
    match xml_events_of(data) {
        None => Err(LibraryError::Xml(XmlError::Syntax)),
        Some(evs) => match parse_fold(data, evs, evs.len() as int) {
            Err(x) => Err(x),
            Ok(st) => Ok((st.tracks, st.playlists)),
        },
    }
}

proof fn lemma_parse_err(data: Seq<u8>, evs: Seq<EventView>, k: int, n: int)
    requires
        0 <= k <= n <= evs.len(),
        parse_fold(data, evs, k) is Err,
    ensures
        parse_fold(data, evs, n) == parse_fold(data, evs, k),
    decreases n - k,
{
    if n > k {
        lemma_parse_err(data, evs, k, n - 1);
    }
}

/// An attribute's value, as an error of the reading.
fn lib_get(a: &Attrs, key: &[u8]) -> (r: Result<Option<String>, LibraryError>)
    ensures
        match r {
            Ok(v) => lib_attr(a@, key@) == Ok::<Option<Seq<char>>, LibraryError>(opt_text(v)),
            Err(e) => lib_attr(a@, key@) == Err::<Option<Seq<char>>, LibraryError>(e),
        },
{
    match get_attr(a, key) {
        Ok(v) => Ok(v),
        Err(x) => Err(LibraryError::Xml(x)),
    }
}

/// The tempo a `TEMPO` tag makes.
fn tempo_from(a: &Attrs) -> (r: Result<Tempo, LibraryError>)
    ensures
        match r {
            Ok(t) => spec_tempo(a@) == Ok::<TempoView, LibraryError>(t@),
            Err(e) => spec_tempo(a@) == Err::<TempoView, LibraryError>(e),
        },
{
    let inizio = lib_get(a, &INIZIO)?;
    let bpm = lib_get(a, &BPM)?;
    let metro = lib_get(a, &METRO)?;
    let battito = lib_get(a, &BATTITO)?;
    let metro = match metro {
        Some(m) => m,
        None => String::new(),
    };
    Ok(Tempo { inizio, bpm, metro, battito })
}

/// The colour of a cue.
fn rgb_from(a: &Attrs) -> (r: Result<Option<(u8, u8, u8)>, LibraryError>)
    ensures
        match r {
            Ok(c) => spec_rgb(a@) == Ok::<Option<(u8, u8, u8)>, LibraryError>(c),
            Err(e) => spec_rgb(a@) == Err::<Option<(u8, u8, u8)>, LibraryError>(e),
        },
{
    let r = lib_get(a, &RED)?;
    let g = lib_get(a, &GREEN)?;
    let b = lib_get(a, &BLUE)?;
    match (r, g, b) {
        (Some(r), Some(g), Some(b)) => match (parse_u8(r.as_str()), parse_u8(g.as_str()), parse_u8(b.as_str())) {
            (Some(x), Some(y), Some(z)) => Ok(Some((x, y, z))),
            _ => Err(LibraryError::Number),
        },
        _ => Ok(None),
    }
}

/// The cue a `POSITION_MARK` tag makes.
fn cue_from(a: &Attrs) -> (r: Result<Cue, LibraryError>)
    ensures
        match r {
            Ok(c) => spec_cue(a@) == Ok::<CueView, LibraryError>(c@),
            Err(e) => spec_cue(a@) == Err::<CueView, LibraryError>(e),
        },
{
    let rgb = rgb_from(a)?;
    let name = lib_get(a, &NAME_K)?;
    let kind = lib_get(a, &TYPE)?;
    let start = lib_get(a, &START)?;
    let end = lib_get(a, &END)?;
    let num = lib_get(a, &NUM)?;
    let num: i32 = match num {
        Some(t) => match parse_i32(trimmed(t.as_str()).as_str()) {
            Some(x) => x,
            None => return Err(LibraryError::Number),
        },
        None => -1,
    };
    let name = match name {
        Some(n) => n,
        None => String::new(),
    };
    Ok(Cue { name, kind, start, end, num, rgb })
}

/// `a`, then `/`, then `b`.
fn join_path(a: &str, b: &str) -> (s: String)
    ensures
        s@ == a@ + "/"@ + b@,
{
    let x = crate::text::chars_of(a);
    let y = crate::text::chars_of(b);
    let slash = crate::text::chars_of("/");
    let mut out: Vec<char> = Vec::new();
    let mut i: usize = 0;
    while i < x.len()
        invariant
            i <= x@.len(),
            out@ == x@.take(i as int),
        decreases x@.len() - i,
    {
        out.push(x[i]);
        i = i + 1;
        assert(out@ =~= x@.take(i as int));
    }
    assert(x@.take(i as int) =~= x@);
    let mut j: usize = 0;
    while j < slash.len()
        invariant
            j <= slash@.len(),
            out@ == x@ + slash@.take(j as int),
        decreases slash@.len() - j,
    {
        out.push(slash[j]);
        j = j + 1;
        assert(out@ =~= x@ + slash@.take(j as int));
    }
    assert(slash@.take(j as int) =~= slash@);
    let mut k: usize = 0;
    while k < y.len()
        invariant
            k <= y@.len(),
            out@ == x@ + slash@ + y@.take(k as int),
        decreases y@.len() - k,
    {
        out.push(y[k]);
        k = k + 1;
        assert(out@ =~= x@ + slash@ + y@.take(k as int));
    }
    assert(y@.take(k as int) =~= y@);
    crate::text::string_from_chars(out.as_slice())
}

/// Every index on the stack names a playlist.
pub open spec fn stack_ok(stack: Seq<Option<usize>>, n: int) -> bool {
    forall|i: int| 0 <= i < stack.len() ==> (#[trigger] stack[i] matches Some(p) ==> p < n)
}

/// A NODE joins the tree; its index, None for ROOT.
fn push_node(pls: &mut Vec<Playlist>, stack: &Vec<Option<usize>>, a: &Attrs) -> (r: Result<Option<usize>, LibraryError>)
    requires
        stack_ok(stack@, old(pls)@.len() as int),
    ensures
        match r {
            Ok(idx) => spec_push_node(playlist_views(old(pls)@), stack@, a@)
                == Ok::<(Seq<PlaylistView>, Option<usize>), LibraryError>((playlist_views(final(pls)@), idx))
                && (idx matches Some(i) ==> i < final(pls)@.len()) && final(pls)@.len() >= old(pls)@.len(),
            Err(e) => spec_push_node(playlist_views(old(pls)@), stack@, a@)
                == Err::<(Seq<PlaylistView>, Option<usize>), LibraryError>(e) && final(pls)@ == old(pls)@,
        },
{
    let name = lib_get(a, &NAME_K)?;
    let ty = lib_get(a, &TYPE)?;
    let name = match name {
        Some(n) => n,
        None => String::new(),
    };
    let ty = match ty {
        Some(t) => t,
        None => String::new(),
    };
    let is_folder = crate::text::str_eq(ty.as_str(), "0");
    if stack.len() == 0 && is_folder {
        return Ok(None);
    }
    let parent: Option<usize> = if stack.len() > 0 { stack[stack.len() - 1] } else { None };
    let kt = lib_get(a, &KEY_TYPE)?;
    let key_type = match kt {
        Some(k) => k,
        None => String::new(),
    };
    let path = match parent {
        Some(p) => {
            assert(stack@[stack@.len() - 1] matches Some(q) ==> q < pls@.len());
            join_path(pls[p].path.as_str(), name.as_str())
        },
        None => name.clone(),
    };
    let ids: Vec<u64> = Vec::new();
    let ghost before = pls@;
    pls.push(Playlist { name, path, is_folder, key_type, parent, track_ids: ids });
    assert(playlist_views(pls@) =~= playlist_views(before).push(pls@.last()@));
    Ok(Some(pls.len() - 1))
}

struct ParseState {
    in_collection: bool,
    in_playlists: bool,
    current: Option<Track>,
    stack: Vec<Option<usize>>,
    tracks: Vec<Track>,
    playlists: Vec<Playlist>,
}

impl ParseState {
    closed spec fn model(&self) -> ParseView {
        ParseView {
            in_collection: self.in_collection,
            in_playlists: self.in_playlists,
            current: match self.current {
                Some(t) => Some(t@),
                None => None,
            },
            stack: self.stack@,
            tracks: track_views(self.tracks@),
            playlists: playlist_views(self.playlists@),
        }
    }

    closed spec fn wf(&self) -> bool {
        stack_ok(self.stack@, self.playlists@.len() as int)
    }

    fn add_ref(&mut self, a: &Attrs) -> (r: Result<(), LibraryError>)
        requires
            old(self).wf(),
        ensures
            final(self).wf(),
            match r {
                Ok(()) => spec_ref(old(self).model(), a@) == Ok::<ParseView, LibraryError>(final(self).model()),
                Err(e) => spec_ref(old(self).model(), a@) == Err::<ParseView, LibraryError>(e),
            },
    {
        let key = lib_get(a, &KEY)?;
        if self.stack.len() > 0 {
            match (self.stack[self.stack.len() - 1], key) {
                (Some(idx), Some(k)) => {
                    assert(self.stack@[self.stack@.len() - 1] matches Some(q) ==> q < self.playlists@.len());
                    let v = match parse_u64(trimmed(k.as_str()).as_str()) {
                        Some(v) => v,
                        None => return Err(LibraryError::Number),
                    };
                    let ghost before = self.playlists@;
                    let mut p = self.playlists.remove(idx);
                    let ghost pv = p@;
                    p.track_ids.push(v);
                    self.playlists.insert(idx, p);
                    assert(playlist_views(self.playlists@) =~= playlist_views(before).update(idx as int,
                        PlaylistView { track_ids: pv.track_ids.push(v), ..pv }));
                },
                _ => {},
            }
        }
        Ok(())
    }

    fn on_start(&mut self, data: &[u8], e: &XmlEvent) -> (r: Result<(), LibraryError>)
        requires
            old(self).wf(),
            e.kind == XmlKind::Start,
        ensures
            final(self).wf(),
            match r {
                Ok(()) => parse_step(data@, old(self).model(), e@) == Ok::<ParseView, LibraryError>(final(self).model()),
                Err(x) => parse_step(data@, old(self).model(), e@) == Err::<ParseView, LibraryError>(x),
            },
    {
        if name_is(e, &COLLECTION) {
            self.in_collection = true;
        } else if name_is(e, &PLAYLISTS) {
            self.in_playlists = true;
        } else if name_is(e, &TRACK) && self.in_collection {
            let a = attrs(data, e);
            let t = track_from(&a)?;
            assert(t@.tempos =~= seq![]);
            assert(t@.cues =~= seq![]);
            self.current = Some(t);
        } else if name_is(e, &NODE) && self.in_playlists {
            let a = attrs(data, e);
            let ghost n0 = self.playlists@.len();
            let idx = push_node(&mut self.playlists, &self.stack, &a)?;
            let ghost s0 = self.stack@;
            self.stack.push(idx);
            assert forall|i: int| 0 <= i < self.stack@.len() implies (#[trigger] self.stack@[i] matches Some(p) ==> p < self.playlists@.len()) by {
                if i < s0.len() {
                    assert(self.stack@[i] == s0[i]);
                }
            }
        }
        Ok(())
    }

    fn on_empty(&mut self, data: &[u8], e: &XmlEvent) -> (r: Result<(), LibraryError>)
        requires
            old(self).wf(),
            e.kind == XmlKind::Empty,
        ensures
            final(self).wf(),
            match r {
                Ok(()) => parse_step(data@, old(self).model(), e@) == Ok::<ParseView, LibraryError>(final(self).model()),
                Err(x) => parse_step(data@, old(self).model(), e@) == Err::<ParseView, LibraryError>(x),
            },
    {
        if name_is(e, &TRACK) && self.in_collection {
            let a = attrs(data, e);
            let t = track_from(&a)?;
            assert(t@.tempos =~= seq![]);
            assert(t@.cues =~= seq![]);
            let ghost before = self.tracks@;
            let ghost tv = t@;
            self.tracks.push(t);
            assert(track_views(self.tracks@) =~= track_views(before).push(tv));
        } else if name_is(e, &TRACK) && self.in_playlists {
            let a = attrs(data, e);
            return self.add_ref(&a);
        } else if name_is(e, &TEMPO) {
            if self.current.is_some() {
                let a = attrs(data, e);
                let tp = tempo_from(&a)?;
                let mut cur = self.current.take().unwrap();
                let ghost cv = cur@;
                let ghost tv = tp@;
                cur.tempos.push(tp);
                assert(cur@.tempos =~= cv.tempos.push(tv));
                self.current = Some(cur);
            }
        } else if name_is(e, &POSITION_MARK) {
            if self.current.is_some() {
                let a = attrs(data, e);
                let c = cue_from(&a)?;
                let mut cur = self.current.take().unwrap();
                let ghost cv = cur@;
                let ghost tv = c@;
                cur.cues.push(c);
                assert(cur@.cues =~= cv.cues.push(tv));
                self.current = Some(cur);
            }
        } else if name_is(e, &NODE) && self.in_playlists {
            let a = attrs(data, e);
            let _idx = push_node(&mut self.playlists, &self.stack, &a)?;
        }
        Ok(())
    }

    fn on_end(&mut self, data: &[u8], e: &XmlEvent)
        requires
            old(self).wf(),
            e.kind == XmlKind::End,
        ensures
            final(self).wf(),
            parse_step(data@, old(self).model(), e@) == Ok::<ParseView, LibraryError>(final(self).model()),
    {
        if name_is(e, &COLLECTION) {
            self.in_collection = false;
        } else if name_is(e, &PLAYLISTS) {
            self.in_playlists = false;
        } else if name_is(e, &TRACK) && self.in_collection {
            if self.current.is_some() {
                let t = self.current.take().unwrap();
                let ghost before = self.tracks@;
                let ghost tv = t@;
                self.tracks.push(t);
                assert(track_views(self.tracks@) =~= track_views(before).push(tv));
            }
        } else if name_is(e, &NODE) && self.in_playlists {
            if self.stack.len() > 0 {
                let ghost s0 = self.stack@;
                self.stack.pop();
                assert forall|i: int| 0 <= i < self.stack@.len() implies (#[trigger] self.stack@[i] matches Some(p) ==> p < self.playlists@.len()) by {
                    assert(self.stack@[i] == s0[i]);
                }
            }
        }
    }

    fn step(&mut self, data: &[u8], e: &XmlEvent) -> (r: Result<(), LibraryError>)
        requires
            old(self).wf(),
        ensures
            final(self).wf(),
            match r {
                Ok(()) => parse_step(data@, old(self).model(), e@) == Ok::<ParseView, LibraryError>(final(self).model()),
                Err(x) => parse_step(data@, old(self).model(), e@) == Err::<ParseView, LibraryError>(x),
            },
    {
        match e.kind {
            XmlKind::Start => self.on_start(data, e),
            XmlKind::Empty => self.on_empty(data, e),
            XmlKind::End => {
                self.on_end(data, e);
                Ok(())
            },
            XmlKind::Other => Ok(()),
        }
    }
}

impl Library {
    /// Read the collection from a document's events, as [`parse_fold`] says.
    pub fn from_events(data: &[u8], evs: &[XmlEvent]) -> (r: Result<Library, LibraryError>)
        ensures
            match r {
                Ok(lib) => parse_fold(data@, event_views(evs@), evs@.len() as int) matches Ok(st)
                    && st.tracks == track_views(lib.tracks@) && st.playlists == playlist_views(lib.playlists@),
                Err(x) => parse_fold(data@, event_views(evs@), evs@.len() as int) == Err::<ParseView, LibraryError>(x),
            },
    {
        let ghost ev = event_views(evs@);
        let mut st = ParseState { in_collection: false, in_playlists: false, current: None, stack: Vec::new(), tracks: Vec::new(), playlists: Vec::new() };
        assert(st.model() =~= parse_start()) by {
            assert(track_views(st.tracks@) =~= seq![]);
            assert(playlist_views(st.playlists@) =~= seq![]);
            assert(st.stack@ =~= seq![]);
        }
        let mut i: usize = 0;
        while i < evs.len()
            invariant
                i <= evs@.len(),
                ev == event_views(evs@),
                st.wf(),
                parse_fold(data@, ev, i as int) == Ok::<ParseView, LibraryError>(st.model()),
            decreases evs@.len() - i,
        {
            assert(ev[i as int] == evs@[i as int]@);
            match st.step(data, &evs[i]) {
                Ok(()) => {},
                Err(x) => {
                    proof { lemma_parse_err(data@, ev, i + 1, ev.len() as int); }
                    return Err(x);
                },
            }
            i = i + 1;
        }
        Ok(Library { tracks: st.tracks, playlists: st.playlists })
    }

    /// Read the collection a document holds.
    pub fn parse(data: &[u8]) -> (r: Result<Library, LibraryError>)
        ensures
            match r {
                Ok(lib) => spec_library(data@) == Ok::<(Seq<TrackView>, Seq<PlaylistView>), LibraryError>((track_views(lib.tracks@), playlist_views(lib.playlists@))),
                Err(x) => spec_library(data@) == Err::<(Seq<TrackView>, Seq<PlaylistView>), LibraryError>(x),
            },
    {
        match events(data) {
            Err(x) => Err(LibraryError::Xml(x)),
            Ok(evs) => Library::from_events(data, evs.as_slice()),
        }
    }
}

/// What follows the last `/` of `s`; all of `s` when it has none.
pub open spec fn after_last_slash(s: Seq<char>) -> Seq<char>
    decreases s.len(),
{
    if s.len() == 0 {
        s
    } else if s.last() == '/' {
        seq![]
    } else {
        after_last_slash(s.drop_last()).push(s.last())
    }
}

/// What follows the last `/` of `s`.
pub fn tail_after_slash(s: &str) -> (out: String)
    ensures
        out@ == after_last_slash(s@),
{
    let cs = crate::text::chars_of(s);
    let mut start = cs.len();
    proof {
        assert(cs@.take(start as int) =~= cs@);
        assert(cs@.subrange(start as int, cs@.len() as int) =~= Seq::<char>::empty());
        assert(after_last_slash(cs@) + Seq::<char>::empty() =~= after_last_slash(cs@));
    }
    while start > 0 && cs[start - 1] != '/'
        invariant
            start <= cs@.len(),
            cs@ == s@,
            after_last_slash(s@) == after_last_slash(cs@.take(start as int)) + cs@.subrange(start as int, cs@.len() as int),
        decreases start,
    {
        proof {
            let t = cs@.take(start as int);
            assert(t.drop_last() =~= cs@.take(start - 1));
            assert(t.last() == cs@[start - 1]);
            assert(after_last_slash(cs@.take(start - 1)).push(cs@[start - 1]) + cs@.subrange(start as int, cs@.len() as int)
                =~= after_last_slash(cs@.take(start - 1)) + cs@.subrange(start - 1, cs@.len() as int));
        }
        start = start - 1;
    }
    proof {
        if start > 0 {
            assert(cs@.take(start as int).last() == cs@[start - 1]);
        }
        assert(after_last_slash(cs@.take(start as int)) =~= Seq::<char>::empty());
        assert(Seq::<char>::empty() + cs@.subrange(start as int, cs@.len() as int) =~= cs@.subrange(start as int, cs@.len() as int));
    }
    let mut out: Vec<char> = Vec::new();
    let mut i = start;
    while i < cs.len()
        invariant
            start <= i <= cs@.len(),
            out@ == cs@.subrange(start as int, i as int),
        decreases cs@.len() - i,
    {
        out.push(cs[i]);
        i = i + 1;
        assert(out@ =~= cs@.subrange(start as int, i as int));
    }
    crate::text::string_from_chars(out.as_slice())
}

/// A copy of an optional text.
fn copy_text(o: &Option<String>) -> (c: Option<String>)
    ensures
        opt_text(c) == opt_text(*o),
{
    match o {
        Some(s) => Some(s.clone()),
        None => None,
    }
}

impl Tempo {
    /// A copy of the grid point.
    pub fn copy(&self) -> (c: Tempo)
        ensures
            c@ == self@,
    {
        Tempo {
            inizio: copy_text(&self.inizio),
            bpm: copy_text(&self.bpm),
            metro: self.metro.clone(),
            battito: copy_text(&self.battito),
        }
    }
}

impl Cue {
    /// A copy of the cue.
    pub fn copy(&self) -> (c: Cue)
        ensures
            c@ == self@,
    {
        Cue {
            name: self.name.clone(),
            kind: copy_text(&self.kind),
            start: copy_text(&self.start),
            end: copy_text(&self.end),
            num: self.num,
            rgb: self.rgb,
        }
    }
}

impl Track {
    /// A copy of the track, grid and cues included.
    pub fn copy(&self) -> (c: Track)
        ensures
            c@ == self@,
    {
        let mut tempos: Vec<Tempo> = Vec::new();
        let mut i: usize = 0;
        while i < self.tempos.len()
            invariant
                i <= self.tempos@.len(),
                tempos@.map_values(|t: Tempo| t@) == self.tempos@.take(i as int).map_values(|t: Tempo| t@),
            decreases self.tempos@.len() - i,
        {
            let ghost before = tempos@;
            tempos.push(self.tempos[i].copy());
            assert(tempos@.map_values(|t: Tempo| t@) =~= before.map_values(|t: Tempo| t@).push(self.tempos@[i as int]@));
            assert(self.tempos@.take(i + 1).map_values(|t: Tempo| t@) =~= self.tempos@.take(i as int).map_values(|t: Tempo| t@).push(self.tempos@[i as int]@));
            i = i + 1;
        }
        assert(self.tempos@.take(i as int) =~= self.tempos@);
        let mut cues: Vec<Cue> = Vec::new();
        let mut j: usize = 0;
        while j < self.cues.len()
            invariant
                j <= self.cues@.len(),
                cues@.map_values(|c: Cue| c@) == self.cues@.take(j as int).map_values(|c: Cue| c@),
            decreases self.cues@.len() - j,
        {
            let ghost before = cues@;
            cues.push(self.cues[j].copy());
            assert(cues@.map_values(|c: Cue| c@) =~= before.map_values(|c: Cue| c@).push(self.cues@[j as int]@));
            assert(self.cues@.take(j + 1).map_values(|c: Cue| c@) =~= self.cues@.take(j as int).map_values(|c: Cue| c@).push(self.cues@[j as int]@));
            j = j + 1;
        }
        assert(self.cues@.take(j as int) =~= self.cues@);
        Track {
            id: self.id,
            name: self.name.clone(),
            artist: self.artist.clone(),
            composer: self.composer.clone(),
            album: self.album.clone(),
            grouping: self.grouping.clone(),
            genre: self.genre.clone(),
            kind: self.kind.clone(),
            size: self.size,
            total_time: self.total_time,
            disc_number: self.disc_number,
            track_number: self.track_number,
            year: self.year,
            average_bpm: self.average_bpm.clone(),
            date_added: self.date_added.clone(),
            bit_rate: self.bit_rate,
            sample_rate: self.sample_rate,
            comments: self.comments.clone(),
            play_count: self.play_count,
            rating: self.rating,
            location: self.location.clone(),
            remixer: self.remixer.clone(),
            tonality: self.tonality.clone(),
            label: self.label.clone(),
            mix: self.mix.clone(),
            colour: self.colour,
            tempos,
            cues,
        }
    }
}

impl Track {
    /// The file's name: its location after the last `/`.
    pub fn file_name(&self) -> (n: String)
        ensures
            n@ == after_last_slash(self.location@),
    {
        tail_after_slash(self.location.as_str())
    }

    /// The star rating, 0 to 5.
    pub fn stars(&self) -> (s: u8)
        ensures
            s == if self.rating / 51 < 5 { self.rating / 51 } else { 5 },
    {
        let s = self.rating / 51;
        if s < 5 { s as u8 } else { 5 }
    }
}

/// The first track from `i` on with id `id`, or -1.
pub open spec fn find_track(v: Seq<TrackView>, id: u64, i: int) -> int
    decreases v.len() - i,
{
    if i < 0 || i >= v.len() {
        -1
    } else if v[i].fields.id == id {
        i
    } else {
        find_track(v, id, i + 1)
    }
}

/// The first playlist (not folder) from `i` on with path `path`, or -1.
pub open spec fn find_playlist(v: Seq<PlaylistView>, path: Seq<char>, i: int) -> int
    decreases v.len() - i,
{
    if i < 0 || i >= v.len() {
        -1
    } else if v[i].path == path && !v[i].is_folder {
        i
    } else {
        find_playlist(v, path, i + 1)
    }
}

impl Library {
    /// The index of the first track with id `id`.
    pub fn track(&self, id: u64) -> (r: Option<usize>)
        ensures
            match r {
                Some(i) => find_track(track_views(self.tracks@), id, 0) == i as int && i < self.tracks@.len(),
                None => find_track(track_views(self.tracks@), id, 0) < 0,
            },
    {
        let ghost tv = track_views(self.tracks@);
        let mut i: usize = 0;
        while i < self.tracks.len()
            invariant
                i <= self.tracks@.len(),
                tv == track_views(self.tracks@),
                find_track(tv, id, 0) == find_track(tv, id, i as int),
            decreases self.tracks@.len() - i,
        {
            assert(tv[i as int].fields.id == self.tracks@[i as int].id);
            if self.tracks[i].id == id {
                return Some(i);
            }
            i = i + 1;
        }
        None
    }

    /// The index of the playlist with path `path` (`Folder/Name`).
    pub fn playlist(&self, path: &str) -> (r: Option<usize>)
        ensures
            match r {
                Some(i) => find_playlist(playlist_views(self.playlists@), path@, 0) == i as int && i < self.playlists@.len(),
                None => find_playlist(playlist_views(self.playlists@), path@, 0) < 0,
            },
    {
        let ghost pv = playlist_views(self.playlists@);
        let mut i: usize = 0;
        while i < self.playlists.len()
            invariant
                i <= self.playlists@.len(),
                pv == playlist_views(self.playlists@),
                find_playlist(pv, path@, 0) == find_playlist(pv, path@, i as int),
            decreases self.playlists@.len() - i,
        {
            assert(pv[i as int] == self.playlists@[i as int]@);
            if crate::text::str_eq(self.playlists[i].path.as_str(), path) && !self.playlists[i].is_folder {
                return Some(i);
            }
            i = i + 1;
        }
        None
    }
}

}
