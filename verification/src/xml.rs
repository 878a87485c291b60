//! The rekordbox XML as `quick_xml` tokenizes it: events with the bytes
//! they span, and the attribute lookups every pass over it shares.
use vstd::prelude::*;
use vstd::utf8::{decode_utf8, valid_utf8};
use quick_xml::events::Event;

verus! {

/// What an event is, as far as the passes care.
#[derive(Debug, Clone, Copy, PartialEq, Eq, Structural)]
pub enum XmlKind {
    /// `<NAME ...>`
    Start,
    /// `<NAME .../>`
    Empty,
    /// `</NAME>`
    End,
    /// Text, comments, declarations and the like.
    Other,
}

/// One event: its kind, its element name, and the reader's byte position
/// before and after it.
#[derive(Debug)]
pub struct XmlEvent {
    pub kind: XmlKind,
    pub name: Vec<u8>,
    pub start: usize,
    pub end: usize,
}

/// An event as plain values.
pub type EventView = (XmlKind, Seq<u8>, usize, usize);

impl View for XmlEvent {
    type V = EventView;

    open spec fn view(&self) -> EventView {
        (self.kind, self.name@, self.start, self.end)
    }
}

/// The views of a list of events.
pub open spec fn event_views(v: Seq<XmlEvent>) -> Seq<EventView> {
    v.map_values(|e: XmlEvent| e@)
}

/// Why a document could not be read.
#[derive(Debug, Clone, Copy, PartialEq, Eq, Structural)]
pub enum XmlError {
    /// The reader reported a syntax error.
    Syntax,
    /// An attribute the pass reads is malformed, not UTF-8, or holds an
    /// unknown entity.
    Attribute,
}

/// The events `quick_xml`'s reader yields for `data` up to the end of the
/// document; None when it reports an error.
pub uninterp spec fn xml_events_of(data: Seq<u8>) -> Option<Seq<EventView>>;

/// `quick_xml::Reader::read_event` over `data` until `Eof`, each event
/// with its kind, its element name and `buffer_position` before and after
/// it. Claimed: the result is [`xml_events_of`] of the data, nothing more.
#[verifier::external_body]
fn read_events(data: &[u8]) -> (r: Option<Vec<XmlEvent>>)
    ensures
        match r {
            Some(v) => xml_events_of(data@) == Some(event_views(v@)),
            None => xml_events_of(data@) is None,
        },
{
    let mut reader = quick_xml::Reader::from_reader(data);
    let mut out = Vec::new();
    loop {
        let start = reader.buffer_position() as usize;
        let (kind, name) = match reader.read_event().ok()? {
            Event::Eof => return Some(out),
            Event::Start(e) => (XmlKind::Start, e.name().as_ref().to_vec()),
            Event::Empty(e) => (XmlKind::Empty, e.name().as_ref().to_vec()),
            Event::End(e) => (XmlKind::End, e.name().as_ref().to_vec()),
            _ => (XmlKind::Other, Vec::new()),
        };
        out.push(XmlEvent { kind, name, start, end: reader.buffer_position() as usize });
    }
}

/// The events of `data`.
pub fn events(data: &[u8]) -> (r: Result<Vec<XmlEvent>, XmlError>)
    ensures
        match r {
            Ok(v) => xml_events_of(data@) == Some(event_views(v@)),
            Err(e) => xml_events_of(data@) is None && e == XmlError::Syntax,
        },
{
    match read_events(data) {
        Some(v) => Ok(v),
        None => Err(XmlError::Syntax),
    }
}

/// The attributes `quick_xml` reads from a tag's text `content` (its name
/// and attributes) from byte `pos` on: each key and raw, still escaped,
/// value in order, and whether it read to the end without an error.
pub uninterp spec fn xml_attributes_of(content: Seq<char>, pos: usize) -> (Seq<(Seq<u8>, Seq<u8>)>, bool);

/// Plain views of raw attributes.
pub open spec fn pair_views(v: Seq<(Vec<u8>, Vec<u8>)>) -> Seq<(Seq<u8>, Seq<u8>)> {
    v.map_values(|p: (Vec<u8>, Vec<u8>)| (p.0@, p.1@))
}

/// `quick_xml::events::attributes::Attributes::new(content, pos)`, iterated
/// until it ends or yields an error. Claimed: the result is
/// [`xml_attributes_of`] of the arguments, nothing more.
#[verifier::external_body]
fn read_attributes(content: &str, pos: usize) -> (r: (Vec<(Vec<u8>, Vec<u8>)>, bool))
    requires
        pos <= vstd::utf8::encode_utf8(content@).len(),
    ensures
        (pair_views(r.0@), r.1) == xml_attributes_of(content@, pos),
{
    let mut out = Vec::new();
    for a in quick_xml::events::attributes::Attributes::new(content, pos) {
        match a {
            Ok(a) => out.push((a.key.as_ref().to_vec(), a.value.to_vec())),
            Err(_) => return (out, false),
        }
    }
    (out, true)
}

/// What `quick_xml::escape::unescape` makes of `raw`; None for an unknown
/// or malformed entity.
pub uninterp spec fn xml_unescape_of(raw: Seq<char>) -> Option<Seq<char>>;

/// `quick_xml::escape::unescape`. Claimed: the result is
/// [`xml_unescape_of`] of the text, nothing more.
#[verifier::external_body]
fn unescape(raw: &str) -> (r: Option<String>)
    ensures
        match r {
            Some(s) => xml_unescape_of(raw@) == Some(s@),
            None => xml_unescape_of(raw@) is None,
        },
{
    quick_xml::escape::unescape(raw).ok().map(|c| c.into_owned())
}

/// A tag's attributes: the raw pairs read, and whether reading them went
/// to the end without an error.
pub struct Attrs {
    pub list: Vec<(Vec<u8>, Vec<u8>)>,
    pub complete: bool,
}

impl View for Attrs {
    type V = (Seq<(Seq<u8>, Seq<u8>)>, bool);

    open spec fn view(&self) -> (Seq<(Seq<u8>, Seq<u8>)>, bool) {
        (pair_views(self.list@), self.complete)
    }
}

/// The bytes between `<` and `>` (or `/>`) of a start or empty tag.
pub open spec fn tag_content(data: Seq<u8>, e: EventView) -> Option<Seq<u8>> {
    let (kind, name, start, end) = e;
    if kind == XmlKind::Start && start + 2 <= end && end <= data.len() {
        Some(data.subrange(start + 1, end - 1))
    } else if kind == XmlKind::Empty && start + 3 <= end && end <= data.len() {
        Some(data.subrange(start + 1, end - 2))
    } else {
        None
    }
}

/// The attributes of the tag of event `e`; unreadable when the tag's text
/// is not UTF-8 or does not hold its name.
pub open spec fn spec_attrs(data: Seq<u8>, e: EventView) -> (Seq<(Seq<u8>, Seq<u8>)>, bool) {
    match tag_content(data, e) {
        Some(c) => if valid_utf8(c) && e.1.len() <= c.len() {
            xml_attributes_of(decode_utf8(c), e.1.len() as usize)
        } else {
            (seq![], false)
        },
        None => (seq![], false),
    }
}

/// The attributes of the tag of `e` in `data`.
pub fn attrs(data: &[u8], e: &XmlEvent) -> (a: Attrs)
    ensures
        a@ == spec_attrs(data@, e@),
{
    proof { assert(data@.len() == data.len()); }
    let ok_span = e.end <= data.len() && e.start <= e.end;
    let content_len: usize = if ok_span && e.kind == XmlKind::Start && e.end - e.start >= 2 {
        e.end - e.start - 2
    } else if ok_span && e.kind == XmlKind::Empty && e.end - e.start >= 3 {
        e.end - e.start - 3
    } else {
        return Attrs { list: Vec::new(), complete: false };
    };
    let content = crate::bytes::copy_range(data, e.start + 1, content_len);
    assert(tag_content(data@, e@) == Some(content@));
    match crate::text::str_from_utf8(content.as_slice()) {
        Some(s) => {
            if e.name.len() <= content.len() {
                proof { vstd::utf8::decode_utf8_encode_utf8(content@); }
                let (list, complete) = read_attributes(s, e.name.len());
                Attrs { list, complete }
            } else {
                Attrs { list: Vec::new(), complete: false }
            }
        },
        None => Attrs { list: Vec::new(), complete: false },
    }
}

/// What `quick_xml` gives as the unescaped value of raw attribute bytes.
pub open spec fn spec_value(raw: Seq<u8>) -> Result<Seq<char>, XmlError> {
    if valid_utf8(raw) {
        match xml_unescape_of(decode_utf8(raw)) {
            Some(s) => Ok(s),
            None => Err(XmlError::Attribute),
        }
    } else {
        Err(XmlError::Attribute)
    }
}

/// The unescaped value of raw attribute bytes.
pub fn value(raw: &[u8]) -> (r: Result<String, XmlError>)
    ensures
        match r {
            Ok(s) => spec_value(raw@) == Ok::<Seq<char>, XmlError>(s@),
            Err(e) => spec_value(raw@) == Err::<Seq<char>, XmlError>(e),
        },
{
    match crate::text::str_from_utf8(raw) {
        Some(s) => match unescape(s) {
            Some(v) => Ok(v),
            None => Err(XmlError::Attribute),
        },
        None => Err(XmlError::Attribute),
    }
}

/// Whether two byte strings are equal.
pub fn bytes_eq(a: &[u8], b: &[u8]) -> (r: bool)
    ensures
        r == (a@ == b@),
{
    if a.len() != b.len() {
        return false;
    }
    let mut i: usize = 0;
    while i < a.len()
        invariant
            a@.len() == b@.len(),
            i <= a@.len(),
            forall|j: int| 0 <= j < i ==> a@[j] == b@[j],
        decreases a@.len() - i,
    {
        if a[i] != b[i] {
            return false;
        }
        i = i + 1;
    }
    assert(a@ =~= b@);
    true
}

/// The first index from `i` on whose key is `key`, or -1.
pub open spec fn find_key(list: Seq<(Seq<u8>, Seq<u8>)>, key: Seq<u8>, i: int) -> int
    decreases list.len() - i,
{
    if i < 0 || i >= list.len() {
        -1
    } else if list[i].0 == key {
        i
    } else {
        find_key(list, key, i + 1)
    }
}

/// The unescaped value of the first attribute named `key`: None when there
/// is none, an error when it cannot be decoded or reading the attributes
/// failed before one was found.
pub open spec fn spec_get_attr(a: (Seq<(Seq<u8>, Seq<u8>)>, bool), key: Seq<u8>) -> Result<Option<Seq<char>>, XmlError> {
    let k = find_key(a.0, key, 0);
    if k >= 0 {
        match spec_value(a.0[k].1) {
            Ok(v) => Ok(Some(v)),
            Err(e) => Err(e),
        }
    } else if a.1 {
        Ok(None)
    } else {
        Err(XmlError::Attribute)
    }
}

/// One attribute's unescaped value.
pub fn get_attr(a: &Attrs, key: &[u8]) -> (r: Result<Option<String>, XmlError>)
    ensures
        match r {
            Ok(Some(s)) => spec_get_attr(a@, key@) == Ok::<Option<Seq<char>>, XmlError>(Some(s@)),
            Ok(None) => spec_get_attr(a@, key@) == Ok::<Option<Seq<char>>, XmlError>(None),
            Err(e) => spec_get_attr(a@, key@) == Err::<Option<Seq<char>>, XmlError>(e),
        },
{
    let ghost l = a@.0;
    let mut i: usize = 0;
    while i < a.list.len()
        invariant
            l == pair_views(a.list@),
            i <= a.list@.len(),
            find_key(l, key@, 0) == find_key(l, key@, i as int),
        decreases a.list@.len() - i,
    {
        if bytes_eq(a.list[i].0.as_slice(), key) {
            return match value(a.list[i].1.as_slice()) {
                Ok(v) => Ok(Some(v)),
                Err(e) => Err(e),
            };
        }
        i = i + 1;
    }
    if a.complete {
        Ok(None)
    } else {
        Err(XmlError::Attribute)
    }
}

/// The raw value of the last attribute named `key` among the first `n`.
pub open spec fn last_raw(list: Seq<(Seq<u8>, Seq<u8>)>, key: Seq<u8>, n: int) -> Option<Seq<u8>>
    decreases n,
{
    if n <= 0 || n > list.len() {
        None
    } else if list[n - 1].0 == key {
        Some(list[n - 1].1)
    } else {
        last_raw(list, key, n - 1)
    }
}

/// Every attribute named `key` among the first `n` decodes.
pub open spec fn all_decode(list: Seq<(Seq<u8>, Seq<u8>)>, key: Seq<u8>, n: int) -> bool {
    forall|i: int| 0 <= i < n && i < list.len() && #[trigger] list[i].0 == key ==> spec_value(list[i].1) is Ok
}

/// The value a scan over all attributes keeps for `key`: the last one's,
/// empty when there is none.
pub open spec fn kept_value(list: Seq<(Seq<u8>, Seq<u8>)>, key: Seq<u8>) -> Seq<char> {
    match last_raw(list, key, list.len() as int) {
        Some(raw) => match spec_value(raw) {
            Ok(v) => v,
            Err(_) => seq![],
        },
        None => seq![],
    }
}

/// `Name`.
pub open spec fn name_key() -> Seq<u8> {
    seq![0x4eu8, 0x61, 0x6d, 0x65]
}

/// `Type`.
pub open spec fn type_key() -> Seq<u8> {
    seq![0x54u8, 0x79, 0x70, 0x65]
}

/// `KeyType`.
pub open spec fn key_type_key() -> Seq<u8> {
    seq![0x4bu8, 0x65, 0x79, 0x54, 0x79, 0x70, 0x65]
}

/// `(Name, Type, KeyType)` of a playlist NODE read in one scan of all its
/// attributes: an error when reading them failed or one of the three does
/// not decode; a missing one is empty.
pub open spec fn spec_node_attrs(a: (Seq<(Seq<u8>, Seq<u8>)>, bool)) -> Result<(Seq<char>, Seq<char>, Seq<char>), XmlError> {
    let l = a.0;
    if a.1 && all_decode(l, name_key(), l.len() as int) && all_decode(l, type_key(), l.len() as int)
        && all_decode(l, key_type_key(), l.len() as int) {
        Ok((kept_value(l, name_key()), kept_value(l, type_key()), kept_value(l, key_type_key())))
    } else {
        Err(XmlError::Attribute)
    }
}

/// The value the scan keeps for `key` after the first `n` attributes.
pub open spec fn kept_after(list: Seq<(Seq<u8>, Seq<u8>)>, key: Seq<u8>, n: int) -> Seq<char> {
    match last_raw(list, key, n) {
        Some(raw) => match spec_value(raw) {
            Ok(v) => v,
            Err(_) => seq![],
        },
        None => seq![],
    }
}

/// `(Name, Type, KeyType)` of a playlist NODE.
pub fn node_attrs(a: &Attrs) -> (r: Result<(String, String, String), XmlError>)
    ensures
        match r {
            Ok((n, t, k)) => spec_node_attrs(a@) == Ok::<(Seq<char>, Seq<char>, Seq<char>), XmlError>((n@, t@, k@)),
            Err(e) => spec_node_attrs(a@) == Err::<(Seq<char>, Seq<char>, Seq<char>), XmlError>(e),
        },
{
    let ghost l = a@.0;
    let nk: [u8; 4] = [0x4e, 0x61, 0x6d, 0x65];
    let tk: [u8; 4] = [0x54, 0x79, 0x70, 0x65];
    let kk: [u8; 7] = [0x4b, 0x65, 0x79, 0x54, 0x79, 0x70, 0x65];
    assert(nk@ =~= name_key());
    assert(tk@ =~= type_key());
    assert(kk@ =~= key_type_key());
    let mut name = String::new();
    let mut ty = String::new();
    let mut key_type = String::new();
    let mut i: usize = 0;
    while i < a.list.len()
        invariant
            l == pair_views(a.list@),
            i <= a.list@.len(),
            nk@ == name_key(),
            tk@ == type_key(),
            kk@ == key_type_key(),
            all_decode(l, name_key(), i as int),
            all_decode(l, type_key(), i as int),
            all_decode(l, key_type_key(), i as int),
            name@ == kept_after(l, name_key(), i as int),
            ty@ == kept_after(l, type_key(), i as int),
            key_type@ == kept_after(l, key_type_key(), i as int),
        decreases a.list@.len() - i,
    {
        let k = a.list[i].0.as_slice();
        assert(l[i as int].0 == k@);
        if bytes_eq(k, &nk) || bytes_eq(k, &tk) || bytes_eq(k, &kk) {
            let v = match value(a.list[i].1.as_slice()) {
                Ok(v) => v,
                Err(e) => {
                    assert(!all_decode(l, k@, l.len() as int));
                    return Err(e);
                },
            };
            if bytes_eq(k, &nk) {
                name = v;
            } else if bytes_eq(k, &tk) {
                ty = v;
            } else {
                key_type = v;
            }
        }
        i = i + 1;
    }
    assert(l.len() == i);
    if !a.complete {
        return Err(XmlError::Attribute);
    }
    Ok((name, ty, key_type))
}

/// `quick_xml::escape::escape` on UTF-8 bytes: the five XML special
/// characters become entities. All five are ASCII, so escaping the bytes
/// is escaping the text.
pub open spec fn escape_byte(b: u8) -> Seq<u8> {
    if b == 0x3c {
        seq![0x26u8, 0x6c, 0x74, 0x3b]
    } else if b == 0x3e {
        seq![0x26u8, 0x67, 0x74, 0x3b]
    } else if b == 0x27 {
        seq![0x26u8, 0x61, 0x70, 0x6f, 0x73, 0x3b]
    } else if b == 0x26 {
        seq![0x26u8, 0x61, 0x6d, 0x70, 0x3b]
    } else if b == 0x22 {
        seq![0x26u8, 0x71, 0x75, 0x6f, 0x74, 0x3b]
    } else {
        seq![b]
    }
}

/// The escaped form of `b`.
pub open spec fn escape(b: Seq<u8>) -> Seq<u8>
    decreases b.len(),
{
    if b.len() == 0 { seq![] } else { escape(b.drop_last()) + escape_byte(b.last()) }
}

/// Appends the escaped form of `b`.
pub fn push_escaped(out: &mut Vec<u8>, b: &[u8])
    ensures
        final(out)@ == old(out)@ + escape(b@),
{
    let mut i: usize = 0;
    while i < b.len()
        invariant
            i <= b@.len(),
            out@ == old(out)@ + escape(b@.take(i as int)),
        decreases b@.len() - i,
    {
        let c = b[i];
        let ghost before = out@;
        if c == 0x3c {
            out.push(0x26); out.push(0x6c); out.push(0x74); out.push(0x3b);
        } else if c == 0x3e {
            out.push(0x26); out.push(0x67); out.push(0x74); out.push(0x3b);
        } else if c == 0x27 {
            out.push(0x26); out.push(0x61); out.push(0x70); out.push(0x6f); out.push(0x73); out.push(0x3b);
        } else if c == 0x26 {
            out.push(0x26); out.push(0x61); out.push(0x6d); out.push(0x70); out.push(0x3b);
        } else if c == 0x22 {
            out.push(0x26); out.push(0x71); out.push(0x75); out.push(0x6f); out.push(0x74); out.push(0x3b);
        } else {
            out.push(c);
        }
        assert(out@ =~= before + escape_byte(c));
        assert(b@.take(i + 1).drop_last() =~= b@.take(i as int));
        i = i + 1;
    }
    assert(b@.take(i as int) =~= b@);
}

/// ` key="value"`, the value as given.
pub open spec fn attr_bytes(key: Seq<u8>, value: Seq<u8>) -> Seq<u8> {
    seq![0x20u8] + key + seq![0x3du8, 0x22] + value + seq![0x22u8]
}

/// Appends ` key="value"` with the value escaped, as `push_attribute` on a
/// `quick_xml` tag writes an attribute given as text.
pub fn push_attribute(out: &mut Vec<u8>, key: &[u8], value: &[u8])
    ensures
        final(out)@ == old(out)@ + attr_bytes(key@, escape(value@)),
{
    out.push(0x20);
    crate::bytes::push_all(out, key);
    out.push(0x3d);
    out.push(0x22);
    push_escaped(out, value);
    out.push(0x22);
    assert(out@ =~= old(out)@ + attr_bytes(key@, escape(value@)));
}

/// Appends ` key="value"` with the value as it is, as `push_attribute` on a
/// `quick_xml` tag writes an attribute whose value is already escaped.
pub fn push_raw_attribute(out: &mut Vec<u8>, key: &[u8], value: &[u8])
    ensures
        final(out)@ == old(out)@ + attr_bytes(key@, value@),
{
    out.push(0x20);
    crate::bytes::push_all(out, key);
    out.push(0x3d);
    out.push(0x22);
    crate::bytes::push_all(out, value);
    out.push(0x22);
    assert(out@ =~= old(out)@ + attr_bytes(key@, value@));
}

/// `COLLECTION`.
pub const COLLECTION: [u8; 10] = [0x43, 0x4f, 0x4c, 0x4c, 0x45, 0x43, 0x54, 0x49, 0x4f, 0x4e];
/// `PLAYLISTS`.
pub const PLAYLISTS: [u8; 9] = [0x50, 0x4c, 0x41, 0x59, 0x4c, 0x49, 0x53, 0x54, 0x53];
/// `NODE`.
pub const NODE: [u8; 4] = [0x4e, 0x4f, 0x44, 0x45];
/// `TRACK`.
pub const TRACK: [u8; 5] = [0x54, 0x52, 0x41, 0x43, 0x4b];
/// `Key`.
pub const KEY: [u8; 3] = [0x4b, 0x65, 0x79];
/// `TrackID`.
pub const TRACK_ID: [u8; 7] = [0x54, 0x72, 0x61, 0x63, 0x6b, 0x49, 0x44];
/// `Entries`.
pub const ENTRIES: [u8; 7] = [0x45, 0x6e, 0x74, 0x72, 0x69, 0x65, 0x73];

/// Whether the event's element is `want`.
pub fn name_is(e: &XmlEvent, want: &[u8]) -> (r: bool)
    ensures
        r == (e.name@ == want@),
{
    bytes_eq(e.name.as_slice(), want)
}

}
