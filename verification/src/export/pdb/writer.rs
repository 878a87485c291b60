//! Assemble a whole `export.pdb` from the export model.
//!
//! Layout follows a fresh rekordbox export: page 0, then for every table its
//! index page followed by its data pages, then one zero page per table as
//! the `empty_candidate`. Sequence numbers only have to be consistent
//! (header sequence above every data page); colors and columns keep the
//! fixed 2 and 3.
use vstd::prelude::*;
use crate::bytes::{flatten, le32, zeros};
use super::page::{
    heap_of, index_page, header_page, page_bytes, spec_align4, spec_dir_bytes, spec_header_page,
    spec_index_page, DataPage, HeaderStyle, HEAP_START, PAGE_LEN,
};
use super::rows::{
    history_body, le32s, spec_album, spec_artist, TrackRow, wrapped_total, padded_total,
};
use super::string::spec_encode;

verus! {

pub const NUM_TABLES: u32 = 20;

/// One node of the playlist tree.
#[derive(Debug)]
pub struct ExportPlaylist {
    pub id: u32,
    /// 0 for top level.
    pub parent: u32,
    pub sort_order: u32,
    pub is_folder: bool,
    pub name: String,
    pub track_ids: Vec<u32>,
}

/// Everything the database holds of one export.
#[derive(Debug)]
pub struct Export {
    pub tracks: Vec<TrackRow>,
    pub artists: Vec<(u32, String)>,
    /// `(id, artist_id, name)`.
    pub albums: Vec<(u32, u32, String)>,
    pub genres: Vec<(u32, String)>,
    pub labels: Vec<(u32, String)>,
    pub playlists: Vec<ExportPlaylist>,
    pub device_name: String,
    /// `YYYY-MM-DD`.
    pub export_date: String,
}

/// The tables every export carries unchanged: keys, colors, columns, and
/// the raw category and sort rows.
#[derive(Debug)]
pub struct FixedTables {
    pub keys: Vec<String>,
    /// `(id, name)`.
    pub colors: Vec<(u8, String)>,
    /// `(id, code, name)`.
    pub columns: Vec<(u16, u16, String)>,
    pub category_rows: Vec<Vec<u8>>,
    pub sort_rows: Vec<Vec<u8>>,
}

/// Where the bytes of one row come from: fixed bytes, or a row whose bytes
/// depend on its position on the page.
#[derive(Debug)]
pub enum RowSource {
    Fixed(Vec<u8>),
    Track(usize),
    Artist(usize),
    Album(usize),
}

/// One table before paging.
#[derive(Debug)]
pub struct Table {
    pub ty: u32,
    pub style: HeaderStyle,
    /// Fixed sequence for colors and columns, otherwise taken from the counter.
    pub seq: Option<u32>,
    pub rows: Vec<RowSource>,
}

/// The playlist entry rows of `ps`, playlist after playlist.
pub open spec fn entries_of(ps: Seq<ExportPlaylist>) -> Seq<Seq<u8>>
    decreases ps.len(),
{
    if ps.len() == 0 {
        seq![]
    } else {
        let p = ps.last();
        entries_of(ps.drop_last()) + Seq::new(p.track_ids@.len(), |i: int|
            le32((i + 1) as u32) + le32(p.track_ids@[i]) + le32(p.id))
    }
}

/// How many rows table `t` has.
pub open spec fn table_len(e: Export, f: FixedTables, t: int) -> int {
    if t == 0 { e.tracks@.len() as int }
    else if t == 1 { e.genres@.len() as int }
    else if t == 2 { e.artists@.len() as int }
    else if t == 3 { e.albums@.len() as int }
    else if t == 4 { e.labels@.len() as int }
    else if t == 5 { f.keys@.len() as int }
    else if t == 6 { f.colors@.len() as int }
    else if t == 7 { e.playlists@.len() as int }
    else if t == 8 { entries_of(e.playlists@).len() as int }
    else if t == 16 { f.columns@.len() as int }
    else if t == 17 { f.category_rows@.len() as int }
    else if t == 18 { f.sort_rows@.len() as int }
    else if t == 19 { 1 }
    else { 0 }
}

/// The bytes of row `j` of table `t` when it sits at `pos` on its page.
pub open spec fn table_row(e: Export, f: FixedTables, t: int, j: int, pos: int) -> Seq<u8> {
    if t == 0 {
        e.tracks@[j].spec_row(pos)
    } else if t == 1 {
        le32(e.genres@[j].0) + spec_encode(e.genres@[j].1@)
    } else if t == 2 {
        spec_artist(pos, e.artists@[j].0, e.artists@[j].1@)
    } else if t == 3 {
        spec_album(pos, e.albums@[j].0, e.albums@[j].1, e.albums@[j].2@)
    } else if t == 4 {
        le32(e.labels@[j].0) + spec_encode(e.labels@[j].1@)
    } else if t == 5 {
        le32((j + 1) as u32) + le32((j + 1) as u32) + spec_encode(f.keys@[j]@)
    } else if t == 6 {
        seq![0u8, 0u8, 0u8, 0u8, f.colors@[j].0, f.colors@[j].0, 0u8, 0u8] + spec_encode(f.colors@[j].1@)
    } else if t == 7 {
        let p = e.playlists@[j];
        le32s(seq![p.parent, 0u32, p.sort_order, p.id, if p.is_folder { 1u32 } else { 0u32 }]) + spec_encode(p.name@)
    } else if t == 8 {
        entries_of(e.playlists@)[j]
    } else if t == 16 {
        crate::bytes::le16(f.columns@[j].0) + crate::bytes::le16(f.columns@[j].1) + spec_encode(f.columns@[j].2@)
    } else if t == 17 {
        f.category_rows@[j]@
    } else if t == 18 {
        f.sort_rows@[j]@
    } else {
        let b = history_body(e.export_date@, e.device_name@);
        if b.len() < 40 { b + zeros(40 - b.len()) } else { b }
    }
}

/// Header style of table `t`.
pub open spec fn table_style(t: int) -> HeaderStyle {
    if t == 6 || t == 16 { HeaderStyle::Fixed } else { HeaderStyle::Normal }
}

/// Fixed sequence number of table `t`.
pub open spec fn table_seq(t: int) -> Option<u32> {
    if t == 6 { Some(2) } else if t == 16 { Some(3) } else { None }
}

/// `r` still fits on a page already holding `rows`.
pub open spec fn fits(rows: Seq<Seq<u8>>, r: Seq<u8>) -> bool {
    &&& heap_of(rows).len() + spec_align4(r.len() as int) + spec_dir_bytes(rows.len() + 1int) <= PAGE_LEN - HEAP_START
    &&& rows.len() < 0x1fff
}

/// The data pages of table `t` from row `i` on, as their rows, when the
/// page being filled already holds `cur`: a row that does not fit starts
/// a new page, at position 0.
pub open spec fn paginate(e: Export, f: FixedTables, t: int, i: int, cur: Seq<Seq<u8>>) -> Seq<Seq<Seq<u8>>>
    decreases table_len(e, f, t) - i,
{
    if i < 0 || i >= table_len(e, f, t) {
        if cur.len() > 0 { seq![cur] } else { seq![] }
    } else {
        let r = table_row(e, f, t, i, cur.len() as int);
        if fits(cur, r) {
            paginate(e, f, t, i + 1, cur.push(r))
        } else {
            seq![cur] + paginate(e, f, t, i + 1, seq![table_row(e, f, t, i, 0)])
        }
    }
}

/// The bytes `src` gives at `pos` on its page.
pub open spec fn row_bytes(e: Export, src: RowSource, pos: int) -> Seq<u8> {
    match src {
        RowSource::Fixed(v) => v@,
        RowSource::Track(i) => e.tracks@[i as int].spec_row(pos),
        RowSource::Artist(i) => spec_artist(pos, e.artists@[i as int].0, e.artists@[i as int].1@),
        RowSource::Album(i) => spec_album(pos, e.albums@[i as int].0, e.albums@[i as int].1, e.albums@[i as int].2@),
    }
}

/// Track `j` can be encoded: its id leaves room for the row's id field and
/// its strings fit the row's 16-bit offsets.
pub open spec fn track_ok(r: TrackRow) -> bool {
    &&& r.id + 20 <= u32::MAX
    &&& 0x88 + wrapped_total(r.encoded()) <= 0xffff
    &&& 0x88 + padded_total(r.encoded()) + 4 <= usize::MAX
}

/// `src` refers to a row of `e` that can be encoded.
pub open spec fn source_ok(e: Export, src: RowSource) -> bool {
    match src {
        RowSource::Fixed(_) => true,
        RowSource::Track(i) => i < e.tracks@.len() && track_ok(e.tracks@[i as int]),
        RowSource::Artist(i) => i < e.artists@.len() && spec_encode(e.artists@[i as int].1@).len() + 64 <= usize::MAX,
        RowSource::Album(i) => i < e.albums@.len() && spec_encode(e.albums@[i as int].2@).len() + 64 <= usize::MAX,
    }
}

/// The bytes of one row at `pos` on its page.
fn make_row(e: &Export, src: &RowSource, pos: usize) -> (r: Vec<u8>)
    requires
        source_ok(*e, *src),
        pos < 2048,
    ensures
        r@ == row_bytes(*e, *src, pos as int),
{
    match src {
        RowSource::Fixed(v) => {
            let mut r: Vec<u8> = Vec::new();
            crate::bytes::push_all(&mut r, v.as_slice());
            r
        },
        RowSource::Track(i) => e.tracks[*i].encode(pos),
        RowSource::Artist(i) => super::rows::artist(pos, e.artists[*i].0, e.artists[*i].1.as_str()),
        RowSource::Album(i) => super::rows::album(pos, e.albums[*i].0, e.albums[*i].1, e.albums[*i].2.as_str()),
    }
}

/// A page that fits its directory never holds 2048 rows.
proof fn lemma_rows_below_2048(rows: Seq<Seq<u8>>)
    requires
        heap_of(rows).len() + spec_dir_bytes(rows.len() as int) <= PAGE_LEN - HEAP_START,
    ensures
        rows.len() < 2048,
{
    let n = rows.len() as int;
    assert(spec_dir_bytes(n) >= 2 * n) by {
        let rest = n % 16;
        assert(n == n / 16 * 16 + rest);
    }
}

/// Rows of data pages.
pub open spec fn page_rows(pages: Seq<DataPage>) -> Seq<Seq<Seq<u8>>> {
    pages.map_values(|p: DataPage| p.rows_view())
}

/// Table `tab` lays out the rows of table `t` of the export.
pub open spec fn table_matches(e: Export, f: FixedTables, t: int, tab: Table) -> bool {
    &&& tab.ty == t
    &&& tab.style == table_style(t)
    &&& tab.seq == table_seq(t)
    &&& tab.rows@.len() == table_len(e, f, t)
    &&& forall|j: int, pos: int| 0 <= j < tab.rows@.len() ==>
        #[trigger] row_bytes(e, tab.rows@[j], pos) == table_row(e, f, t, j, pos)
    &&& forall|j: int| 0 <= j < tab.rows@.len() ==> #[trigger] source_ok(e, tab.rows@[j])
}

/// The data pages of one table, filled greedily in row order.
fn fill(e: &Export, Ghost(f): Ghost<FixedTables>, table: &Table, Ghost(t): Ghost<int>) -> (pages: Vec<DataPage>)
    requires
        table_matches(*e, f, t, *table),
        forall|j: int| 0 <= j < table_len(*e, f, t) ==> #[trigger] fits(seq![], table_row(*e, f, t, j, 0)),
    ensures
        page_rows(pages@) == paginate(*e, f, t, 0, seq![]),
        forall|k: int| 0 <= k < pages@.len() ==> {
            &&& (#[trigger] pages@[k]).wf()
            &&& pages@[k].table == table.ty
            &&& pages@[k].style == table.style
        },
{
    let mut data: Vec<DataPage> = Vec::new();
    let mut page = DataPage::new(0, table.ty, 0, table.style);
    let mut i: usize = 0;
    assert(page_rows(data@) + paginate(*e, f, t, 0, page.rows_view()) =~= paginate(*e, f, t, 0, seq![]));
    while i < table.rows.len()
        invariant
            table_matches(*e, f, t, *table),
            forall|j: int| 0 <= j < table_len(*e, f, t) ==> #[trigger] fits(seq![], table_row(*e, f, t, j, 0)),
            i <= table.rows@.len(),
            page.wf(),
            page.table == table.ty,
            page.style == table.style,
            forall|k: int| 0 <= k < data@.len() ==> {
                &&& (#[trigger] data@[k]).wf()
                &&& data@[k].table == table.ty
                &&& data@[k].style == table.style
            },
            page_rows(data@) + paginate(*e, f, t, i as int, page.rows_view()) == paginate(*e, f, t, 0, seq![]),
        decreases table.rows@.len() - i,
    {
        let pos = page.rows();
        proof { lemma_rows_below_2048(page.rows_view()); }
        let row = make_row(e, &table.rows[i], pos);
        let ghost cur = page.rows_view();
        let ghost before = page_rows(data@);
        if !page.try_push(row.as_slice()) {
            data.push(page);
            page = DataPage::new(0, table.ty, 0, table.style);
            let row0 = make_row(e, &table.rows[i], 0);
            let ok = page.try_push(row0.as_slice());
            proof {
                assert(fits(seq![], table_row(*e, f, t, i as int, 0)));
                assert(heap_of(Seq::<Seq<u8>>::empty()) == Seq::<u8>::empty());
                assert(ok);
                assert(page.rows_view() =~= seq![row0@]);
                assert(page_rows(data@) =~= before.push(cur));
                assert(page_rows(data@) + paginate(*e, f, t, i + 1, page.rows_view())
                    =~= before + (seq![cur] + paginate(*e, f, t, i + 1, seq![table_row(*e, f, t, i as int, 0)])));
            }
        }
        i = i + 1;
    }
    let ghost cur = page.rows_view();
    let ghost before = page_rows(data@);
    if !page.is_empty() {
        data.push(page);
        proof {
            assert(page_rows(data@) =~= before.push(cur));
        }
    }
    proof {
        assert(page_rows(data@) =~= paginate(*e, f, t, 0, seq![]));
    }
    data
}

/// The fixed bytes of `rows`, all fixed sources.
pub open spec fn fixed_bytes(rows: Seq<RowSource>) -> Seq<Seq<u8>> {
    rows.map_values(|r: RowSource| match r { RowSource::Fixed(v) => v@, _ => Seq::<u8>::empty() })
}

/// Every source of `rows` is fixed bytes.
pub open spec fn all_fixed(rows: Seq<RowSource>) -> bool {
    forall|j: int| 0 <= j < rows.len() ==> (#[trigger] rows[j]) is Fixed
}

/// Appends one fixed row.
fn push_fixed(rows: &mut Vec<RowSource>, v: Vec<u8>)
    requires
        all_fixed(old(rows)@),
    ensures
        all_fixed(final(rows)@),
        final(rows)@.len() == old(rows)@.len() + 1,
        fixed_bytes(final(rows)@) == fixed_bytes(old(rows)@).push(v@),
{
    let ghost before = rows@;
    let ghost bytes = v@;
    rows.push(RowSource::Fixed(v));
    assert(fixed_bytes(rows@) =~= fixed_bytes(before).push(bytes));
}

/// Rows `0..n` of `e` drawn from the track, artist or album list.
fn indexed_rows(n: usize, kind: u8) -> (rows: Vec<RowSource>)
    requires
        kind < 3,
    ensures
        rows@.len() == n,
        forall|j: int| 0 <= j < n ==> #[trigger] rows@[j] == if kind == 0 {
            RowSource::Track(j as usize)
        } else if kind == 1 {
            RowSource::Artist(j as usize)
        } else {
            RowSource::Album(j as usize)
        },
{
    let mut rows: Vec<RowSource> = Vec::new();
    let mut i: usize = 0;
    while i < n
        invariant
            i <= n,
            kind < 3,
            rows@.len() == i,
            forall|j: int| 0 <= j < i ==> #[trigger] rows@[j] == if kind == 0 {
                RowSource::Track(j as usize)
            } else if kind == 1 {
                RowSource::Artist(j as usize)
            } else {
                RowSource::Album(j as usize)
            },
        decreases n - i,
    {
        rows.push(if kind == 0 { RowSource::Track(i) } else if kind == 1 { RowSource::Artist(i) } else { RowSource::Album(i) });
        i = i + 1;
    }
    rows
}

/// `id, name` rows.
fn named_rows(list: &[(u32, String)]) -> (rows: Vec<RowSource>)
    ensures
        rows@.len() == list@.len(),
        all_fixed(rows@),
        forall|j: int| 0 <= j < list@.len() ==> #[trigger] fixed_bytes(rows@)[j]
            == le32(list@[j].0) + spec_encode(list@[j].1@),
{
    let mut rows: Vec<RowSource> = Vec::new();
    let mut i: usize = 0;
    while i < list.len()
        invariant
            i <= list@.len(),
            rows@.len() == i,
            all_fixed(rows@),
            forall|j: int| 0 <= j < i ==> #[trigger] fixed_bytes(rows@)[j]
                == le32(list@[j].0) + spec_encode(list@[j].1@),
        decreases list@.len() - i,
    {
        push_fixed(&mut rows, super::rows::named(list[i].0, list[i].1.as_str()));
        i = i + 1;
    }
    rows
}

/// Key rows, numbered from 1.
fn key_rows(keys: &[String]) -> (rows: Vec<RowSource>)
    requires
        keys@.len() < 0xFFFF_FFFF,
    ensures
        rows@.len() == keys@.len(),
        all_fixed(rows@),
        forall|j: int| 0 <= j < keys@.len() ==> #[trigger] fixed_bytes(rows@)[j]
            == le32((j + 1) as u32) + le32((j + 1) as u32) + spec_encode(keys@[j]@),
{
    let mut rows: Vec<RowSource> = Vec::new();
    let mut i: usize = 0;
    while i < keys.len()
        invariant
            i <= keys@.len() < 0xFFFF_FFFF,
            rows@.len() == i,
            all_fixed(rows@),
            forall|j: int| 0 <= j < i ==> #[trigger] fixed_bytes(rows@)[j]
                == le32((j + 1) as u32) + le32((j + 1) as u32) + spec_encode(keys@[j]@),
        decreases keys@.len() - i,
    {
        push_fixed(&mut rows, super::rows::key(i as u32 + 1, keys[i].as_str()));
        i = i + 1;
    }
    rows
}

/// Color rows.
fn color_rows(colors: &[(u8, String)]) -> (rows: Vec<RowSource>)
    ensures
        rows@.len() == colors@.len(),
        all_fixed(rows@),
        forall|j: int| 0 <= j < colors@.len() ==> #[trigger] fixed_bytes(rows@)[j]
            == seq![0u8, 0u8, 0u8, 0u8, colors@[j].0, colors@[j].0, 0u8, 0u8] + spec_encode(colors@[j].1@),
{
    let mut rows: Vec<RowSource> = Vec::new();
    let mut i: usize = 0;
    while i < colors.len()
        invariant
            i <= colors@.len(),
            rows@.len() == i,
            all_fixed(rows@),
            forall|j: int| 0 <= j < i ==> #[trigger] fixed_bytes(rows@)[j]
                == seq![0u8, 0u8, 0u8, 0u8, colors@[j].0, colors@[j].0, 0u8, 0u8] + spec_encode(colors@[j].1@),
        decreases colors@.len() - i,
    {
        push_fixed(&mut rows, super::rows::color(colors[i].0, colors[i].1.as_str()));
        i = i + 1;
    }
    rows
}

/// Column rows.
fn column_rows(columns: &[(u16, u16, String)]) -> (rows: Vec<RowSource>)
    ensures
        rows@.len() == columns@.len(),
        all_fixed(rows@),
        forall|j: int| 0 <= j < columns@.len() ==> #[trigger] fixed_bytes(rows@)[j]
            == crate::bytes::le16(columns@[j].0) + crate::bytes::le16(columns@[j].1) + spec_encode(columns@[j].2@),
{
    let mut rows: Vec<RowSource> = Vec::new();
    let mut i: usize = 0;
    while i < columns.len()
        invariant
            i <= columns@.len(),
            rows@.len() == i,
            all_fixed(rows@),
            forall|j: int| 0 <= j < i ==> #[trigger] fixed_bytes(rows@)[j]
                == crate::bytes::le16(columns@[j].0) + crate::bytes::le16(columns@[j].1) + spec_encode(columns@[j].2@),
        decreases columns@.len() - i,
    {
        push_fixed(&mut rows, super::rows::column(columns[i].0, columns[i].1, columns[i].2.as_str()));
        i = i + 1;
    }
    rows
}

/// Raw rows, copied.
fn raw_rows(raw: &[Vec<u8>]) -> (rows: Vec<RowSource>)
    ensures
        rows@.len() == raw@.len(),
        all_fixed(rows@),
        forall|j: int| 0 <= j < raw@.len() ==> #[trigger] fixed_bytes(rows@)[j] == raw@[j]@,
{
    let mut rows: Vec<RowSource> = Vec::new();
    let mut i: usize = 0;
    while i < raw.len()
        invariant
            i <= raw@.len(),
            rows@.len() == i,
            all_fixed(rows@),
            forall|j: int| 0 <= j < i ==> #[trigger] fixed_bytes(rows@)[j] == raw@[j]@,
        decreases raw@.len() - i,
    {
        let mut copy: Vec<u8> = Vec::new();
        crate::bytes::push_all(&mut copy, raw[i].as_slice());
        push_fixed(&mut rows, copy);
        i = i + 1;
    }
    rows
}

/// Playlist tree rows.
fn node_rows(ps: &[ExportPlaylist]) -> (rows: Vec<RowSource>)
    ensures
        rows@.len() == ps@.len(),
        all_fixed(rows@),
        forall|j: int| 0 <= j < ps@.len() ==> #[trigger] fixed_bytes(rows@)[j]
            == le32s(seq![ps@[j].parent, 0u32, ps@[j].sort_order, ps@[j].id, if ps@[j].is_folder { 1u32 } else { 0u32 }])
                + spec_encode(ps@[j].name@),
{
    let mut rows: Vec<RowSource> = Vec::new();
    let mut i: usize = 0;
    while i < ps.len()
        invariant
            i <= ps@.len(),
            rows@.len() == i,
            all_fixed(rows@),
            forall|j: int| 0 <= j < i ==> #[trigger] fixed_bytes(rows@)[j]
                == le32s(seq![ps@[j].parent, 0u32, ps@[j].sort_order, ps@[j].id, if ps@[j].is_folder { 1u32 } else { 0u32 }])
                    + spec_encode(ps@[j].name@),
        decreases ps@.len() - i,
    {
        let p = &ps[i];
        push_fixed(&mut rows, super::rows::playlist_node(p.parent, p.sort_order, p.id, p.is_folder, p.name.as_str()));
        i = i + 1;
    }
    rows
}

/// Playlist entry rows, playlist after playlist, numbered from 1 in each.
fn entry_rows(ps: &[ExportPlaylist]) -> (rows: Vec<RowSource>)
    requires
        forall|k: int| 0 <= k < ps@.len() ==> (#[trigger] ps@[k]).track_ids@.len() < 0xFFFF_FFFF,
    ensures
        all_fixed(rows@),
        fixed_bytes(rows@) == entries_of(ps@),
{
    let mut rows: Vec<RowSource> = Vec::new();
    let mut a: usize = 0;
    assert(ps@.take(0) =~= Seq::<ExportPlaylist>::empty());
    assert(fixed_bytes(rows@) =~= entries_of(ps@.take(0)));
    while a < ps.len()
        invariant
            a <= ps@.len(),
            forall|k: int| 0 <= k < ps@.len() ==> (#[trigger] ps@[k]).track_ids@.len() < 0xFFFF_FFFF,
            all_fixed(rows@),
            fixed_bytes(rows@) == entries_of(ps@.take(a as int)),
        decreases ps@.len() - a,
    {
        let p = &ps[a];
        let ghost before = fixed_bytes(rows@);
        let ghost fresh = Seq::new(p.track_ids@.len(), |i: int| le32((i + 1) as u32) + le32(p.track_ids@[i]) + le32(p.id));
        let mut i: usize = 0;
        assert(p.track_ids@.len() < 0xFFFF_FFFF);
        while i < p.track_ids.len()
            invariant
                i <= p.track_ids@.len() < 0xFFFF_FFFF,
                all_fixed(rows@),
                fresh == Seq::new(p.track_ids@.len(), |i: int| le32((i + 1) as u32) + le32(p.track_ids@[i]) + le32(p.id)),
                fixed_bytes(rows@) == before + fresh.take(i as int),
            decreases p.track_ids@.len() - i,
        {
            push_fixed(&mut rows, super::rows::playlist_entry(i as u32 + 1, p.track_ids[i], p.id));
            i = i + 1;
            assert(fixed_bytes(rows@) =~= before + fresh.take(i as int));
        }
        proof {
            assert(fresh.take(i as int) =~= fresh);
            assert(ps@.take(a + 1).drop_last() =~= ps@.take(a as int));
            assert(ps@.take(a + 1).last() == *p);
        }
        a = a + 1;
    }
    assert(ps@.take(a as int) =~= ps@);
    rows
}

/// The export can be written: every track row can be encoded, every name
/// fits in memory, numbering stays within 32 bits, and every row fits an
/// empty page.
pub open spec fn export_ok(e: Export, f: FixedTables) -> bool {
    &&& forall|j: int| 0 <= j < e.tracks@.len() ==> track_ok(#[trigger] e.tracks@[j])
    &&& forall|j: int| 0 <= j < e.artists@.len() ==> spec_encode((#[trigger] e.artists@[j]).1@).len() + 64 <= usize::MAX
    &&& forall|j: int| 0 <= j < e.albums@.len() ==> spec_encode((#[trigger] e.albums@[j]).2@).len() + 64 <= usize::MAX
    &&& f.keys@.len() < 0xFFFF_FFFF
    &&& forall|k: int| 0 <= k < e.playlists@.len() ==> (#[trigger] e.playlists@[k]).track_ids@.len() < 0xFFFF_FFFF
    &&& forall|t: int, j: int| 0 <= t < 20 && 0 <= j < table_len(e, f, t) ==> fits(seq![], #[trigger] table_row(e, f, t, j, 0))
    &&& total_rows(e, f, 20) <= 0x0FFF_FFFF
}

/// Rows of tables `0..t`.
pub open spec fn total_rows(e: Export, f: FixedTables, t: int) -> int
    decreases t,
{
    if t <= 0 { 0 } else { total_rows(e, f, t - 1) + table_len(e, f, t - 1) }
}

proof fn lemma_fixed_rows(e: Export, f: FixedTables, t: int, rows: Seq<RowSource>)
    requires
        all_fixed(rows),
        rows.len() == table_len(e, f, t),
        forall|j: int| 0 <= j < rows.len() ==> #[trigger] fixed_bytes(rows)[j] == table_row(e, f, t, j, 0),
        t != 0 && t != 2 && t != 3,
    ensures
        forall|j: int, pos: int| 0 <= j < rows.len() ==> #[trigger] row_bytes(e, rows[j], pos) == table_row(e, f, t, j, pos),
        forall|j: int| 0 <= j < rows.len() ==> #[trigger] source_ok(e, rows[j]),
{
    assert forall|j: int, pos: int| 0 <= j < rows.len() implies #[trigger] row_bytes(e, rows[j], pos) == table_row(e, f, t, j, pos) by {
        assert(rows[j] is Fixed);
        assert(fixed_bytes(rows)[j] == table_row(e, f, t, j, 0));
        assert(table_row(e, f, t, j, pos) == table_row(e, f, t, j, 0));
    }
    assert forall|j: int| 0 <= j < rows.len() implies #[trigger] source_ok(e, rows[j]) by {
        assert(rows[j] is Fixed);
    }
}

/// Table `t` of the export, rows not yet paged.
fn table_for(e: &Export, f: &FixedTables, t: u32) -> (tab: Table)
    requires
        t < 20,
        export_ok(*e, *f),
    ensures
        table_matches(*e, *f, t as int, tab),
{
    let style = if t == 6 || t == 16 { HeaderStyle::Fixed } else { HeaderStyle::Normal };
    let seq: Option<u32> = if t == 6 { Some(2) } else if t == 16 { Some(3) } else { None };
    let ghost ti = t as int;
    if t == 0 || t == 2 || t == 3 {
        let n = if t == 0 { e.tracks.len() } else if t == 2 { e.artists.len() } else { e.albums.len() };
        let kind: u8 = if t == 0 { 0 } else if t == 2 { 1 } else { 2 };
        let rows = indexed_rows(n, kind);
        let tab = Table { ty: t, style, seq, rows };
        proof {
            assert forall|j: int| 0 <= j < tab.rows@.len() implies #[trigger] source_ok(*e, tab.rows@[j]) by {
                if t == 0 {
                    assert(track_ok(e.tracks@[j]));
                } else if t == 2 {
                    assert(spec_encode(e.artists@[j].1@).len() + 64 <= usize::MAX);
                } else {
                    assert(spec_encode(e.albums@[j].2@).len() + 64 <= usize::MAX);
                }
            }
        }
        return tab;
    }
    let rows: Vec<RowSource> = if t == 1 {
        named_rows(e.genres.as_slice())
    } else if t == 4 {
        named_rows(e.labels.as_slice())
    } else if t == 5 {
        key_rows(f.keys.as_slice())
    } else if t == 6 {
        color_rows(f.colors.as_slice())
    } else if t == 7 {
        node_rows(e.playlists.as_slice())
    } else if t == 8 {
        entry_rows(e.playlists.as_slice())
    } else if t == 16 {
        column_rows(f.columns.as_slice())
    } else if t == 17 {
        raw_rows(f.category_rows.as_slice())
    } else if t == 18 {
        raw_rows(f.sort_rows.as_slice())
    } else if t == 19 {
        let mut one: Vec<RowSource> = Vec::new();
        push_fixed(&mut one, super::rows::history_property(e.export_date.as_str(), e.device_name.as_str()));
        one
    } else {
        Vec::new()
    };
    proof {
        assert(rows@.len() == table_len(*e, *f, ti));
        assert forall|j: int| 0 <= j < rows@.len() implies #[trigger] fixed_bytes(rows@)[j] == table_row(*e, *f, ti, j, 0) by {
            if t == 8 {
                assert(fixed_bytes(rows@)[j] == entries_of(e.playlists@)[j]);
            }
        }
        lemma_fixed_rows(*e, *f, ti, rows@);
    }
    Table { ty: t, style, seq, rows }
}

/// The data pages of table `t`, as their rows.
pub open spec fn all_pages(e: Export, f: FixedTables, t: int) -> Seq<Seq<Seq<u8>>> {
    paginate(e, f, t, 0, seq![])
}

/// How many data pages table `t` takes.
pub open spec fn page_count(e: Export, f: FixedTables, t: int) -> int {
    all_pages(e, f, t).len() as int
}

/// Page number of the index page of table `t`: page 0 is the header, then
/// every table's index page and data pages in table order.
pub open spec fn index_pos(e: Export, f: FixedTables, t: int) -> int
    decreases t,
{
    if t <= 0 { 1 } else { index_pos(e, f, t - 1) + 1 + page_count(e, f, t - 1) }
}

/// Page number of the first empty candidate; table `t`'s is `first_empty + t`.
pub open spec fn first_empty(e: Export, f: FixedTables) -> int {
    index_pos(e, f, 20)
}

/// Data pages of the tables before `t` that take their sequence from the counter.
pub open spec fn counted_before(e: Export, f: FixedTables, t: int) -> int
    decreases t,
{
    if t <= 0 {
        0
    } else {
        counted_before(e, f, t - 1) + if table_seq(t - 1) is None { page_count(e, f, t - 1) } else { 0 }
    }
}

/// Sequence number of data page `k` of table `t`: fixed, or the counter
/// that starts at 10 and counts every counted data page.
pub open spec fn page_seq(e: Export, f: FixedTables, t: int, k: int) -> int {
    match table_seq(t) {
        Some(s) => s as int,
        None => 10 + counted_before(e, f, t) + k + 1,
    }
}

/// The highest sequence number among the data pages of tables `0..t`, and 3.
pub open spec fn max_seq_upto(e: Export, f: FixedTables, t: int) -> int
    decreases t,
{
    if t <= 0 {
        3
    } else {
        let m = max_seq_upto(e, f, t - 1);
        let n = page_count(e, f, t - 1);
        if n == 0 {
            m
        } else {
            let s = page_seq(e, f, t - 1, n - 1);
            if s > m { s } else { m }
        }
    }
}

/// Page number data page `k` of table `t` points to: the next data page,
/// or the table's empty candidate after the last.
pub open spec fn page_next(e: Export, f: FixedTables, t: int, k: int) -> int {
    if k + 1 < page_count(e, f, t) {
        index_pos(e, f, t) + 1 + k + 1
    } else {
        first_empty(e, f) + t
    }
}

/// Data page `k` of table `t`.
pub open spec fn data_page(e: Export, f: FixedTables, t: int, k: int) -> Seq<u8> {
    page_bytes(
        (index_pos(e, f, t) + 1 + k) as u32,
        t as u32,
        page_next(e, f, t, k) as u32,
        page_seq(e, f, t, k) as u32,
        table_style(t),
        all_pages(e, f, t)[k],
    )
}

/// The first data page of table `t`, if it has any.
pub open spec fn first_data(e: Export, f: FixedTables, t: int) -> Option<u32> {
    if page_count(e, f, t) > 0 { Some((index_pos(e, f, t) + 1) as u32) } else { None }
}

/// Table `t`: its index page, then its data pages.
pub open spec fn table_bytes(e: Export, f: FixedTables, t: int) -> Seq<u8> {
    let empty = (first_empty(e, f) + t) as u32;
    spec_index_page(
        index_pos(e, f, t) as u32,
        t as u32,
        match first_data(e, f, t) { Some(d) => d, None => empty },
        first_data(e, f, t),
    ) + flatten(Seq::new(page_count(e, f, t) as nat, |k: int| data_page(e, f, t, k)))
}

/// The header's pointer to table `t`: type, empty candidate, index page,
/// last page.
pub open spec fn pointer(e: Export, f: FixedTables, t: int) -> (u32, u32, u32, u32) {
    (
        t as u32,
        (first_empty(e, f) + t) as u32,
        index_pos(e, f, t) as u32,
        (index_pos(e, f, t) + page_count(e, f, t)) as u32,
    )
}

/// The whole `export.pdb`: header page, every table, and one empty
/// candidate page per table.
pub open spec fn spec_write(e: Export, f: FixedTables) -> Seq<u8> {
    spec_header_page(
        NUM_TABLES,
        (first_empty(e, f) + 20) as u32,
        (max_seq_upto(e, f, 20) + 1) as u32,
        Seq::new(20, |t: int| pointer(e, f, t)),
    ) + flatten(Seq::new(20, |t: int| table_bytes(e, f, t))) + zeros(20 * PAGE_LEN)
}

/// With every row fitting an empty page, no page is empty and there are
/// never more pages than rows.
proof fn lemma_paginate_len(e: Export, f: FixedTables, t: int, i: int, cur: Seq<Seq<u8>>)
    requires
        0 <= i <= table_len(e, f, t),
        forall|j: int| 0 <= j < table_len(e, f, t) ==> #[trigger] fits(seq![], table_row(e, f, t, j, 0)),
    ensures
        paginate(e, f, t, i, cur).len() <= table_len(e, f, t) - i + if cur.len() > 0 { 1int } else { 0int },
    decreases table_len(e, f, t) - i,
{
    if i < table_len(e, f, t) {
        let r = table_row(e, f, t, i, cur.len() as int);
        if fits(cur, r) {
            lemma_paginate_len(e, f, t, i + 1, cur.push(r));
        } else {
            assert(fits(seq![], table_row(e, f, t, i, 0)));
            assert(cur.len() > 0) by {
                if cur.len() == 0 {
                    assert(cur =~= Seq::<Seq<u8>>::empty());
                }
            }
            lemma_paginate_len(e, f, t, i + 1, seq![table_row(e, f, t, i, 0)]);
        }
    }
}

proof fn lemma_positions(e: Export, f: FixedTables, t: int)
    requires
        0 <= t <= 20,
        export_ok(e, f),
    ensures
        index_pos(e, f, t) <= 1 + t + total_rows(e, f, t),
        counted_before(e, f, t) <= total_rows(e, f, t),
        0 <= counted_before(e, f, t),
        total_rows(e, f, t) <= total_rows(e, f, 20),
        3 <= max_seq_upto(e, f, t) <= 11 + total_rows(e, f, t),
    decreases t,
{
    if t > 0 {
        lemma_positions(e, f, t - 1);
        assert forall|j: int| 0 <= j < table_len(e, f, t - 1) implies #[trigger] fits(seq![], table_row(e, f, t - 1, j, 0)) by {
        }
        lemma_paginate_len(e, f, t - 1, 0, seq![]);
        lemma_total_rows_mono(e, f, t);
    }
    if t == 0 {
        lemma_total_rows_mono(e, f, 0);
    }
}

proof fn lemma_total_rows_mono(e: Export, f: FixedTables, t: int)
    requires
        0 <= t <= 20,
    ensures
        total_rows(e, f, t) <= total_rows(e, f, 20),
        total_rows(e, f, t) >= 0,
    decreases 20 - t,
{
    if t < 20 {
        lemma_total_rows_mono(e, f, t + 1);
    }
    lemma_total_rows_nonneg(e, f, t);
}

proof fn lemma_total_rows_nonneg(e: Export, f: FixedTables, t: int)
    ensures
        total_rows(e, f, t) >= 0,
    decreases t,
{
    if t > 0 {
        lemma_total_rows_nonneg(e, f, t - 1);
    }
}

/// Appends data pages `pages` of table `t` with their page numbers, chain
/// and sequence numbers.
#[verifier::rlimit(60)]
fn emit_data_pages(
    body: &mut Vec<u8>,
    pages: &Vec<DataPage>,
    Ghost(e): Ghost<Export>,
    Ghost(f): Ghost<FixedTables>,
    t: u32,
    pos: u32,
    empty: u32,
    next_seq: &mut u32,
    max_seq: &mut u32,
)
    requires
        t < 20,
        export_ok(e, f),
        page_rows(pages@) == all_pages(e, f, t as int),
        forall|k: int| 0 <= k < pages@.len() ==> {
            &&& (#[trigger] pages@[k]).wf()
            &&& pages@[k].table == t
            &&& pages@[k].style == table_style(t as int)
        },
        pos as int == index_pos(e, f, t as int),
        empty as int == first_empty(e, f) + t,
        *old(next_seq) as int == 10 + counted_before(e, f, t as int),
        *old(max_seq) as int == max_seq_upto(e, f, t as int),
    ensures
        final(body)@ == old(body)@ + flatten(Seq::new(page_count(e, f, t as int) as nat, |k: int| data_page(e, f, t as int, k))),
        *final(next_seq) as int == 10 + counted_before(e, f, t + 1),
        *final(max_seq) as int == max_seq_upto(e, f, t + 1),
{
    let ghost ti = t as int;
    let ghost n = page_count(e, f, ti);
    let ghost datas = Seq::new(n as nat, |k: int| data_page(e, f, ti, k));
    proof {
        lemma_positions(e, f, ti + 1);
        lemma_positions(e, f, ti);
        lemma_positions(e, f, 20);
        lemma_total_rows_mono(e, f, ti + 1);
        assert forall|j: int| 0 <= j < table_len(e, f, ti) implies #[trigger] fits(seq![], table_row(e, f, ti, j, 0)) by {
        }
        lemma_paginate_len(e, f, ti, 0, seq![]);
    }
    let count = pages.len();
    let mut k: usize = 0;
    assert(datas.take(0) =~= Seq::<Seq<u8>>::empty());
    while k < count
        invariant
            t < 20,
            count == pages@.len(),
            count as int == n,
            n == page_count(e, f, ti),
            ti == t as int,
            datas == Seq::new(n as nat, |k: int| data_page(e, f, ti, k)),
            page_rows(pages@) == all_pages(e, f, ti),
            forall|j: int| 0 <= j < pages@.len() ==> {
                &&& (#[trigger] pages@[j]).wf()
                &&& pages@[j].table == t
                &&& pages@[j].style == table_style(ti)
            },
            pos as int == index_pos(e, f, ti),
            empty as int == first_empty(e, f) + ti,
            index_pos(e, f, ti + 1) == index_pos(e, f, ti) + 1 + n,
            index_pos(e, f, ti + 1) <= 1 + 21 + 0x0FFF_FFFF,
            counted_before(e, f, ti) + n <= 0x0FFF_FFFF,
            first_empty(e, f) + 20 <= 41 + 0x0FFF_FFFF,
            k <= count,
            body@ == old(body)@ + flatten(datas.take(k as int)),
            *next_seq as int == 10 + counted_before(e, f, ti) + if table_seq(ti) is None { k as int } else { 0 },
            *max_seq as int == if k == 0 { max_seq_upto(e, f, ti) } else {
                let s = page_seq(e, f, ti, k - 1);
                if s > max_seq_upto(e, f, ti) { s } else { max_seq_upto(e, f, ti) }
            },
        decreases count - k,
    {
        let index = pos + 1 + k as u32;
        let seq: u32 = if t == 6 {
            2
        } else if t == 16 {
            3
        } else {
            *next_seq = *next_seq + 1;
            *next_seq
        };
        if seq > *max_seq {
            *max_seq = seq;
        }
        let next = if k + 1 < count { index + 1 } else { empty };
        let bytes = pages[k].render(index, next, seq);
        proof {
            assert(pages@[k as int].rows_view() == page_rows(pages@)[k as int]);
            assert(bytes@ == data_page(e, f, ti, k as int));
            assert(datas.take(k + 1).drop_last() =~= datas.take(k as int));
        }
        crate::bytes::push_all(body, bytes.as_slice());
        k = k + 1;
    }
    assert(datas.take(k as int) =~= datas);
}

/// Serialise the export. The result is a whole number of 4096-byte pages.
#[verifier::rlimit(60)]
pub fn write(e: &Export, f: &FixedTables) -> (out: Vec<u8>)
    requires
        export_ok(*e, *f),
    ensures
        out@ == spec_write(*e, *f),
{
    let mut filled: Vec<Vec<DataPage>> = Vec::new();
    let mut t: u32 = 0;
    while t < 20
        invariant
            t <= 20,
            export_ok(*e, *f),
            filled@.len() == t,
            forall|u: int| 0 <= u < t ==> page_rows((#[trigger] filled@[u])@) == all_pages(*e, *f, u),
            forall|u: int, k: int| 0 <= u < t && 0 <= k < filled@[u]@.len() ==> {
                &&& (#[trigger] filled@[u]@[k]).wf()
                &&& filled@[u]@[k].table == u
                &&& filled@[u]@[k].style == table_style(u)
            },
        decreases 20 - t,
    {
        let tab = table_for(e, f, t);
        proof {
            assert forall|j: int| 0 <= j < table_len(*e, *f, t as int) implies #[trigger] fits(seq![], table_row(*e, *f, t as int, j, 0)) by {
            }
        }
        let pages = fill(e, Ghost(*f), &tab, Ghost(t as int));
        filled.push(pages);
        t = t + 1;
    }
    proof { lemma_positions(*e, *f, 20); }
    let mut first_empty_page: u32 = 1;
    let mut u: usize = 0;
    while u < 20
        invariant
            u <= 20,
            export_ok(*e, *f),
            filled@.len() == 20,
            forall|v: int| 0 <= v < 20 ==> page_rows((#[trigger] filled@[v])@) == all_pages(*e, *f, v),
            first_empty_page as int == index_pos(*e, *f, u as int),
            index_pos(*e, *f, 20) <= 21 + 0x0FFF_FFFF,
        decreases 20 - u,
    {
        proof {
            lemma_positions(*e, *f, u + 1);
            lemma_index_pos_mono(*e, *f, u + 1);
            assert(filled@[u as int]@.len() == page_count(*e, *f, u as int));
        }
        first_empty_page = first_empty_page + 1 + filled[u].len() as u32;
        u = u + 1;
    }
    let mut body: Vec<u8> = Vec::new();
    let mut pointers: Vec<(u32, u32, u32, u32)> = Vec::new();
    let mut pos: u32 = 1;
    let mut next_seq: u32 = 10;
    let mut max_seq: u32 = 3;
    let ghost tables = Seq::new(20, |v: int| table_bytes(*e, *f, v));
    let ghost ptrs = Seq::new(20, |v: int| pointer(*e, *f, v));
    let mut t: u32 = 0;
    assert(tables.take(0) =~= Seq::<Seq<u8>>::empty());
    while t < 20
        invariant
            t <= 20,
            export_ok(*e, *f),
            filled@.len() == 20,
            forall|v: int| 0 <= v < 20 ==> page_rows((#[trigger] filled@[v])@) == all_pages(*e, *f, v),
            forall|v: int, k: int| 0 <= v < 20 && 0 <= k < filled@[v]@.len() ==> {
                &&& (#[trigger] filled@[v]@[k]).wf()
                &&& filled@[v]@[k].table == v
                &&& filled@[v]@[k].style == table_style(v)
            },
            first_empty_page as int == first_empty(*e, *f),
            first_empty(*e, *f) <= 21 + 0x0FFF_FFFF,
            pos as int == index_pos(*e, *f, t as int),
            next_seq as int == 10 + counted_before(*e, *f, t as int),
            max_seq as int == max_seq_upto(*e, *f, t as int),
            tables == Seq::new(20, |v: int| table_bytes(*e, *f, v)),
            ptrs == Seq::new(20, |v: int| pointer(*e, *f, v)),
            body@ == flatten(tables.take(t as int)),
            pointers@ == ptrs.take(t as int),
        decreases 20 - t,
    {
        proof {
            lemma_positions(*e, *f, t + 1);
            lemma_index_pos_mono(*e, *f, t + 1);
            lemma_index_pos_mono(*e, *f, 20);
            assert(filled@[t as int]@.len() == page_count(*e, *f, t as int));
        }
        let n = filled[t as usize].len() as u32;
        let empty = first_empty_page + t;
        let first: Option<u32> = if n > 0 { Some(pos + 1) } else { None };
        let last = pos + n;
        pointers.push((t, empty, pos, last));
        let ghost before = body@;
        let ip = index_page(pos, t, match first { Some(d) => d, None => empty }, first);
        crate::bytes::push_all(&mut body, ip.as_slice());
        emit_data_pages(&mut body, &filled[t as usize], Ghost(*e), Ghost(*f), t, pos, empty, &mut next_seq, &mut max_seq);
        proof {
            assert(body@ =~= before + table_bytes(*e, *f, t as int));
            assert(tables.take(t + 1).drop_last() =~= tables.take(t as int));
            assert(pointers@ =~= ptrs.take(t + 1));
        }
        pos = pos + 1 + n;
        t = t + 1;
    }
    assert(tables.take(20) =~= tables);
    assert(ptrs.take(20) =~= ptrs);
    let mut out = header_page(NUM_TABLES, first_empty_page + 20, max_seq + 1, pointers.as_slice());
    crate::bytes::push_all(&mut out, body.as_slice());
    crate::bytes::push_zeros(&mut out, 20 * PAGE_LEN);
    out
}

proof fn lemma_index_pos_mono(e: Export, f: FixedTables, t: int)
    requires
        0 <= t,
    ensures
        forall|u: int| 0 <= u <= t ==> #[trigger] index_pos(e, f, u) <= index_pos(e, f, t),
    decreases t,
{
    if t > 0 {
        lemma_index_pos_mono(e, f, t - 1);
    }
}

}
