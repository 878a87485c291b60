//! DeviceSQL pages: 4096 bytes, a 40-byte header, rows growing up from
//! offset 0x28 and a row directory growing down from the end in groups of 16.
use vstd::prelude::*;
use crate::bytes::{le16, le32, push_le16, push_le32, push_zeros, zeros};

verus! {

pub const PAGE_LEN: usize = 4096;
pub const HEAP_START: usize = 0x28;
pub const GROUP_BYTES: usize = 36;
pub const NONE: u32 = 0x03FF_FFFF;

/// How the two "fixed" tables differ from everything else in the header.
#[derive(Debug, Clone, Copy, PartialEq, Eq)]
pub enum HeaderStyle {
    /// `unknown5 = 1`, `num_rows_large = rows - 1`.
    Normal,
    /// colors and columns: `unknown5 = rows`, `num_rows_large = 0`.
    Fixed,
}

/// One data page being filled.
#[derive(Debug)]
pub struct DataPage {
    pub index: u32,
    pub table: u32,
    pub next: u32,
    pub seq: u32,
    pub style: HeaderStyle,
    /// The rows in the order they were pushed.
    pub rows: Vec<Vec<u8>>,
    /// Heap bytes the rows take, each padded to four.
    pub heap_used: usize,
}

/// `n` rounded up to a multiple of four.
pub open spec fn spec_align4(n: int) -> int {
    (n + 3) / 4 * 4
}

/// Bytes the row directory of `rows` rows takes: 36 per full group of 16,
/// and two per row plus four for a partial group.
pub open spec fn spec_dir_bytes(rows: int) -> int {
    let rest = rows % 16;
    rows / 16 * 36 + if rest > 0 { rest * 2 + 4 } else { 0 }
}

/// One row followed by the zero bytes that pad it to a multiple of four.
pub open spec fn padded_row(r: Seq<u8>) -> Seq<u8> {
    r + zeros(spec_align4(r.len() as int) - r.len())
}

/// The heap: every row padded to four bytes, in order.
pub open spec fn heap_of(rows: Seq<Seq<u8>>) -> Seq<u8>
    decreases rows.len(),
{
    if rows.len() == 0 { seq![] } else { heap_of(rows.drop_last()) + padded_row(rows.last()) }
}

/// Heap offset of every row.
pub open spec fn offsets_of(rows: Seq<Seq<u8>>) -> Seq<u16> {
    Seq::new(rows.len(), |i: int| heap_of(rows.take(i)).len() as u16)
}

/// The flag word of a group holding `k` rows: one bit per row present.
pub open spec fn mask_of(k: int) -> u16
    decreases k,
{
    if k <= 0 { 0 } else { (mask_of(k - 1) * 2 + 1) as u16 }
}

/// Row offsets of a group from the last slot down to slot 0.
pub open spec fn rev_offsets(offs: Seq<u16>) -> Seq<u8>
    decreases offs.len(),
{
    if offs.len() == 0 { seq![] } else { le16(offs.last()) + rev_offsets(offs.drop_last()) }
}

/// The directory bytes of one group: row offsets from the last slot down
/// to slot 0, then the flag word twice.
pub open spec fn group_dir(offs: Seq<u16>) -> Seq<u8> {
    rev_offsets(offs) + le16(mask_of(offs.len() as int)) + le16(mask_of(offs.len() as int))
}

/// The directory from group `g` on, as it sits in memory: later groups
/// first, group `g` last.
pub open spec fn dir_from(offs: Seq<u16>, g: int) -> Seq<u8>
    decreases offs.len() + 16 - g * 16,
{
    if g < 0 || g * 16 >= offs.len() {
        seq![]
    } else {
        let end = if g * 16 + 16 <= offs.len() { g * 16 + 16 } else { offs.len() as int };
        dir_from(offs, g + 1) + group_dir(offs.subrange(g * 16, end))
    }
}

impl DataPage {
    /// The rows, in order.
    pub open spec fn rows_view(&self) -> Seq<Seq<u8>> {
        self.rows@.map_values(|r: Vec<u8>| r@)
    }

    /// Heap bytes the rows take.
    pub open spec fn heap_used_view(&self) -> int {
        self.heap_used as int
    }

    /// The heap accounts for every row, and rows and directory fit the page.
    pub open spec fn wf(&self) -> bool {
        &&& self.heap_used as int == heap_of(self.rows_view()).len()
        &&& self.heap_used + spec_dir_bytes(self.rows@.len() as int) <= PAGE_LEN - HEAP_START
        &&& self.rows@.len() <= 0x1fff
    }

    /// The 40-byte header this page writes.
    pub open spec fn header(&self) -> Seq<u8> {
        page_header(self.index, self.table, self.next, self.seq, self.style, self.rows_view())
    }

    /// The whole page: header, rows, free space, directory.
    pub open spec fn spec_bytes(&self) -> Seq<u8> {
        page_bytes(self.index, self.table, self.next, self.seq, self.style, self.rows_view())
    }
}

/// The 40-byte header of a data page holding `rows`.
pub open spec fn page_header(index: u32, table: u32, next: u32, seq: u32, style: HeaderStyle, rows: Seq<Seq<u8>>) -> Seq<u8> {
    let n = rows.len() as int;
    let used = heap_of(rows).len() as int;
    let free = PAGE_LEN - HEAP_START - used - spec_dir_bytes(n);
    let (u5, nrl) = match style {
        HeaderStyle::Normal => (1u16, if n > 0 { (n - 1) as u16 } else { 0u16 }),
        HeaderStyle::Fixed => (n as u16, 0u16),
    };
    zeros(4) + le32(index) + le32(table) + le32(next) + le32(seq) + zeros(4)
        + seq![(n % 256) as u8, ((n % 8) * 32 + (n / 256) % 32) as u8, ((n / 8) % 256) as u8, 0x24u8]
        + le16(free as u16) + le16(used as u16) + le16(u5) + le16(nrl) + zeros(4)
}

/// A whole data page holding `rows`: header, rows, free space, directory.
pub open spec fn page_bytes(index: u32, table: u32, next: u32, seq: u32, style: HeaderStyle, rows: Seq<Seq<u8>>) -> Seq<u8> {
    let free = PAGE_LEN - HEAP_START - heap_of(rows).len() - spec_dir_bytes(rows.len() as int);
    page_header(index, table, next, seq, style, rows) + heap_of(rows) + zeros(free) + dir_from(offsets_of(rows), 0)
}

/// `n` rounded up to a multiple of four.
pub fn align4(n: usize) -> (r: usize)
    requires
        n + 3 <= usize::MAX,
    ensures
        r as int == spec_align4(n as int),
        n <= r < n + 4,
{
    proof { lemma_align4(n as int); }
    (n + 3) / 4 * 4
}

pub proof fn lemma_align4(n: int)
    requires
        0 <= n,
    ensures
        n <= spec_align4(n) < n + 4,
        spec_align4(n) % 4 == 0,
{
    assert(n <= (n + 3) / 4 * 4 < n + 4) by (nonlinear_arith)
        requires 0 <= n;
    assert(((n + 3) / 4 * 4) % 4 == 0) by (nonlinear_arith)
        requires 0 <= n;
}

/// Bytes the row directory of `rows` rows takes.
pub fn dir_bytes(rows: usize) -> (r: usize)
    requires
        rows <= 0x2000,
    ensures
        r as int == spec_dir_bytes(rows as int),
{
    let full = rows / 16;
    let rest = rows % 16;
    full * GROUP_BYTES + if rest > 0 { rest * 2 + 4 } else { 0 }
}

proof fn lemma_rev_offsets_len(offs: Seq<u16>)
    ensures
        rev_offsets(offs).len() == 2 * offs.len(),
    decreases offs.len(),
{
    if offs.len() > 0 {
        lemma_rev_offsets_len(offs.drop_last());
    }
}

proof fn lemma_dir_from_len(offs: Seq<u16>, g: int)
    requires
        0 <= g,
        g * 16 <= offs.len(),
    ensures
        dir_from(offs, g).len() == spec_dir_bytes(offs.len() as int) - 36 * g,
    decreases offs.len() + 16 - g * 16,
{
    if g * 16 < offs.len() {
        let end = if g * 16 + 16 <= offs.len() { g * 16 + 16 } else { offs.len() as int };
        lemma_rev_offsets_len(offs.subrange(g * 16, end));
        if g * 16 + 16 <= offs.len() {
            lemma_dir_from_len(offs, g + 1);
        } else {
            assert(dir_from(offs, g + 1) == Seq::<u8>::empty());
            assert(offs.len() / 16 == g);
        }
    } else {
        assert(offs.len() / 16 == g);
    }
}

/// The row view of the first `i` rows, extended by row `i`.
proof fn lemma_heap_step(rows: Seq<Seq<u8>>, i: int)
    requires
        0 <= i < rows.len(),
    ensures
        heap_of(rows.take(i + 1)) == heap_of(rows.take(i)) + padded_row(rows[i]),
{
    assert(rows.take(i + 1).drop_last() =~= rows.take(i));
}

/// The flag word of `k` rows.
fn mask(k: usize) -> (m: u16)
    requires
        k <= 16,
    ensures
        m == mask_of(k as int),
        m as int == mask_of(k as int) as int,
{
    let mut m: u16 = 0;
    let mut i: usize = 0;
    while i < k
        invariant
            i <= k <= 16,
            m == mask_of(i as int),
            m as int + 1 == pow2_16(i as int),
        decreases k - i,
    {
        proof { lemma_pow2_16_bound(i as int + 1); }
        m = m * 2 + 1;
        i = i + 1;
    }
    m
}

/// `2^k` for `k <= 16`.
spec fn pow2_16(k: int) -> int
    decreases k,
{
    if k <= 0 { 1 } else { 2 * pow2_16(k - 1) }
}

proof fn lemma_pow2_16_bound(k: int)
    requires
        0 <= k <= 16,
    ensures
        pow2_16(k) <= 65536,
    decreases 16 - k,
{
    if k < 16 {
        lemma_pow2_16_bound(k + 1);
    } else {
        reveal_with_fuel(pow2_16, 17);
    }
}

impl DataPage {
    pub fn new(index: u32, table: u32, seq: u32, style: HeaderStyle) -> (p: Self)
        ensures
            p.wf(),
            p.index == index,
            p.table == table,
            p.seq == seq,
            p.style == style,
            p.next == NONE,
            p.rows_view() == Seq::<Seq<u8>>::empty(),
    {
        let p = DataPage { index, table, next: NONE, seq, style, rows: Vec::new(), heap_used: 0 };
        assert(p.rows_view() =~= Seq::<Seq<u8>>::empty());
        p
    }

    /// Number of rows on the page.
    pub fn rows(&self) -> (n: usize)
        ensures
            n == self.rows_view().len(),
    {
        self.rows.len()
    }

    pub fn is_empty(&self) -> (b: bool)
        ensures
            b == (self.rows_view().len() == 0),
    {
        self.rows.len() == 0
    }

    /// Append a row if it fits; the row is padded to 4 bytes like rekordbox does.
    pub fn try_push(&mut self, row: &[u8]) -> (pushed: bool)
        requires
            old(self).wf(),
        ensures
            final(self).wf(),
            pushed == (old(self).heap_used_view() + spec_align4(row@.len() as int)
                + spec_dir_bytes(old(self).rows_view().len() + 1int) <= PAGE_LEN - HEAP_START
                && old(self).rows_view().len() < 0x1fff),
            pushed ==> final(self).rows_view() == old(self).rows_view().push(row@),
            pushed ==> final(self).heap_used_view() == old(self).heap_used_view() + spec_align4(row@.len() as int),
            !pushed ==> final(self).rows_view() == old(self).rows_view(),
            !pushed ==> final(self).heap_used_view() == old(self).heap_used_view(),
            final(self).index == old(self).index,
            final(self).table == old(self).table,
            final(self).next == old(self).next,
            final(self).seq == old(self).seq,
            final(self).style == old(self).style,
    {
        if row.len() > PAGE_LEN || self.rows.len() >= 0x1fff {
            return false;
        }
        let need = self.heap_used + align4(row.len()) + dir_bytes(self.rows.len() + 1);
        if need > PAGE_LEN - HEAP_START {
            return false;
        }
        let mut copy: Vec<u8> = Vec::new();
        crate::bytes::push_all(&mut copy, row);
        let ghost before = self.rows_view();
        self.heap_used = self.heap_used + align4(row.len());
        self.rows.push(copy);
        proof {
            assert(self.rows_view() =~= before.push(row@));
            assert(self.rows_view().drop_last() =~= before);
        }
        true
    }

    /// The page's 4096 bytes.
    pub fn to_bytes(&self) -> (out: Vec<u8>)
        requires
            self.wf(),
        ensures
            out@ == self.spec_bytes(),
            out@.len() == PAGE_LEN,
    {
        self.render(self.index, self.next, self.seq)
    }

    /// The page's 4096 bytes, with its index, next page and sequence given.
    pub fn render(&self, index: u32, next: u32, seq: u32) -> (out: Vec<u8>)
        requires
            self.wf(),
        ensures
            out@ == page_bytes(index, self.table, next, seq, self.style, self.rows_view()),
            out@.len() == PAGE_LEN,
    {
        let n = self.rows.len();
        let used = self.heap_used;
        let free = PAGE_LEN - HEAP_START - used - dir_bytes(n);
        let (u5, nrl): (u16, u16) = match self.style {
            HeaderStyle::Normal => (1u16, if n > 0 { (n - 1) as u16 } else { 0u16 }),
            HeaderStyle::Fixed => (n as u16, 0u16),
        };
        let mut p: Vec<u8> = Vec::new();
        push_zeros(&mut p, 4);
        push_le32(&mut p, index);
        push_le32(&mut p, self.table);
        push_le32(&mut p, next);
        push_le32(&mut p, seq);
        push_zeros(&mut p, 4);
        p.push((n % 256) as u8);
        p.push(((n % 8) * 32 + (n / 256) % 32) as u8);
        p.push(((n / 8) % 256) as u8);
        p.push(0x24u8);
        push_le16(&mut p, free as u16);
        push_le16(&mut p, used as u16);
        push_le16(&mut p, u5);
        push_le16(&mut p, nrl);
        push_zeros(&mut p, 4);
        assert(p@ =~= page_header(index, self.table, next, seq, self.style, self.rows_view()));

        let ghost rows = self.rows_view();
        let ghost head = p@;
        let mut offs: Vec<u16> = Vec::new();
        let mut cur: usize = 0;
        let mut i: usize = 0;
        assert(rows.take(0) =~= Seq::<Seq<u8>>::empty());
        while i < n
            invariant
                n == self.rows@.len(),
                rows == self.rows_view(),
                self.wf(),
                i <= n,
                p@ == head + heap_of(rows.take(i as int)),
                cur as int == heap_of(rows.take(i as int)).len(),
                offs@.len() == i,
                forall|j: int| 0 <= j < i ==> #[trigger] offs@[j] == heap_of(rows.take(j)).len() as u16,
            decreases n - i,
        {
            proof {
                lemma_heap_step(rows, i as int);
                lemma_heap_prefix(rows, i + 1);
                assert(rows[i as int] == self.rows@[i as int]@);
            }
            offs.push(cur as u16);
            let row = &self.rows[i];
            let padded = align4(row.len());
            crate::bytes::push_all(&mut p, row.as_slice());
            push_zeros(&mut p, padded - row.len());
            cur = cur + padded;
            i = i + 1;
            assert(p@ =~= head + heap_of(rows.take(i as int)));
        }
        assert(rows.take(n as int) =~= rows);
        let ghost offsets = offsets_of(rows);
        assert(offs@ =~= offsets);
        push_zeros(&mut p, free);

        let ghost base = p@;
        let groups = (n + 15) / 16;
        let mut g = groups;
        while g > 0
            invariant
                n == offs@.len(),
                n <= 0x1fff,
                groups == (n + 15) / 16,
                g <= groups,
                p@ == base + dir_from(offs@, g as int),
            decreases g,
        {
            let gi = g - 1;
            let start = gi * 16;
            let end = if start + 16 <= n { start + 16 } else { n };
            let ghost o = offs@.subrange(start as int, end as int);
            let ghost before = p@;
            let mut t = end - start;
            assert(o.take(t as int) =~= o);
            while t > 0
                invariant
                    start + t <= end <= n == offs@.len(),
                    end - start <= 16,
                    o == offs@.subrange(start as int, end as int),
                    p@ + rev_offsets(o.take(t as int)) == before + rev_offsets(o),
                decreases t,
            {
                let ghost q = p@;
                push_le16(&mut p, offs[start + t - 1]);
                proof {
                    assert(o.take(t as int).drop_last() =~= o.take(t - 1));
                    assert(o.take(t as int).last() == offs@[start + t - 1]);
                    assert(q + rev_offsets(o.take(t as int)) =~= p@ + rev_offsets(o.take(t - 1)));
                }
                t = t - 1;
            }
            assert(o.take(0) =~= Seq::<u16>::empty());
            assert(p@ + Seq::<u8>::empty() =~= p@);
            let m = mask(end - start);
            push_le16(&mut p, m);
            push_le16(&mut p, m);
            proof {
                assert(dir_from(offs@, gi as int) == dir_from(offs@, g as int) + group_dir(o));
                assert(p@ =~= base + dir_from(offs@, gi as int));
            }
            g = gi;
        }
        proof {
            lemma_dir_from_len(offs@, 0);
            assert(p@ =~= page_bytes(index, self.table, next, seq, self.style, self.rows_view()));
        }
        p
    }
}

/// The heap of a prefix of rows never outgrows the heap of all of them.
proof fn lemma_heap_prefix(rows: Seq<Seq<u8>>, k: int)
    requires
        0 <= k <= rows.len(),
    ensures
        heap_of(rows.take(k)).len() <= heap_of(rows).len(),
    decreases rows.len() - k,
{
    if k < rows.len() {
        lemma_heap_step(rows, k);
        lemma_heap_prefix(rows, k + 1);
    } else {
        assert(rows.take(k) =~= rows);
    }
}

/// `w` written little-endian `n` times.
pub open spec fn repeat_le32(w: u32, n: nat) -> Seq<u8>
    decreases n,
{
    if n == 0 { seq![] } else { repeat_le32(w, (n - 1) as nat) + le32(w) }
}

/// The index page every table starts with.
pub open spec fn spec_index_page(index: u32, table: u32, next: u32, first_data: Option<u32>) -> Seq<u8> {
    let first = match first_data {
        Some(f) => f,
        None => NONE,
    };
    zeros(4) + le32(index) + le32(table) + le32(next) + le32(1) + zeros(7) + seq![0x64u8]
        + zeros(4) + le16(0x1fff) + le16(0x1fff) + le16(0x03ec) + zeros(2)
        + le32(index) + le32(first) + le32(NONE) + le32(0) + le32(0x1FFF_0000)
        + repeat_le32(0x1FFF_FFF8, 1004) + zeros(20)
}

/// The page every table starts with. `next` is the first data page, or the
/// empty candidate when the table has no rows.
pub fn index_page(index: u32, table: u32, next: u32, first_data: Option<u32>) -> (p: Vec<u8>)
    ensures
        p@ == spec_index_page(index, table, next, first_data),
        p@.len() == PAGE_LEN,
{
    let mut p: Vec<u8> = Vec::new();
    push_zeros(&mut p, 4);
    push_le32(&mut p, index);
    push_le32(&mut p, table);
    push_le32(&mut p, next);
    push_le32(&mut p, 1);
    push_zeros(&mut p, 7);
    p.push(0x64);
    push_zeros(&mut p, 4);
    push_le16(&mut p, 0x1fff);
    push_le16(&mut p, 0x1fff);
    push_le16(&mut p, 0x03ec);
    push_zeros(&mut p, 2);
    let first = match first_data {
        Some(f) => f,
        None => NONE,
    };
    push_le32(&mut p, index);
    push_le32(&mut p, first);
    push_le32(&mut p, NONE);
    push_le32(&mut p, 0);
    push_le32(&mut p, 0x1FFF_0000);
    let ghost start = p@;
    let mut k: usize = 0;
    while k < 1004
        invariant
            k <= 1004,
            p@ == start + repeat_le32(0x1FFF_FFF8, k as nat),
            start.len() == 0x3c,
        decreases 1004 - k,
    {
        push_le32(&mut p, 0x1FFF_FFF8);
        k = k + 1;
        assert(p@ =~= start + repeat_le32(0x1FFF_FFF8, k as nat));
    }
    proof { lemma_repeat_le32_len(0x1FFF_FFF8, 1004); }
    push_zeros(&mut p, 20);
    assert(p@ =~= spec_index_page(index, table, next, first_data));
    p
}

proof fn lemma_repeat_le32_len(w: u32, n: nat)
    ensures
        repeat_le32(w, n).len() == 4 * n,
    decreases n,
{
    if n > 0 {
        lemma_repeat_le32_len(w, (n - 1) as nat);
    }
}

/// The table pointers of the file header, 16 bytes each.
pub open spec fn pointer_bytes(pointers: Seq<(u32, u32, u32, u32)>) -> Seq<u8>
    decreases pointers.len(),
{
    if pointers.len() == 0 {
        seq![]
    } else {
        let (ty, empty, first, last) = pointers.last();
        pointer_bytes(pointers.drop_last()) + le32(ty) + le32(empty) + le32(first) + le32(last)
    }
}

/// The file header, page 0.
pub open spec fn spec_header_page(
    num_tables: u32,
    next_unused: u32,
    sequence: u32,
    pointers: Seq<(u32, u32, u32, u32)>,
) -> Seq<u8> {
    zeros(4) + le32(PAGE_LEN as u32) + le32(num_tables) + le32(next_unused) + le32(1) + le32(sequence)
        + zeros(4) + pointer_bytes(pointers) + zeros(PAGE_LEN - 0x1c - 16 * pointers.len())
}

proof fn lemma_pointer_bytes_len(pointers: Seq<(u32, u32, u32, u32)>)
    ensures
        pointer_bytes(pointers).len() == 16 * pointers.len(),
    decreases pointers.len(),
{
    if pointers.len() > 0 {
        lemma_pointer_bytes_len(pointers.drop_last());
    }
}

/// File header: page 0. Holds at most 254 table pointers.
pub fn header_page(
    num_tables: u32,
    next_unused: u32,
    sequence: u32,
    pointers: &[(u32, u32, u32, u32)],
) -> (p: Vec<u8>)
    requires
        0x1c + 16 * pointers@.len() <= PAGE_LEN,
    ensures
        p@ == spec_header_page(num_tables, next_unused, sequence, pointers@),
        p@.len() == PAGE_LEN,
{
    let mut p: Vec<u8> = Vec::new();
    push_zeros(&mut p, 4);
    push_le32(&mut p, PAGE_LEN as u32);
    push_le32(&mut p, num_tables);
    push_le32(&mut p, next_unused);
    push_le32(&mut p, 1);
    push_le32(&mut p, sequence);
    push_zeros(&mut p, 4);
    let ghost start = p@;
    let mut i: usize = 0;
    while i < pointers.len()
        invariant
            i <= pointers@.len(),
            0x1c + 16 * pointers@.len() <= PAGE_LEN,
            p@ == start + pointer_bytes(pointers@.take(i as int)),
        decreases pointers@.len() - i,
    {
        let (ty, empty, first, last) = pointers[i];
        push_le32(&mut p, ty);
        push_le32(&mut p, empty);
        push_le32(&mut p, first);
        push_le32(&mut p, last);
        proof {
            assert(pointers@.take(i + 1).drop_last() =~= pointers@.take(i as int));
        }
        i = i + 1;
        assert(p@ =~= start + pointer_bytes(pointers@.take(i as int)));
    }
    assert(pointers@.take(i as int) =~= pointers@);
    proof { lemma_pointer_bytes_len(pointers@); }
    push_zeros(&mut p, PAGE_LEN - 0x1c - 16 * pointers.len());
    p
}

}
