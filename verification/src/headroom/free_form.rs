//! What a read gives back of the free-form items put back into an MP4.
use vstd::prelude::*;
use crate::bytes::{be32, be32_at, flatten, patch_be32};
use super::tags::{
    box_end, box_size_at, find_box_from, free_form_type, grow_chain, ilst_type, items_from, meta_type,
    moov_from, moov_type, spec_free_form_items, spec_ilst_chain, spec_read_free_form,
    spec_restore_free_form, top_box_size, udta_type,
};

verus! {

/// A free-form item as it is put back: a whole `----` box, its declared
/// length its own.
pub open spec fn free_form_item(it: Seq<u8>) -> bool {
    &&& it.len() >= 8
    &&& be32_at(it, 0) == it.len()
    &&& it.subrange(4, 8) == free_form_type()
}

/// The boxes from `p` tile `[p, e)` exactly.
pub open spec fn tiled(b: Seq<u8>, p: int, e: int) -> bool
    decreases e - p,
{
    if p == e {
        true
    } else if 0 <= p && p + 8 <= e && e <= b.len() {
        let s = box_size_at(b, p);
        s >= 8 && p + s <= e && tiled(b, p + s, e)
    } else {
        false
    }
}

proof fn lemma_find_ge(b: Seq<u8>, pos: int, e: int, w: Seq<u8>)
    ensures
        match find_box_from(b, pos, e, w) {
            Some(t) => pos <= t && t + 8 <= e && e <= b.len() && box_size_at(b, t) >= 8
                && t + box_size_at(b, t) <= e && b.subrange(t + 4, t + 8) == w,
            None => true,
        },
    decreases e - pos,
{
    if 0 <= pos && pos + 8 <= e && e <= b.len() {
        let size = box_size_at(b, pos);
        if !(size < 8 || pos + size > e) && b.subrange(pos + 4, pos + 8) != w {
            lemma_find_ge(b, pos + size, e, w);
        }
    }
}

/// Two buffers that agree on the bytes before `t` and on the type of the
/// box at `t` find the same box, whatever its length, as long as it fits.
proof fn lemma_find_agree(b1: Seq<u8>, b2: Seq<u8>, pos: int, e1: int, e2: int, w: Seq<u8>, t: int)
    requires
        find_box_from(b1, pos, e1, w) == Some(t),
        e2 <= b2.len(),
        forall|k: int| pos <= k < t ==> #[trigger] b1[k] == b2[k],
        t + 8 <= b2.len(),
        b2.subrange(t + 4, t + 8) == w,
        box_size_at(b2, t) >= 8,
        t + box_size_at(b2, t) <= e2,
    ensures
        find_box_from(b2, pos, e2, w) == Some(t),
    decreases e1 - pos,
{
    lemma_find_ge(b1, pos, e1, w);
    let size = box_size_at(b1, pos);
    if pos == t {
        assert(box_size_at(b2, pos) >= 8);
    } else {
        assert(b1.subrange(pos + 4, pos + 8) != w);
        lemma_find_ge(b1, pos + size, e1, w);
        assert(pos + 8 <= pos + size <= t);
        assert(box_size_at(b2, pos) == size) by {
            assert(b1[pos] == b2[pos] && b1[pos + 1] == b2[pos + 1] && b1[pos + 2] == b2[pos + 2] && b1[pos + 3] == b2[pos + 3]);
        }
        assert(b2.subrange(pos + 4, pos + 8) =~= b1.subrange(pos + 4, pos + 8));
        lemma_find_agree(b1, b2, pos + size, e1, e2, w, t);
    }
}

/// Over boxes that tile `[p, e)`, the items up to a later end are those up
/// to `e` and then those from `e`.
proof fn lemma_items_split(b: Seq<u8>, p: int, e: int, end: int)
    requires
        tiled(b, p, e),
        e <= end <= b.len(),
    ensures
        items_from(b, p, end) == items_from(b, p, e) + items_from(b, e, end),
    decreases e - p,
{
    if p != e {
        let s = box_size_at(b, p);
        lemma_items_split(b, p + s, e, end);
        if b.subrange(p + 4, p + 8) == free_form_type() {
            assert(items_from(b, p, end) =~= seq![b.subrange(p, p + s)] + items_from(b, p + s, end));
            assert(items_from(b, p, e) =~= seq![b.subrange(p, p + s)] + items_from(b, p + s, e));
        }
    } else {
        assert(items_from(b, p, e) =~= Seq::<Seq<u8>>::empty());
    }
}

/// Tilings join.
proof fn lemma_tiled_join(b: Seq<u8>, p: int, e: int, end: int)
    requires
        tiled(b, p, e),
        tiled(b, e, end),
        end <= b.len(),
    ensures
        tiled(b, p, end),
    decreases e - p,
{
    if p != e {
        let s = box_size_at(b, p);
        lemma_tiled_join(b, p + s, e, end);
        lemma_tiled_le(b, e, end);
    }
}

proof fn lemma_tiled_le(b: Seq<u8>, p: int, e: int)
    requires
        tiled(b, p, e),
    ensures
        p <= e,
        p < e ==> 0 <= p && e <= b.len(),
    decreases e - p,
{
    if p != e {
        lemma_tiled_le(b, p + box_size_at(b, p), e);
    }
}

/// The items over a tiled region depend on its bytes alone.
proof fn lemma_items_agree(b1: Seq<u8>, b2: Seq<u8>, p: int, e: int)
    requires
        tiled(b1, p, e),
        e <= b2.len(),
        forall|k: int| p <= k < e ==> #[trigger] b1[k] == b2[k],
    ensures
        tiled(b2, p, e),
        items_from(b1, p, e) == items_from(b2, p, e),
    decreases e - p,
{
    if p != e {
        let s = box_size_at(b1, p);
        assert(box_size_at(b2, p) == s) by {
            assert(b1[p] == b2[p] && b1[p + 1] == b2[p + 1] && b1[p + 2] == b2[p + 2] && b1[p + 3] == b2[p + 3]);
        }
        lemma_tiled_le(b1, p + s, e);
        assert(b2.subrange(p + 4, p + 8) =~= b1.subrange(p + 4, p + 8));
        assert(b2.subrange(p, p + s) =~= b1.subrange(p, p + s));
        lemma_items_agree(b1, b2, p + s, e);
    }
}

/// Items laid one after the other from `at` read back as themselves.
proof fn lemma_items_read_back(b: Seq<u8>, at: int, items: Seq<Seq<u8>>)
    requires
        0 <= at,
        at + flatten(items).len() <= b.len(),
        b.subrange(at, at + flatten(items).len()) == flatten(items),
        forall|k: int| 0 <= k < items.len() ==> free_form_item(#[trigger] items[k]),
    ensures
        tiled(b, at, at + flatten(items).len()),
        items_from(b, at, at + flatten(items).len()) == items,
    decreases items.len(),
{
    let f = flatten(items);
    if items.len() == 0 {
        assert(items_from(b, at, at) =~= Seq::<Seq<u8>>::empty());
    } else {
        let init = items.drop_last();
        let last = items.last();
        let fi = flatten(init);
        let q = at + fi.len();
        assert(f == fi + last);
        assert(b.subrange(at, q) =~= fi) by {
            assert forall|k: int| 0 <= k < fi.len() implies b.subrange(at, q)[k] == fi[k] by {
                assert(b.subrange(at, at + f.len())[k] == f[k]);
            }
        }
        assert forall|k: int| 0 <= k < init.len() implies free_form_item(#[trigger] init[k]) by {
            assert(init[k] == items[k]);
        }
        lemma_items_read_back(b, at, init);
        assert(free_form_item(last)) by {
            assert(last == items[items.len() - 1]);
        }
        let e = q + last.len();
        assert(b.subrange(q, e) =~= last) by {
            assert forall|k: int| 0 <= k < last.len() implies b.subrange(q, e)[k] == last[k] by {
                assert(b.subrange(at, at + f.len())[fi.len() + k] == f[fi.len() + k]);
            }
        }
        assert(box_size_at(b, q) == last.len()) by {
            assert(b[q] == last[0] && b[q + 1] == last[1] && b[q + 2] == last[2] && b[q + 3] == last[3]);
        }
        assert(b.subrange(q + 4, q + 8) =~= last.subrange(4, 8));
        assert(tiled(b, e, e));
        assert(tiled(b, q, e));
        assert(items_from(b, e, e) =~= Seq::<Seq<u8>>::empty());
        assert(items_from(b, q, e) =~= seq![last]);
        lemma_tiled_join(b, at, q, e);
        lemma_items_split(b, at, q, e);
        assert(init + seq![last] =~= items);
    }
}


/// The top-level boxes from `pos` tile `[pos, start)`, each with a 32-bit
/// length, or a 64-bit one read from bytes before `start`.
pub open spec fn clean_top(data: Seq<u8>, pos: int, start: int) -> bool
    decreases start - pos,
{
    if pos == start {
        true
    } else if 0 <= pos && pos + 8 <= start && start <= data.len() {
        let s = be32_at(data, pos);
        &&& s != 0
        &&& (s == 1 ==> pos + 16 <= start)
        &&& match top_box_size(data, pos) {
            Some(z) => z >= 8 && pos + z <= start && clean_top(data, pos + z, start),
            None => false,
        }
    } else {
        false
    }
}

proof fn lemma_moov_from_found(d: Seq<u8>, pos: int, f: Option<(int, int)>)
    ensures
        match moov_from(d, pos, f) {
            Ok(Some((s, z))) => Some((s, z)) == f || (0 <= s && s + 8 <= d.len()
                && d.subrange(s + 4, s + 8) == moov_type() && top_box_size(d, s) == Some(z)
                && z >= 8 && s + z <= d.len()),
            _ => true,
        },
    decreases d.len() - pos,
{
    if 0 <= pos && pos + 8 <= d.len() {
        match top_box_size(d, pos) {
            None => {},
            Some(size) => if !(size < 8 || pos + size > d.len()) {
                if d.subrange(pos + 4, pos + 8) == moov_type() {
                    lemma_moov_from_found(d, pos + size, Some((pos, size)));
                } else {
                    lemma_moov_from_found(d, pos + size, f);
                }
            },
        }
    }
}

/// A buffer that keeps the bytes before `start` and ends with a box at
/// `start` of the right type and length finds that box as its `moov`.
proof fn lemma_moov_walk(data: Seq<u8>, out: Seq<u8>, pos: int, start: int, f: Option<(int, int)>)
    requires
        clean_top(data, pos, start),
        0 <= pos,
        start <= out.len(),
        forall|k: int| 0 <= k < start ==> #[trigger] data[k] == out[k],
        out.len() - start >= 8,
        be32_at(out, start) == out.len() - start,
        out.subrange(start + 4, start + 8) == moov_type(),
    ensures
        moov_from(out, pos, f) == Ok::<Option<(int, int)>, ()>(Some((start, out.len() - start))),
    decreases start - pos,
{
    if pos == start {
        let z = out.len() - start;
        assert(top_box_size(out, start) == Some(z));
        assert(moov_from(out, start + z, Some((start, z))) == Ok::<Option<(int, int)>, ()>(Some((start, z))));
    } else {
        let s = be32_at(data, pos);
        assert(be32_at(out, pos) == s) by {
            assert(data[pos] == out[pos] && data[pos + 1] == out[pos + 1] && data[pos + 2] == out[pos + 2] && data[pos + 3] == out[pos + 3]);
        }
        if s == 1 {
            assert(crate::bytes::be64_at(out, pos + 8) == crate::bytes::be64_at(data, pos + 8)) by {
                assert(data[pos + 8] == out[pos + 8] && data[pos + 9] == out[pos + 9] && data[pos + 10] == out[pos + 10] && data[pos + 11] == out[pos + 11]);
                assert(data[pos + 12] == out[pos + 12] && data[pos + 13] == out[pos + 13] && data[pos + 14] == out[pos + 14] && data[pos + 15] == out[pos + 15]);
            }
        }
        assert(top_box_size(out, pos) == top_box_size(data, pos));
        let z = top_box_size(data, pos)->0;
        assert(out.subrange(pos + 4, pos + 8) =~= data.subrange(pos + 4, pos + 8));
        if data.subrange(pos + 4, pos + 8) == moov_type() {
            lemma_moov_walk(data, out, pos + z, start, Some((pos, z)));
        } else {
            lemma_moov_walk(data, out, pos + z, start, f);
        }
    }
}

/// Overwriting four bytes with a length reads back as that length and
/// leaves every other byte.
proof fn lemma_patch(s: Seq<u8>, at: int, v: u32)
    requires
        0 <= at,
        at + 4 <= s.len(),
    ensures
        patch_be32(s, at, v).len() == s.len(),
        forall|k: int| 0 <= k < s.len() && !(at <= k < at + 4) ==> #[trigger] patch_be32(s, at, v)[k] == s[k],
        be32_at(patch_be32(s, at, v), at) == v,
{
    let r = patch_be32(s, at, v);
    assert forall|k: int| 0 <= k < s.len() && !(at <= k < at + 4) implies #[trigger] r[k] == s[k] by {
        if k < at {
            assert(r[k] == s.subrange(0, at)[k]);
        } else {
            assert(r[k] == s.subrange(at + 4, s.len() as int)[k - at - 4]);
        }
    }
    assert(r[at] == be32(v)[0] && r[at + 1] == be32(v)[1] && r[at + 2] == be32(v)[2] && r[at + 3] == be32(v)[3]);
    crate::bytes::lemma_u32_round_trip(v);
}

/// Growing the four boxes of the chain changes their lengths and nothing else.
#[verifier::rlimit(40)]
proof fn lemma_grow(moov: Seq<u8>, u: int, m: int, i: int, grow: int)
    requires
        8 <= u,
        u + 8 <= m,
        m + 12 <= i,
        i + 8 <= moov.len(),
        0 <= grow,
        box_size_at(moov, 0) + grow <= u32::MAX,
        box_size_at(moov, u) + grow <= u32::MAX,
        box_size_at(moov, m) + grow <= u32::MAX,
        box_size_at(moov, i) + grow <= u32::MAX,
    ensures
        ({
            let g = grow_chain(moov, seq![0int, u, m, i], grow);
            &&& g.len() == moov.len()
            &&& forall|k: int| 0 <= k < moov.len() && !(0 <= k < 4) && !(u <= k < u + 4) && !(m <= k < m + 4)
                && !(i <= k < i + 4) ==> #[trigger] g[k] == moov[k]
            &&& box_size_at(g, 0) == box_size_at(moov, 0) + grow
            &&& box_size_at(g, u) == box_size_at(moov, u) + grow
            &&& box_size_at(g, m) == box_size_at(moov, m) + grow
            &&& box_size_at(g, i) == box_size_at(moov, i) + grow
        }),
{
    let c4 = seq![0int, u, m, i];
    let c3 = seq![0int, u, m];
    let c2 = seq![0int, u];
    let c1 = seq![0int];
    assert(c4.drop_last() =~= c3);
    assert(c3.drop_last() =~= c2);
    assert(c2.drop_last() =~= c1);
    assert(c1.drop_last() =~= Seq::<int>::empty());
    let g0 = grow_chain(moov, Seq::<int>::empty(), grow);
    assert(g0 == moov);
    let g1 = grow_chain(moov, c1, grow);
    assert(g1 == patch_be32(moov, 0, (box_size_at(moov, 0) + grow) as u32));
    lemma_patch(moov, 0, (box_size_at(moov, 0) + grow) as u32);
    assert(box_size_at(g1, u) == box_size_at(moov, u)) by {
        assert(g1[u] == moov[u] && g1[u + 1] == moov[u + 1] && g1[u + 2] == moov[u + 2] && g1[u + 3] == moov[u + 3]);
    }
    let g2 = grow_chain(moov, c2, grow);
    assert(g2 == patch_be32(g1, u, (box_size_at(g1, u) + grow) as u32));
    lemma_patch(g1, u, (box_size_at(moov, u) + grow) as u32);
    assert(box_size_at(g2, m) == box_size_at(moov, m)) by {
        assert(g2[m] == moov[m] && g2[m + 1] == moov[m + 1] && g2[m + 2] == moov[m + 2] && g2[m + 3] == moov[m + 3]);
    }
    let g3 = grow_chain(moov, c3, grow);
    assert(g3 == patch_be32(g2, m, (box_size_at(g2, m) + grow) as u32));
    lemma_patch(g2, m, (box_size_at(moov, m) + grow) as u32);
    assert(box_size_at(g3, i) == box_size_at(moov, i)) by {
        assert(g3[i] == moov[i] && g3[i + 1] == moov[i + 1] && g3[i + 2] == moov[i + 2] && g3[i + 3] == moov[i + 3]);
    }
    let g4 = grow_chain(moov, c4, grow);
    assert(g4 == patch_be32(g3, i, (box_size_at(g3, i) + grow) as u32));
    lemma_patch(g3, i, (box_size_at(moov, i) + grow) as u32);
    assert(box_size_at(g4, 0) == box_size_at(moov, 0) + grow) by {
        assert(g4[0] == g1[0] && g4[1] == g1[1] && g4[2] == g1[2] && g4[3] == g1[3]);
    }
    assert(box_size_at(g4, u) == box_size_at(moov, u) + grow) by {
        assert(g4[u] == g2[u] && g4[u + 1] == g2[u + 1] && g4[u + 2] == g2[u + 2] && g4[u + 3] == g2[u + 3]);
    }
    assert(box_size_at(g4, m) == box_size_at(moov, m) + grow) by {
        assert(g4[m] == g3[m] && g4[m + 1] == g3[m + 1] && g4[m + 2] == g3[m + 2] && g4[m + 3] == g3[m + 3]);
    }
}


/// The free-form items of an MP4's `moov` box.
pub open spec fn moov_items(data: Seq<u8>) -> Seq<Seq<u8>> {
    match moov_from(data, 0, None) {
        Ok(Some((s, z))) => spec_free_form_items(data.subrange(s, s + z)),
        _ => seq![],
    }
}

/// The shape a read-back of restored items needs: the boxes before `moov`
/// tile the bytes before it, with lengths read from there; `moov` states
/// its length in 32 bits, with room for `grow` more bytes; and the boxes of
/// its `ilst` tile the `ilst`.
pub open spec fn restorable(data: Seq<u8>, grow: int) -> bool {
    match moov_from(data, 0, None) {
        Ok(Some((start, size))) => {
            let moov = data.subrange(start, start + size);
            &&& clean_top(data, 0, start)
            &&& be32_at(data, start) == size
            &&& size + grow <= u32::MAX
            &&& match spec_ilst_chain(moov) {
                Some(chain) => tiled(moov, chain[3] + 8, box_end(moov, chain[3])),
                None => true,
            }
        },
        _ => true,
    }
}

/// The grown `moov` with the items spliced in at `at`: the bytes before `at`
/// are the old ones but for the four lengths, which grew; the items follow.
proof fn lemma_spliced(moov: Seq<u8>, g: Seq<u8>, blob: Seq<u8>, u: int, m: int, i: int, at: int)
    requires
        8 <= u,
        u + 8 <= m,
        m + 12 <= i,
        i + 8 <= at <= moov.len(),
        g.len() == moov.len(),
        forall|k: int| 0 <= k < moov.len() && !(0 <= k < 4) && !(u <= k < u + 4) && !(m <= k < m + 4)
            && !(i <= k < i + 4) ==> #[trigger] g[k] == moov[k],
    ensures
        ({
            let moov2 = g.subrange(0, at) + blob + g.subrange(at, g.len() as int);
            &&& moov2.len() == moov.len() + blob.len()
            &&& forall|k: int| 4 <= k < at && !(u <= k < u + 4) && !(m <= k < m + 4) && !(i <= k < i + 4)
                ==> #[trigger] moov2[k] == moov[k]
            &&& forall|k: int| 0 <= k < at ==> #[trigger] moov2[k] == g[k]
            &&& moov2.subrange(at, at + blob.len()) == blob
        }),
{
    let moov2 = g.subrange(0, at) + blob + g.subrange(at, g.len() as int);
    assert forall|k: int| 0 <= k < at implies #[trigger] moov2[k] == g[k] by {}
    assert(moov2.subrange(at, at + blob.len()) =~= blob);
}

/// The four lengths of the grown buffer.
proof fn lemma_sizes_again(moov2: Seq<u8>, g: Seq<u8>, u: int, m: int, i: int, at: int)
    requires
        8 <= u,
        u + 8 <= m,
        m + 12 <= i,
        i + 8 <= at,
        at <= g.len(),
        at <= moov2.len(),
        forall|k: int| 0 <= k < at ==> #[trigger] moov2[k] == g[k],
    ensures
        box_size_at(moov2, 0) == box_size_at(g, 0),
        box_size_at(moov2, u) == box_size_at(g, u),
        box_size_at(moov2, m) == box_size_at(g, m),
        box_size_at(moov2, i) == box_size_at(g, i),
{
    assert(moov2[0] == g[0] && moov2[1] == g[1] && moov2[2] == g[2] && moov2[3] == g[3]);
    assert(moov2[u] == g[u] && moov2[u + 1] == g[u + 1] && moov2[u + 2] == g[u + 2] && moov2[u + 3] == g[u + 3]);
    assert(moov2[m] == g[m] && moov2[m + 1] == g[m + 1] && moov2[m + 2] == g[m + 2] && moov2[m + 3] == g[m + 3]);
    assert(moov2[i] == g[i] && moov2[i + 1] == g[i + 1] && moov2[i + 2] == g[i + 2] && moov2[i + 3] == g[i + 3]);
}

/// The `udta`, `meta`, `ilst` chain is found again in the grown buffer.
proof fn lemma_chain_again(moov: Seq<u8>, moov2: Seq<u8>, u: int, m: int, i: int, grow: int)
    requires
        0 <= grow,
        moov2.len() == moov.len() + grow,
        box_end(moov, 0) == moov.len(),
        box_end(moov2, 0) == moov2.len(),
        find_box_from(moov, 8, box_end(moov, 0), udta_type()) == Some(u),
        find_box_from(moov, u + 8, box_end(moov, u), meta_type()) == Some(m),
        find_box_from(moov, m + 12, box_end(moov, m), ilst_type()) == Some(i),
        box_size_at(moov2, u) == box_size_at(moov, u) + grow,
        box_size_at(moov2, m) == box_size_at(moov, m) + grow,
        box_size_at(moov2, i) == box_size_at(moov, i) + grow,
        forall|k: int| 4 <= k < i + 8 && !(u <= k < u + 4) && !(m <= k < m + 4) && !(i <= k < i + 4)
            ==> #[trigger] moov2[k] == moov[k],
    ensures
        spec_ilst_chain(moov2) == Some(seq![0int, u, m, i]),
{
    lemma_find_ge(moov, 8, box_end(moov, 0), udta_type());
    lemma_find_ge(moov, u + 8, box_end(moov, u), meta_type());
    lemma_find_ge(moov, m + 12, box_end(moov, m), ilst_type());
    assert(moov2.subrange(u + 4, u + 8) =~= udta_type()) by {
        assert forall|k: int| 0 <= k < 4 implies #[trigger] moov2.subrange(u + 4, u + 8)[k] == moov.subrange(u + 4, u + 8)[k] by {
            assert(moov2[u + 4 + k] == moov[u + 4 + k]);
        }
    }
    assert(moov2.subrange(m + 4, m + 8) =~= meta_type()) by {
        assert forall|k: int| 0 <= k < 4 implies #[trigger] moov2.subrange(m + 4, m + 8)[k] == moov.subrange(m + 4, m + 8)[k] by {
            assert(moov2[m + 4 + k] == moov[m + 4 + k]);
        }
    }
    assert(moov2.subrange(i + 4, i + 8) =~= ilst_type()) by {
        assert forall|k: int| 0 <= k < 4 implies #[trigger] moov2.subrange(i + 4, i + 8)[k] == moov.subrange(i + 4, i + 8)[k] by {
            assert(moov2[i + 4 + k] == moov[i + 4 + k]);
        }
    }
    assert forall|k: int| 8 <= k < u implies #[trigger] moov[k] == moov2[k] by {
        assert(moov2[k] == moov[k]);
    }
    lemma_find_agree(moov, moov2, 8, box_end(moov, 0), box_end(moov2, 0), udta_type(), u);
    assert forall|k: int| u + 8 <= k < m implies #[trigger] moov[k] == moov2[k] by {
        assert(moov2[k] == moov[k]);
    }
    lemma_find_agree(moov, moov2, u + 8, box_end(moov, u), box_end(moov2, u), meta_type(), m);
    assert forall|k: int| m + 12 <= k < i implies #[trigger] moov[k] == moov2[k] by {
        assert(moov2[k] == moov[k]);
    }
    lemma_find_agree(moov, moov2, m + 12, box_end(moov, m), box_end(moov2, m), ilst_type(), i);
}

/// The `moov` buffer with the items spliced in at the end of its `ilst` and
/// the four lengths grown, as the restore builds it.
pub open spec fn spliced_moov(moov: Seq<u8>, items: Seq<Seq<u8>>) -> Seq<u8> {
    let chain = spec_ilst_chain(moov)->Some_0;
    let blob = flatten(items);
    let at = chain[3] + box_size_at(moov, chain[3]);
    let grown = grow_chain(moov, chain, blob.len() as int);
    grown.subrange(0, at) + blob + grown.subrange(at, grown.len() as int)
}

/// The restore keeps the bytes before `moov` and splices its items into it.
proof fn lemma_restore_shape(data: Seq<u8>, items: Seq<Seq<u8>>, start: int, size: int)
    requires
        items.len() > 0,
        moov_from(data, 0, None) == Ok::<Option<(int, int)>, ()>(Some((start, size))),
        spec_restore_free_form(data, items) is Ok,
    ensures
        start + size == data.len(),
        spec_ilst_chain(data.subrange(start, start + size)) is Some,
        spec_restore_free_form(data, items)->Ok_0
            == data.subrange(0, start) + spliced_moov(data.subrange(start, start + size), items),
{
    let moov = data.subrange(start, start + size);
    let chain = spec_ilst_chain(moov)->Some_0;
    let blob = flatten(items);
    let at = chain[3] + box_size_at(moov, chain[3]);
    let grown = grow_chain(moov, chain, blob.len() as int);
    assert(spec_restore_free_form(data, items)->Ok_0 =~= data.subrange(0, start) + grown.subrange(0, at) + blob
        + grown.subrange(at, grown.len() as int));
    assert(data.subrange(0, start) + grown.subrange(0, at) + blob + grown.subrange(at, grown.len() as int)
        =~= data.subrange(0, start) + spliced_moov(moov, items));
}

/// In the spliced `moov`, the chain is found again and its `ilst` holds the
/// old items, then the new ones.
#[verifier::rlimit(40)]
proof fn lemma_spliced_items(moov: Seq<u8>, items: Seq<Seq<u8>>)
    requires
        forall|k: int| 0 <= k < items.len() ==> free_form_item(#[trigger] items[k]),
        spec_ilst_chain(moov) is Some,
        be32_at(moov, 0) == moov.len(),
        moov.len() >= 8,
        moov.len() + flatten(items).len() <= u32::MAX,
        tiled(moov, spec_ilst_chain(moov)->Some_0[3] + 8, box_end(moov, spec_ilst_chain(moov)->Some_0[3])),
    ensures
        ({
            let moov2 = spliced_moov(moov, items);
            &&& moov2.len() == moov.len() + flatten(items).len()
            &&& be32_at(moov2, 0) == moov2.len()
            &&& moov2.subrange(4, 8) == moov.subrange(4, 8)
            &&& spec_free_form_items(moov2) == spec_free_form_items(moov) + items
        }),
{
    let blob = flatten(items);
    let grow = blob.len() as int;
    let size = moov.len() as int;
    assert(box_end(moov, 0) == size);
    let c = spec_ilst_chain(moov)->Some_0;
    let u = find_box_from(moov, 8, box_end(moov, 0), udta_type())->Some_0;
    lemma_find_ge(moov, 8, box_end(moov, 0), udta_type());
    let m = find_box_from(moov, u + 8, box_end(moov, u), meta_type())->Some_0;
    lemma_find_ge(moov, u + 8, box_end(moov, u), meta_type());
    let i = find_box_from(moov, m + 12, box_end(moov, m), ilst_type())->Some_0;
    lemma_find_ge(moov, m + 12, box_end(moov, m), ilst_type());
    assert(c == seq![0int, u, m, i]);
    let si = box_size_at(moov, i);
    let at = i + si;
    assert(box_end(moov, i) == at);
    lemma_grow(moov, u, m, i, grow);
    let g = grow_chain(moov, c, grow);
    lemma_spliced(moov, g, blob, u, m, i, at);
    let moov2 = spliced_moov(moov, items);
    assert(moov2 == g.subrange(0, at) + blob + g.subrange(at, g.len() as int));
    lemma_sizes_again(moov2, g, u, m, i, at);
    assert(be32_at(moov2, 0) == moov2.len());
    assert(moov2.subrange(4, 8) =~= moov.subrange(4, 8)) by {
        assert forall|k: int| 0 <= k < 4 implies #[trigger] moov2.subrange(4, 8)[k] == moov.subrange(4, 8)[k] by {
            assert(moov2[4 + k] == moov[4 + k]);
        }
    }
    lemma_chain_again(moov, moov2, u, m, i, grow);
    assert forall|k: int| i + 8 <= k < at implies #[trigger] moov[k] == moov2[k] by {
        assert(moov2[k] == moov[k]);
    }
    lemma_items_agree(moov, moov2, i + 8, at);
    lemma_items_read_back(moov2, at, items);
    assert(box_end(moov2, i) == at + grow);
    lemma_items_split(moov2, i + 8, at, at + grow);
}

/// Putting free-form items back into an MP4 and reading them again gives
/// the items the `ilst` held before, then the ones put back, byte for byte.
pub proof fn lemma_read_after_restore_free_form(data: Seq<u8>, items: Seq<Seq<u8>>)
    requires
        items.len() > 0,
        forall|k: int| 0 <= k < items.len() ==> free_form_item(#[trigger] items[k]),
        spec_restore_free_form(data, items) is Ok,
        restorable(data, flatten(items).len() as int),
    ensures
        spec_read_free_form(spec_restore_free_form(data, items)->Ok_0) == Some(moov_items(data) + items),
{
    lemma_moov_from_found(data, 0, None);
    match moov_from(data, 0, None) {
        Ok(Some((start, size))) => {
            let moov = data.subrange(start, start + size);
            lemma_restore_shape(data, items, start, size);
            assert(be32_at(moov, 0) == size) by {
                assert(moov[0] == data[start] && moov[1] == data[start + 1] && moov[2] == data[start + 2] && moov[3] == data[start + 3]);
            }
            lemma_spliced_items(moov, items);
            let moov2 = spliced_moov(moov, items);
            let out = spec_restore_free_form(data, items)->Ok_0;
            assert forall|k: int| 0 <= k < start implies #[trigger] data[k] == out[k] by {}
            assert(be32_at(out, start) == moov2.len()) by {
                assert(out[start] == moov2[0] && out[start + 1] == moov2[1] && out[start + 2] == moov2[2] && out[start + 3] == moov2[3]);
            }
            assert(out.subrange(start + 4, start + 8) =~= moov.subrange(4, 8)) by {
                assert forall|k: int| 0 <= k < 4 implies #[trigger] out.subrange(start + 4, start + 8)[k] == moov.subrange(4, 8)[k] by {
                    assert(out[start + 4 + k] == moov2[4 + k]);
                    assert(moov2.subrange(4, 8)[k] == moov.subrange(4, 8)[k]);
                }
            }
            assert(moov.subrange(4, 8) =~= data.subrange(start + 4, start + 8));
            lemma_moov_walk(data, out, 0, start, None);
            assert(out.subrange(start, start + moov2.len()) =~= moov2);
        },
        _ => {},
    }
}

}
