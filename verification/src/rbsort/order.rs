//! Playlist order: Camelot key, then BPM, missing values last, ties kept in
//! their playlist order.
use vstd::prelude::*;

verus! {

/// What the sort reads of a collection track.
#[derive(Debug, Clone, Copy, PartialEq, Eq)]
pub struct TrackMeta {
    /// Camelot sort index 0..=23.
    pub camelot: Option<u8>,
    /// `AverageBpm` as the bits of a positive `f64`; positive floats order
    /// as their bits do.
    pub bpm: Option<u64>,
}

/// `a` before `b` in one key: present values first, in increasing order.
pub open spec fn opt_lt(a: Option<u64>, b: Option<u64>) -> bool {
    match (a, b) {
        (Some(x), Some(y)) => x < y,
        (Some(_), None) => true,
        _ => false,
    }
}

/// The key of a track as compared: Camelot index, then BPM.
pub open spec fn key_of(m: TrackMeta) -> (Option<u64>, Option<u64>) {
    (match m.camelot { Some(c) => Some(c as u64), None => None }, m.bpm)
}

/// `a` sorts strictly before `b`.
pub open spec fn key_lt(a: TrackMeta, b: TrackMeta) -> bool {
    opt_lt(key_of(a).0, key_of(b).0) || (key_of(a).0 == key_of(b).0 && opt_lt(a.bpm, b.bpm))
}

/// Position `i` goes before position `j` in the sorted playlist: a smaller
/// key, or the same key and an earlier position.
pub open spec fn before(metas: Seq<TrackMeta>, i: int, j: int) -> bool {
    key_lt(metas[i], metas[j]) || (key_of(metas[i]) == key_of(metas[j]) && i < j)
}

/// `p` lists positions in sorted order.
pub open spec fn sorted_by(metas: Seq<TrackMeta>, p: Seq<usize>) -> bool {
    forall|a: int, b: int| 0 <= a < b < p.len() ==> before(metas, #[trigger] p[a] as int, #[trigger] p[b] as int)
}

/// `p` is a reordering of the positions of `metas`.
pub open spec fn is_order(metas: Seq<TrackMeta>, p: Seq<usize>) -> bool {
    &&& p.len() == metas.len()
    &&& forall|k: int| 0 <= k < p.len() ==> #[trigger] p[k] < metas.len()
    &&& sorted_by(metas, p)
}

fn opt_lt_exec(a: Option<u64>, b: Option<u64>) -> (r: bool)
    ensures
        r == opt_lt(a, b),
{
    match (a, b) {
        (Some(x), Some(y)) => x < y,
        (Some(_), None) => true,
        _ => false,
    }
}

fn camelot_key(m: &TrackMeta) -> (r: Option<u64>)
    ensures
        r == key_of(*m).0,
{
    match m.camelot {
        Some(c) => Some(c as u64),
        None => None,
    }
}

/// Whether position `i` goes before position `j`.
fn goes_before(metas: &[TrackMeta], i: usize, j: usize) -> (r: bool)
    requires
        i < metas@.len(),
        j < metas@.len(),
    ensures
        r == before(metas@, i as int, j as int),
{
    let a = camelot_key(&metas[i]);
    let b = camelot_key(&metas[j]);
    if opt_lt_exec(a, b) {
        return true;
    }
    if a != b {
        return false;
    }
    if opt_lt_exec(metas[i].bpm, metas[j].bpm) {
        return true;
    }
    metas[i].bpm == metas[j].bpm && i < j
}

proof fn lemma_before_total(metas: Seq<TrackMeta>, i: int, j: int)
    requires
        i != j,
    ensures
        before(metas, i, j) || before(metas, j, i),
        !(before(metas, i, j) && before(metas, j, i)),
{
}

proof fn lemma_before_trans(metas: Seq<TrackMeta>, i: int, j: int, k: int)
    requires
        before(metas, i, j),
        before(metas, j, k),
    ensures
        before(metas, i, k),
{
}

/// The stable sorted order of a playlist's tracks: positions by Camelot
/// index, then BPM, missing values last, equal keys in playlist order.
pub fn sort_order(metas: &[TrackMeta]) -> (p: Vec<usize>)
    ensures
        is_order(metas@, p@),
{
    let mut p: Vec<usize> = Vec::new();
    let mut i: usize = 0;
    while i < metas.len()
        invariant
            i <= metas@.len(),
            p@.len() == i,
            forall|k: int| 0 <= k < p@.len() ==> #[trigger] p@[k] < i,
            sorted_by(metas@, p@),
        decreases metas@.len() - i,
    {
        let mut pos = p.len();
        while pos > 0 && goes_before(metas, i, p[pos - 1])
            invariant
                pos <= p@.len() == i,
                i < metas@.len(),
                forall|k: int| 0 <= k < p@.len() ==> #[trigger] p@[k] < i,
                forall|k: int| pos <= k < p@.len() ==> before(metas@, i as int, #[trigger] p@[k] as int),
            decreases pos,
        {
            pos = pos - 1;
        }
        let ghost old_p = p@;
        proof {
            if pos > 0 {
                lemma_before_total(metas@, i as int, old_p[pos - 1] as int);
            }
            assert forall|k: int| 0 <= k < pos implies before(metas@, #[trigger] old_p[k] as int, i as int) by {
                if k < pos - 1 {
                    lemma_before_trans(metas@, old_p[k] as int, old_p[pos - 1] as int, i as int);
                }
            }
        }
        p.insert(pos, i);
        proof {
            assert(p@ =~= old_p.take(pos as int).push(i).add(old_p.skip(pos as int)));
            assert forall|a: int, b: int| 0 <= a < b < p@.len() implies before(metas@, #[trigger] p@[a] as int, #[trigger] p@[b] as int) by {
                if b < pos {
                } else if a < pos && b == pos {
                } else if a < pos && b > pos {
                    assert(p@[b] == old_p[b - 1]);
                } else if a == pos {
                    assert(p@[b] == old_p[b - 1]);
                } else {
                    assert(p@[a] == old_p[a - 1]);
                    assert(p@[b] == old_p[b - 1]);
                }
            }
        }
        i = i + 1;
    }
    p
}

/// The collection entry of track `id`: the last one with that id, or no
/// metadata when there is none.
pub open spec fn lookup(collection: Seq<(Seq<char>, TrackMeta)>, id: Seq<char>) -> TrackMeta
    decreases collection.len(),
{
    if collection.len() == 0 {
        TrackMeta { camelot: None, bpm: None }
    } else if collection.last().0 == id {
        collection.last().1
    } else {
        lookup(collection.drop_last(), id)
    }
}

/// The collection as (id, metadata).
pub open spec fn collection_view(collection: Seq<(String, TrackMeta)>) -> Seq<(Seq<char>, TrackMeta)> {
    collection.map_values(|e: (String, TrackMeta)| (e.0@, e.1))
}

/// The metadata of every track of a playlist.
pub open spec fn metas_of(track_ids: Seq<String>, collection: Seq<(String, TrackMeta)>) -> Seq<TrackMeta> {
    track_ids.map_values(|t: String| lookup(collection_view(collection), t@))
}

/// Finds the metadata of `id`.
fn find_meta(collection: &[(String, TrackMeta)], id: &String) -> (m: TrackMeta)
    ensures
        m == lookup(collection_view(collection@), id@),
{
    let ghost cv = collection_view(collection@);
    let mut i = collection.len();
    assert(cv.take(i as int) =~= cv);
    while i > 0
        invariant
            i <= collection@.len(),
            cv == collection_view(collection@),
            lookup(cv, id@) == lookup(cv.take(i as int), id@),
        decreases i,
    {
        let ghost t = cv.take(i as int);
        assert(t.drop_last() =~= cv.take(i - 1));
        assert(t.last() == cv[i - 1]);
        if crate::text::str_eq(collection[i - 1].0.as_str(), id.as_str()) {
            return collection[i - 1].1;
        }
        i = i - 1;
    }
    TrackMeta { camelot: None, bpm: None }
}

/// `out` is `track_ids` in the sorted order of their metadata.
pub open spec fn sorted_ids(track_ids: Seq<String>, collection: Seq<(String, TrackMeta)>, out: Seq<String>) -> bool {
    &&& out.len() == track_ids.len()
    &&& exists|p: Seq<usize>| #[trigger] is_order(metas_of(track_ids, collection), p)
            && forall|k: int| 0 <= k < p.len() ==> #[trigger] out[k]@ == track_ids[p[k] as int]@
}

/// Sort a playlist's track ids by Camelot key, then BPM, missing values
/// last; tracks with the same key keep their playlist order.
pub fn sort_tracks(track_ids: &[String], collection: &[(String, TrackMeta)]) -> (out: Vec<String>)
    ensures
        sorted_ids(track_ids@, collection@, out@),
{
    let ghost ms = metas_of(track_ids@, collection@);
    let mut metas: Vec<TrackMeta> = Vec::new();
    let mut i: usize = 0;
    while i < track_ids.len()
        invariant
            i <= track_ids@.len(),
            ms == metas_of(track_ids@, collection@),
            metas@ == ms.take(i as int),
        decreases track_ids@.len() - i,
    {
        metas.push(find_meta(collection, &track_ids[i]));
        i = i + 1;
        assert(metas@ =~= ms.take(i as int));
    }
    assert(ms.take(i as int) =~= ms);
    let p = sort_order(metas.as_slice());
    let mut out: Vec<String> = Vec::new();
    let mut k: usize = 0;
    while k < p.len()
        invariant
            k <= p@.len(),
            is_order(ms, p@),
            ms.len() == track_ids@.len(),
            out@.len() == k,
            forall|j: int| 0 <= j < k ==> #[trigger] out@[j]@ == track_ids@[p@[j] as int]@,
        decreases p@.len() - k,
    {
        out.push(track_ids[p[k]].clone());
        k = k + 1;
    }
    assert(is_order(ms, p@));
    out
}


proof fn lemma_increasing_is_identity(p: Seq<usize>, n: int)
    requires
        p.len() == n,
        forall|k: int| 0 <= k < n ==> #[trigger] p[k] < n,
        forall|a: int, b: int| 0 <= a < b < n ==> #[trigger] p[a] < #[trigger] p[b],
    ensures
        forall|k: int| 0 <= k < n ==> #[trigger] p[k] == k,
{
    assert forall|k: int| 0 <= k < n implies #[trigger] p[k] >= k by {
        lemma_increasing_at_least(p, n, k);
    }
    assert forall|k: int| 0 <= k < n implies #[trigger] p[k] <= k by {
        lemma_increasing_at_most(p, n, k);
    }
}

proof fn lemma_increasing_at_least(p: Seq<usize>, n: int, k: int)
    requires
        p.len() == n,
        0 <= k < n,
        forall|a: int, b: int| 0 <= a < b < n ==> #[trigger] p[a] < #[trigger] p[b],
    ensures
        p[k] >= k,
    decreases k,
{
    if k > 0 {
        lemma_increasing_at_least(p, n, k - 1);
        assert(p[k - 1] < p[k]);
    }
}

proof fn lemma_increasing_at_most(p: Seq<usize>, n: int, k: int)
    requires
        p.len() == n,
        0 <= k < n,
        forall|j: int| 0 <= j < n ==> #[trigger] p[j] < n,
        forall|a: int, b: int| 0 <= a < b < n ==> #[trigger] p[a] < #[trigger] p[b],
    ensures
        p[k] <= k,
    decreases n - k,
{
    if k < n - 1 {
        lemma_increasing_at_most(p, n, k + 1);
        assert(p[k] < p[k + 1]);
    } else {
        assert(p[k] < n);
    }
}

/// Sorting is idempotent: sorting the refs a sort put in order gives the
/// same refs again, so a second run over a sorted playlist changes nothing.
pub proof fn lemma_sort_twice_is_sort_once(
    track_ids: Seq<String>,
    collection: Seq<(String, TrackMeta)>,
    once: Seq<String>,
    twice: Seq<String>,
)
    requires
        sorted_ids(track_ids, collection, once),
        sorted_ids(once, collection, twice),
    ensures
        twice.len() == once.len(),
        forall|k: int| 0 <= k < twice.len() ==> #[trigger] twice[k]@ == once[k]@,
{
    let m = metas_of(track_ids, collection);
    let p1 = choose|p: Seq<usize>| #[trigger] is_order(m, p)
        && forall|k: int| 0 <= k < p.len() ==> #[trigger] once[k]@ == track_ids[p[k] as int]@;
    let m1 = metas_of(once, collection);
    let p2 = choose|p: Seq<usize>| #[trigger] is_order(m1, p)
        && forall|k: int| 0 <= k < p.len() ==> #[trigger] twice[k]@ == once[p[k] as int]@;
    let n = once.len() as int;
    assert forall|k: int| 0 <= k < n implies #[trigger] m1[k] == m[p1[k] as int] by {
        assert(once[k]@ == track_ids[p1[k] as int]@);
    }
    // the order of `once` is already sorted: `before` on it is the index order
    assert forall|a: int, b: int| 0 <= a < n && 0 <= b < n && a != b implies
        (before(m1, a, b) <==> a < b) by {
        if a < b {
            assert(before(m, #[trigger] p1[a] as int, #[trigger] p1[b] as int));
            assert(m1[a] == m[p1[a] as int]);
            assert(m1[b] == m[p1[b] as int]);
        } else {
            assert(before(m, #[trigger] p1[b] as int, #[trigger] p1[a] as int));
            assert(m1[a] == m[p1[a] as int]);
            assert(m1[b] == m[p1[b] as int]);
        }
    }
    assert forall|a: int, b: int| 0 <= a < b < n implies #[trigger] p2[a] < #[trigger] p2[b] by {
        assert(before(m1, p2[a] as int, p2[b] as int));
        if p2[a] == p2[b] {
            assert(!before(m1, p2[a] as int, p2[a] as int));
        }
    }
    lemma_increasing_is_identity(p2, n);
    assert forall|k: int| 0 <= k < twice.len() implies #[trigger] twice[k]@ == once[k]@ by {
        assert(p2[k] as int == k);
    }
}

}
