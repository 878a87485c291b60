//! Matching a track to the local analysis files rekordbox keeps: files are
//! indexed by the file name their `PPTH` holds, and duplicates are told
//! apart by the beat grid (`PQTZ`).
use vstd::prelude::*;
use crate::bytes::{be32_at, get_be32};
use super::section::{find_from, AnlzFile};

verus! {

/// `PQTZ`.
pub const PQTZ: [u8; 4] = [0x50, 0x51, 0x54, 0x5a];

/// The beat count, the time of the first beat in ms and its tempo x 100, as
/// a `PQTZ` section's bytes state them; zeros without a grid.
pub open spec fn spec_pqtz_summary(b: Seq<u8>) -> (u32, u32, u16) {
    if b.len() < 0x20 {
        (0, 0, 0)
    } else {
        let beats = be32_at(b, 0x14);
        if beats == 0 {
            (0, 0, 0)
        } else {
            (beats, be32_at(b, 0x1c), (b[0x1a] as int * 0x100 + b[0x1b] as int) as u16)
        }
    }
}

/// The grid summary of an analysis file: that of its first `PQTZ`, zeros
/// when it has none.
pub fn pqtz_summary(file: &AnlzFile) -> (r: (u32, u32, u16))
    ensures
        find_from(file.sections@, PQTZ@, 0) < 0 ==> r == (0u32, 0u32, 0u16),
        find_from(file.sections@, PQTZ@, 0) >= 0 ==> r == spec_pqtz_summary(
            file.sections@[find_from(file.sections@, PQTZ@, 0)].bytes@),
{
    let tag = PQTZ;
    match file.find(&tag) {
        None => (0, 0, 0),
        Some(s) => {
            let b = s.bytes.as_slice();
            if b.len() < 0x20 {
                return (0, 0, 0);
            }
            let beats = get_be32(b, 0x14);
            if beats == 0 {
                return (0, 0, 0);
            }
            let tempo: u16 = (b[0x1a] as u16) * 0x100 + (b[0x1b] as u16);
            (beats, get_be32(b, 0x1c), tempo)
        },
    }
}

/// What follows the last `/` or `\` of a stored path.
pub open spec fn stored_name(p: Seq<char>) -> Seq<char>
    decreases p.len(),
{
    if p.len() == 0 {
        p
    } else if p.last() == '/' || p.last() == '\\' {
        seq![]
    } else {
        stored_name(p.drop_last()).push(p.last())
    }
}

/// The file name an analysis file is indexed by: its stored path after the
/// last `/` or `\`, as both rekordbox path forms end in the file name.
pub fn stored_file_name(path: &str) -> (out: String)
    ensures
        out@ == stored_name(path@),
{
    let cs = crate::text::chars_of(path);
    let mut start = cs.len();
    proof {
        assert(cs@.take(start as int) =~= cs@);
        assert(cs@.subrange(start as int, cs@.len() as int) =~= Seq::<char>::empty());
        assert(stored_name(cs@) + Seq::<char>::empty() =~= stored_name(cs@));
    }
    while start > 0 && cs[start - 1] != '/' && cs[start - 1] != '\\'
        invariant
            start <= cs@.len(),
            cs@ == path@,
            stored_name(path@) == stored_name(cs@.take(start as int)) + cs@.subrange(start as int, cs@.len() as int),
        decreases start,
    {
        proof {
            let t = cs@.take(start as int);
            assert(t.drop_last() =~= cs@.take(start - 1));
            assert(t.last() == cs@[start - 1]);
            assert(stored_name(cs@.take(start - 1)).push(cs@[start - 1]) + cs@.subrange(start as int, cs@.len() as int)
                =~= stored_name(cs@.take(start - 1)) + cs@.subrange(start - 1, cs@.len() as int));
        }
        start = start - 1;
    }
    proof {
        if start > 0 {
            assert(cs@.take(start as int).last() == cs@[start - 1]);
        }
        assert(stored_name(cs@.take(start as int)) =~= Seq::<char>::empty());
    }
    let mut out: Vec<char> = Vec::new();
    let mut i = start;
    while i < cs.len()
        invariant
            start <= i <= cs@.len(),
            out@ == cs@.subrange(start as int, i as int),
        decreases cs@.len() - i,
    {
        out.push(cs[i]);
        i = i + 1;
        assert(out@ =~= cs@.subrange(start as int, i as int));
    }
    assert(Seq::<char>::empty() + cs@.subrange(start as int, cs@.len() as int) =~= cs@.subrange(start as int, cs@.len() as int));
    crate::text::string_from_chars(out.as_slice())
}

/// The first index whose flag is set, or -1.
pub open spec fn first_set(f: Seq<bool>, i: int) -> int
    decreases f.len() - i,
{
    if i < 0 || i >= f.len() {
        -1
    } else if f[i] {
        i
    } else {
        first_set(f, i + 1)
    }
}

/// The candidate picked among analysis files of the same name: the first
/// whose grid and length both match the track, else the first whose grid
/// matches, else the first whose length matches, else the first. `grid`
/// and `length` hold, per candidate, whether they match.
pub open spec fn spec_pick(grid: Seq<bool>, length: Seq<bool>) -> Option<int> {
    let both = Seq::new(grid.len(), |k: int| grid[k] && length[k]);
    if grid.len() == 0 {
        None
    } else if first_set(both, 0) >= 0 {
        Some(first_set(both, 0))
    } else if first_set(grid, 0) >= 0 {
        Some(first_set(grid, 0))
    } else if first_set(length, 0) >= 0 {
        Some(first_set(length, 0))
    } else {
        Some(0)
    }
}

/// The first index whose flag is set.
fn first_of(f: &[bool]) -> (r: Option<usize>)
    ensures
        match r {
            Some(k) => first_set(f@, 0) == k as int,
            None => first_set(f@, 0) < 0,
        },
{
    let mut i: usize = 0;
    while i < f.len()
        invariant
            i <= f@.len(),
            first_set(f@, 0) == first_set(f@, i as int),
        decreases f@.len() - i,
    {
        if f[i] {
            return Some(i);
        }
        i = i + 1;
    }
    None
}

/// Pick among candidates of the same name; a single candidate is taken
/// whatever it matches.
pub fn pick_candidate(grid: &[bool], length: &[bool]) -> (r: Option<usize>)
    requires
        grid@.len() == length@.len(),
    ensures
        match r {
            Some(k) => spec_pick(grid@, length@) == Some(k as int),
            None => spec_pick(grid@, length@) is None,
        },
{
    if grid.len() == 0 {
        return None;
    }
    let mut both: Vec<bool> = Vec::new();
    let mut i: usize = 0;
    while i < grid.len()
        invariant
            i <= grid@.len() == length@.len(),
            both@ == Seq::new(i as nat, |k: int| grid@[k] && length@[k]),
        decreases grid@.len() - i,
    {
        both.push(grid[i] && length[i]);
        i = i + 1;
        assert(both@ =~= Seq::new(i as nat, |k: int| grid@[k] && length@[k]));
    }
    if let Some(k) = first_of(both.as_slice()) {
        return Some(k);
    }
    if let Some(k) = first_of(grid) {
        return Some(k);
    }
    if let Some(k) = first_of(length) {
        return Some(k);
    }
    Some(0)
}

}
