//! Loudness gain application: tags kept across a rewrite, ffmpeg arguments,
//! per-method counts.
pub mod free_form;
pub mod id3;
pub mod processor;
pub mod report;
pub mod tags;

use vstd::prelude::*;

verus! {

/// A path as its components, a leading `/` standing for the root.
pub open spec fn components_view(c: Seq<String>) -> Seq<Seq<char>> {
    c.map_values(|s: String| s@)
}

/// The directory holding a path: `None` for an empty path and for the
/// root, which have none.
pub open spec fn parent_of(c: Seq<Seq<char>>) -> Option<Seq<Seq<char>>> {
    if c.len() == 0 || c.last() == "/"@ { None } else { Some(c.drop_last()) }
}

/// How many leading components two paths share.
pub open spec fn shared_len(a: Seq<Seq<char>>, b: Seq<Seq<char>>) -> nat
    decreases a.len(),
{
    if a.len() == 0 || b.len() == 0 || a[0] != b[0] {
        0
    } else {
        1 + shared_len(a.drop_first(), b.drop_first())
    }
}

/// The directory the first `n` files share: the longest common leading
/// components of their parents, `None` while none of them has a parent.
pub open spec fn base_fold(files: Seq<Seq<Seq<char>>>, n: int) -> Option<Seq<Seq<char>>>
    decreases n,
{
    if n <= 0 || n > files.len() {
        None
    } else {
        let acc = base_fold(files, n - 1);
        match parent_of(files[n - 1]) {
            None => acc,
            Some(p) => match acc {
                None => Some(p),
                Some(a) => Some(a.take(shared_len(a, p) as int)),
            },
        }
    }
}

proof fn lemma_shared_len(a: Seq<Seq<char>>, b: Seq<Seq<char>>)
    ensures
        shared_len(a, b) <= a.len(),
        shared_len(a, b) <= b.len(),
        forall|j: int| 0 <= j < shared_len(a, b) ==> a[j] == b[j],
        shared_len(a, b) < a.len() && shared_len(a, b) < b.len() ==> a[shared_len(a, b) as int] != b[shared_len(a, b) as int],
    decreases a.len(),
{
    if !(a.len() == 0 || b.len() == 0 || a[0] != b[0]) {
        lemma_shared_len(a.drop_first(), b.drop_first());
        assert forall|j: int| 0 <= j < shared_len(a, b) implies a[j] == b[j] by {
            if j > 0 {
                assert(a.drop_first()[j - 1] == b.drop_first()[j - 1]);
            }
        }
    }
}

/// The shared leading components are exactly the longest run on which
/// the two paths agree.
proof fn lemma_shared_len_is(a: Seq<Seq<char>>, b: Seq<Seq<char>>, k: nat)
    requires
        k <= a.len(),
        k <= b.len(),
        forall|j: int| 0 <= j < k ==> a[j] == b[j],
        k == a.len() || k == b.len() || a[k as int] != b[k as int],
    ensures
        shared_len(a, b) == k,
    decreases a.len(),
{
    if k > 0 {
        lemma_shared_len_is(a.drop_first(), b.drop_first(), (k - 1) as nat);
    }
}

/// The directory the given files share, each file given as its path
/// components: the longest run of leading components common to the
/// parents of all the files that have one; `None` when none has one.
pub fn common_base_dir(files: &[Vec<String>]) -> (r: Option<Vec<String>>)
    ensures
        match r {
            Some(c) => base_fold(files@.map_values(|f: Vec<String>| components_view(f@)), files@.len() as int) == Some(components_view(c@)),
            None => base_fold(files@.map_values(|f: Vec<String>| components_view(f@)), files@.len() as int) is None,
        },
{
    let ghost fv = files@.map_values(|f: Vec<String>| components_view(f@));
    let mut acc: Option<Vec<String>> = None;
    let mut i: usize = 0;
    while i < files.len()
        invariant
            i <= files@.len(),
            fv == files@.map_values(|f: Vec<String>| components_view(f@)),
            match acc {
                Some(c) => base_fold(fv, i as int) == Some(components_view(c@)),
                None => base_fold(fv, i as int) is None,
            },
        decreases files@.len() - i,
    {
        let f = &files[i];
        assert(fv[i as int] == components_view(f@));
        let n = f.len();
        let has_parent = n > 0 && !crate::text::str_eq(f[n - 1].as_str(), "/");
        if has_parent {
            let ghost p = components_view(f@).drop_last();
            acc = match acc {
                None => {
                    let mut c: Vec<String> = Vec::new();
                    let mut j: usize = 0;
                    while j < n - 1
                        invariant
                            j <= n - 1,
                            n == f@.len(),
                            components_view(c@) == components_view(f@).take(j as int),
                        decreases n - 1 - j,
                    {
                        let ghost before = c@;
                        c.push(f[j].clone());
                        assert(components_view(c@) =~= components_view(before).push(f@[j as int]@));
                        assert(components_view(f@).take(j + 1) =~= components_view(f@).take(j as int).push(f@[j as int]@));
                        j = j + 1;
                    }
                    assert(components_view(f@).take(j as int) =~= p);
                    Some(c)
                },
                Some(mut a) => {
                    let ghost av = components_view(a@);
                    let mut k: usize = 0;
                    while k < a.len() && k < n - 1 && crate::text::str_eq(a[k].as_str(), f[k].as_str())
                        invariant
                            k <= a@.len(),
                            k <= n - 1,
                            n == f@.len(),
                            av == components_view(a@),
                            p == components_view(f@).drop_last(),
                            forall|j: int| 0 <= j < k ==> av[j] == p[j],
                        decreases a@.len() - k,
                    {
                        k = k + 1;
                    }
                    proof {
                        lemma_shared_len_is(av, p, k as nat);
                    }
                    a.truncate(k);
                    assert(components_view(a@) =~= av.take(k as int));
                    Some(a)
                },
            };
        } else {
            assert(parent_of(fv[i as int]) is None);
        }
        i = i + 1;
    }
    acc
}

/// The shared directory is a leading part of the directory of every file
/// that has one.
pub proof fn lemma_common_base_is_shared(files: Seq<Seq<Seq<char>>>, n: int, i: int)
    requires
        0 <= i < n <= files.len(),
        parent_of(files[i]) is Some,
    ensures
        base_fold(files, n) matches Some(b) && b.len() <= parent_of(files[i])->0.len()
            && b == parent_of(files[i])->0.take(b.len() as int),
    decreases n,
{
    let p = parent_of(files[i])->0;
    if i == n - 1 {
        match base_fold(files, n - 1) {
            None => {},
            Some(a) => {
                lemma_shared_len(a, p);
                let k = shared_len(a, p) as int;
                assert(a.take(k) =~= p.take(k));
            },
        }
    } else {
        lemma_common_base_is_shared(files, n - 1, i);
        let b0 = base_fold(files, n - 1)->0;
        match parent_of(files[n - 1]) {
            None => {},
            Some(q) => {
                lemma_shared_len(b0, q);
                let k = shared_len(b0, q) as int;
                assert(b0.take(k) =~= p.take(k));
            },
        }
    }
}

}
