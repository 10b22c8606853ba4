//! The keep-file checker: a path is protected from being overwritten when a
//! marker entry sits directly inside it, or beside it or any of its
//! ancestors up to (and including) the target root.

use vstd::prelude::*;

use crate::model::Fs;
use crate::model::KindV;
use crate::paths::is_prefix_of;
use crate::paths::sibling_path;

verus! {

/// Path `p` is protected in snapshot `m` under marker names `ks`: some
/// marker exists directly inside `p`, or as the sibling of an ancestor of
/// `p` (the ancestor chain running from `p` itself up to the root `root`).
pub open spec fn protected(
    m: Map<Seq<Seq<char>>, KindV>,
    root: Seq<Seq<char>>,
    p: Seq<Seq<char>>,
    ks: Seq<Seq<char>>,
) -> bool {
    (exists|k: Seq<char>| ks.contains(k) && #[trigger] m.contains_key(p.push(k))) || (exists|
        l: int,
        k: Seq<char>,
    |
        root.len() <= l <= p.len() && 1 <= l && ks.contains(k) && #[trigger] m.contains_key(
            p.take(l - 1).push(k),
        ))
}

/// Every path a protection witness can sit at ends in one of the marker
/// names.
pub open spec fn marker_shaped(q: Seq<Seq<char>>, ks: Seq<Seq<char>>) -> bool {
    q.len() >= 1 && ks.contains(q.last())
}

/// Protection only reads the presence of marker-shaped paths, so it carries
/// over to any snapshot that still has them all.
pub proof fn lemma_protected_monotone(
    m1: Map<Seq<Seq<char>>, KindV>,
    m2: Map<Seq<Seq<char>>, KindV>,
    root: Seq<Seq<char>>,
    p: Seq<Seq<char>>,
    ks: Seq<Seq<char>>,
)
    requires
        protected(m1, root, p, ks),
        forall|q: Seq<Seq<char>>|
            marker_shaped(q, ks) && m1.contains_key(q) ==> #[trigger] m2.contains_key(q),
    ensures
        protected(m2, root, p, ks),
{
    if exists|k: Seq<char>| ks.contains(k) && #[trigger] m1.contains_key(p.push(k)) {
        let k = choose|k: Seq<char>| ks.contains(k) && #[trigger] m1.contains_key(p.push(k));
        assert(marker_shaped(p.push(k), ks));
        assert(m2.contains_key(p.push(k)));
    } else {
        let (l, k) = choose|l: int, k: Seq<char>|
            root.len() <= l <= p.len() && 1 <= l && ks.contains(k) && #[trigger] m1.contains_key(
                p.take(l - 1).push(k),
            );
        assert(marker_shaped(p.take(l - 1).push(k), ks));
        assert(m2.contains_key(p.take(l - 1).push(k)));
    }
}

/// A marker that protects a path protects everything below it as well: the
/// protected path's own marker is a sibling marker of every descendant's
/// ancestor chain.
pub proof fn lemma_protected_descends(
    m: Map<Seq<Seq<char>>, KindV>,
    root: Seq<Seq<char>>,
    p: Seq<Seq<char>>,
    q: Seq<Seq<char>>,
    ks: Seq<Seq<char>>,
)
    requires
        protected(m, root, p, ks),
        is_prefix_of(root, p),
        is_prefix_of(p, q),
    ensures
        protected(m, root, q, ks),
{
    if p.len() == q.len() {
        assert(p =~= q);
    } else if exists|k: Seq<char>| ks.contains(k) && #[trigger] m.contains_key(p.push(k)) {
        let k = choose|k: Seq<char>| ks.contains(k) && #[trigger] m.contains_key(p.push(k));
        let l = p.len() + 1;
        assert(q.take(l - 1) =~= p);
        assert(m.contains_key(q.take(l - 1).push(k)));
        assert(root.len() <= l <= q.len() && 1 <= l);
    } else {
        let (l, k) = choose|l: int, k: Seq<char>|
            root.len() <= l <= p.len() && 1 <= l && ks.contains(k) && #[trigger] m.contains_key(
                p.take(l - 1).push(k),
            );
        assert(q.take(l - 1) =~= p.take(l - 1));
        assert(m.contains_key(q.take(l - 1).push(k)));
        assert(root.len() <= l <= q.len() && 1 <= l);
    }
}

/// Whether `path` is protected from being overwritten: check for each marker
/// name directly inside `path`, then beside `path` and each of its ancestors
/// up to the root.
pub fn keep_path(fs: &Fs, root: &Vec<String>, path: &Vec<String>, keep: &Vec<String>) -> (r: bool)
    requires
        fs.wf(),
    ensures
        r == protected(fs@, root.deep_view(), path.deep_view(), keep.deep_view()),
{
    let ghost pd = path.deep_view();
    let ghost ksd = keep.deep_view();
    proof {
        assert(pd.len() == path@.len());
        assert(ksd.len() == keep@.len());
    }
    let mut ki: usize = 0;
    while ki < keep.len()
        invariant
            fs.wf(),
            ki <= keep@.len(),
            pd == path.deep_view(),
            ksd == keep.deep_view(),
            forall|j: int| 0 <= j < ki ==> !fs@.contains_key(pd.push(#[trigger] ksd[j])),
        decreases keep@.len() - ki,
    {
        let q = sibling_path(path, path.len(), &keep[ki]);
        proof {
            assert(pd.take(pd.len() as int) =~= pd);
            assert(ksd[ki as int] == keep@[ki as int]@);
        }
        if fs.contains(&q) {
            proof {
                assert(ksd.contains(ksd[ki as int]));
                assert(fs@.contains_key(pd.push(ksd[ki as int])));
            }
            return true;
        }
        ki += 1;
    }
    let lo: usize = if root.len() < 1 {
        1
    } else {
        root.len()
    };
    let mut a: usize = lo - 1;
    while a < path.len()
        invariant
            fs.wf(),
            lo >= 1,
            lo >= root@.len(),
            lo - 1 <= a,
            pd == path.deep_view(),
            ksd == keep.deep_view(),
            forall|j: int| 0 <= j < ksd.len() ==> !fs@.contains_key(pd.push(#[trigger] ksd[j])),
            forall|ll: int, j: int|
                lo <= ll < a + 1 && 0 <= j < ksd.len() ==> !fs@.contains_key(
                    #[trigger] pd.take(ll - 1).push(ksd[j]),
                ),
        decreases path@.len() - a,
    {
        let mut ki: usize = 0;
        while ki < keep.len()
            invariant
                fs.wf(),
                lo >= 1,
                lo >= root@.len(),
                lo - 1 <= a < path@.len(),
                ki <= keep@.len(),
                pd == path.deep_view(),
                ksd == keep.deep_view(),
                forall|j: int|
                    0 <= j < ki ==> !fs@.contains_key(pd.take(a as int).push(#[trigger] ksd[j])),
            decreases keep@.len() - ki,
        {
            let q = sibling_path(path, a, &keep[ki]);
            proof {
                assert(ksd[ki as int] == keep@[ki as int]@);
            }
            if fs.contains(&q) {
                proof {
                    let l = a + 1;
                    assert(ksd.contains(ksd[ki as int]));
                    assert(root.deep_view().len() == root@.len());
                    assert(fs@.contains_key(pd.take(l - 1).push(ksd[ki as int])));
                    assert(root.deep_view().len() <= l <= pd.len() && 1 <= l);
                }
                return true;
            }
            ki += 1;
        }
        a += 1;
    }
    proof {
        assert(root.deep_view().len() == root@.len());
        if protected(fs@, root.deep_view(), pd, ksd) {
            if exists|k: Seq<char>| ksd.contains(k) && #[trigger] fs@.contains_key(pd.push(k)) {
                let k = choose|k: Seq<char>|
                    ksd.contains(k) && #[trigger] fs@.contains_key(pd.push(k));
                let j = choose|j: int| 0 <= j < ksd.len() && ksd[j] == k;
                assert(false);
            } else {
                let (ll, k) = choose|ll: int, k: Seq<char>|
                    root.deep_view().len() <= ll <= pd.len() && 1 <= ll && ksd.contains(k)
                        && #[trigger] fs@.contains_key(pd.take(ll - 1).push(k));
                let j = choose|j: int| 0 <= j < ksd.len() && ksd[j] == k;
                assert(lo <= ll);
                assert(false);
            }
        }
    }
    false
}

} // verus!
