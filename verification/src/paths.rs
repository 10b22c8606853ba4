//! Paths as sequences of name components, and the few operations the
//! traversal needs: prefix tests, cloning, and computing mirrored paths.

use vstd::prelude::*;

verus! {

/// `p` is a (not necessarily proper) prefix of `q`: `q` lies at or below `p`.
pub open spec fn is_prefix_of(p: Seq<Seq<char>>, q: Seq<Seq<char>>) -> bool {
    p.len() <= q.len() && forall|i: int| 0 <= i < p.len() ==> p[i] == q[i]
}

/// `q` is an immediate child of directory path `d`.
pub open spec fn child_of(d: Seq<Seq<char>>, q: Seq<Seq<char>>) -> bool {
    q.len() == d.len() + 1 && is_prefix_of(d, q)
}

/// The target-side path that mirrors source-side path `p`: the suffix of `p`
/// after the source root `s`, reattached under the target root `t`.
pub open spec fn mirror_of(s: Seq<Seq<char>>, t: Seq<Seq<char>>, p: Seq<Seq<char>>) -> Seq<
    Seq<char>,
> {
    t + p.skip(s.len() as int)
}

pub fn path_eq(a: &Vec<String>, b: &Vec<String>) -> (r: bool)
    ensures
        r == (a.deep_view() == b.deep_view()),
{
    if a.len() != b.len() {
        proof {
            assert(a.deep_view().len() == a@.len());
            assert(b.deep_view().len() == b@.len());
        }
        return false;
    }
    let mut i: usize = 0;
    while i < a.len()
        invariant
            a@.len() == b@.len(),
            i <= a@.len(),
            forall|j: int| 0 <= j < i ==> a.deep_view()[j] == b.deep_view()[j],
        decreases a@.len() - i,
    {
        if !a[i].eq(&b[i]) {
            proof {
                assert(a.deep_view()[i as int] == a@[i as int]@);
                assert(b.deep_view()[i as int] == b@[i as int]@);
            }
            return false;
        }
        proof {
            assert(a.deep_view()[i as int] == a@[i as int]@);
            assert(b.deep_view()[i as int] == b@[i as int]@);
        }
        i += 1;
    }
    proof {
        assert(a.deep_view() =~= b.deep_view());
    }
    true
}

pub fn is_prefix(p: &Vec<String>, q: &Vec<String>) -> (r: bool)
    ensures
        r == is_prefix_of(p.deep_view(), q.deep_view()),
{
    if p.len() > q.len() {
        proof {
            assert(p.deep_view().len() == p@.len());
            assert(q.deep_view().len() == q@.len());
        }
        return false;
    }
    let mut i: usize = 0;
    while i < p.len()
        invariant
            p@.len() <= q@.len(),
            i <= p@.len(),
            forall|j: int| 0 <= j < i ==> p.deep_view()[j] == q.deep_view()[j],
        decreases p@.len() - i,
    {
        if !p[i].eq(&q[i]) {
            proof {
                assert(p.deep_view()[i as int] == p@[i as int]@);
                assert(q.deep_view()[i as int] == q@[i as int]@);
            }
            return false;
        }
        proof {
            assert(p.deep_view()[i as int] == p@[i as int]@);
            assert(q.deep_view()[i as int] == q@[i as int]@);
        }
        i += 1;
    }
    proof {
        assert(p.deep_view().len() == p@.len());
        assert(q.deep_view().len() == q@.len());
    }
    true
}

pub fn clone_path(p: &Vec<String>) -> (r: Vec<String>)
    ensures
        r.deep_view() == p.deep_view(),
        r@.len() == p@.len(),
{
    let mut out: Vec<String> = Vec::new();
    let mut i: usize = 0;
    while i < p.len()
        invariant
            i <= p@.len(),
            out@.len() == i,
            forall|j: int| 0 <= j < i ==> out.deep_view()[j] == p.deep_view()[j],
        decreases p@.len() - i,
    {
        out.push(p[i].clone());
        proof {
            assert(out.deep_view()[i as int] == out@[i as int]@);
            assert(p.deep_view()[i as int] == p@[i as int]@);
        }
        i += 1;
    }
    proof {
        assert(out.deep_view() =~= p.deep_view());
    }
    out
}

/// The first `n` components of `p`.
pub fn prefix_path(p: &Vec<String>, n: usize) -> (r: Vec<String>)
    requires
        n <= p@.len(),
    ensures
        r.deep_view() == p.deep_view().take(n as int),
        r@.len() == n,
{
    let mut out: Vec<String> = Vec::new();
    let mut i: usize = 0;
    while i < n
        invariant
            i <= n <= p@.len(),
            out@.len() == i,
            forall|j: int| 0 <= j < i ==> out.deep_view()[j] == p.deep_view()[j],
        decreases n - i,
    {
        out.push(p[i].clone());
        proof {
            assert(out.deep_view()[i as int] == out@[i as int]@);
            assert(p.deep_view()[i as int] == p@[i as int]@);
        }
        i += 1;
    }
    proof {
        assert(out.deep_view() =~= p.deep_view().take(n as int));
    }
    out
}

/// The first `n` components of `p`, with `name` appended: the path of a
/// sibling (or, with `n == p.len()`, a child) named `name`.
pub fn sibling_path(p: &Vec<String>, n: usize, name: &String) -> (r: Vec<String>)
    requires
        n <= p@.len(),
    ensures
        r.deep_view() == p.deep_view().take(n as int).push(name@),
{
    let mut out = prefix_path(p, n);
    out.push(name.clone());
    proof {
        assert(out.deep_view() =~= p.deep_view().take(n as int).push(name@));
    }
    out
}

/// The mirrored target path for source-side path `p`.
pub fn mirror_path(source: &Vec<String>, target: &Vec<String>, p: &Vec<String>) -> (r: Vec<String>)
    requires
        source@.len() <= p@.len(),
    ensures
        r.deep_view() == mirror_of(source.deep_view(), target.deep_view(), p.deep_view()),
{
    let mut out = clone_path(target);
    let mut i: usize = source.len();
    while i < p.len()
        invariant
            source@.len() <= i <= p@.len(),
            out.deep_view() == target.deep_view() + p.deep_view().subrange(
                source@.len() as int,
                i as int,
            ),
        decreases p@.len() - i,
    {
        let ghost dpre = out.deep_view();
        out.push(p[i].clone());
        proof {
            assert(out.deep_view().len() == out@.len());
            assert(out.deep_view()[dpre.len() as int] == out@[dpre.len() as int]@);
            assert(p.deep_view()[i as int] == p@[i as int]@);
            assert(forall|j: int|
                0 <= j < dpre.len() ==> #[trigger] out.deep_view()[j] == out@[j]@ && dpre[j]
                    == out@[j]@);
            assert(out.deep_view() =~= target.deep_view() + p.deep_view().subrange(
                source@.len() as int,
                i + 1,
            ));
        }
        i += 1;
    }
    proof {
        assert(p.deep_view().subrange(source@.len() as int, p.deep_view().len() as int)
            =~= p.deep_view().skip(source@.len() as int));
        assert(out.deep_view() == mirror_of(source.deep_view(), target.deep_view(), p.deep_view()));
    }
    out
}

} // verus!
