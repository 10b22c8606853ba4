//! The merge planner: a depth-first, explicit-stack walk of the source tree
//! that decides, per entry and per overwrite policy, whether the mirrored
//! target path is linked, replaced or left alone.

use vstd::prelude::*;
use vstd::set_lib::lemma_len_subset;

use crate::keep::keep_path;
use crate::keep::lemma_protected_monotone;
use crate::keep::marker_shaped;
use crate::keep::protected;
use crate::model::Fs;
use crate::model::Kind;
use crate::model::KindV;
use crate::model::removal_hits;
use crate::paths::clone_path;
use crate::paths::child_of;
use crate::paths::is_prefix;
use crate::paths::is_prefix_of;
use crate::paths::mirror_of;
use crate::paths::mirror_path;
use crate::paths::prefix_path;

verus! {

/// What to do when an existing target path stands where a symlink would go.
#[derive(Clone, Copy)]
pub enum Overwrite {
    /// Replace existing files, symlinks and directories, subject to markers.
    All,
    /// Replace existing directories only, subject to markers.
    Dirs,
    /// Replace existing files and symlinks only, subject to markers.
    Files,
    /// Replace nothing; only link where no target path exists yet.
    Never,
}

/// One mutation the planner performed on the snapshot, for a caller to
/// replay: remove what was at `path` (`kind` says what it was, and so
/// whether the removal is recursive), or create a symlink at `target`
/// pointing at `source`.
pub enum Action {
    Remove { path: Vec<String>, kind: Kind },
    Link { source: Vec<String>, target: Vec<String> },
}

/// Why a merge stopped: the roots did not resolve to directories, a source
/// path could not be listed as a directory, a walked path fell outside the
/// source root, or a symlink could not be created at the path carried.
#[derive(Debug)]
pub enum MergeError {
    Validation,
    Listing(Vec<String>),
    StripPrefix(Vec<String>),
    Link(Vec<String>),
}

/// Marker names protecting a file or symlink target from replacement.
pub open spec fn file_markers() -> Seq<Seq<char>> {
    seq![".keep"@, ".keep_files"@]
}

/// Marker names protecting a directory target from replacement.
pub open spec fn dir_markers() -> Seq<Seq<char>> {
    seq![".keep"@, ".keep_dirs"@]
}

pub open spec fn is_marker_name(k: Seq<char>) -> bool {
    k == ".keep"@ || k == ".keep_files"@ || k == ".keep_dirs"@
}

/// No path in the snapshot ends in a marker name.
pub open spec fn no_markers(m: Map<Seq<Seq<char>>, KindV>) -> bool {
    forall|q: Seq<Seq<char>>|
        #[trigger] m.contains_key(q) ==> q.len() < 1 || !is_marker_name(q.last())
}

proof fn lemma_no_markers_unprotected(
    m: Map<Seq<Seq<char>>, KindV>,
    root: Seq<Seq<char>>,
    p: Seq<Seq<char>>,
    ks: Seq<Seq<char>>,
)
    requires
        no_markers(m),
        forall|k: Seq<char>| ks.contains(k) ==> is_marker_name(k),
    ensures
        !protected(m, root, p, ks),
{
    if protected(m, root, p, ks) {
        if exists|k: Seq<char>| ks.contains(k) && #[trigger] m.contains_key(p.push(k)) {
            let k = choose|k: Seq<char>| ks.contains(k) && #[trigger] m.contains_key(p.push(k));
            assert(p.push(k).last() == k);
        } else {
            let (l, k) = choose|l: int, k: Seq<char>|
                root.len() <= l <= p.len() && 1 <= l && ks.contains(k) && #[trigger] m.contains_key(
                    p.take(l - 1).push(k),
                );
            assert(p.take(l - 1).push(k).last() == k);
        }
    }
}

/// One level of symlink resolution: the link's literal target if `p` is a
/// symlink, else `p` itself.
pub open spec fn resolve_of(m: Map<Seq<Seq<char>>, KindV>, p: Seq<Seq<char>>) -> Seq<Seq<char>> {
    if m.contains_key(p) {
        match m[p] {
            KindV::Symlink(t) => t,
            KindV::File => p,
            KindV::Dir => p,
        }
    } else {
        p
    }
}

/// If `path` is a symlink, its literal target (one level, not fully
/// dereferenced); otherwise `path` unchanged.
pub fn resolve_symlink(fs: &Fs, path: &Vec<String>) -> (r: Vec<String>)
    requires
        fs.wf(),
    ensures
        r.deep_view() == resolve_of(fs@, path.deep_view()),
{
    match fs.lookup(path) {
        Some(Kind::Symlink(t)) => clone_path(t),
        _ => clone_path(path),
    }
}

/// The set of path views held by a vector of paths.
pub open spec fn lset(l: Seq<Vec<String>>) -> Set<Seq<Seq<char>>> {
    Set::new(
        |p: Seq<Seq<char>>| exists|i: int| 0 <= i < l.len() && #[trigger] l[i].deep_view() == p,
    )
}

proof fn lemma_lset_push(l: Seq<Vec<String>>, v: Vec<String>)
    ensures
        lset(l.push(v)) == lset(l).insert(v.deep_view()),
{
    assert forall|p: Seq<Seq<char>>| #[trigger] lset(l.push(v)).contains(p) implies lset(
        l,
    ).insert(v.deep_view()).contains(p) by {
        let i = choose|i: int| 0 <= i < l.push(v).len() && #[trigger] l.push(v)[i].deep_view()
            == p;
        if i < l.len() {
            assert(l[i].deep_view() == p);
        }
    }
    assert forall|p: Seq<Seq<char>>| #[trigger] lset(l).insert(v.deep_view()).contains(
        p,
    ) implies lset(l.push(v)).contains(p) by {
        if p == v.deep_view() {
            assert(l.push(v)[l.len() as int].deep_view() == p);
        } else {
            let i = choose|i: int| 0 <= i < l.len() && #[trigger] l[i].deep_view() == p;
            assert(l.push(v)[i].deep_view() == p);
        }
    }
    assert(lset(l.push(v)) =~= lset(l).insert(v.deep_view()));
}

fn in_listed(listed: &Vec<Vec<String>>, p: &Vec<String>) -> (r: bool)
    ensures
        r == lset(listed@).contains(p.deep_view()),
{
    let mut i: usize = 0;
    while i < listed.len()
        invariant
            i <= listed@.len(),
            forall|j: int| 0 <= j < i ==> #[trigger] listed@[j].deep_view() != p.deep_view(),
        decreases listed@.len() - i,
    {
        if crate::paths::path_eq(&listed[i], p) {
            assert(lset(listed@).contains(p.deep_view()));
            return true;
        }
        i += 1;
    }
    proof {
        if lset(listed@).contains(p.deep_view()) {
            let j = choose|j: int|
                0 <= j < listed@.len() && #[trigger] listed@[j].deep_view() == p.deep_view();
            assert(false);
        }
    }
    false
}

/// The directory paths of a snapshot.
pub open spec fn dirs_of(m: Map<Seq<Seq<char>>, KindV>) -> Set<Seq<Seq<char>>> {
    Set::new(|p: Seq<Seq<char>>| m.contains_key(p) && m[p] is Dir)
}

/// The work stack grew only by the children of `rp`: every pushed path is a
/// child of `rp` present in the snapshot, every such child was pushed, and
/// no path was pushed twice.
pub open spec fn pushed_children(
    fsv: Map<Seq<Seq<char>>, KindV>,
    rp: Seq<Seq<char>>,
    s0: Seq<Vec<String>>,
    s1: Seq<Vec<String>>,
) -> bool {
    &&& s1.len() >= s0.len()
    &&& s1.take(s0.len() as int) == s0
    &&& forall|j: int|
        s0.len() <= j < s1.len() ==> child_of(rp, #[trigger] s1[j].deep_view())
            && fsv.contains_key(s1[j].deep_view())
    &&& forall|q: Seq<Seq<char>>|
        fsv.contains_key(q) && child_of(rp, q) ==> exists|j: int|
            s0.len() <= j < s1.len() && #[trigger] s1[j].deep_view() == q
    &&& forall|j1: int, j2: int|
        s0.len() <= j1 < j2 < s1.len() ==> #[trigger] s1[j1].deep_view()
            != #[trigger] s1[j2].deep_view()
}

/// A successful descent either found the resolved directory already listed
/// and left everything alone, or recorded it as listed and pushed exactly
/// its children.
pub open spec fn descended(
    fsv: Map<Seq<Seq<char>>, KindV>,
    pd: Seq<Seq<char>>,
    s0: Seq<Vec<String>>,
    s1: Seq<Vec<String>>,
    l0: Seq<Vec<String>>,
    l1: Seq<Vec<String>>,
) -> bool {
    let rp = resolve_of(fsv, pd);
    ||| (lset(l0).contains(rp) && l1 == l0 && s1 == s0)
    ||| (!lset(l0).contains(rp) && fsv.contains_key(rp) && fsv[rp] is Dir && lset(l1) == lset(
        l0,
    ).insert(rp) && pushed_children(fsv, rp, s0, s1))
}

/// A failed descent: the resolved path is no directory of the snapshot (and
/// was not listed before); nothing changed.
pub open spec fn descent_failed(
    fsv: Map<Seq<Seq<char>>, KindV>,
    pd: Seq<Seq<char>>,
    s0: Seq<Vec<String>>,
    s1: Seq<Vec<String>>,
    l0: Seq<Vec<String>>,
    l1: Seq<Vec<String>>,
) -> bool {
    let rp = resolve_of(fsv, pd);
    !lset(l0).contains(rp) && !(fsv.contains_key(rp) && fsv[rp] is Dir) && s1 == s0 && l1 == l0
}

/// List the children of `path` (resolved one symlink level) and push them on
/// the work stack, unless that directory was listed before; a path that does
/// not resolve to a directory cannot be listed.
fn go_deeper(
    fs: &Fs,
    stack: &mut Vec<Vec<String>>,
    listed: &mut Vec<Vec<String>>,
    path: &Vec<String>,
) -> (r: Result<(), MergeError>)
    requires
        fs.wf(),
    ensures
        match r {
            Result::Ok(()) => descended(
                fs@,
                path.deep_view(),
                old(stack)@,
                final(stack)@,
                old(listed)@,
                final(listed)@,
            ),
            Result::Err(e) => (e matches MergeError::Listing(_)) && descent_failed(
                fs@,
                path.deep_view(),
                old(stack)@,
                final(stack)@,
                old(listed)@,
                final(listed)@,
            ),
        },
{
    let rp = resolve_symlink(fs, path);
    if in_listed(listed, &rp) {
        return Ok(());
    }
    let is_dir = match fs.lookup(&rp) {
        Some(Kind::Dir) => true,
        _ => false,
    };
    if !is_dir {
        return Err(MergeError::Listing(rp));
    }
    let kids = fs.list_children(&rp);
    let ghost stack0 = stack@;
    let mut i: usize = 0;
    while i < kids.len()
        invariant
            i <= kids@.len(),
            stack@.len() == stack0.len() + i,
            stack@.take(stack0.len() as int) == stack0,
            forall|j: int|
                stack0.len() <= j < stack@.len() ==> #[trigger] stack@[j].deep_view()
                    == kids@[j - stack0.len()].deep_view(),
        decreases kids@.len() - i,
    {
        let ghost spre = stack@;
        stack.push(clone_path(&kids[i]));
        proof {
            assert(stack@.take(stack0.len() as int) =~= stack0);
            assert(stack@[spre.len() as int].deep_view() == kids@[i as int].deep_view());
        }
        i += 1;
    }
    let ghost listed0 = listed@;
    listed.push(rp);
    proof {
        lemma_lset_push(listed0, listed@.last());
        assert forall|q: Seq<Seq<char>>|
            fs@.contains_key(q) && child_of(resolve_of(fs@, path.deep_view()), q) implies exists|
            j: int,
        |
            stack0.len() <= j < stack@.len() && #[trigger] stack@[j].deep_view() == q by {
            let jk = choose|jk: int| 0 <= jk < kids@.len() && #[trigger] kids@[jk].deep_view()
                == q;
            assert(stack@[stack0.len() + jk].deep_view() == q);
        }
    }
    Ok(())
}

/// Every path of `m1` either already sat unchanged in `m0`, or is a symlink
/// at a mirrored target path pointing at its source-side counterpart. This
/// is the whole of what a merge may do to the snapshot: no other value is
/// written, so in particular no file content is ever copied or changed.
pub open spec fn frame_ok(
    m0: Map<Seq<Seq<char>>, KindV>,
    m1: Map<Seq<Seq<char>>, KindV>,
    sdv: Seq<Seq<char>>,
    tdv: Seq<Seq<char>>,
) -> bool {
    forall|p: Seq<Seq<char>>|
        #[trigger] m1.contains_key(p) ==> (m0.contains_key(p) && m1[p] == m0[p]) || (is_prefix_of(
            tdv,
            p,
        ) && m1[p] == KindV::Symlink(sdv + p.skip(tdv.len() as int)))
}

/// The removed target stood in the starting snapshot with the recorded
/// kind, or was a mirrored symlink this very merge had created.
pub open spec fn removed_existed(
    m0: Map<Seq<Seq<char>>, KindV>,
    sdv: Seq<Seq<char>>,
    tdv: Seq<Seq<char>>,
    pd: Seq<Seq<char>>,
    kv: KindV,
) -> bool {
    ||| (m0.contains_key(pd) && m0[pd] == kv)
    ||| (is_prefix_of(tdv, pd) && kv == KindV::Symlink(sdv + pd.skip(tdv.len() as int)))
}

/// Every action respects the overwrite policy: `Never` removes nothing,
/// `Dirs` removes only directory targets (and what stood there was a
/// directory in the starting snapshot), `Files` removes only file or symlink
/// targets; every removal names a target that really stood there, and links
/// always target the mirrored path of a source-side path.
pub open spec fn actions_ok(
    acts: Seq<Action>,
    ow: Overwrite,
    m0: Map<Seq<Seq<char>>, KindV>,
    sdv: Seq<Seq<char>>,
    tdv: Seq<Seq<char>>,
) -> bool {
    forall|i: int|
        0 <= i < acts.len() ==> match #[trigger] acts[i] {
            Action::Remove { path, kind } => removed_existed(
                m0,
                sdv,
                tdv,
                path.deep_view(),
                kind@,
            ) && match ow {
                Overwrite::Never => false,
                Overwrite::Dirs => kind@ is Dir && m0.contains_key(path.deep_view())
                    && m0[path.deep_view()] is Dir,
                Overwrite::Files => !(kind@ is Dir),
                Overwrite::All => true,
            },
            Action::Link { source, target } => is_prefix_of(sdv, source.deep_view())
                && target.deep_view() == mirror_of(sdv, tdv, source.deep_view()),
        }
}

/// Nothing of `m0` was lost or changed.
pub open spec fn preserved_all(
    m0: Map<Seq<Seq<char>>, KindV>,
    m1: Map<Seq<Seq<char>>, KindV>,
) -> bool {
    forall|p: Seq<Seq<char>>|
        #[trigger] m0.contains_key(p) ==> m1.contains_key(p) && m1[p] == m0[p]
}

/// Every path of `m0` that its markers protect from file replacement is
/// neither lost nor changed.
pub open spec fn preserved_protected(
    m0: Map<Seq<Seq<char>>, KindV>,
    m1: Map<Seq<Seq<char>>, KindV>,
    tdv: Seq<Seq<char>>,
) -> bool {
    forall|p: Seq<Seq<char>>|
        #[trigger] m0.contains_key(p) && protected(m0, tdv, p, file_markers()) ==> m1.contains_key(
            p,
        ) && m1[p] == m0[p]
}

/// Every directory of `m0` is still present and unchanged in `m1`.
pub open spec fn dirs_preserved(
    m0: Map<Seq<Seq<char>>, KindV>,
    m1: Map<Seq<Seq<char>>, KindV>,
) -> bool {
    forall|p: Seq<Seq<char>>|
        #[trigger] m0.contains_key(p) && m0[p] is Dir ==> m1.contains_key(p) && m1[p] == m0[p]
}

/// No file or symlink of `m0` that is still present in `m1` was changed.
pub open spec fn nondirs_unreplaced(
    m0: Map<Seq<Seq<char>>, KindV>,
    m1: Map<Seq<Seq<char>>, KindV>,
) -> bool {
    forall|p: Seq<Seq<char>>|
        #[trigger] m0.contains_key(p) && !(m0[p] is Dir) && m1.contains_key(p) ==> m1[p] == m0[p]
}

/// A file or symlink of `m0` that is gone from `m1` has no directory above
/// it either, so nothing can be created at its path again.
pub open spec fn orphan_gaps(
    m0: Map<Seq<Seq<char>>, KindV>,
    m1: Map<Seq<Seq<char>>, KindV>,
) -> bool {
    forall|p: Seq<Seq<char>>|
        #[trigger] m0.contains_key(p) && !(m0[p] is Dir) && !m1.contains_key(p) && p.len() >= 1
            ==> !(m1.contains_key(p.take(p.len() - 1)) && m1[p.take(p.len() - 1)] is Dir)
}

/// All file-replacement marker paths of `m0` are still present.
pub open spec fn markers_present(
    m0: Map<Seq<Seq<char>>, KindV>,
    m1: Map<Seq<Seq<char>>, KindV>,
) -> bool {
    forall|q: Seq<Seq<char>>|
        marker_shaped(q, file_markers()) && #[trigger] m0.contains_key(q) ==> m1.contains_key(q)
}

/// The marker names consulted before replacing a target of the given kind.
fn marker_names(dirs: bool) -> (r: Vec<String>)
    ensures
        r.deep_view() == if dirs {
            dir_markers()
        } else {
            file_markers()
        },
{
    let mut v: Vec<String> = Vec::new();
    v.push(String::from_str(".keep"));
    if dirs {
        v.push(String::from_str(".keep_dirs"));
        proof {
            assert(v.deep_view()[0] == v@[0]@);
            assert(v.deep_view()[1] == v@[1]@);
            assert(v.deep_view() =~= dir_markers());
        }
    } else {
        v.push(String::from_str(".keep_files"));
        proof {
            assert(v.deep_view()[0] == v@[0]@);
            assert(v.deep_view()[1] == v@[1]@);
            assert(v.deep_view() =~= file_markers());
        }
    }
    v
}

/// Create the symlink at `tp` pointing at `sp` and record the action; fails
/// exactly when `tp` has no parent directory in the snapshot to hold it.
fn link_entry(fs: &mut Fs, acts: &mut Vec<Action>, sp: Vec<String>, tp: Vec<String>) -> (r: Result<
    (),
    MergeError,
>)
    requires
        old(fs).wf(),
        !old(fs)@.contains_key(tp.deep_view()),
    ensures
        final(fs).wf(),
        match r {
            Result::Ok(()) => ({
                &&& final(fs)@ == old(fs)@.insert(tp.deep_view(), KindV::Symlink(sp.deep_view()))
                &&& final(acts)@ == old(acts)@.push((Action::Link { source: sp, target: tp }))
                &&& tp.deep_view().len() >= 1
                &&& old(fs)@.contains_key(tp.deep_view().take(tp.deep_view().len() - 1))
                &&& old(fs)@[tp.deep_view().take(tp.deep_view().len() - 1)] is Dir
            }),
            Result::Err(e) => ({
                &&& e matches MergeError::Link(_)
                &&& final(fs)@ == old(fs)@
                &&& final(acts)@ == old(acts)@
                &&& !(tp.deep_view().len() >= 1 && old(fs)@.contains_key(
                    tp.deep_view().take(tp.deep_view().len() - 1),
                ) && old(fs)@[tp.deep_view().take(tp.deep_view().len() - 1)] is Dir)
            }),
        },
{
    proof {
        assert(tp.deep_view().len() == tp@.len());
    }
    if tp.len() == 0 {
        return Err(MergeError::Link(tp));
    }
    let parent = prefix_path(&tp, tp.len() - 1);
    let parent_ok = match fs.lookup(&parent) {
        Some(Kind::Dir) => true,
        _ => false,
    };
    if !parent_ok {
        return Err(MergeError::Link(tp));
    }
    let tpc = clone_path(&tp);
    let spc = clone_path(&sp);
    fs.insert(tpc, Kind::Symlink(spc));
    acts.push(Action::Link { source: sp, target: tp });
    Ok(())
}


/// The snapshot change one action stands for: a removal scrubs the path
/// (recursively when a directory was removed), a link inserts the symlink.
pub open spec fn apply_action(m: Map<Seq<Seq<char>>, KindV>, a: Action) -> Map<
    Seq<Seq<char>>,
    KindV,
> {
    match a {
        Action::Remove { path, kind } => crate::model::scrub(m, path.deep_view(), kind@ is Dir),
        Action::Link { source, target } => m.insert(
            target.deep_view(),
            KindV::Symlink(source.deep_view()),
        ),
    }
}

/// The snapshot left after replaying the actions in order.
pub open spec fn apply_actions(m: Map<Seq<Seq<char>>, KindV>, acts: Seq<Action>) -> Map<
    Seq<Seq<char>>,
    KindV,
>
    decreases acts.len(),
{
    if acts.len() == 0 {
        m
    } else {
        apply_actions(apply_action(m, acts[0]), acts.skip(1))
    }
}

proof fn lemma_apply_actions_app(m: Map<Seq<Seq<char>>, KindV>, a: Seq<Action>, b: Seq<Action>)
    ensures
        apply_actions(m, a + b) == apply_actions(apply_actions(m, a), b),
    decreases a.len(),
{
    if a.len() == 0 {
        assert(a + b =~= b);
    } else {
        assert((a + b)[0] == a[0]);
        assert((a + b).skip(1) =~= a.skip(1) + b);
        lemma_apply_actions_app(apply_action(m, a[0]), a.skip(1), b);
    }
}

/// Extending a replayed action sequence extends the replay.
proof fn lemma_replay_extend(
    m0: Map<Seq<Seq<char>>, KindV>,
    fs_pre: Map<Seq<Seq<char>>, KindV>,
    fs_post: Map<Seq<Seq<char>>, KindV>,
    acts_pre: Seq<Action>,
    acts_post: Seq<Action>,
)
    requires
        fs_pre == apply_actions(m0, acts_pre),
        acts_post.len() >= acts_pre.len(),
        acts_post.take(acts_pre.len() as int) == acts_pre,
        fs_post == apply_actions(fs_pre, acts_post.skip(acts_pre.len() as int)),
    ensures
        fs_post == apply_actions(m0, acts_post),
{
    lemma_apply_actions_app(m0, acts_pre, acts_post.skip(acts_pre.len() as int));
    assert(acts_pre + acts_post.skip(acts_pre.len() as int) =~= acts_post);
}

/// The snapshot after the removal step of a replacement: unchanged when
/// nothing stood at `tpd`, else with `tpd` (and, for a directory, its
/// subtree) taken out.
pub open spec fn removed_map(
    m: Map<Seq<Seq<char>>, KindV>,
    tpd: Seq<Seq<char>>,
    existing: Option<Kind>,
    deep: bool,
) -> Map<Seq<Seq<char>>, KindV> {
    if existing is Some {
        crate::model::scrub(m, tpd, deep)
    } else {
        m
    }
}

/// Nothing outside the target root is ever touched: every path of `m0` not
/// under `tdv` is still present and unchanged in `m1`.
pub open spec fn outside_untouched(
    m0: Map<Seq<Seq<char>>, KindV>,
    m1: Map<Seq<Seq<char>>, KindV>,
    tdv: Seq<Seq<char>>,
) -> bool {
    forall|p: Seq<Seq<char>>|
        #[trigger] m0.contains_key(p) && !is_prefix_of(tdv, p) ==> m1.contains_key(p) && m1[p]
            == m0[p]
}

/// One replacement step only writes at the mirrored target path and below.
proof fn lemma_outside_step(
    m0: Map<Seq<Seq<char>>, KindV>,
    fs_pre: Map<Seq<Seq<char>>, KindV>,
    fs_post: Map<Seq<Seq<char>>, KindV>,
    tdv: Seq<Seq<char>>,
    tpd: Seq<Seq<char>>,
    existing: Option<Kind>,
    deep: bool,
    lv: KindV,
)
    requires
        outside_untouched(m0, fs_pre, tdv),
        is_prefix_of(tdv, tpd),
        fs_post == removed_map(fs_pre, tpd, existing, deep).insert(tpd, lv) || fs_post
            == removed_map(fs_pre, tpd, existing, deep),
    ensures
        outside_untouched(m0, fs_post, tdv),
{
    let rm = removed_map(fs_pre, tpd, existing, deep);
    assert forall|p: Seq<Seq<char>>|
        #[trigger] m0.contains_key(p) && !is_prefix_of(tdv, p) implies fs_post.contains_key(p)
        && fs_post[p] == m0[p] by {
        assert(fs_pre.contains_key(p) && fs_pre[p] == m0[p]);
        if existing is Some && removal_hits(tpd, p, deep) {
            if deep {
                assert(is_prefix_of(tpd, p));
                assert(is_prefix_of(tdv, p));
            } else {
                assert(p == tpd);
            }
            assert(false);
        }
        assert(rm.contains_key(p) && rm[p] == m0[p]);
        assert(p != tpd);
    }
}

/// Just the unconditional marker name.
pub open spec fn keep_only() -> Seq<Seq<char>> {
    seq![".keep"@]
}

/// `p` and each of its ancestors down to and including the target root is
/// protected by a marker of `hks` (directly inside it, or beside an
/// ancestor).
pub open spec fn keep_hered(
    m0: Map<Seq<Seq<char>>, KindV>,
    tdv: Seq<Seq<char>>,
    p: Seq<Seq<char>>,
    hks: Seq<Seq<char>>,
) -> bool {
    forall|l: int|
        tdv.len() <= l <= p.len() ==> protected(m0, tdv, #[trigger] p.take(l), hks)
}

/// Keep-file inviolability: every path of `m0` that markers of `hks`
/// protect hereditarily (itself and all its enclosing directories down to
/// and including the target root) is still present and unchanged in `m1`.
pub open spec fn preserved_hered(
    m0: Map<Seq<Seq<char>>, KindV>,
    m1: Map<Seq<Seq<char>>, KindV>,
    tdv: Seq<Seq<char>>,
    hks: Seq<Seq<char>>,
) -> bool {
    forall|p: Seq<Seq<char>>|
        #[trigger] m0.contains_key(p) && keep_hered(m0, tdv, p, hks) ==> m1.contains_key(p)
            && m1[p] == m0[p]
}

/// What hereditary `.keep` protection protects, it protects wholesale: every
/// path below a hereditarily protected one is hereditarily protected too, so
/// `preserved_hered` keeps a protected directory's entire subtree intact.
pub proof fn lemma_keep_hered_descends(
    m0: Map<Seq<Seq<char>>, KindV>,
    tdv: Seq<Seq<char>>,
    p: Seq<Seq<char>>,
    q: Seq<Seq<char>>,
    hks: Seq<Seq<char>>,
)
    requires
        keep_hered(m0, tdv, p, hks),
        is_prefix_of(tdv, p),
        is_prefix_of(p, q),
    ensures
        keep_hered(m0, tdv, q, hks),
{
    assert forall|l: int| tdv.len() <= l <= q.len() implies protected(
        m0,
        tdv,
        #[trigger] q.take(l),
        hks,
    ) by {
        if l <= p.len() {
            assert(q.take(l) =~= p.take(l));
        } else {
            assert(p.take(p.len() as int) =~= p);
            assert(protected(m0, tdv, p, hks));
            assert(is_prefix_of(p, q.take(l)));
            assert(is_prefix_of(tdv, p));
            crate::keep::lemma_protected_descends(m0, tdv, p, q.take(l), hks);
        }
    }
}

/// A `.keep` witness that protects an ancestor of a hereditarily protected
/// path is itself hereditarily protected, so it survives into any snapshot
/// that keeps the hereditarily protected paths; the protection it grants
/// carries over.
proof fn lemma_hered_transfer(
    m0: Map<Seq<Seq<char>>, KindV>,
    m1: Map<Seq<Seq<char>>, KindV>,
    tdv: Seq<Seq<char>>,
    p: Seq<Seq<char>>,
    xlen: int,
    hks: Seq<Seq<char>>,
)
    requires
        keep_hered(m0, tdv, p, hks),
        tdv.len() <= xlen <= p.len(),
        forall|q: Seq<Seq<char>>|
            #[trigger] m0.contains_key(q) && keep_hered(m0, tdv, q, hks) ==> m1.contains_key(q),
    ensures
        protected(m1, tdv, p.take(xlen), hks),
{
    let x = p.take(xlen);
    assert(protected(m0, tdv, x, hks));
    if exists|k: Seq<char>| hks.contains(k) && #[trigger] m0.contains_key(x.push(k)) {
        let k = choose|k: Seq<char>|
            hks.contains(k) && #[trigger] m0.contains_key(x.push(k));
        let mq = x.push(k);
        assert(keep_hered(m0, tdv, mq, hks)) by {
            assert forall|l: int| tdv.len() <= l <= mq.len() implies protected(
                m0,
                tdv,
                #[trigger] mq.take(l),
                hks,
            ) by {
                if l <= xlen {
                    assert(mq.take(l) =~= p.take(l));
                } else {
                    assert(mq.take(l) =~= mq);
                    assert(mq.take(mq.len() - 1).push(k) =~= mq);
                    assert(protected(m0, tdv, mq, hks));
                }
            }
        }
        assert(m1.contains_key(mq));
        assert(protected(m1, tdv, x, hks));
    } else {
        let (l0, k) = choose|l0: int, k: Seq<char>|
            tdv.len() <= l0 <= x.len() && 1 <= l0 && hks.contains(k)
                && #[trigger] m0.contains_key(x.take(l0 - 1).push(k));
        let mq = x.take(l0 - 1).push(k);
        assert(x.take(l0 - 1) =~= p.take(l0 - 1));
        assert(keep_hered(m0, tdv, mq, hks)) by {
            assert forall|l: int| tdv.len() <= l <= mq.len() implies protected(
                m0,
                tdv,
                #[trigger] mq.take(l),
                hks,
            ) by {
                if l <= l0 - 1 {
                    assert(mq.take(l) =~= p.take(l));
                } else {
                    assert(l == l0);
                    assert(mq.take(l) =~= mq);
                    assert(mq.take(mq.len() - 1).push(k) =~= mq);
                    assert(protected(m0, tdv, mq, hks));
                }
            }
        }
        assert(m1.contains_key(mq));
        assert(mq == p.take(l0 - 1).push(k));
        assert(x.take(l0 - 1).push(k) == mq);
        assert(protected(m1, tdv, x, hks));
    }
}

/// One replacement step keeps every hereditarily `.keep`-protected path: the
/// step only ever removes a target it found unprotected, and such a target
/// can neither be a protected path nor an enclosing directory of one.
proof fn lemma_hered_replace(
    m0: Map<Seq<Seq<char>>, KindV>,
    fs_pre: Map<Seq<Seq<char>>, KindV>,
    fs_post: Map<Seq<Seq<char>>, KindV>,
    tdv: Seq<Seq<char>>,
    tpd: Seq<Seq<char>>,
    existing: Option<Kind>,
    deep: bool,
    ks: Seq<Seq<char>>,
    lv: KindV,
    hks: Seq<Seq<char>>,
)
    requires
        preserved_hered(m0, fs_pre, tdv, hks),
        is_prefix_of(tdv, tpd),
        (existing is Some ==> forall|k: Seq<char>| hks.contains(k) ==> #[trigger] ks.contains(k)),
        (existing is Some ==> !protected(fs_pre, tdv, tpd, ks) && fs_pre.contains_key(tpd)),
        (existing is None ==> !fs_pre.contains_key(tpd)),
        fs_post == removed_map(fs_pre, tpd, existing, deep).insert(tpd, lv) || fs_post
            == removed_map(fs_pre, tpd, existing, deep),
    ensures
        preserved_hered(m0, fs_post, tdv, hks),
{
    let rm = removed_map(fs_pre, tpd, existing, deep);
    assert forall|p: Seq<Seq<char>>|
        #[trigger] m0.contains_key(p) && keep_hered(m0, tdv, p, hks) implies fs_post.contains_key(p)
        && fs_post[p] == m0[p] by {
        assert(fs_pre.contains_key(p) && fs_pre[p] == m0[p]);
        if existing is Some {
            if removal_hits(tpd, p, deep) {
                let xlen = tpd.len() as int;
                if deep {
                    assert(is_prefix_of(tpd, p));
                    assert(tpd =~= p.take(xlen));
                } else {
                    assert(p == tpd);
                    assert(tpd =~= p.take(xlen));
                }
                assert(tdv.len() <= xlen <= p.len());
                assert forall|q: Seq<Seq<char>>|
                    #[trigger] m0.contains_key(q) && keep_hered(m0, tdv, q, hks) implies fs_pre.contains_key(
                    q,
                ) by {}
                lemma_hered_transfer(m0, fs_pre, tdv, p, xlen, hks);
                assert(protected(fs_pre, tdv, tpd, hks));
                // a `.keep` witness counts for any marker set holding `.keep`
                if exists|k: Seq<char>| hks.contains(k) && #[trigger] fs_pre.contains_key(
                    tpd.push(k),
                ) {
                    let k = choose|k: Seq<char>|
                        hks.contains(k) && #[trigger] fs_pre.contains_key(tpd.push(k));
                    assert(ks.contains(k));
                    assert(protected(fs_pre, tdv, tpd, ks));
                } else {
                    let (l0, k) = choose|l0: int, k: Seq<char>|
                        tdv.len() <= l0 <= tpd.len() && 1 <= l0 && hks.contains(k)
                            && #[trigger] fs_pre.contains_key(tpd.take(l0 - 1).push(k));
                    assert(ks.contains(k));
                    assert(protected(fs_pre, tdv, tpd, ks));
                }
                assert(false);
            }
            assert(rm.contains_key(p) && rm[p] == fs_pre[p]);
        } else {
            assert(rm == fs_pre);
        }
        assert(!rm.contains_key(tpd));
        assert(p != tpd);
    }
}

/// No path in the source subtree is a symbolic link: every listing the walk
/// makes then stays inside the source subtree.
pub open spec fn clean_source(m0: Map<Seq<Seq<char>>, KindV>, sdv: Seq<Seq<char>>) -> bool {
    forall|q: Seq<Seq<char>>|
        #[trigger] m0.contains_key(q) && is_prefix_of(sdv, q) ==> !(m0[q] is Symlink)
}

/// Neither root lies inside the other.
pub open spec fn roots_disjoint(sdv: Seq<Seq<char>>, tdv: Seq<Seq<char>>) -> bool {
    !is_prefix_of(sdv, tdv) && !is_prefix_of(tdv, sdv)
}

/// The case in which links are owed under every policy: a symlink-free
/// source subtree and disjoint roots.
pub open spec fn cs_case(
    m0: Map<Seq<Seq<char>>, KindV>,
    sdv: Seq<Seq<char>>,
    tdv: Seq<Seq<char>>,
) -> bool {
    clean_source(m0, sdv) && roots_disjoint(sdv, tdv)
}

/// The invariants behind the owed links: the target root is intact, the
/// stack holds only source-subtree paths of the starting snapshot, no source
/// child is pending twice, and each unconflicted source child is pending or
/// already has its mirror present (never both).
pub open spec fn cs_inv(
    m0: Map<Seq<Seq<char>>, KindV>,
    fsv: Map<Seq<Seq<char>>, KindV>,
    sdv: Seq<Seq<char>>,
    tdv: Seq<Seq<char>>,
    st: Seq<Vec<String>>,
) -> bool {
    &&& fsv.contains_key(tdv) && fsv[tdv] is Dir
    &&& forall|j: int|
        0 <= j < st.len() ==> is_prefix_of(sdv, #[trigger] st[j].deep_view())
            && st[j].deep_view().len() > sdv.len() && m0.contains_key(st[j].deep_view())
    &&& forall|j1: int, j2: int|
        0 <= j1 < j2 < st.len() && child_of(sdv, #[trigger] st[j1].deep_view()) && child_of(
            sdv,
            #[trigger] st[j2].deep_view(),
        ) ==> st[j1].deep_view() != st[j2].deep_view()
    &&& forall|q: Seq<Seq<char>>|
        m0.contains_key(q) && #[trigger] child_of(sdv, q) && !m0.contains_key(
            mirror_of(sdv, tdv, q),
        ) ==> (exists|j: int| 0 <= j < st.len() && #[trigger] st[j].deep_view() == q)
            || fsv.contains_key(mirror_of(sdv, tdv, q))
    &&& forall|q: Seq<Seq<char>>|
        m0.contains_key(q) && #[trigger] child_of(sdv, q) && !m0.contains_key(
            mirror_of(sdv, tdv, q),
        ) && (exists|j: int| 0 <= j < st.len() && #[trigger] st[j].deep_view() == q)
            ==> !fsv.contains_key(mirror_of(sdv, tdv, q))
}

/// Two source-subtree paths with the same mirror are the same path.
proof fn lemma_mirror_injective(
    sdv: Seq<Seq<char>>,
    tdv: Seq<Seq<char>>,
    a: Seq<Seq<char>>,
    b: Seq<Seq<char>>,
)
    requires
        is_prefix_of(sdv, a),
        is_prefix_of(sdv, b),
        mirror_of(sdv, tdv, a) == mirror_of(sdv, tdv, b),
    ensures
        a == b,
{
    let ma = mirror_of(sdv, tdv, a);
    assert(ma == tdv + a.skip(sdv.len() as int));
    assert(ma == tdv + b.skip(sdv.len() as int));
    assert(a.len() == b.len());
    assert forall|i: int|
        0 <= i < a.skip(sdv.len() as int).len() implies a.skip(sdv.len() as int)[i] == b.skip(
        sdv.len() as int,
    )[i] by {
        assert(a.skip(sdv.len() as int)[i] == (tdv + a.skip(sdv.len() as int))[tdv.len() + i]);
        assert(b.skip(sdv.len() as int)[i] == (tdv + b.skip(sdv.len() as int))[tdv.len() + i]);
    }
    assert(a.skip(sdv.len() as int) =~= b.skip(sdv.len() as int));
    assert(a.len() == b.len());
    assert forall|i: int| 0 <= i < a.len() implies a[i] == b[i] by {
        if i >= sdv.len() {
            assert(a.skip(sdv.len() as int)[i - sdv.len()] == a[i]);
            assert(b.skip(sdv.len() as int)[i - sdv.len()] == b[i]);
        } else {
            assert(sdv[i] == a[i]);
            assert(sdv[i] == b[i]);
        }
    }
    assert(a =~= b);
}

/// Popping a pending path whose mirrored target exists keeps the owed-link
/// invariants (nothing in the snapshot changes).
proof fn lemma_cs_skip(
    m0: Map<Seq<Seq<char>>, KindV>,
    fsv: Map<Seq<Seq<char>>, KindV>,
    sdv: Seq<Seq<char>>,
    tdv: Seq<Seq<char>>,
    sh: Seq<Vec<String>>,
    st: Seq<Vec<String>>,
    spd: Seq<Seq<char>>,
    tpd: Seq<Seq<char>>,
)
    requires
        cs_case(m0, sdv, tdv),
        cs_inv(m0, fsv, sdv, tdv, sh),
        sh.len() >= 1,
        st == sh.drop_last(),
        sh.last().deep_view() == spd,
        tpd == mirror_of(sdv, tdv, spd),
        fsv.contains_key(tpd),
    ensures
        cs_inv(m0, fsv, sdv, tdv, st),
{
    assert(is_prefix_of(sdv, spd));
    assert forall|q: Seq<Seq<char>>|
        m0.contains_key(q) && #[trigger] child_of(sdv, q) && !m0.contains_key(
            mirror_of(sdv, tdv, q),
        ) implies ((exists|j: int| 0 <= j < st.len() && #[trigger] st[j].deep_view() == q)
        || fsv.contains_key(mirror_of(sdv, tdv, q))) && ((exists|j: int|
        0 <= j < st.len() && #[trigger] st[j].deep_view() == q) ==> !fsv.contains_key(
        mirror_of(sdv, tdv, q),
    )) by {
        if q == spd {
            assert(sh[sh.len() - 1].deep_view() == q);
            assert(!fsv.contains_key(mirror_of(sdv, tdv, q)));
            assert(false);
        } else {
            if exists|j: int| 0 <= j < sh.len() && #[trigger] sh[j].deep_view() == q {
                let j = choose|j: int| 0 <= j < sh.len() && #[trigger] sh[j].deep_view() == q;
                if j == sh.len() - 1 {
                    assert(q == spd);
                }
                assert(st[j].deep_view() == q);
            }
        }
    }
}

/// Popping a pending path and replacing (or creating) its mirror keeps the
/// owed-link invariants.
proof fn lemma_cs_replace(
    m0: Map<Seq<Seq<char>>, KindV>,
    fs_pre: Map<Seq<Seq<char>>, KindV>,
    fs_post: Map<Seq<Seq<char>>, KindV>,
    sdv: Seq<Seq<char>>,
    tdv: Seq<Seq<char>>,
    sh: Seq<Vec<String>>,
    st: Seq<Vec<String>>,
    spd: Seq<Seq<char>>,
    tpd: Seq<Seq<char>>,
    existing: Option<Kind>,
    deep: bool,
)
    requires
        cs_case(m0, sdv, tdv),
        cs_inv(m0, fs_pre, sdv, tdv, sh),
        sh.len() >= 1,
        st == sh.drop_last(),
        sh.last().deep_view() == spd,
        tpd == mirror_of(sdv, tdv, spd),
        match existing {
            Some(k) => fs_pre.contains_key(tpd),
            None => !fs_pre.contains_key(tpd),
        },
        fs_post == removed_map(fs_pre, tpd, existing, deep).insert(tpd, KindV::Symlink(spd)),
    ensures
        cs_inv(m0, fs_post, sdv, tdv, st),
{
    let rm = removed_map(fs_pre, tpd, existing, deep);
    assert(is_prefix_of(sdv, spd));
    assert(spd.len() > sdv.len());
    assert(tpd.len() == tdv.len() + (spd.len() - sdv.len()));
    assert(tpd.len() > tdv.len());
    assert(is_prefix_of(tdv, tpd)) by {
        assert(forall|i: int| 0 <= i < tdv.len() ==> #[trigger] tpd[i] == tdv[i]);
    }
    // the target root is neither hit nor overwritten
    assert(tdv != tpd);
    if existing is Some && removal_hits(tpd, tdv, deep) {
        if deep {
            assert(is_prefix_of(tpd, tdv));
        }
        assert(false);
    }
    assert(fs_post.contains_key(tdv) && fs_post[tdv] is Dir);
    assert forall|q: Seq<Seq<char>>|
        m0.contains_key(q) && #[trigger] child_of(sdv, q) && !m0.contains_key(
            mirror_of(sdv, tdv, q),
        ) implies ((exists|j: int| 0 <= j < st.len() && #[trigger] st[j].deep_view() == q)
        || fs_post.contains_key(mirror_of(sdv, tdv, q))) && ((exists|j: int|
        0 <= j < st.len() && #[trigger] st[j].deep_view() == q) ==> !fs_post.contains_key(
        mirror_of(sdv, tdv, q),
    )) by {
        let mq = mirror_of(sdv, tdv, q);
        if q == spd {
            // its own mirror was just written
            assert(fs_post.contains_key(mq) && fs_post[mq] == KindV::Symlink(spd));
            if exists|j: int| 0 <= j < st.len() && #[trigger] st[j].deep_view() == q {
                let j = choose|j: int| 0 <= j < st.len() && #[trigger] st[j].deep_view() == q;
                assert(sh[j].deep_view() == q);
                assert(sh[sh.len() - 1].deep_view() == q);
                assert(child_of(sdv, sh[j].deep_view()));
                assert(child_of(sdv, sh[sh.len() - 1].deep_view()));
                assert(false);
            }
        } else {
            assert(mq != tpd) by {
                if mq == tpd {
                    lemma_mirror_injective(sdv, tdv, q, spd);
                }
            }
            // a sibling mirror is neither removed nor overwritten
            if existing is Some && removal_hits(tpd, mq, deep) {
                assert(mq.len() == tdv.len() + 1);
                if deep {
                    assert(is_prefix_of(tpd, mq));
                    assert(tpd.len() <= tdv.len() + 1);
                    assert(tpd =~= mq);
                }
                assert(false);
            }
            assert(fs_post.contains_key(mq) <==> fs_pre.contains_key(mq));
            if exists|j: int| 0 <= j < sh.len() && #[trigger] sh[j].deep_view() == q {
                let j = choose|j: int| 0 <= j < sh.len() && #[trigger] sh[j].deep_view() == q;
                if j == sh.len() - 1 {
                    assert(q == spd);
                }
                assert(st[j].deep_view() == q);
            }
        }
    }
}

/// Listing a source-subtree directory pushes only deeper source-subtree
/// paths, so the owed-link invariants survive a descent.
proof fn lemma_cs_push(
    m0: Map<Seq<Seq<char>>, KindV>,
    fsv: Map<Seq<Seq<char>>, KindV>,
    sdv: Seq<Seq<char>>,
    tdv: Seq<Seq<char>>,
    st_pre: Seq<Vec<String>>,
    st_post: Seq<Vec<String>>,
    rp: Seq<Seq<char>>,
)
    requires
        cs_case(m0, sdv, tdv),
        cs_inv(m0, fsv, sdv, tdv, st_pre),
        frame_ok(m0, fsv, sdv, tdv),
        pushed_children(fsv, rp, st_pre, st_post),
        is_prefix_of(sdv, rp),
        rp.len() > sdv.len(),
    ensures
        cs_inv(m0, fsv, sdv, tdv, st_post),
{
    assert forall|j: int| 0 <= j < st_post.len() implies is_prefix_of(
        sdv,
        #[trigger] st_post[j].deep_view(),
    ) && st_post[j].deep_view().len() > sdv.len() && m0.contains_key(st_post[j].deep_view()) by {
        if j < st_pre.len() {
            assert(st_post[j] == st_pre[j]);
        } else {
            let c = st_post[j].deep_view();
            assert(child_of(rp, c) && fsv.contains_key(c));
            assert(c.len() > sdv.len() + 1);
            if is_prefix_of(tdv, c) {
                assert(is_prefix_of(sdv, tdv) || is_prefix_of(tdv, sdv)) by {
                    if sdv.len() <= tdv.len() {
                        assert(forall|i: int| 0 <= i < sdv.len() ==> #[trigger] sdv[i] == c[i]
                            && tdv[i] == c[i]);
                    } else {
                        assert(forall|i: int| 0 <= i < tdv.len() ==> #[trigger] tdv[i] == c[i]
                            && sdv[i] == c[i]);
                    }
                }
                assert(false);
            }
            assert(m0.contains_key(c) && m0[c] == fsv[c]);
        }
    }
    assert forall|j1: int, j2: int|
        0 <= j1 < j2 < st_post.len() && child_of(sdv, #[trigger] st_post[j1].deep_view())
            && child_of(sdv, #[trigger] st_post[j2].deep_view()) implies st_post[j1].deep_view()
        != st_post[j2].deep_view() by {
        if j2 >= st_pre.len() {
            assert(child_of(rp, st_post[j2].deep_view()));
            assert(st_post[j2].deep_view().len() > sdv.len() + 1);
        } else {
            assert(st_post[j1] == st_pre[j1]);
            assert(st_post[j2] == st_pre[j2]);
        }
    }
    assert forall|q: Seq<Seq<char>>|
        m0.contains_key(q) && #[trigger] child_of(sdv, q) && !m0.contains_key(
            mirror_of(sdv, tdv, q),
        ) implies ((exists|j: int| 0 <= j < st_post.len() && #[trigger] st_post[j].deep_view()
        == q) || fsv.contains_key(mirror_of(sdv, tdv, q))) && ((exists|j: int|
        0 <= j < st_post.len() && #[trigger] st_post[j].deep_view() == q) ==> !fsv.contains_key(
        mirror_of(sdv, tdv, q),
    )) by {
        if exists|j: int| 0 <= j < st_pre.len() && #[trigger] st_pre[j].deep_view() == q {
            let j = choose|j: int| 0 <= j < st_pre.len() && #[trigger] st_pre[j].deep_view() == q;
            assert(st_post[j].deep_view() == q);
        }
        if exists|j: int| 0 <= j < st_post.len() && #[trigger] st_post[j].deep_view() == q {
            let j = choose|j: int| 0 <= j < st_post.len() && #[trigger] st_post[j].deep_view()
                == q;
            if j >= st_pre.len() {
                assert(child_of(rp, st_post[j].deep_view()));
                assert(q.len() > sdv.len() + 1);
                assert(false);
            }
            assert(st_pre[j].deep_view() == q);
        }
    }
}

/// In the owed-link case a pending source path never resolves away: it is no
/// symlink (the source subtree holds none, and the walk writes only under
/// the disjoint target root).
proof fn lemma_cs_resolve(
    m0: Map<Seq<Seq<char>>, KindV>,
    fsv: Map<Seq<Seq<char>>, KindV>,
    sdv: Seq<Seq<char>>,
    tdv: Seq<Seq<char>>,
    spd: Seq<Seq<char>>,
)
    requires
        cs_case(m0, sdv, tdv),
        frame_ok(m0, fsv, sdv, tdv),
        is_prefix_of(sdv, spd),
    ensures
        resolve_of(fsv, spd) == spd,
{
    if fsv.contains_key(spd) && fsv[spd] is Symlink {
        if is_prefix_of(tdv, spd) {
            assert(is_prefix_of(sdv, tdv) || is_prefix_of(tdv, sdv)) by {
                if sdv.len() <= tdv.len() {
                    assert(forall|i: int| 0 <= i < sdv.len() ==> #[trigger] sdv[i] == spd[i]
                        && tdv[i] == spd[i]);
                } else {
                    assert(forall|i: int| 0 <= i < tdv.len() ==> #[trigger] tdv[i] == spd[i]
                        && sdv[i] == spd[i]);
                }
            }
            assert(false);
        }
        assert(m0.contains_key(spd) && m0[spd] == fsv[spd]);
        assert(false);
    }
}

/// Popping a pending path whose mirrored target exists and descending keeps
/// the owed-link invariants, whether or not children were pushed.
proof fn lemma_cs_descend(
    m0: Map<Seq<Seq<char>>, KindV>,
    fsv: Map<Seq<Seq<char>>, KindV>,
    sdv: Seq<Seq<char>>,
    tdv: Seq<Seq<char>>,
    sh: Seq<Vec<String>>,
    s1: Seq<Vec<String>>,
    l0: Seq<Vec<String>>,
    l1: Seq<Vec<String>>,
    spd: Seq<Seq<char>>,
    tpd: Seq<Seq<char>>,
)
    requires
        cs_case(m0, sdv, tdv),
        cs_inv(m0, fsv, sdv, tdv, sh),
        frame_ok(m0, fsv, sdv, tdv),
        sh.len() >= 1,
        sh.last().deep_view() == spd,
        tpd == mirror_of(sdv, tdv, spd),
        fsv.contains_key(tpd),
        descended(fsv, spd, sh.drop_last(), s1, l0, l1),
    ensures
        cs_inv(m0, fsv, sdv, tdv, s1),
{
    let s0 = sh.drop_last();
    lemma_cs_skip(m0, fsv, sdv, tdv, sh, s0, spd, tpd);
    lemma_cs_resolve(m0, fsv, sdv, tdv, spd);
    let rp = resolve_of(fsv, spd);
    assert(rp == spd);
    if !(lset(l0).contains(rp) && l1 == l0 && s1 == s0) {
        assert(pushed_children(fsv, rp, s0, s1));
        assert(spd.len() > sdv.len());
        lemma_cs_push(m0, fsv, sdv, tdv, s0, s1, rp);
    }
}

/// The case in which full coverage is owed: a policy that replaces
/// directories, and not one marker file anywhere in the snapshot.
pub open spec fn nm_case(ow: Overwrite, m: Map<Seq<Seq<char>>, KindV>) -> bool {
    (ow is All || ow is Dirs) && no_markers(m)
}

/// The mirrored target of source child `q` has reached its final state:
/// a symlink to `q`, except that under `Dirs` a file or symlink target
/// stays what it was.
pub open spec fn mirror_done(
    m0: Map<Seq<Seq<char>>, KindV>,
    m1: Map<Seq<Seq<char>>, KindV>,
    sdv: Seq<Seq<char>>,
    tdv: Seq<Seq<char>>,
    ow: Overwrite,
    q: Seq<Seq<char>>,
) -> bool {
    let mp = mirror_of(sdv, tdv, q);
    if ow is Dirs && m0.contains_key(mp) && !(m0[mp] is Dir) {
        m1.contains_key(mp) && m1[mp] == m0[mp]
    } else {
        m1.contains_key(mp) && m1[mp] == KindV::Symlink(q)
    }
}

proof fn lemma_marker_names()
    ensures
        forall|k: Seq<char>| file_markers().contains(k) ==> is_marker_name(k),
        forall|k: Seq<char>| dir_markers().contains(k) ==> is_marker_name(k),
{
    assert forall|k: Seq<char>| file_markers().contains(k) implies is_marker_name(k) by {
        let i = choose|i: int| 0 <= i < file_markers().len() && file_markers()[i] == k;
    }
    assert forall|k: Seq<char>| dir_markers().contains(k) implies is_marker_name(k) by {
        let i = choose|i: int| 0 <= i < dir_markers().len() && dir_markers()[i] == k;
    }
}

/// The invariants of the marker-free walk, over the snapshot and the
/// pending-children stack.
pub open spec fn nm_inv(
    m0: Map<Seq<Seq<char>>, KindV>,
    fsv: Map<Seq<Seq<char>>, KindV>,
    sdv: Seq<Seq<char>>,
    tdv: Seq<Seq<char>>,
    ow: Overwrite,
    st: Seq<Vec<String>>,
) -> bool {
    &&& no_markers(fsv)
    &&& fsv.contains_key(tdv) && fsv[tdv] is Dir
    &&& forall|j: int|
        0 <= j < st.len() ==> child_of(sdv, #[trigger] st[j].deep_view()) && m0.contains_key(
            st[j].deep_view(),
        )
    &&& forall|j1: int, j2: int|
        0 <= j1 < j2 < st.len() ==> #[trigger] st[j1].deep_view() != #[trigger] st[j2].deep_view()
    &&& forall|j: int|
        0 <= j < st.len() ==> (m0.contains_key(
            mirror_of(sdv, tdv, #[trigger] st[j].deep_view()),
        ) <==> fsv.contains_key(mirror_of(sdv, tdv, st[j].deep_view()))) && (m0.contains_key(
            mirror_of(sdv, tdv, st[j].deep_view()),
        ) ==> fsv[mirror_of(sdv, tdv, st[j].deep_view())] == m0[mirror_of(
            sdv,
            tdv,
            st[j].deep_view(),
        )])
    &&& forall|q: Seq<Seq<char>>|
        m0.contains_key(q) && #[trigger] child_of(sdv, q) ==> (exists|j: int|
            0 <= j < st.len() && #[trigger] st[j].deep_view() == q) || mirror_done(
            m0,
            fsv,
            sdv,
            tdv,
            ow,
            q,
        )
}

/// Popping the child `spd` and replacing (or creating) its mirror with a
/// symlink keeps the marker-free walk's invariants.
proof fn lemma_nm_replace(
    m0: Map<Seq<Seq<char>>, KindV>,
    fs_pre: Map<Seq<Seq<char>>, KindV>,
    fs_post: Map<Seq<Seq<char>>, KindV>,
    sdv: Seq<Seq<char>>,
    tdv: Seq<Seq<char>>,
    ow: Overwrite,
    st_pre: Seq<Vec<String>>,
    st_post: Seq<Vec<String>>,
    spd: Seq<Seq<char>>,
    tpd: Seq<Seq<char>>,
    existing: Option<Kind>,
    deep: bool,
)
    requires
        nm_case(ow, m0),
        nm_inv(m0, fs_pre, sdv, tdv, ow, st_pre),
        st_pre.len() >= 1,
        st_post == st_pre.drop_last(),
        st_pre.last().deep_view() == spd,
        tpd == mirror_of(sdv, tdv, spd),
        match existing {
            Some(k) => fs_pre.contains_key(tpd) && k@ == fs_pre[tpd],
            None => !fs_pre.contains_key(tpd),
        },
        (ow is Dirs && existing is Some ==> fs_pre[tpd] is Dir),
        fs_post == removed_map(fs_pre, tpd, existing, deep).insert(tpd, KindV::Symlink(spd)),
    ensures
        nm_inv(m0, fs_post, sdv, tdv, ow, st_post),
{
    let rm = removed_map(fs_pre, tpd, existing, deep);
    assert(child_of(sdv, spd));
    assert(spd.len() == sdv.len() + 1);
    assert(tpd.len() == tdv.len() + 1);
    assert(tpd.last() == spd.last());
    // removal touches nothing as shallow as the roots or the sibling mirrors
    assert forall|x: Seq<Seq<char>>|
        x.len() <= tdv.len() + 1 && x != tpd implies (rm.contains_key(x) <==> fs_pre.contains_key(
        x,
    )) && (rm.contains_key(x) ==> rm[x] == fs_pre[x]) by {
        if existing is Some {
            if removal_hits(tpd, x, deep) {
                if deep {
                    assert(is_prefix_of(tpd, x));
                    assert(x.len() == tpd.len());
                    assert(x =~= tpd);
                } else {
                    assert(x == tpd);
                }
            }
        }
    }
    // no new marker appears
    assert forall|q: Seq<Seq<char>>| #[trigger] fs_post.contains_key(q) implies q.len() < 1
        || !is_marker_name(q.last()) by {
        if q == tpd {
            assert(m0.contains_key(spd));
            assert(spd.len() >= 1);
        } else {
            assert(rm.contains_key(q));
            assert(fs_pre.contains_key(q));
        }
    }
    assert(tdv.len() < tpd.len());
    assert(tdv != tpd);
    assert(fs_post.contains_key(tdv) && fs_post[tdv] is Dir);
    // stack facts shift down
    assert forall|j: int| 0 <= j < st_post.len() implies child_of(
        sdv,
        #[trigger] st_post[j].deep_view(),
    ) && m0.contains_key(st_post[j].deep_view()) by {
        assert(st_post[j] == st_pre[j]);
    }
    assert forall|j1: int, j2: int| 0 <= j1 < j2 < st_post.len() implies #[trigger] st_post[j1].deep_view()
        != #[trigger] st_post[j2].deep_view() by {
        assert(st_post[j1] == st_pre[j1]);
        assert(st_post[j2] == st_pre[j2]);
    }
    // a pending child's mirror is a sibling of tpd, never tpd itself
    assert forall|q: Seq<Seq<char>>| child_of(sdv, q) && q != spd implies mirror_of(sdv, tdv, q)
        != tpd by {
        let mq = mirror_of(sdv, tdv, q);
        assert(mq.last() == q.last());
        if mq == tpd {
            assert(q.last() == spd.last());
            assert(q =~= spd);
        }
    }
    assert forall|j: int| 0 <= j < st_post.len() implies (m0.contains_key(
        mirror_of(sdv, tdv, #[trigger] st_post[j].deep_view()),
    ) <==> fs_post.contains_key(mirror_of(sdv, tdv, st_post[j].deep_view()))) && (m0.contains_key(
        mirror_of(sdv, tdv, st_post[j].deep_view()),
    ) ==> fs_post[mirror_of(sdv, tdv, st_post[j].deep_view())] == m0[mirror_of(
        sdv,
        tdv,
        st_post[j].deep_view(),
    )]) by {
        assert(st_post[j] == st_pre[j]);
        let q = st_pre[j].deep_view();
        assert(st_pre[j].deep_view() != st_pre[st_pre.len() - 1].deep_view());
        assert(q != spd);
        let mq = mirror_of(sdv, tdv, q);
        assert(mq != tpd);
        assert(mq.len() == tdv.len() + 1);
    }
    // every child is still pending or done
    assert forall|q: Seq<Seq<char>>|
        m0.contains_key(q) && #[trigger] child_of(sdv, q) implies (exists|j: int|
        0 <= j < st_post.len() && #[trigger] st_post[j].deep_view() == q) || mirror_done(
        m0,
        fs_post,
        sdv,
        tdv,
        ow,
        q,
    ) by {
        if q == spd {
            assert(fs_post[tpd] == KindV::Symlink(spd));
            if ow is Dirs && m0.contains_key(tpd) && !(m0[tpd] is Dir) {
                assert(st_pre[st_pre.len() - 1].deep_view() == spd);
                assert(fs_pre.contains_key(tpd));
                assert(fs_pre[tpd] == m0[tpd]);
                assert(existing is Some);
                assert(false);
            }
        } else {
            let mq = mirror_of(sdv, tdv, q);
            assert(mq != tpd);
            assert(mq.len() == tdv.len() + 1);
            if exists|j: int| 0 <= j < st_pre.len() && #[trigger] st_pre[j].deep_view() == q {
                let j = choose|j: int| 0 <= j < st_pre.len() && #[trigger] st_pre[j].deep_view()
                    == q;
                assert(j < st_pre.len() - 1);
                assert(st_post[j].deep_view() == q);
            } else {
                assert(mirror_done(m0, fs_pre, sdv, tdv, ow, q));
            }
        }
    }
}

/// Popping a child whose mirror is a file or symlink target under `Dirs`
/// changes nothing and keeps the marker-free walk's invariants.
proof fn lemma_nm_skip(
    m0: Map<Seq<Seq<char>>, KindV>,
    fsv: Map<Seq<Seq<char>>, KindV>,
    sdv: Seq<Seq<char>>,
    tdv: Seq<Seq<char>>,
    st_pre: Seq<Vec<String>>,
    st_post: Seq<Vec<String>>,
    spd: Seq<Seq<char>>,
    tpd: Seq<Seq<char>>,
)
    requires
        nm_case(Overwrite::Dirs, m0),
        nm_inv(m0, fsv, sdv, tdv, Overwrite::Dirs, st_pre),
        st_pre.len() >= 1,
        st_post == st_pre.drop_last(),
        st_pre.last().deep_view() == spd,
        tpd == mirror_of(sdv, tdv, spd),
        fsv.contains_key(tpd),
        !(fsv[tpd] is Dir),
    ensures
        nm_inv(m0, fsv, sdv, tdv, Overwrite::Dirs, st_post),
{
    assert(child_of(sdv, spd));
    assert forall|j: int| 0 <= j < st_post.len() implies child_of(
        sdv,
        #[trigger] st_post[j].deep_view(),
    ) && m0.contains_key(st_post[j].deep_view()) by {
        assert(st_post[j] == st_pre[j]);
    }
    assert forall|j1: int, j2: int| 0 <= j1 < j2 < st_post.len() implies #[trigger] st_post[j1].deep_view()
        != #[trigger] st_post[j2].deep_view() by {
        assert(st_post[j1] == st_pre[j1]);
        assert(st_post[j2] == st_pre[j2]);
    }
    assert forall|j: int| 0 <= j < st_post.len() implies (m0.contains_key(
        mirror_of(sdv, tdv, #[trigger] st_post[j].deep_view()),
    ) <==> fsv.contains_key(mirror_of(sdv, tdv, st_post[j].deep_view()))) && (m0.contains_key(
        mirror_of(sdv, tdv, st_post[j].deep_view()),
    ) ==> fsv[mirror_of(sdv, tdv, st_post[j].deep_view())] == m0[mirror_of(
        sdv,
        tdv,
        st_post[j].deep_view(),
    )]) by {
        assert(st_post[j] == st_pre[j]);
    }
    assert(st_pre[st_pre.len() - 1].deep_view() == spd);
    assert(m0.contains_key(tpd) && fsv[tpd] == m0[tpd]);
    assert forall|q: Seq<Seq<char>>|
        m0.contains_key(q) && #[trigger] child_of(sdv, q) implies (exists|j: int|
        0 <= j < st_post.len() && #[trigger] st_post[j].deep_view() == q) || mirror_done(
        m0,
        fsv,
        sdv,
        tdv,
        Overwrite::Dirs,
        q,
    ) by {
        if q == spd {
            assert(!(m0[tpd] is Dir));
            assert(mirror_done(m0, fsv, sdv, tdv, Overwrite::Dirs, q));
        } else {
            if exists|j: int| 0 <= j < st_pre.len() && #[trigger] st_pre[j].deep_view() == q {
                let j = choose|j: int| 0 <= j < st_pre.len() && #[trigger] st_pre[j].deep_view()
                    == q;
                if j == st_pre.len() - 1 {
                    assert(q == spd);
                }
                assert(st_post[j].deep_view() == q);
            }
        }
    }
}

/// Replace what stands at `tp` (if anything) with a symlink to `sp`,
/// recording the removal and the link; carries the walk's invariants.
fn replace_with_link(
    fs: &mut Fs,
    acts: &mut Vec<Action>,
    sp: Vec<String>,
    tp: Vec<String>,
    existing: Option<Kind>,
    deep: bool,
    overwrite: Overwrite,
    Ghost(m0): Ghost<Map<Seq<Seq<char>>, KindV>>,
    Ghost(sdv): Ghost<Seq<Seq<char>>>,
    Ghost(tdv): Ghost<Seq<Seq<char>>>,
) -> (r: Result<(), MergeError>)
    requires
        old(fs).wf(),
        is_prefix_of(sdv, sp.deep_view()),
        tp.deep_view() == mirror_of(sdv, tdv, sp.deep_view()),
        match existing {
            Some(k) => old(fs)@.contains_key(tp.deep_view()) && k@ == old(fs)@[tp.deep_view()] && (
            deep <==> k@ is Dir),
            None => !old(fs)@.contains_key(tp.deep_view()),
        },
        !(overwrite is Never) || existing is None,
        !(overwrite is Dirs) || existing is None || deep,
        !(overwrite is Files) || existing is None || (!deep && !protected(
            old(fs)@,
            tdv,
            tp.deep_view(),
            file_markers(),
        )),
        frame_ok(m0, old(fs)@, sdv, tdv),
        actions_ok(old(acts)@, overwrite, m0, sdv, tdv),
        (overwrite is Never ==> preserved_all(m0, old(fs)@)),
        (overwrite is Files ==> markers_present(m0, old(fs)@)),
        (overwrite is Files ==> preserved_protected(m0, old(fs)@, tdv)),
        (overwrite is Files ==> dirs_preserved(m0, old(fs)@)),
        (overwrite is Dirs ==> nondirs_unreplaced(m0, old(fs)@) && orphan_gaps(m0, old(fs)@)),
    ensures
        final(fs).wf(),
        frame_ok(m0, final(fs)@, sdv, tdv),
        actions_ok(final(acts)@, overwrite, m0, sdv, tdv),
        (overwrite is Never ==> preserved_all(m0, final(fs)@)),
        (overwrite is Files ==> markers_present(m0, final(fs)@)),
        (overwrite is Files ==> preserved_protected(m0, final(fs)@, tdv)),
        (overwrite is Files ==> dirs_preserved(m0, final(fs)@)),
        (overwrite is Dirs ==> nondirs_unreplaced(m0, final(fs)@) && orphan_gaps(m0, final(fs)@)),
        (r is Err ==> r matches Result::Err(MergeError::Link(_))),
        (r is Ok ==> final(fs)@ == removed_map(old(fs)@, tp.deep_view(), existing, deep).insert(
            tp.deep_view(),
            KindV::Symlink(sp.deep_view()),
        )),
        (r is Err ==> final(fs)@ == removed_map(old(fs)@, tp.deep_view(), existing, deep)),
        final(acts)@.len() >= old(acts)@.len(),
        final(acts)@.take(old(acts)@.len() as int) == old(acts)@,
        final(fs)@ == apply_actions(old(fs)@, final(acts)@.skip(old(acts)@.len() as int)),
        ((tp.deep_view().len() == tdv.len() + 1 && old(fs)@.contains_key(tdv) && old(fs)@[tdv]
            is Dir) ==> r is Ok),
{
    let ghost tpd = tp.deep_view();
    let ghost spd = sp.deep_view();
    let ghost fs1orig = fs@;
    let ghost acts_orig = acts@;
    proof {
        assert(is_prefix_of(tdv, tpd)) by {
            assert(forall|i: int| 0 <= i < tdv.len() ==> #[trigger] tpd[i] == tdv[i]);
        }
        assert(tpd.len() >= tdv.len());
    }
    match existing {
        Some(kind) => {
            let ghost fs0 = fs@;
            fs.remove_path(&tp, deep);
            proof {
                assert(removal_hits(tpd, tpd, deep));
                assert(!fs@.contains_key(tpd));
                assert forall|p: Seq<Seq<char>>| #[trigger] fs@.contains_key(p) implies (
                m0.contains_key(p) && fs@[p] == m0[p]) || (is_prefix_of(tdv, p) && fs@[p]
                    == KindV::Symlink(sdv + p.skip(tdv.len() as int))) by {
                    assert(fs0.contains_key(p) && fs@[p] == fs0[p]);
                }
                if overwrite is Files {
                    assert forall|p: Seq<Seq<char>>|
                        #[trigger] m0.contains_key(p) && m0[p] is Dir implies fs@.contains_key(p)
                        && fs@[p] == m0[p] by {
                        assert(fs0.contains_key(p) && fs0[p] == m0[p]);
                        assert(p != tpd);
                    }
                    assert forall|q: Seq<Seq<char>>|
                        marker_shaped(q, file_markers()) && #[trigger] m0.contains_key(
                            q,
                        ) implies fs@.contains_key(q) by {
                        assert(fs0.contains_key(q));
                        if q == tpd {
                            assert(tpd.take(tpd.len() - 1).push(tpd.last()) =~= tpd);
                            assert(protected(fs0, tdv, tpd, file_markers()));
                            assert(false);
                        }
                    }
                    assert forall|p: Seq<Seq<char>>|
                        #[trigger] m0.contains_key(p) && protected(
                            m0,
                            tdv,
                            p,
                            file_markers(),
                        ) implies fs@.contains_key(p) && fs@[p] == m0[p] by {
                        assert(fs0.contains_key(p) && fs0[p] == m0[p]);
                        lemma_protected_monotone(m0, fs0, tdv, p, file_markers());
                        assert(p != tpd);
                    }
                }
            }
            proof {
                assert(fs@ =~= crate::model::scrub(fs0, tpd, deep));
                if overwrite is Dirs {
                    assert forall|p: Seq<Seq<char>>|
                        #[trigger] m0.contains_key(p) && !(m0[p] is Dir) && fs@.contains_key(
                            p,
                        ) implies fs@[p] == m0[p] by {
                        assert(fs0.contains_key(p) && fs@[p] == fs0[p]);
                    }
                    assert forall|p: Seq<Seq<char>>|
                        #[trigger] m0.contains_key(p) && !(m0[p] is Dir) && !fs@.contains_key(p)
                            && p.len() >= 1 implies !(fs@.contains_key(p.take(p.len() - 1))
                        && fs@[p.take(p.len() - 1)] is Dir) by {
                        let par = p.take(p.len() - 1);
                        if fs0.contains_key(p) {
                            assert(removal_hits(tpd, p, deep));
                            assert(is_prefix_of(tpd, p));
                            if p == tpd {
                                assert(fs0[p] == m0[p]);
                                assert(false);
                            }
                            assert(is_prefix_of(tpd, par)) by {
                                if tpd.len() == p.len() {
                                    assert(tpd =~= p);
                                }
                                assert(tpd.len() < p.len());
                                assert(forall|i: int|
                                    0 <= i < tpd.len() ==> #[trigger] par[i] == p[i]);
                            }
                            assert(removal_hits(tpd, par, deep));
                            assert(!fs@.contains_key(par));
                        } else {
                            if fs@.contains_key(par) {
                                assert(fs0.contains_key(par) && fs@[par] == fs0[par]);
                            }
                        }
                    }
                }
            }
            let tpc = clone_path(&tp);
            let ghost acts0 = acts@;
            acts.push(Action::Remove { path: tpc, kind });
            proof {
                assert forall|i: int| 0 <= i < acts@.len() implies match #[trigger] acts@[i] {
                    Action::Remove { path, kind } => removed_existed(
                        m0,
                        sdv,
                        tdv,
                        path.deep_view(),
                        kind@,
                    ) && match overwrite {
                        Overwrite::Never => false,
                        Overwrite::Dirs => kind@ is Dir && m0.contains_key(path.deep_view())
                            && m0[path.deep_view()] is Dir,
                        Overwrite::Files => !(kind@ is Dir),
                        Overwrite::All => true,
                    },
                    Action::Link { source, target } => is_prefix_of(sdv, source.deep_view())
                        && target.deep_view() == mirror_of(sdv, tdv, source.deep_view()),
                } by {
                    if i < acts0.len() {
                        assert(acts@[i] == acts0[i]);
                    } else {
                        assert(acts@[i] == (Action::Remove { path: tpc, kind }));
                        assert(fs1orig.contains_key(tpd));
                        assert(removed_existed(m0, sdv, tdv, tpc.deep_view(), kind@));
                    }
                }
                assert(apply_action(fs1orig, acts@.last()) == crate::model::scrub(
                    fs1orig,
                    tpd,
                    deep,
                ));
            }
        },
        None => {},
    }
    let ghost fs1 = fs@;
    let ghost acts1 = acts@;
    match link_entry(fs, acts, sp, tp) {
        Ok(()) => {
            proof {
                assert(fs@ == fs1.insert(tpd, KindV::Symlink(spd)));
                assert(tpd.skip(tdv.len() as int) =~= spd.skip(sdv.len() as int));
                assert(sdv + spd.skip(sdv.len() as int) =~= spd);
                assert forall|p: Seq<Seq<char>>| #[trigger] fs@.contains_key(p) implies (
                m0.contains_key(p) && fs@[p] == m0[p]) || (is_prefix_of(tdv, p) && fs@[p]
                    == KindV::Symlink(sdv + p.skip(tdv.len() as int))) by {
                    if p != tpd {
                        assert(fs1.contains_key(p) && fs@[p] == fs1[p]);
                    } else {
                        assert(fs@[p] == KindV::Symlink(spd));
                    }
                }
                assert forall|i: int| 0 <= i < acts@.len() implies match #[trigger] acts@[i] {
                    Action::Remove { path, kind } => removed_existed(
                        m0,
                        sdv,
                        tdv,
                        path.deep_view(),
                        kind@,
                    ) && match overwrite {
                        Overwrite::Never => false,
                        Overwrite::Dirs => kind@ is Dir && m0.contains_key(path.deep_view())
                            && m0[path.deep_view()] is Dir,
                        Overwrite::Files => !(kind@ is Dir),
                        Overwrite::All => true,
                    },
                    Action::Link { source, target } => is_prefix_of(sdv, source.deep_view())
                        && target.deep_view() == mirror_of(sdv, tdv, source.deep_view()),
                } by {
                    if i < acts1.len() {
                        assert(acts@[i] == acts1[i]);
                    }
                }
            }
            proof {
                assert(fs@ == removed_map(fs1orig, tpd, existing, deep).insert(
                    tpd,
                    KindV::Symlink(spd),
                ));
                if overwrite is Dirs {
                    assert(!(m0.contains_key(tpd) && !(m0[tpd] is Dir))) by {
                        if m0.contains_key(tpd) && !(m0[tpd] is Dir) {
                            if existing is Some {
                                assert(fs1orig.contains_key(tpd));
                                assert(fs1orig[tpd] is Dir);
                                assert(fs1orig[tpd] == m0[tpd] || fs1orig[tpd] is Symlink);
                                assert(false);
                            } else {
                                assert(!fs1orig.contains_key(tpd));
                                assert(tpd.len() >= 1);
                                assert(!(fs1.contains_key(tpd.take(tpd.len() - 1))
                                    && fs1[tpd.take(tpd.len() - 1)] is Dir));
                                assert(false);
                            }
                        }
                    }
                    assert forall|p: Seq<Seq<char>>|
                        #[trigger] m0.contains_key(p) && !(m0[p] is Dir) && !fs@.contains_key(p)
                            && p.len() >= 1 implies !(fs@.contains_key(p.take(p.len() - 1))
                        && fs@[p.take(p.len() - 1)] is Dir) by {
                        let par = p.take(p.len() - 1);
                        assert(p != tpd);
                        assert(!fs1.contains_key(p));
                        if par != tpd && fs@.contains_key(par) {
                            assert(fs1.contains_key(par) && fs@[par] == fs1[par]);
                        }
                    }
                }
                let delta = acts@.skip(acts_orig.len() as int);
                assert(acts@.take(acts_orig.len() as int) =~= acts_orig);
                if existing is Some {
                    assert(acts1 == acts_orig.push(acts1.last()));
                    assert(delta.len() == 2);
                    assert(delta[0] == acts1.last());
                    assert(apply_action(fs1orig, delta[0]) == removed_map(
                        fs1orig,
                        tpd,
                        existing,
                        deep,
                    ));
                    assert(delta.skip(1)[0] == acts@.last());
                    assert(acts@.last() == (Action::Link { source: sp, target: tp }));
                    assert(apply_action(removed_map(fs1orig, tpd, existing, deep), delta.skip(1)[0])
                        == fs@);
                    assert(delta.skip(1).skip(1) =~= Seq::<Action>::empty());
                    let m1x = apply_action(fs1orig, delta[0]);
                    assert(apply_actions(fs1orig, delta) == apply_actions(m1x, delta.skip(1)));
                    assert(apply_actions(m1x, delta.skip(1)) == apply_actions(
                        apply_action(m1x, delta.skip(1)[0]),
                        delta.skip(1).skip(1),
                    ));
                    assert(apply_actions(fs@, delta.skip(1).skip(1)) == fs@);
                    assert(apply_actions(fs1orig, delta) == fs@);
                } else {
                    assert(delta.len() == 1);
                    assert(delta[0] == acts@.last());
                    assert(acts@.last() == (Action::Link { source: sp, target: tp }));
                    assert(apply_action(fs1orig, delta[0]) == fs@);
                    assert(delta.skip(1) =~= Seq::<Action>::empty());
                    assert(apply_actions(fs1orig, delta) == apply_actions(
                        apply_action(fs1orig, delta[0]),
                        delta.skip(1),
                    ));
                    assert(apply_actions(fs@, delta.skip(1)) == fs@);
                    assert(apply_actions(fs1orig, delta) == fs@);
                }
            }
            Ok(())
        },
        Err(e) => {
            proof {
                if tpd.len() == tdv.len() + 1 && fs1orig.contains_key(tdv) && fs1orig[tdv]
                    is Dir {
                    assert(tpd.take(tpd.len() - 1) =~= tdv);
                    assert(!removal_hits(tpd, tdv, deep));
                    assert(fs1.contains_key(tdv) && fs1[tdv] is Dir);
                    assert(false);
                }
                let delta = acts@.skip(acts_orig.len() as int);
                assert(acts@.take(acts_orig.len() as int) =~= acts_orig);
                if existing is Some {
                    assert(acts@ == acts_orig.push(acts@.last()));
                    assert(delta.len() == 1);
                    assert(delta[0] == acts@.last());
                    assert(apply_action(fs1orig, delta[0]) == removed_map(
                        fs1orig,
                        tpd,
                        existing,
                        deep,
                    ));
                    assert(delta.skip(1) =~= Seq::<Action>::empty());
                    assert(apply_actions(fs1orig, delta) == apply_actions(
                        apply_action(fs1orig, delta[0]),
                        delta.skip(1),
                    ));
                    assert(apply_actions(fs@, delta.skip(1)) == fs@);
                    assert(apply_actions(fs1orig, delta) == fs@);
                } else {
                    assert(delta =~= Seq::<Action>::empty());
                    assert(apply_actions(fs1orig, delta) == fs@);
                }
            }
            Err(e)
        },
    }
}

/// Walk one level deeper on the source side, carrying the walk's measure:
/// either the resolved directory is newly listed and the count of unlisted
/// directories drops, or nothing changed at all.
fn descend(
    fs: &Fs,
    stack: &mut Vec<Vec<String>>,
    listed: &mut Vec<Vec<String>>,
    sp: &Vec<String>,
    Ghost(m0): Ghost<Map<Seq<Seq<char>>, KindV>>,
    Ghost(sdv): Ghost<Seq<Seq<char>>>,
    Ghost(tdv): Ghost<Seq<Seq<char>>>,
) -> (r: Result<(), MergeError>)
    requires
        fs.wf(),
        dirs_of(m0).finite(),
        frame_ok(m0, fs@, sdv, tdv),
    ensures
        match r {
            Result::Ok(()) => descended(
                fs@,
                sp.deep_view(),
                old(stack)@,
                final(stack)@,
                old(listed)@,
                final(listed)@,
            ) && (dirs_of(m0).difference(lset(final(listed)@)).len() < dirs_of(m0).difference(
                lset(old(listed)@),
            ).len() || (final(listed)@ == old(listed)@ && final(stack)@ == old(stack)@)),
            Result::Err(e) => (e matches MergeError::Listing(_)) && descent_failed(
                fs@,
                sp.deep_view(),
                old(stack)@,
                final(stack)@,
                old(listed)@,
                final(listed)@,
            ),
        },
{
    let ghost l0 = listed@;
    match go_deeper(fs, stack, listed, sp) {
        Ok(()) => {
            proof {
                let rp = resolve_of(fs@, sp.deep_view());
                if !lset(l0).contains(rp) {
                    assert(fs@.contains_key(rp) && fs@[rp] is Dir);
                    assert(m0.contains_key(rp) && m0[rp] is Dir);
                    assert(dirs_of(m0).contains(rp));
                    dirs_of(m0).lemma_set_insert_diff_decreases(lset(l0), rp);
                    assert(lset(listed@) == lset(l0).insert(rp));
                }
            }
            Ok(())
        },
        Err(e) => Err(e),
    }
}

/// One pop-and-replace step of the walk keeps every loop invariant: the
/// replay of the recorded actions, the untouched outside, both hereditary
/// preservation instances, and the marker-free and owed-link bundles.
proof fn lemma_step_invariants(
    m0: Map<Seq<Seq<char>>, KindV>,
    fs_pre: Map<Seq<Seq<char>>, KindV>,
    fs_post: Map<Seq<Seq<char>>, KindV>,
    acts_pre: Seq<Action>,
    acts_post: Seq<Action>,
    sdv: Seq<Seq<char>>,
    tdv: Seq<Seq<char>>,
    ow: Overwrite,
    sh: Seq<Vec<String>>,
    st: Seq<Vec<String>>,
    spd: Seq<Seq<char>>,
    tpd: Seq<Seq<char>>,
    exg: Option<Kind>,
    deep: bool,
    ks: Seq<Seq<char>>,
)
    requires
        sh.len() >= 1,
        st == sh.drop_last(),
        sh.last().deep_view() == spd,
        is_prefix_of(sdv, spd),
        tpd == mirror_of(sdv, tdv, spd),
        is_prefix_of(tdv, tpd),
        match exg {
            Some(k) => fs_pre.contains_key(tpd) && k@ == fs_pre[tpd] && (deep <==> k@ is Dir),
            None => !fs_pre.contains_key(tpd),
        },
        (exg is Some ==> !protected(fs_pre, tdv, tpd, ks)),
        ks == file_markers() || ks == dir_markers(),
        (ow is Dirs && exg is Some ==> ks == dir_markers() && deep),
        fs_post == removed_map(fs_pre, tpd, exg, deep).insert(tpd, KindV::Symlink(spd)),
        acts_post.len() >= acts_pre.len(),
        acts_post.take(acts_pre.len() as int) == acts_pre,
        fs_post == apply_actions(fs_pre, acts_post.skip(acts_pre.len() as int)),
        fs_pre == apply_actions(m0, acts_pre),
        outside_untouched(m0, fs_pre, tdv),
        ((ow is All || ow is Dirs) ==> preserved_hered(m0, fs_pre, tdv, keep_only())),
        (ow is Dirs ==> preserved_hered(m0, fs_pre, tdv, dir_markers())),
        (nm_case(ow, m0) ==> nm_inv(m0, fs_pre, sdv, tdv, ow, sh)),
        (cs_case(m0, sdv, tdv) ==> cs_inv(m0, fs_pre, sdv, tdv, sh)),
    ensures
        fs_post == apply_actions(m0, acts_post),
        outside_untouched(m0, fs_post, tdv),
        ((ow is All || ow is Dirs) ==> preserved_hered(m0, fs_post, tdv, keep_only())),
        (ow is Dirs ==> preserved_hered(m0, fs_post, tdv, dir_markers())),
        (nm_case(ow, m0) ==> nm_inv(m0, fs_post, sdv, tdv, ow, st)),
        (cs_case(m0, sdv, tdv) ==> cs_inv(m0, fs_post, sdv, tdv, st)),
{
    if nm_case(ow, m0) {
        lemma_nm_replace(m0, fs_pre, fs_post, sdv, tdv, ow, sh, st, spd, tpd, exg, deep);
    }
    if ow is All || ow is Dirs {
        assert forall|k: Seq<char>| keep_only().contains(k) implies #[trigger] ks.contains(k) by {
            assert(k == keep_only()[0]);
            assert(ks[0] == ".keep"@);
        }
        lemma_hered_replace(
            m0,
            fs_pre,
            fs_post,
            tdv,
            tpd,
            exg,
            deep,
            ks,
            KindV::Symlink(spd),
            keep_only(),
        );
        if ow is Dirs {
            lemma_hered_replace(
                m0,
                fs_pre,
                fs_post,
                tdv,
                tpd,
                exg,
                deep,
                ks,
                KindV::Symlink(spd),
                dir_markers(),
            );
        }
    }
    lemma_outside_step(m0, fs_pre, fs_post, tdv, tpd, exg, deep, KindV::Symlink(spd));
    lemma_replay_extend(m0, fs_pre, fs_post, acts_pre, acts_post);
    if cs_case(m0, sdv, tdv) {
        lemma_cs_replace(m0, fs_pre, fs_post, sdv, tdv, sh, st, spd, tpd, exg, deep);
    }
}

/// The preservation clauses of the contract survive a step that removed the
/// target but could not create the symlink.
proof fn lemma_step_invariants_err(
    m0: Map<Seq<Seq<char>>, KindV>,
    fs_pre: Map<Seq<Seq<char>>, KindV>,
    fs_post: Map<Seq<Seq<char>>, KindV>,
    tdv: Seq<Seq<char>>,
    tpd: Seq<Seq<char>>,
    ow: Overwrite,
    exg: Option<Kind>,
    deep: bool,
    ks: Seq<Seq<char>>,
)
    requires
        is_prefix_of(tdv, tpd),
        match exg {
            Some(k) => fs_pre.contains_key(tpd) && k@ == fs_pre[tpd],
            None => !fs_pre.contains_key(tpd),
        },
        (exg is Some ==> !protected(fs_pre, tdv, tpd, ks)),
        ks == file_markers() || ks == dir_markers(),
        (ow is Dirs && exg is Some ==> ks == dir_markers()),
        fs_post == removed_map(fs_pre, tpd, exg, deep),
        outside_untouched(m0, fs_pre, tdv),
        ((ow is All || ow is Dirs) ==> preserved_hered(m0, fs_pre, tdv, keep_only())),
        (ow is Dirs ==> preserved_hered(m0, fs_pre, tdv, dir_markers())),
    ensures
        outside_untouched(m0, fs_post, tdv),
        ((ow is All || ow is Dirs) ==> preserved_hered(m0, fs_post, tdv, keep_only())),
        (ow is Dirs ==> preserved_hered(m0, fs_post, tdv, dir_markers())),
{
    if ow is All || ow is Dirs {
        assert forall|k: Seq<char>| keep_only().contains(k) implies #[trigger] ks.contains(k) by {
            assert(k == keep_only()[0]);
            assert(ks[0] == ".keep"@);
        }
        lemma_hered_replace(m0, fs_pre, fs_post, tdv, tpd, exg, deep, ks, KindV::File, keep_only());
        if ow is Dirs {
            lemma_hered_replace(
                m0,
                fs_pre,
                fs_post,
                tdv,
                tpd,
                exg,
                deep,
                ks,
                KindV::File,
                dir_markers(),
            );
        }
    }
    lemma_outside_step(m0, fs_pre, fs_post, tdv, tpd, exg, deep, KindV::File);
}

/// Mirror everything under `source` into `target` with symbolic links.
///
/// `source` and `target` must be directory paths of the snapshot, else the
/// call fails with a validation error and changes nothing. The walk is
/// depth-first over an explicit stack; each directory is listed at most
/// once, which also bounds the walk on snapshots whose symlinks alias or
/// cycle. Where the mirrored target path is free, a symlink is created;
/// where it is occupied, `overwrite` and the keep markers decide between
/// replacing, descending, and leaving it alone. On success the performed
/// actions are returned in order.
///
/// The contract carries the guarantees the policies owe: every change to the
/// snapshot is a removal or a mirrored symlink (nothing is ever written into
/// a file); under `Never` nothing that existed is removed or changed; under
/// `Dirs` every removal takes a directory, under `Files` never one; and
/// under `Files` every path whose markers protect it is untouched.
pub fn generate_symlinks(
    fs: &mut Fs,
    source: &Vec<String>,
    target: &Vec<String>,
    overwrite: Overwrite,
) -> (r: Result<Vec<Action>, MergeError>)
    requires
        old(fs).wf(),
    ensures
        final(fs).wf(),
        ((r matches Result::Err(MergeError::Validation)) <==> !(old(fs)@.contains_key(
            source.deep_view(),
        ) && old(fs)@[source.deep_view()] is Dir && old(fs)@.contains_key(target.deep_view())
            && old(fs)@[target.deep_view()] is Dir)),
        ((r matches Result::Err(MergeError::Validation)) ==> final(fs)@ == old(fs)@),
        frame_ok(old(fs)@, final(fs)@, source.deep_view(), target.deep_view()),
        (r matches Result::Ok(acts) ==> actions_ok(
            acts@,
            overwrite,
            old(fs)@,
            source.deep_view(),
            target.deep_view(),
        )),
        (overwrite is Never ==> preserved_all(old(fs)@, final(fs)@)),
        (overwrite is Files ==> preserved_protected(old(fs)@, final(fs)@, target.deep_view())),
        (overwrite is Files ==> dirs_preserved(old(fs)@, final(fs)@)),
        (overwrite is Dirs ==> nondirs_unreplaced(old(fs)@, final(fs)@)),
        ((overwrite is All || overwrite is Dirs) ==> preserved_hered(
            old(fs)@,
            final(fs)@,
            target.deep_view(),
            keep_only(),
        )),
        (overwrite is Dirs ==> preserved_hered(
            old(fs)@,
            final(fs)@,
            target.deep_view(),
            dir_markers(),
        )),
        outside_untouched(old(fs)@, final(fs)@, target.deep_view()),
        (r matches Result::Ok(acts) ==> final(fs)@ == apply_actions(old(fs)@, acts@)),
        ((cs_case(old(fs)@, source.deep_view(), target.deep_view()) && r is Ok) ==> forall|
            q: Seq<Seq<char>>,
        |
            old(fs)@.contains_key(q) && #[trigger] child_of(source.deep_view(), q)
                && !old(fs)@.contains_key(mirror_of(source.deep_view(), target.deep_view(), q))
                ==> final(fs)@.contains_key(mirror_of(source.deep_view(), target.deep_view(), q))
                && final(fs)@[mirror_of(source.deep_view(), target.deep_view(), q)]
                == KindV::Symlink(q)),
        ((nm_case(overwrite, old(fs)@) && old(fs)@.contains_key(source.deep_view()) && old(
            fs,
        )@[source.deep_view()] is Dir && old(fs)@.contains_key(target.deep_view()) && old(
            fs,
        )@[target.deep_view()] is Dir) ==> (r is Ok) && forall|q: Seq<Seq<char>>|
            old(fs)@.contains_key(q) && #[trigger] child_of(source.deep_view(), q)
                ==> mirror_done(
                old(fs)@,
                final(fs)@,
                source.deep_view(),
                target.deep_view(),
                overwrite,
                q,
            )),
{
    let src_ok = match fs.lookup(source) {
        Some(Kind::Dir) => true,
        _ => false,
    };
    let tgt_ok = match fs.lookup(target) {
        Some(Kind::Dir) => true,
        _ => false,
    };
    if !src_ok || !tgt_ok {
        return Err(MergeError::Validation);
    }
    let ghost m0 = fs@;
    let ghost sdv = source.deep_view();
    let ghost tdv = target.deep_view();
    proof {
        fs.lemma_finite();
        assert forall|p: Seq<Seq<char>>| dirs_of(m0).contains(p) implies m0.dom().contains(
            p,
        ) by {}
        assert(dirs_of(m0).subset_of(m0.dom()));
        lemma_len_subset(dirs_of(m0), m0.dom());
    }
    let fkeep = marker_names(false);
    let dkeep = marker_names(true);
    let mut acts: Vec<Action> = Vec::new();
    let mut stack: Vec<Vec<String>> = Vec::new();
    let mut listed: Vec<Vec<String>> = Vec::new();
    let ghost l00 = listed@;
    match go_deeper(fs, &mut stack, &mut listed, source) {
        Ok(()) => {
            proof {
                if lset(l00).contains(resolve_of(fs@, sdv)) {
                    let i = choose|i: int|
                        0 <= i < l00.len() && #[trigger] l00[i].deep_view() == resolve_of(
                            fs@,
                            sdv,
                        );
                    assert(false);
                }
                if nm_case(overwrite, m0) {
                    assert(resolve_of(fs@, sdv) == sdv);
                    assert(stack@.take(0) =~= Seq::<Vec<String>>::empty());
                    assert(nm_inv(m0, fs@, sdv, tdv, overwrite, stack@));
                }
                if cs_case(m0, sdv, tdv) {
                    assert(resolve_of(fs@, sdv) == sdv);
                    assert(stack@.take(0) =~= Seq::<Vec<String>>::empty());
                    assert forall|j: int| 0 <= j < stack@.len() implies is_prefix_of(
                        sdv,
                        #[trigger] stack@[j].deep_view(),
                    ) && stack@[j].deep_view().len() > sdv.len() && m0.contains_key(
                        stack@[j].deep_view(),
                    ) by {
                        assert(child_of(sdv, stack@[j].deep_view()));
                    }
                    assert(cs_inv(m0, fs@, sdv, tdv, stack@));
                }
            }
        },
        Err(e) => {
            proof {
                if lset(l00).contains(resolve_of(fs@, sdv)) {
                    let i = choose|i: int|
                        0 <= i < l00.len() && #[trigger] l00[i].deep_view() == resolve_of(
                            fs@,
                            sdv,
                        );
                    assert(false);
                }
                assert(resolve_of(fs@, sdv) == sdv);
                assert(false);
            }
            return Err(e);
        },
    }
    while stack.len() > 0
        invariant
            fs.wf(),
            m0 == old(fs)@,
            m0.dom().finite(),
            dirs_of(m0).finite(),
            sdv == source.deep_view(),
            tdv == target.deep_view(),
            m0.contains_key(sdv) && m0[sdv] is Dir,
            m0.contains_key(tdv) && m0[tdv] is Dir,
            fkeep.deep_view() == file_markers(),
            dkeep.deep_view() == dir_markers(),
            frame_ok(m0, fs@, sdv, tdv),
            actions_ok(acts@, overwrite, m0, sdv, tdv),
            (overwrite is Never ==> preserved_all(m0, fs@)),
            (overwrite is Files ==> markers_present(m0, fs@)),
            (overwrite is Files ==> preserved_protected(m0, fs@, tdv)),
            (nm_case(overwrite, m0) ==> nm_inv(m0, fs@, sdv, tdv, overwrite, stack@)),
            ((overwrite is All || overwrite is Dirs) ==> preserved_hered(
                m0,
                fs@,
                tdv,
                keep_only(),
            )),
            (overwrite is Dirs ==> preserved_hered(m0, fs@, tdv, dir_markers())),
            outside_untouched(m0, fs@, tdv),
            fs@ == apply_actions(m0, acts@),
            (cs_case(m0, sdv, tdv) ==> cs_inv(m0, fs@, sdv, tdv, stack@)),
            (overwrite is Files ==> dirs_preserved(m0, fs@)),
            (overwrite is Dirs ==> nondirs_unreplaced(m0, fs@) && orphan_gaps(m0, fs@)),
        decreases dirs_of(m0).difference(lset(listed@)).len(), stack@.len(),
    {
        let ghost sh = stack@;
        let sp = match stack.pop() {
            Some(x) => x,
            None => {
                proof {
                    assert(false);
                }
                return Err(MergeError::Validation);
            },
        };
        if !is_prefix(source, &sp) {
            proof {
                if nm_case(overwrite, m0) {
                    assert(sh[sh.len() - 1].deep_view() == sp.deep_view());
                    assert(child_of(sdv, sp.deep_view()));
                    assert(false);
                }
            }
            return Err(MergeError::StripPrefix(sp));
        }
        proof {
            if nm_case(overwrite, m0) {
                assert(sh[sh.len() - 1].deep_view() == sp.deep_view());
                assert(child_of(sdv, sp.deep_view()));
            }
        }
        proof {
            assert(source@.len() == sdv.len());
            assert(sp@.len() == sp.deep_view().len());
        }
        let tp = mirror_path(source, target, &sp);
        let ghost tpd = tp.deep_view();
        let ghost spd = sp.deep_view();
        proof {
            assert(is_prefix_of(tdv, tpd)) by {
                assert(forall|i: int| 0 <= i < tdv.len() ==> #[trigger] tpd[i] == tdv[i]);
            }
            assert(tpd.skip(tdv.len() as int) =~= spd.skip(sdv.len() as int));
            assert(sdv + spd.skip(sdv.len() as int) =~= spd);
        }
        let tk = fs.lookup_kind(&tp);
        match tk {
            None => {
                let ghost fs_pre = fs@;
                let ghost acts_pre = acts@;
                let ghost exg: Option<Kind> = None;
                match replace_with_link(
                    fs,
                    &mut acts,
                    sp,
                    tp,
                    None,
                    false,
                    overwrite,
                    Ghost(m0),
                    Ghost(sdv),
                    Ghost(tdv),
                ) {
                    Ok(()) => {
                        proof {
                            lemma_step_invariants(
                                m0, fs_pre, fs@, acts_pre, acts@, sdv, tdv, overwrite, sh,
                                stack@, spd, tpd, exg, false, file_markers(),
                            );
                        }
                    },
                    Err(e) => {
                        proof {
                            if nm_case(overwrite, m0) {
                                assert(spd.len() == sdv.len() + 1);
                                assert(tpd.len() == tdv.len() + 1);
                                assert(false);
                            }
                            lemma_step_invariants_err(
                                m0, fs_pre, fs@, tdv, tpd, overwrite, exg, false, file_markers(),
                            );
                        }
                        return Err(e);
                    },
                }
            },
            Some(kind) => {
                let target_is_dir = match &kind {
                    Kind::Dir => true,
                    _ => false,
                };
                match overwrite {
                    Overwrite::All => {
                        if !target_is_dir {
                            if keep_path(fs, target, &tp, &fkeep) {
                                proof {
                                    if nm_case(overwrite, m0) {
                                        lemma_marker_names();
                                        lemma_no_markers_unprotected(fs@, tdv, tpd, file_markers());
                                        assert(false);
                                    }
                                    if cs_case(m0, sdv, tdv) {
                                        lemma_cs_skip(m0, fs@, sdv, tdv, sh, stack@, spd, tpd);
                                    }
                                }
                            } else {
                                let ghost fs_pre = fs@;
                                let ghost acts_pre = acts@;
                                let ghost exg: Option<Kind> = Some(kind);
                                match replace_with_link(
                                    fs,
                                    &mut acts,
                                    sp,
                                    tp,
                                    Some(kind),
                                    false,
                                    overwrite,
                                    Ghost(m0),
                                    Ghost(sdv),
                                    Ghost(tdv),
                                ) {
                                    Ok(()) => {
                                        proof {
                                            lemma_step_invariants(
                                                m0, fs_pre, fs@, acts_pre, acts@, sdv, tdv, overwrite, sh,
                                                stack@, spd, tpd, exg, false, file_markers(),
                                            );
                                        }
                                    },
                                    Err(e) => {
                                        proof {
                                            if nm_case(overwrite, m0) {
                                                assert(spd.len() == sdv.len() + 1);
                                                assert(tpd.len() == tdv.len() + 1);
                                                assert(false);
                                            }
                                            lemma_step_invariants_err(
                                                m0, fs_pre, fs@, tdv, tpd, overwrite, exg, false, file_markers(),
                                            );
                                        }
                                        return Err(e);
                                    },
                                }
                            }
                        } else {
                            if keep_path(fs, target, &tp, &dkeep) {
                                proof {
                                    if nm_case(overwrite, m0) {
                                        lemma_marker_names();
                                        lemma_no_markers_unprotected(fs@, tdv, tpd, dir_markers());
                                        assert(false);
                                    }
                                    if cs_case(m0, sdv, tdv) {
                                        lemma_cs_skip(m0, fs@, sdv, tdv, sh, stack@, spd, tpd);
                                    }
                                }
                                let ghost l_pre = listed@;
                                match descend(
                                    fs,
                                    &mut stack,
                                    &mut listed,
                                    &sp,
                                    Ghost(m0),
                                    Ghost(sdv),
                                    Ghost(tdv),
                                ) {
                                    Ok(()) => {
                                        proof {
                                            if cs_case(m0, sdv, tdv) {
                                                lemma_cs_descend(
                                                    m0, fs@, sdv, tdv, sh, stack@, l_pre, listed@, spd, tpd,
                                                );
                                            }
                                        }
                                    },
                                    Err(e) => {
                                        return Err(e);
                                    },
                                }
                            } else {
                                let ghost fs_pre = fs@;
                                let ghost acts_pre = acts@;
                                let ghost exg: Option<Kind> = Some(kind);
                                match replace_with_link(
                                    fs,
                                    &mut acts,
                                    sp,
                                    tp,
                                    Some(kind),
                                    true,
                                    overwrite,
                                    Ghost(m0),
                                    Ghost(sdv),
                                    Ghost(tdv),
                                ) {
                                    Ok(()) => {
                                        proof {
                                            lemma_step_invariants(
                                                m0, fs_pre, fs@, acts_pre, acts@, sdv, tdv, overwrite, sh,
                                                stack@, spd, tpd, exg, true, dir_markers(),
                                            );
                                        }
                                    },
                                    Err(e) => {
                                        proof {
                                            if nm_case(overwrite, m0) {
                                                assert(spd.len() == sdv.len() + 1);
                                                assert(tpd.len() == tdv.len() + 1);
                                                assert(false);
                                            }
                                            lemma_step_invariants_err(
                                                m0, fs_pre, fs@, tdv, tpd, overwrite, exg, true, dir_markers(),
                                            );
                                        }
                                        return Err(e);
                                    },
                                }
                            }
                        }
                    },
                    Overwrite::Dirs => {
                        if target_is_dir {
                            if keep_path(fs, target, &tp, &dkeep) {
                                proof {
                                    if nm_case(overwrite, m0) {
                                        lemma_marker_names();
                                        lemma_no_markers_unprotected(fs@, tdv, tpd, dir_markers());
                                        assert(false);
                                    }
                                    if cs_case(m0, sdv, tdv) {
                                        lemma_cs_skip(m0, fs@, sdv, tdv, sh, stack@, spd, tpd);
                                    }
                                }
                                let ghost l_pre = listed@;
                                match descend(
                                    fs,
                                    &mut stack,
                                    &mut listed,
                                    &sp,
                                    Ghost(m0),
                                    Ghost(sdv),
                                    Ghost(tdv),
                                ) {
                                    Ok(()) => {
                                        proof {
                                            if cs_case(m0, sdv, tdv) {
                                                lemma_cs_descend(
                                                    m0, fs@, sdv, tdv, sh, stack@, l_pre, listed@, spd, tpd,
                                                );
                                            }
                                        }
                                    },
                                    Err(e) => {
                                        return Err(e);
                                    },
                                }
                            } else {
                                let ghost fs_pre = fs@;
                                let ghost acts_pre = acts@;
                                let ghost exg: Option<Kind> = Some(kind);
                                match replace_with_link(
                                    fs,
                                    &mut acts,
                                    sp,
                                    tp,
                                    Some(kind),
                                    true,
                                    overwrite,
                                    Ghost(m0),
                                    Ghost(sdv),
                                    Ghost(tdv),
                                ) {
                                    Ok(()) => {
                                        proof {
                                            lemma_step_invariants(
                                                m0, fs_pre, fs@, acts_pre, acts@, sdv, tdv, overwrite, sh,
                                                stack@, spd, tpd, exg, true, dir_markers(),
                                            );
                                        }
                                    },
                                    Err(e) => {
                                        proof {
                                            if nm_case(overwrite, m0) {
                                                assert(spd.len() == sdv.len() + 1);
                                                assert(tpd.len() == tdv.len() + 1);
                                                assert(false);
                                            }
                                            lemma_step_invariants_err(
                                                m0, fs_pre, fs@, tdv, tpd, overwrite, exg, true, dir_markers(),
                                            );
                                        }
                                        return Err(e);
                                    },
                                }
                            }
                        } else {
                            // a file target is never replaced under Dirs
                            proof {
                                if nm_case(overwrite, m0) {
                                    assert(overwrite == Overwrite::Dirs);
                                    lemma_nm_skip(m0, fs@, sdv, tdv, sh, stack@, spd, tpd);
                                }
                                if cs_case(m0, sdv, tdv) {
                                    lemma_cs_skip(m0, fs@, sdv, tdv, sh, stack@, spd, tpd);
                                }
                            }
                        }
                    },
                    Overwrite::Files => {
                        if target_is_dir {
                            let rp = resolve_symlink(fs, &sp);
                            let src_is_dir = match fs.lookup(&rp) {
                                Some(Kind::Dir) => true,
                                _ => false,
                            };
                            if src_is_dir {
                                let ghost l_pre = listed@;
                                match descend(
                                    fs,
                                    &mut stack,
                                    &mut listed,
                                    &sp,
                                    Ghost(m0),
                                    Ghost(sdv),
                                    Ghost(tdv),
                                ) {
                                    Ok(()) => {
                                        proof {
                                            if cs_case(m0, sdv, tdv) {
                                                lemma_cs_descend(
                                                    m0, fs@, sdv, tdv, sh, stack@, l_pre, listed@, spd, tpd,
                                                );
                                            }
                                        }
                                    },
                                    Err(e) => {
                                        return Err(e);
                                    },
                                }
                            }
                            // a directory target is never replaced under Files
                            proof {
                                if cs_case(m0, sdv, tdv) && !src_is_dir {
                                    lemma_cs_skip(m0, fs@, sdv, tdv, sh, stack@, spd, tpd);
                                }
                            }
                        } else {
                            if keep_path(fs, target, &tp, &fkeep) {
                                // protected: leave the file target alone
                                proof {
                                    if cs_case(m0, sdv, tdv) {
                                        lemma_cs_skip(m0, fs@, sdv, tdv, sh, stack@, spd, tpd);
                                    }
                                }
                            } else {
                                let ghost fs_pre = fs@;
                                let ghost acts_pre = acts@;
                                let ghost exg: Option<Kind> = Some(kind);
                                match replace_with_link(
                                    fs,
                                    &mut acts,
                                    sp,
                                    tp,
                                    Some(kind),
                                    false,
                                    overwrite,
                                    Ghost(m0),
                                    Ghost(sdv),
                                    Ghost(tdv),
                                ) {
                                    Ok(()) => {
                                        proof {
                                            lemma_step_invariants(
                                                m0, fs_pre, fs@, acts_pre, acts@, sdv, tdv, overwrite, sh,
                                                stack@, spd, tpd, exg, false, file_markers(),
                                            );
                                        }
                                    },
                                    Err(e) => {
                                        proof {
                                            if nm_case(overwrite, m0) {
                                                assert(spd.len() == sdv.len() + 1);
                                                assert(tpd.len() == tdv.len() + 1);
                                                assert(false);
                                            }
                                            lemma_step_invariants_err(
                                                m0, fs_pre, fs@, tdv, tpd, overwrite, exg, false, file_markers(),
                                            );
                                        }
                                        return Err(e);
                                    },
                                }
                            }
                        }
                    },
                    Overwrite::Never => {
                        let rp = resolve_symlink(fs, &sp);
                        let src_is_dir = match fs.lookup(&rp) {
                            Some(Kind::Dir) => true,
                            _ => false,
                        };
                        if src_is_dir {
                            let ghost l_pre = listed@;
                            match descend(
                                fs,
                                &mut stack,
                                &mut listed,
                                &sp,
                                Ghost(m0),
                                Ghost(sdv),
                                Ghost(tdv),
                            ) {
                                Ok(()) => {
                                    proof {
                                        if cs_case(m0, sdv, tdv) {
                                            lemma_cs_descend(
                                                m0, fs@, sdv, tdv, sh, stack@, l_pre, listed@, spd, tpd,
                                            );
                                        }
                                    }
                                },
                                Err(e) => {
                                    return Err(e);
                                },
                            }
                        }
                        // nothing existing is ever replaced under Never
                        proof {
                            if cs_case(m0, sdv, tdv) && !src_is_dir {
                                lemma_cs_skip(m0, fs@, sdv, tdv, sh, stack@, spd, tpd);
                            }
                        }
                    },
                }
            },
        }
    }
    proof {
        if cs_case(m0, sdv, tdv) {
            assert forall|q: Seq<Seq<char>>|
                m0.contains_key(q) && #[trigger] child_of(sdv, q) && !m0.contains_key(
                    mirror_of(sdv, tdv, q),
                ) implies fs@.contains_key(mirror_of(sdv, tdv, q)) && fs@[mirror_of(sdv, tdv, q)]
                == KindV::Symlink(q) by {
                if exists|j: int| 0 <= j < stack@.len() && #[trigger] stack@[j].deep_view() == q {
                    let j = choose|j: int|
                        0 <= j < stack@.len() && #[trigger] stack@[j].deep_view() == q;
                    assert(false);
                }
                let mq = mirror_of(sdv, tdv, q);
                assert(fs@.contains_key(mq));
                assert(mq.skip(tdv.len() as int) =~= q.skip(sdv.len() as int));
                assert(sdv + q.skip(sdv.len() as int) =~= q);
                assert(fs@[mq] == KindV::Symlink(q));
            }
        }
        if nm_case(overwrite, m0) {
            assert forall|q: Seq<Seq<char>>|
                m0.contains_key(q) && #[trigger] child_of(sdv, q) implies mirror_done(
                m0,
                fs@,
                sdv,
                tdv,
                overwrite,
                q,
            ) by {
                if exists|j: int| 0 <= j < stack@.len() && #[trigger] stack@[j].deep_view() == q {
                    let j = choose|j: int|
                        0 <= j < stack@.len() && #[trigger] stack@[j].deep_view() == q;
                    assert(false);
                }
            }
        }
    }
    Ok(acts)
}

} // verus!


