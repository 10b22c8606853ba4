//! A snapshot of the relevant filesystem state: a table of entries, each a
//! path together with what sits at that path. The view of a snapshot is a
//! map from paths to kinds; all contracts are stated over that map.

use vstd::prelude::*;

use crate::paths::clone_path;
use crate::paths::is_prefix;
use crate::paths::is_prefix_of;
use crate::paths::child_of;
use crate::paths::path_eq;

verus! {

/// What sits at a path: a regular file, a directory, or a symbolic link
/// holding its literal target path.
pub enum Kind {
    File,
    Dir,
    Symlink(Vec<String>),
}

/// The specification-level image of a [`Kind`].
pub enum KindV {
    File,
    Dir,
    Symlink(Seq<Seq<char>>),
}

impl View for Kind {
    type V = KindV;

    open spec fn view(&self) -> KindV {
        match self {
            Kind::File => KindV::File,
            Kind::Dir => KindV::Dir,
            Kind::Symlink(t) => KindV::Symlink(t.deep_view()),
        }
    }
}

pub struct Entry {
    pub path: Vec<String>,
    pub kind: Kind,
}

/// A filesystem snapshot. Its view is the map from each entry's path to its
/// kind; well-formedness says no path occurs twice.
pub struct Fs {
    entries: Vec<Entry>,
}

pub open spec fn map_of(es: Seq<Entry>) -> Map<Seq<Seq<char>>, KindV>
    decreases es.len(),
{
    if es.len() == 0 {
        Map::empty()
    } else {
        map_of(es.drop_last()).insert(es.last().path.deep_view(), es.last().kind@)
    }
}

pub open spec fn entry_path(es: Seq<Entry>, i: int) -> Seq<Seq<char>> {
    es[i].path.deep_view()
}

pub open spec fn has_path(es: Seq<Entry>, p: Seq<Seq<char>>) -> bool {
    exists|i: int| 0 <= i < es.len() && #[trigger] entry_path(es, i) == p
}

pub open spec fn unique_paths(es: Seq<Entry>) -> bool {
    forall|i: int, j: int|
        0 <= i < j < es.len() ==> #[trigger] entry_path(es, i) != #[trigger] entry_path(es, j)
}

/// Membership and values of `map_of` in terms of the entry table.
pub proof fn lemma_map_of(es: Seq<Entry>)
    ensures
        forall|p: Seq<Seq<char>>| #[trigger] map_of(es).contains_key(p) <==> has_path(es, p),
        unique_paths(es) ==> forall|i: int|
            0 <= i < es.len() ==> map_of(es)[#[trigger] entry_path(es, i)] == es[i].kind@,
        map_of(es).dom().finite(),
    decreases es.len(),
{
    if es.len() == 0 {
        assert forall|p: Seq<Seq<char>>| #[trigger] map_of(es).contains_key(p) <==> has_path(
            es,
            p,
        ) by {
            assert(!map_of(es).contains_key(p));
            if has_path(es, p) {
                let i = choose|i: int| 0 <= i < es.len() && #[trigger] entry_path(es, i) == p;
                assert(false);
            }
        }
    } else {
        let head = es.drop_last();
        let lastp = es.last().path.deep_view();
        lemma_map_of(head);
        assert forall|p: Seq<Seq<char>>| #[trigger] map_of(es).contains_key(p) <==> has_path(
            es,
            p,
        ) by {
            if map_of(es).contains_key(p) {
                if p == lastp {
                    assert(entry_path(es, es.len() - 1) == p);
                } else {
                    assert(map_of(head).contains_key(p));
                    let i = choose|i: int| 0 <= i < head.len() && #[trigger] entry_path(head, i)
                        == p;
                    assert(entry_path(es, i) == p);
                }
            }
            if has_path(es, p) {
                let i = choose|i: int| 0 <= i < es.len() && #[trigger] entry_path(es, i) == p;
                if i == es.len() - 1 {
                    assert(map_of(es).contains_key(p));
                } else {
                    assert(entry_path(head, i) == p);
                    assert(map_of(head).contains_key(p));
                }
            }
        }
        if unique_paths(es) {
            assert(unique_paths(head)) by {
                assert forall|i: int, j: int| 0 <= i < j < head.len() implies #[trigger] entry_path(
                    head,
                    i,
                ) != #[trigger] entry_path(head, j) by {
                    assert(entry_path(es, i) == entry_path(head, i));
                    assert(entry_path(es, j) == entry_path(head, j));
                }
            }
            assert forall|i: int| 0 <= i < es.len() implies map_of(es)[#[trigger] entry_path(
                es,
                i,
            )] == es[i].kind@ by {
                if i == es.len() - 1 {
                } else {
                    assert(entry_path(es, i) == entry_path(head, i));
                    assert(entry_path(es, i) != lastp) by {
                        assert(entry_path(es, es.len() - 1) == lastp);
                    }
                    assert(map_of(head)[entry_path(head, i)] == head[i].kind@);
                }
            }
        }
    }
}

impl View for Fs {
    type V = Map<Seq<Seq<char>>, KindV>;

    closed spec fn view(&self) -> Map<Seq<Seq<char>>, KindV> {
        map_of(self.entries@)
    }
}

impl Fs {
    /// No path occurs twice in the entry table.
    pub closed spec fn wf(&self) -> bool {
        unique_paths(self.entries@)
    }

    pub proof fn lemma_finite(&self)
        ensures
            self@.dom().finite(),
    {
        lemma_map_of(self.entries@);
    }

    /// The empty snapshot.
    pub fn new() -> (r: Fs)
        ensures
            r.wf(),
            r@ == Map::<Seq<Seq<char>>, KindV>::empty(),
    {
        Fs { entries: Vec::new() }
    }

    /// Add an entry at a path not yet present.
    pub fn insert(&mut self, path: Vec<String>, kind: Kind)
        requires
            old(self).wf(),
            !old(self)@.contains_key(path.deep_view()),
        ensures
            final(self).wf(),
            final(self)@ == old(self)@.insert(path.deep_view(), kind@),
    {
        let ghost es0 = self.entries@;
        let ghost pd = path.deep_view();
        let ghost kv = kind@;
        self.entries.push(Entry { path, kind });
        proof {
            let es = self.entries@;
            assert(es.drop_last() =~= es0);
            assert(es.last().path.deep_view() == pd);
            assert(map_of(es) == map_of(es0).insert(pd, kv));
            lemma_map_of(es0);
            assert(!has_path(es0, pd));
            assert forall|i: int, j: int| 0 <= i < j < es.len() implies #[trigger] entry_path(
                es,
                i,
            ) != #[trigger] entry_path(es, j) by {
                if j == es.len() - 1 {
                    assert(entry_path(es, i) == entry_path(es0, i));
                    assert(entry_path(es, j) == pd);
                } else {
                    assert(entry_path(es, i) == entry_path(es0, i));
                    assert(entry_path(es, j) == entry_path(es0, j));
                }
            }
        }
    }

    /// Look the path up; `None` exactly when no entry has it.
    pub fn lookup(&self, path: &Vec<String>) -> (r: Option<&Kind>)
        requires
            self.wf(),
        ensures
            match r {
                Some(k) => self@.contains_key(path.deep_view()) && k@ == self@[path.deep_view()],
                None => !self@.contains_key(path.deep_view()),
            },
    {
        proof {
            lemma_map_of(self.entries@);
        }
        let ghost pd = path.deep_view();
        let mut i: usize = 0;
        while i < self.entries.len()
            invariant
                self.wf(),
                i <= self.entries@.len(),
                forall|j: int| 0 <= j < i ==> #[trigger] entry_path(self.entries@, j) != pd,
                pd == path.deep_view(),
            decreases self.entries@.len() - i,
        {
            if path_eq(&self.entries[i].path, path) {
                proof {
                    lemma_map_of(self.entries@);
                    assert(entry_path(self.entries@, i as int) == pd);
                    assert(has_path(self.entries@, pd));
                }
                return Some(&self.entries[i].kind);
            }
            proof {
                assert(entry_path(self.entries@, i as int) != pd);
            }
            i += 1;
        }
        proof {
            lemma_map_of(self.entries@);
            if has_path(self.entries@, pd) {
                let j = choose|j: int|
                    0 <= j < self.entries@.len() && #[trigger] entry_path(self.entries@, j) == pd;
                assert(false);
            }
        }
        None
    }

    pub fn contains(&self, path: &Vec<String>) -> (r: bool)
        requires
            self.wf(),
        ensures
            r == self@.contains_key(path.deep_view()),
    {
        self.lookup(path).is_some()
    }

    /// An owned copy of the kind at the path, if any.
    pub fn lookup_kind(&self, path: &Vec<String>) -> (r: Option<Kind>)
        requires
            self.wf(),
        ensures
            match r {
                Some(k) => self@.contains_key(path.deep_view()) && k@ == self@[path.deep_view()],
                None => !self@.contains_key(path.deep_view()),
            },
    {
        match self.lookup(path) {
            None => None,
            Some(k) => match k {
                Kind::File => Some(Kind::File),
                Kind::Dir => Some(Kind::Dir),
                Kind::Symlink(t) => Some(Kind::Symlink(clone_path(t))),
            },
        }
    }

    /// Remove the entry at `path`; with `deep`, also every entry below it.
    pub fn remove_path(&mut self, path: &Vec<String>, deep: bool)
        requires
            old(self).wf(),
        ensures
            final(self).wf(),
            forall|q: Seq<Seq<char>>| #[trigger] final(self)@.contains_key(q) <==> (old(
                self,
            )@.contains_key(q) && !removal_hits(path.deep_view(), q, deep)),
            forall|q: Seq<Seq<char>>|
                final(self)@.contains_key(q) ==> final(self)@[q] == old(self)@[q],
    {
        let ghost es0 = self.entries@;
        let ghost pd = path.deep_view();
        let mut kept: Vec<Entry> = Vec::new();
        let mut i: usize = 0;
        while i < self.entries.len()
            invariant
                self.wf(),
                self.entries@ == es0,
                i <= es0.len(),
                pd == path.deep_view(),
                unique_paths(kept@),
                map_of(kept@) == scrub(map_of(es0.take(i as int)), pd, deep),
            decreases es0.len() - i,
        {
            let e = &self.entries[i];
            let hit = if deep {
                is_prefix(path, &e.path)
            } else {
                path_eq(&e.path, path)
            };
            let ghost np = entry_path(es0, i as int);
            proof {
                assert(es0.take(i + 1).drop_last() =~= es0.take(i as int));
                assert(es0.take(i + 1).last() == es0[i as int]);
                assert(map_of(es0.take(i + 1)) == map_of(es0.take(i as int)).insert(
                    np,
                    es0[i as int].kind@,
                ));
            }
            if !hit {
                proof {
                    lemma_map_of(kept@);
                    lemma_map_of(es0.take(i as int));
                    if has_path(kept@, np) {
                        assert(map_of(kept@).contains_key(np));
                        assert(map_of(es0.take(i as int)).contains_key(np));
                        let ii = choose|ii: int|
                            0 <= ii < i && #[trigger] entry_path(es0.take(i as int), ii) == np;
                        assert(entry_path(es0, ii) == np);
                        assert(false);
                    }
                    assert(!map_of(kept@).contains_key(np));
                }
                let ghost keptpre = kept@;
                kept.push(clone_entry(e));
                proof {
                    assert(kept@.drop_last() =~= keptpre);
                    assert(kept@.last().path.deep_view() == np);
                    assert(kept@.last().kind@ == es0[i as int].kind@);
                    assert(map_of(kept@) == map_of(keptpre).insert(np, es0[i as int].kind@));
                    assert(map_of(kept@) =~= scrub(map_of(es0.take(i + 1)), pd, deep));
                    assert forall|j1: int, j2: int| 0 <= j1 < j2 < kept@.len() implies #[trigger] entry_path(
                        kept@,
                        j1,
                    ) != #[trigger] entry_path(kept@, j2) by {
                        if j2 == keptpre.len() {
                            assert(entry_path(kept@, j1) == entry_path(keptpre, j1));
                            assert(has_path(keptpre, entry_path(keptpre, j1)));
                            assert(entry_path(kept@, j2) == np);
                        } else {
                            assert(entry_path(kept@, j1) == entry_path(keptpre, j1));
                            assert(entry_path(kept@, j2) == entry_path(keptpre, j2));
                        }
                    }
                }
            } else {
                proof {
                    assert(removal_hits(pd, np, deep));
                    assert(map_of(kept@) =~= scrub(map_of(es0.take(i + 1)), pd, deep));
                }
            }
            i += 1;
        }
        proof {
            assert(es0.take(es0.len() as int) =~= es0);
        }
        self.entries = kept;
        proof {
            lemma_map_of(es0);
        }
    }

    /// The paths of the entries that are immediate children of `d`, each
    /// exactly once.
    pub fn list_children(&self, d: &Vec<String>) -> (r: Vec<Vec<String>>)
        requires
            self.wf(),
        ensures
            forall|j: int|
                0 <= j < r@.len() ==> child_of(d.deep_view(), #[trigger] r@[j].deep_view())
                    && self@.contains_key(r@[j].deep_view()),
            forall|q: Seq<Seq<char>>|
                self@.contains_key(q) && child_of(d.deep_view(), q) ==> exists|j: int|
                    0 <= j < r@.len() && #[trigger] r@[j].deep_view() == q,
            forall|j1: int, j2: int|
                0 <= j1 < j2 < r@.len() ==> #[trigger] r@[j1].deep_view()
                    != #[trigger] r@[j2].deep_view(),
    {
        proof {
            lemma_map_of(self.entries@);
        }
        let ghost dd = d.deep_view();
        let mut out: Vec<Vec<String>> = Vec::new();
        let mut i: usize = 0;
        while i < self.entries.len()
            invariant
                self.wf(),
                i <= self.entries@.len(),
                dd == d.deep_view(),
                forall|j: int|
                    0 <= j < out@.len() ==> child_of(dd, #[trigger] out@[j].deep_view())
                        && has_path(self.entries@, out@[j].deep_view()),
                forall|ii: int|
                    0 <= ii < i && child_of(dd, #[trigger] entry_path(self.entries@, ii))
                        ==> exists|j: int| 0 <= j < out@.len() && #[trigger] out@[j].deep_view()
                        == entry_path(self.entries@, ii),
                forall|j1: int, j2: int|
                    0 <= j1 < j2 < out@.len() ==> #[trigger] out@[j1].deep_view()
                        != #[trigger] out@[j2].deep_view(),
                forall|j: int|
                    0 <= j < out@.len() ==> exists|ii: int|
                        0 <= ii < i && #[trigger] out@[j].deep_view() == entry_path(
                            self.entries@,
                            ii,
                        ),
            decreases self.entries@.len() - i,
        {
            let e = &self.entries[i];
            let is_child = e.path.len() >= 1 && e.path.len() - 1 == d.len() && is_prefix(
                d,
                &e.path,
            );
            if is_child {
                let ghost outpre = out@;
                proof {
                    assert(e.path.deep_view().len() == e.path@.len());
                    assert(d.deep_view().len() == d@.len());
                    assert(child_of(dd, entry_path(self.entries@, i as int)));
                }
                out.push(clone_path(&e.path));
                proof {
                    assert(out@[outpre.len() as int].deep_view() == entry_path(
                        self.entries@,
                        i as int,
                    ));
                    assert forall|j1: int, j2: int| 0 <= j1 < j2 < out@.len() implies #[trigger] out@[j1].deep_view()
                        != #[trigger] out@[j2].deep_view() by {
                        if j2 == outpre.len() {
                            let ii = choose|ii: int|
                                0 <= ii < i && #[trigger] outpre[j1].deep_view() == entry_path(
                                    self.entries@,
                                    ii,
                                );
                            assert(entry_path(self.entries@, ii) != entry_path(
                                self.entries@,
                                i as int,
                            ));
                            assert(out@[j1] == outpre[j1]);
                        } else {
                            assert(out@[j1] == outpre[j1]);
                            assert(out@[j2] == outpre[j2]);
                        }
                    }
                    assert forall|ii: int|
                        0 <= ii < i + 1 && child_of(dd, #[trigger] entry_path(
                            self.entries@,
                            ii,
                        )) implies exists|j: int|
                        0 <= j < out@.len() && #[trigger] out@[j].deep_view() == entry_path(
                            self.entries@,
                            ii,
                        ) by {
                        if ii < i {
                            let j = choose|j: int|
                                0 <= j < outpre.len() && #[trigger] outpre[j].deep_view()
                                    == entry_path(self.entries@, ii);
                            assert(out@[j].deep_view() == entry_path(self.entries@, ii));
                        } else {
                            assert(out@[outpre.len() as int].deep_view() == entry_path(
                                self.entries@,
                                ii,
                            ));
                        }
                    }
                    assert forall|j: int| #![trigger out@[j]] 0 <= j < out@.len() implies exists|
                        ii: int,
                    |
                        0 <= ii < i + 1 && #[trigger] out@[j].deep_view() == entry_path(
                            self.entries@,
                            ii,
                        ) by {
                        if j < outpre.len() {
                            let ii = choose|ii: int|
                                0 <= ii < i && #[trigger] outpre[j].deep_view() == entry_path(
                                    self.entries@,
                                    ii,
                                );
                            assert(out@[j].deep_view() == entry_path(self.entries@, ii));
                        } else {
                            assert(out@[j].deep_view() == entry_path(self.entries@, i as int));
                        }
                    }
                }
            } else {
                proof {
                    assert(e.path.deep_view().len() == e.path@.len());
                    assert(d.deep_view().len() == d@.len());
                    assert(!child_of(dd, entry_path(self.entries@, i as int)));
                }
            }
            i += 1;
        }
        proof {
            assert forall|q: Seq<Seq<char>>|
                self@.contains_key(q) && child_of(dd, q) implies exists|j: int|
                0 <= j < out@.len() && #[trigger] out@[j].deep_view() == q by {
                let ii = choose|ii: int|
                    0 <= ii < self.entries@.len() && #[trigger] entry_path(self.entries@, ii) == q;
            }
        }
        out
    }
}

pub fn clone_kind(k: &Kind) -> (r: Kind)
    ensures
        r@ == k@,
{
    match k {
        Kind::File => Kind::File,
        Kind::Dir => Kind::Dir,
        Kind::Symlink(t) => Kind::Symlink(clone_path(t)),
    }
}

pub fn clone_entry(e: &Entry) -> (r: Entry)
    ensures
        r.path.deep_view() == e.path.deep_view(),
        r.kind@ == e.kind@,
{
    Entry { path: clone_path(&e.path), kind: clone_kind(&e.kind) }
}

/// The map left when everything that removing `pd` hits is taken out of `m`.
pub open spec fn scrub(
    m: Map<Seq<Seq<char>>, KindV>,
    pd: Seq<Seq<char>>,
    deep: bool,
) -> Map<Seq<Seq<char>>, KindV> {
    Map::new(|q: Seq<Seq<char>>| m.contains_key(q) && !removal_hits(pd, q, deep), |q| m[q])
}

/// Whether removing `pd` (with or without its subtree) removes path `q`.
pub open spec fn removal_hits(pd: Seq<Seq<char>>, q: Seq<Seq<char>>, deep: bool) -> bool {
    if deep {
        is_prefix_of(pd, q)
    } else {
        q == pd
    }
}

} // verus!
