//! Sets of paths, and the derivation of project roots from the places where
//! a project manifest was found.

use vstd::prelude::*;
use crate::order::Rank;
use crate::path::{lemma_ancestor_before, lemma_path_lt_trichotomy, lemma_within_transitive, path_lt, rank_names, within, PathSeq, WatchPath};
use crate::sorted::{keys_of, Sorted};

verus! {

/// A set of paths, held in their order.
pub type PathSet = Sorted<WatchPath>;

/// The name of the file that marks a directory as a project.
pub fn manifest_name() -> (name: Vec<u8>)
    ensures
        name@ == manifest_name_spec(),
{
    let mut name: Vec<u8> = Vec::new();
    name.push(102u8);
    name.push(111u8);
    name.push(117u8);
    name.push(110u8);
    name.push(100u8);
    name.push(114u8);
    name.push(121u8);
    name.push(46u8);
    name.push(116u8);
    name.push(111u8);
    name.push(109u8);
    name.push(108u8);
    name
}

/// `foundry.toml`, in bytes.
pub open spec fn manifest_name_spec() -> Seq<u8> {
    seq![102u8, 111u8, 117u8, 110u8, 100u8, 114u8, 121u8, 46u8, 116u8, 111u8, 109u8, 108u8]
}

/// The name of the directory, inside a project, that holds the build output.
pub fn output_dir_name() -> (name: Vec<u8>)
    ensures
        name@ == output_dir_name_spec(),
{
    let mut name: Vec<u8> = Vec::new();
    name.push(111u8);
    name.push(117u8);
    name.push(116u8);
    name
}

/// `out`, in bytes.
pub open spec fn output_dir_name_spec() -> Seq<u8> {
    seq![111u8, 117u8, 116u8]
}

/// The directory to watch for a project: its build output directory.
pub fn watch_target(project_root: &WatchPath) -> (target: WatchPath)
    ensures
        target@ == project_root@.push(output_dir_name_spec()),
{
    let name = output_dir_name();
    project_root.join(name.as_slice())
}

/// `d` is one of `bases` or lies below one of them.
pub open spec fn covered(d: PathSeq, bases: Seq<PathSeq>) -> bool {
    exists|i: int| 0 <= i < bases.len() && within(d, #[trigger] bases[i])
}

/// `d` is a directory that holds a manifest: the marker file directly in
/// `d` is among `found`, the files that a scan has come upon. What else the
/// scan has come upon does not count.
pub open spec fn is_manifest_dir(d: PathSeq, found: Seq<PathSeq>) -> bool {
    found.contains(d.push(manifest_name_spec()))
}

/// A sequence with one more element holds that element and what it held
/// before.
pub proof fn lemma_push_contains(s: Seq<PathSeq>, x: PathSeq)
    ensures
        forall|q: PathSeq| s.push(x).contains(q) <==> (s.contains(q) || q == x),
{
    let t = s.push(x);
    assert forall|q: PathSeq| t.contains(q) <==> (s.contains(q) || q == x) by {
        if s.contains(q) {
            let j = choose|j: int| 0 <= j < s.len() && s[j] == q;
            assert(t[j] == q);
        }
        if q == x {
            assert(t[s.len() as int] == q);
        }
        if t.contains(q) {
            let j = choose|j: int| 0 <= j < t.len() && t[j] == q;
            if j < s.len() {
                assert(s[j] == q);
            }
        }
    }
}

/// `d` holds a manifest and lies under one of the watch roots.
pub open spec fn is_candidate(d: PathSeq, roots: Seq<PathSeq>, manifests: Seq<PathSeq>) -> bool {
    is_manifest_dir(d, manifests) && covered(d, roots)
}

/// `d` is a project root: a candidate that lies below no other candidate.
pub open spec fn is_project_root(d: PathSeq, roots: Seq<PathSeq>, manifests: Seq<PathSeq>) -> bool {
    &&& is_candidate(d, roots, manifests)
    &&& forall|e: PathSeq| #[trigger] is_candidate(e, roots, manifests) && within(d, e) ==> e == d
}

/// No project root lies below another one.
pub proof fn lemma_project_roots_unnested(p: PathSeq, q: PathSeq, roots: Seq<PathSeq>, manifests: Seq<PathSeq>)
    requires
        is_project_root(p, roots, manifests),
        is_project_root(q, roots, manifests),
        p != q,
    ensures
        !within(p, q),
        !within(q, p),
{
}

/// Every candidate is a project root or lies below one.
pub proof fn lemma_candidates_lie_in_projects(d: PathSeq, roots: Seq<PathSeq>, manifests: Seq<PathSeq>)
    requires
        is_candidate(d, roots, manifests),
    ensures
        exists|p: PathSeq| #[trigger] is_project_root(p, roots, manifests) && within(d, p),
    decreases d.len(),
{
    if is_project_root(d, roots, manifests) {
        assert(within(d, d));
    } else {
        let e = choose|e: PathSeq| #[trigger] is_candidate(e, roots, manifests) && within(d, e) && e != d;
        if e.len() == d.len() {
            assert(e =~= d);
        }
        lemma_candidates_lie_in_projects(e, roots, manifests);
        let p = choose|p: PathSeq| #[trigger] is_project_root(p, roots, manifests) && within(e, p);
        lemma_within_transitive(d, e, p);
    }
}

impl Sorted<WatchPath> {
    /// Whether the set has no member.
    pub fn is_empty(&self) -> (r: bool)
        ensures
            r == (self.keys().len() == 0),
    {
        self.len() == 0
    }

    /// The path at position `i` in the order.
    pub fn path_at(&self, i: usize) -> (p: &WatchPath)
        requires
            i < self.keys().len(),
        ensures
            p@ == self.keys()[i as int],
    {
        self.get(i)
    }

    /// The set of the given paths.
    pub fn from_paths(paths: &Vec<WatchPath>) -> (s: PathSet)
        ensures
            s.wf(),
            forall|q: PathSeq| s.has(q) <==> keys_of(paths@).contains(q),
    {
        let mut s: PathSet = Sorted::new();
        let mut i: usize = 0;
        while i < paths.len()
            invariant
                i <= paths.len(),
                s.wf(),
                forall|q: PathSeq| s.has(q) <==> keys_of(paths@).subrange(0, i as int).contains(q),
            decreases paths.len() - i,
        {
            s.insert(paths[i].duplicate());
            proof {
                let done = keys_of(paths@).subrange(0, i as int);
                assert(keys_of(paths@).subrange(0, i + 1) =~= done.push(paths@[i as int]@));
                lemma_push_contains(done, paths@[i as int]@);
            }
            i += 1;
        }
        assert(keys_of(paths@).subrange(0, paths@.len() as int) =~= keys_of(paths@));
        s
    }

    /// The members of this set that are not in `other`.
    pub fn without(&self, other: &PathSet) -> (s: PathSet)
        requires
            self.wf(),
            other.wf(),
        ensures
            s.wf(),
            forall|q: PathSeq| s.has(q) <==> (self.has(q) && !other.has(q)),
    {
        let mut s: PathSet = Sorted::new();
        let mut i: usize = 0;
        while i < self.len()
            invariant
                i <= self.keys().len(),
                self.wf(),
                other.wf(),
                s.wf(),
                forall|q: PathSeq|
                    s.has(q) <==> (self.keys().subrange(0, i as int).contains(q) && !other.has(q)),
            decreases self.keys().len() - i,
        {
            let p = self.path_at(i);
            proof {
                let done = self.keys().subrange(0, i as int);
                assert(self.keys().subrange(0, i + 1) =~= done.push(p@));
                lemma_push_contains(done, p@);
            }
            if !other.contains(p) {
                s.insert(p.duplicate());
            }
            i += 1;
        }
        assert(self.keys().subrange(0, self.keys().len() as int) =~= self.keys());
        s
    }

    /// A copy of this set.
    pub fn duplicate(&self) -> (s: PathSet)
        requires
            self.wf(),
        ensures
            s.wf(),
            s.keys() == self.keys(),
    {
        let none: PathSet = Sorted::new();
        let s = self.without(&none);
        proof {
            assert forall|q: PathSeq| s.keys().contains(q) <==> self.keys().contains(q) by {
                assert(s.has(q) <==> (self.has(q) && !none.has(q)));
            }
            crate::sorted::lemma_sorted_unique(s.keys(), self.keys());
        }
        s
    }

    /// Whether `d` is a member or lies below one.
    pub fn covers(&self, d: &WatchPath) -> (r: bool)
        ensures
            r == covered(d@, self.keys()),
    {
        let mut i: usize = 0;
        while i < self.len()
            invariant
                i <= self.keys().len(),
                forall|j: int| 0 <= j < i ==> !within(d@, #[trigger] self.keys()[j]),
            decreases self.keys().len() - i,
        {
            if d.starts_with(self.path_at(i)) {
                assert(within(d@, self.keys()[i as int]));
                return true;
            }
            i += 1;
        }
        false
    }
}

/// The directories that hold a manifest among `found`, the files that a
/// scan has come upon, and lie under one of `roots`, as a set. A file of
/// another name than the marker's gives no directory.
pub fn candidate_dirs(roots: &PathSet, found: &Vec<WatchPath>) -> (dirs: PathSet)
    ensures
        dirs.wf(),
        forall|q: PathSeq| dirs.has(q) <==> is_candidate(q, roots.keys(), keys_of(found@)),
{
    let marker = manifest_name();
    let mut dirs: PathSet = Sorted::new();
    let mut i: usize = 0;
    while i < found.len()
        invariant
            i <= found.len(),
            marker@ == manifest_name_spec(),
            dirs.wf(),
            forall|q: PathSeq|
                dirs.has(q) <==> is_candidate(q, roots.keys(), keys_of(found@).subrange(0, i as int)),
        decreases found.len() - i,
    {
        let ghost done = keys_of(found@).subrange(0, i as int);
        let ghost file = found@[i as int]@;
        proof {
            assert(keys_of(found@).subrange(0, i + 1) =~= done.push(file));
            lemma_push_contains(done, file);
            assert forall|q: PathSeq| q.push(manifest_name_spec()) == file implies file.len() > 0 && q
                == file.drop_last() && file.last() == manifest_name_spec() by {
                assert(q.push(manifest_name_spec()).drop_last() =~= q);
            }
        }
        let depth = found[i].components.len();
        if depth > 0 {
            assert(found@[i as int].components@[depth - 1]@ == file.last());
            if rank_names(&found[i].components[depth - 1], &marker) == Rank::Same {
                match found[i].parent() {
                    Some(dir) => {
                        assert(dir@.push(manifest_name_spec()) =~= file);
                        if roots.covers(&dir) {
                            dirs.insert(dir);
                        }
                    },
                    None => {},
                }
            }
        }
        i += 1;
    }
    assert(keys_of(found@).subrange(0, found@.len() as int) =~= keys_of(found@));
    dirs
}

/// The project roots among the places where a manifest was found: the
/// directories that hold the marker file, lie under a watch root, and lie
/// below no other such directory. The directory of a manifest that lies inside a
/// project, as the manifests of dependencies do, is left out.
pub fn find_project_roots(roots: &PathSet, manifests: &Vec<WatchPath>) -> (found: PathSet)
    ensures
        found.wf(),
        forall|q: PathSeq| found.has(q) <==> is_project_root(q, roots.keys(), keys_of(manifests@)),
{
    let dirs = candidate_dirs(roots, manifests);
    let ghost r = roots.keys();
    let ghost m = keys_of(manifests@);
    let mut found: PathSet = Sorted::new();
    let mut i: usize = 0;
    while i < dirs.len()
        invariant
            i <= dirs.keys().len(),
            dirs.wf(),
            found.wf(),
            forall|q: PathSeq| dirs.has(q) <==> is_candidate(q, r, m),
            forall|q: PathSeq| found.has(q) ==> is_project_root(q, r, m),
            forall|j: int| 0 <= j < i ==> covered(#[trigger] dirs.keys()[j], found.keys()),
        decreases dirs.keys().len() - i,
    {
        let dir = dirs.path_at(i);
        let ghost before = found;
        let nested = found.covers(dir);
        if !nested {
            proof {
                assert(dirs.keys()[i as int] == dir@);
                assert(dirs.has(dir@));
                assert forall|e: PathSeq| #[trigger] is_candidate(e, r, m) && within(dir@, e) implies e == dir@ by {
                    if e != dir@ {
                        assert(dirs.has(e));
                        let j = choose|j: int| 0 <= j < dirs.keys().len() && dirs.keys()[j] == e;
                        lemma_ancestor_before(e, dir@);
                        lemma_path_lt_trichotomy(dirs.keys()[j], dirs.keys()[i as int]);
                        if j > i {
                            assert(path_lt(dirs.keys()[i as int], dirs.keys()[j]));
                        }
                        assert(j < i);
                        assert(covered(dirs.keys()[j], found.keys()));
                        let k = choose|k: int| 0 <= k < found.keys().len() && within(e, #[trigger] found.keys()[k]);
                        lemma_within_transitive(dir@, e, found.keys()[k]);
                    }
                }
            }
            found.insert(dir.duplicate());
        }
        proof {
            assert forall|j: int| 0 <= j < i + 1 implies covered(#[trigger] dirs.keys()[j], found.keys()) by {
                let d = dirs.keys()[j];
                if j < i || nested {
                    assert(covered(d, before.keys()));
                    let k = choose|k: int| 0 <= k < before.keys().len() && within(d, #[trigger] before.keys()[k]);
                    assert(before.has(before.keys()[k]));
                    assert(found.has(before.keys()[k]));
                    let k2 = choose|k2: int| 0 <= k2 < found.keys().len() && found.keys()[k2] == before.keys()[k];
                    assert(within(d, found.keys()[k2]));
                } else {
                    assert(found.has(dir@));
                    let k2 = choose|k2: int| 0 <= k2 < found.keys().len() && found.keys()[k2] == dir@;
                    assert(within(d, found.keys()[k2]));
                }
            }
        }
        i += 1;
    }
    proof {
        assert forall|q: PathSeq| is_project_root(q, r, m) implies found.has(q) by {
            assert(dirs.has(q));
            let j = choose|j: int| 0 <= j < dirs.keys().len() && dirs.keys()[j] == q;
            assert(covered(dirs.keys()[j], found.keys()));
            let k = choose|k: int| 0 <= k < found.keys().len() && within(q, #[trigger] found.keys()[k]);
            assert(found.has(found.keys()[k]));
            assert(is_candidate(found.keys()[k], r, m));
        }
    }
    found
}

} // verus!
