//! Filesystem paths as sequences of components, with the order and the
//! ancestor relation that the watcher relies on.

use vstd::prelude::*;
use crate::order::{agree, decides, lex_lt, strict_total, Rank};
use crate::order::{lemma_lex_exclusive, lemma_lex_irreflexive, lemma_lex_total, lemma_lex_transitive, lemma_prefix_before};

verus! {

/// A path in specifications: its components from the outermost one inwards.
pub type PathSeq = Seq<Seq<u8>>;

/// The order on bytes.
pub open spec fn byte_order() -> spec_fn(u8, u8) -> bool {
    |x: u8, y: u8| x < y
}

/// `a` comes strictly before `b`, byte by byte.
pub open spec fn name_lt(a: Seq<u8>, b: Seq<u8>) -> bool {
    lex_lt(a, b, byte_order())
}

/// The order on components.
pub open spec fn name_order() -> spec_fn(Seq<u8>, Seq<u8>) -> bool {
    |a: Seq<u8>, b: Seq<u8>| name_lt(a, b)
}

/// `p` comes strictly before `q`, component by component.
pub open spec fn path_lt(p: PathSeq, q: PathSeq) -> bool {
    lex_lt(p, q, name_order())
}

/// `d` is `base` itself or lies below it: `base` is a prefix of `d`, taken
/// component by component.
pub open spec fn within(d: PathSeq, base: PathSeq) -> bool {
    agree(base, d, base.len() as int)
}

pub proof fn lemma_byte_order_total()
    ensures
        strict_total(byte_order()),
{
}

pub proof fn lemma_name_order_total()
    ensures
        strict_total(name_order()),
{
    lemma_byte_order_total();
    let lt = name_order();
    assert forall|x: Seq<u8>| !#[trigger] lt(x, x) by {
        lemma_lex_irreflexive(x, byte_order());
    }
    assert forall|x: Seq<u8>, y: Seq<u8>, z: Seq<u8>| #[trigger] lt(x, y) && #[trigger] lt(y, z) implies lt(x, z) by {
        lemma_lex_transitive(x, y, z, byte_order());
    }
    assert forall|x: Seq<u8>, y: Seq<u8>| #[trigger] lt(x, y) || x == y || lt(y, x) by {
        lemma_lex_total(x, y, byte_order());
    }
}

/// The order on paths is transitive.
pub proof fn lemma_path_lt_transitive(p: PathSeq, q: PathSeq, r: PathSeq)
    requires
        path_lt(p, q),
        path_lt(q, r),
    ensures
        path_lt(p, r),
{
    lemma_name_order_total();
    lemma_lex_transitive(p, q, r, name_order());
}

/// Two paths are equal, or one comes before the other; never two of these at once.
pub proof fn lemma_path_lt_trichotomy(p: PathSeq, q: PathSeq)
    ensures
        path_lt(p, q) || p == q || path_lt(q, p),
        !(path_lt(p, q) && path_lt(q, p)),
        !(path_lt(p, q) && p == q),
        !(path_lt(q, p) && p == q),
{
    lemma_name_order_total();
    lemma_lex_total(p, q, name_order());
    lemma_lex_exclusive(p, q, name_order());
    lemma_lex_exclusive(q, p, name_order());
}

/// A directory comes before everything that lies strictly below it.
pub proof fn lemma_ancestor_before(base: PathSeq, d: PathSeq)
    requires
        within(d, base),
        d != base,
    ensures
        path_lt(base, d),
{
    if base.len() == d.len() {
        assert(base =~= d);
    }
    lemma_prefix_before(base, d, name_order());
}

/// Being within is transitive.
pub proof fn lemma_within_transitive(d: PathSeq, mid: PathSeq, base: PathSeq)
    requires
        within(d, mid),
        within(mid, base),
    ensures
        within(d, base),
{
}

/// Three-way comparison of two components.
pub fn rank_names(a: &Vec<u8>, b: &Vec<u8>) -> (r: Rank)
    ensures
        r == Rank::Before <==> name_lt(a@, b@),
        r == Rank::Same <==> a@ == b@,
        r == Rank::After <==> name_lt(b@, a@),
{
    proof {
        lemma_byte_order_total();
        lemma_lex_exclusive(a@, b@, byte_order());
        lemma_lex_exclusive(b@, a@, byte_order());
    }
    let mut i: usize = 0;
    while i < a.len() && i < b.len()
        invariant
            agree(a@, b@, i as int),
        decreases a.len() - i,
    {
        if a[i] < b[i] {
            assert(decides(a@, b@, byte_order(), i as int));
            return Rank::Before;
        }
        if b[i] < a[i] {
            assert(agree(b@, a@, i as int));
            assert(decides(b@, a@, byte_order(), i as int));
            return Rank::After;
        }
        i += 1;
    }
    if i < b.len() {
        assert(decides(a@, b@, byte_order(), i as int));
        Rank::Before
    } else if i < a.len() {
        assert(agree(b@, a@, i as int));
        assert(decides(b@, a@, byte_order(), i as int));
        Rank::After
    } else {
        assert(a@ =~= b@);
        Rank::Same
    }
}

/// A copy of a run of bytes.
pub fn copy_bytes(name: &Vec<u8>) -> (r: Vec<u8>)
    ensures
        r@ == name@,
{
    let mut r: Vec<u8> = Vec::new();
    let mut i: usize = 0;
    while i < name.len()
        invariant
            i <= name.len(),
            r@ == name@.subrange(0, i as int),
        decreases name.len() - i,
    {
        r.push(name[i]);
        assert(r@ == name@.subrange(0, i + 1));
        i += 1;
    }
    assert(name@.subrange(0, name.len() as int) == name@);
    r
}

/// A directory or file, named by its components from the outermost one inwards.
#[derive(Debug, Clone, PartialEq, Eq)]
pub struct WatchPath {
    pub components: Vec<Vec<u8>>,
}

impl View for WatchPath {
    type V = PathSeq;

    open spec fn view(&self) -> PathSeq {
        Seq::new(self.components@.len(), |i: int| self.components@[i]@)
    }
}

impl WatchPath {
    /// The path with the given components.
    pub fn new(components: Vec<Vec<u8>>) -> (p: WatchPath)
        ensures
            p.components == components,
    {
        WatchPath { components }
    }

    /// The number of components.
    pub fn depth(&self) -> (n: usize)
        ensures
            n == self@.len(),
    {
        self.components.len()
    }

    /// Three-way comparison in the order on paths.
    pub fn rank(&self, other: &WatchPath) -> (r: Rank)
        ensures
            r == Rank::Before <==> path_lt(self@, other@),
            r == Rank::Same <==> self@ == other@,
            r == Rank::After <==> path_lt(other@, self@),
    {
        proof {
            lemma_path_lt_trichotomy(self@, other@);
        }
        let mut i: usize = 0;
        while i < self.components.len() && i < other.components.len()
            invariant
                agree(self@, other@, i as int),
            decreases self.components.len() - i,
        {
            let r = rank_names(&self.components[i], &other.components[i]);
            match r {
                Rank::Before => {
                    assert(name_order()(self@[i as int], other@[i as int]));
                    assert(decides(self@, other@, name_order(), i as int));
                    return Rank::Before;
                },
                Rank::After => {
                    assert(name_order()(other@[i as int], self@[i as int]));
                    assert(agree(other@, self@, i as int));
                    assert(decides(other@, self@, name_order(), i as int));
                    return Rank::After;
                },
                Rank::Same => {},
            }
            i += 1;
        }
        if i < other.components.len() {
            assert(decides(self@, other@, name_order(), i as int));
            Rank::Before
        } else if i < self.components.len() {
            assert(agree(other@, self@, i as int));
            assert(decides(other@, self@, name_order(), i as int));
            Rank::After
        } else {
            assert(self@ =~= other@);
            Rank::Same
        }
    }

    /// Whether both paths have the same components.
    pub fn same_as(&self, other: &WatchPath) -> (r: bool)
        ensures
            r == (self@ == other@),
    {
        self.rank(other) == Rank::Same
    }

    /// Whether this path is `base` or lies below it. The test goes component
    /// by component, so `a/bc` does not start with `a/b`.
    pub fn starts_with(&self, base: &WatchPath) -> (r: bool)
        ensures
            r == within(self@, base@),
    {
        if base.components.len() > self.components.len() {
            return false;
        }
        let mut i: usize = 0;
        while i < base.components.len()
            invariant
                i <= base.components.len() <= self.components.len(),
                agree(base@, self@, i as int),
            decreases base.components.len() - i,
        {
            if rank_names(&base.components[i], &self.components[i]) != Rank::Same {
                assert(base@[i as int] != self@[i as int]);
                return false;
            }
            i += 1;
        }
        true
    }

    /// A copy of this path.
    pub fn duplicate(&self) -> (p: WatchPath)
        ensures
            p@ == self@,
    {
        let mut components: Vec<Vec<u8>> = Vec::new();
        let mut i: usize = 0;
        while i < self.components.len()
            invariant
                i <= self.components.len(),
                components@.len() == i,
                forall|j: int| 0 <= j < i ==> components@[j]@ == self.components@[j]@,
            decreases self.components.len() - i,
        {
            components.push(copy_bytes(&self.components[i]));
            i += 1;
        }
        let p = WatchPath { components };
        assert(p@ =~= self@);
        p
    }

    /// This path with one more component at its end.
    pub fn join(&self, name: &[u8]) -> (p: WatchPath)
        ensures
            p@ == self@.push(name@),
    {
        let mut p = self.duplicate();
        let mut last: Vec<u8> = Vec::new();
        let mut i: usize = 0;
        while i < name.len()
            invariant
                i <= name.len(),
                last@ == name@.subrange(0, i as int),
            decreases name.len() - i,
        {
            last.push(name[i]);
            assert(last@ == name@.subrange(0, i + 1));
            i += 1;
        }
        assert(name@.subrange(0, name.len() as int) == name@);
        p.components.push(last);
        assert(p@ =~= self@.push(name@));
        p
    }

    /// The directory that holds this path: the path without its last
    /// component. A path without components has none.
    pub fn parent(&self) -> (r: Option<WatchPath>)
        ensures
            self@.len() == 0 ==> r is None,
            self@.len() > 0 ==> r is Some && r->0@ == self@.drop_last(),
    {
        if self.components.len() == 0 {
            return None;
        }
        let mut components: Vec<Vec<u8>> = Vec::new();
        let mut i: usize = 0;
        while i + 1 < self.components.len()
            invariant
                i + 1 <= self.components.len(),
                components@.len() == i,
                forall|j: int| 0 <= j < i ==> components@[j]@ == self.components@[j]@,
            decreases self.components.len() - i,
        {
            components.push(copy_bytes(&self.components[i]));
            i += 1;
        }
        let p = WatchPath { components };
        assert(p@ =~= self@.drop_last());
        Some(p)
    }
}

} // verus!
