//! A collection of items kept in the order of their paths, at most one item
//! for each path.
//!
//! The items stand in a vector, and the order is the one that `path_lt`
//! states, so that what comes first and what comes next can be proved. An
//! ordered map of the standard library would go by a comparison that the
//! proofs cannot see into.

use vstd::prelude::*;
use crate::order::Rank;
use crate::path::{lemma_path_lt_transitive, lemma_path_lt_trichotomy, path_lt, PathSeq, WatchPath};

verus! {

/// An item that is filed under a path.
pub trait Keyed {
    /// The path that the item is filed under.
    spec fn key(&self) -> PathSeq;

    fn path(&self) -> (p: &WatchPath)
        ensures
            p@ == self.key(),
    ;
}

impl Keyed for WatchPath {
    open spec fn key(&self) -> PathSeq {
        self@
    }

    fn path(&self) -> (p: &WatchPath) {
        self
    }
}

/// The keys of a sequence of items, in the same order.
pub open spec fn keys_of<T: Keyed>(items: Seq<T>) -> Seq<PathSeq> {
    Seq::new(items.len(), |i: int| items[i].key())
}

/// Each key comes strictly before the keys after it.
pub open spec fn strictly_sorted(keys: Seq<PathSeq>) -> bool {
    forall|i: int, j: int| 0 <= i < j < keys.len() ==> path_lt(#[trigger] keys[i], #[trigger] keys[j])
}

/// `idx` is where `p` belongs among `keys`: the keys before `idx` come before
/// `p`, and those from `idx` on do not.
pub open spec fn is_slot(keys: Seq<PathSeq>, p: PathSeq, idx: int) -> bool {
    &&& 0 <= idx <= keys.len()
    &&& forall|j: int| 0 <= j < idx ==> path_lt(#[trigger] keys[j], p)
    &&& forall|j: int| idx <= j < keys.len() ==> !path_lt(#[trigger] keys[j], p)
}

/// The place where `p` belongs among `keys`.
pub open spec fn slot_of(keys: Seq<PathSeq>, p: PathSeq) -> int {
    choose|idx: int| is_slot(keys, p, idx)
}

/// A path has one slot only.
pub proof fn lemma_slot_unique(keys: Seq<PathSeq>, p: PathSeq, idx: int)
    requires
        is_slot(keys, p, idx),
    ensures
        slot_of(keys, p) == idx,
{
    let other = slot_of(keys, p);
    if other < idx {
        assert(path_lt(keys[other], p));
    } else if idx < other {
        assert(path_lt(keys[idx], p));
    }
}

/// Among sorted keys every path has a slot.
pub proof fn lemma_slot_exists(keys: Seq<PathSeq>, p: PathSeq)
    requires
        strictly_sorted(keys),
    ensures
        is_slot(keys, p, slot_of(keys, p)),
    decreases keys.len(),
{
    if keys.len() == 0 {
        assert(is_slot(keys, p, 0));
    } else {
        let last = keys.len() - 1;
        if path_lt(keys[last], p) {
            assert forall|j: int| 0 <= j < keys.len() implies path_lt(#[trigger] keys[j], p) by {
                if j < last {
                    assert(path_lt(keys[j], keys[last]));
                    lemma_path_lt_transitive(keys[j], keys[last], p);
                }
            }
            assert(is_slot(keys, p, keys.len() as int));
        } else {
            let front = keys.drop_last();
            assert forall|i: int, j: int| 0 <= i < j < front.len() implies path_lt(
                #[trigger] front[i],
                #[trigger] front[j],
            ) by {
                assert(front[i] == keys[i] && front[j] == keys[j]);
            }
            lemma_slot_exists(front, p);
            let idx = slot_of(front, p);
            assert forall|j: int| 0 <= j < idx implies path_lt(#[trigger] keys[j], p) by {
                assert(front[j] == keys[j]);
            }
            assert forall|j: int| idx <= j < keys.len() implies !path_lt(#[trigger] keys[j], p) by {
                if j < last {
                    assert(front[j] == keys[j]);
                }
            }
            assert(is_slot(keys, p, idx));
        }
    }
}

/// In sorted keys, `p` can only stand at its slot.
pub proof fn lemma_slot_decides_membership(keys: Seq<PathSeq>, p: PathSeq, idx: int)
    requires
        strictly_sorted(keys),
        is_slot(keys, p, idx),
    ensures
        keys.contains(p) <==> (idx < keys.len() && keys[idx] == p),
        forall|j: int| idx < j < keys.len() ==> path_lt(p, #[trigger] keys[j]),
        idx < keys.len() && keys[idx] != p ==> path_lt(p, keys[idx]),
{
    assert forall|j: int| 0 <= j < keys.len() && j != idx implies #[trigger] keys[j] != p by {
        lemma_path_lt_trichotomy(keys[j], p);
        if idx < j {
            lemma_path_lt_trichotomy(keys[idx], p);
            if keys[j] == p {
                assert(path_lt(keys[idx], keys[j]));
            }
        }
    }
    assert forall|j: int| idx < j < keys.len() implies path_lt(p, #[trigger] keys[j]) by {
        lemma_path_lt_trichotomy(keys[j], p);
    }
    if idx < keys.len() {
        lemma_path_lt_trichotomy(keys[idx], p);
    }
}

/// Putting a new key at its slot keeps the keys sorted and adds just that key.
pub proof fn lemma_insert_at_slot(keys: Seq<PathSeq>, p: PathSeq, idx: int)
    requires
        strictly_sorted(keys),
        is_slot(keys, p, idx),
        !keys.contains(p),
    ensures
        strictly_sorted(keys.insert(idx, p)),
        forall|q: PathSeq| keys.insert(idx, p).contains(q) <==> (keys.contains(q) || q == p),
{
    lemma_slot_decides_membership(keys, p, idx);
    let after = keys.insert(idx, p);
    assert forall|i: int, j: int| 0 <= i < j < after.len() implies path_lt(
        #[trigger] after[i],
        #[trigger] after[j],
    ) by {
        if j < idx {
            assert(after[i] == keys[i] && after[j] == keys[j]);
        } else if j == idx {
            assert(after[i] == keys[i]);
        } else if i < idx {
            assert(after[i] == keys[i] && after[j] == keys[j - 1]);
        } else if i == idx {
            assert(after[j] == keys[j - 1]);
            if j - 1 == idx {
                assert(keys[idx] != p);
            }
        } else {
            assert(after[i] == keys[i - 1] && after[j] == keys[j - 1]);
        }
    }
    assert forall|q: PathSeq| after.contains(q) <==> (keys.contains(q) || q == p) by {
        if after.contains(q) {
            let i = choose|i: int| 0 <= i < after.len() && after[i] == q;
            if i < idx {
                assert(keys[i] == q);
            } else if i > idx {
                assert(keys[i - 1] == q);
            }
        }
        if keys.contains(q) {
            let i = choose|i: int| 0 <= i < keys.len() && keys[i] == q;
            if i < idx {
                assert(after[i] == q);
            } else {
                assert(after[i + 1] == q);
            }
        }
        if q == p {
            assert(after[idx] == q);
        }
    }
}

/// Taking a key out keeps the keys sorted and removes just that key.
pub proof fn lemma_remove_at(keys: Seq<PathSeq>, idx: int)
    requires
        strictly_sorted(keys),
        0 <= idx < keys.len(),
    ensures
        strictly_sorted(keys.remove(idx)),
        forall|q: PathSeq| keys.remove(idx).contains(q) <==> (keys.contains(q) && q != keys[idx]),
{
    let after = keys.remove(idx);
    assert forall|i: int, j: int| 0 <= i < j < after.len() implies path_lt(
        #[trigger] after[i],
        #[trigger] after[j],
    ) by {
        let oi = if i < idx { i } else { i + 1 };
        let oj = if j < idx { j } else { j + 1 };
        assert(after[i] == keys[oi] && after[j] == keys[oj]);
    }
    assert forall|q: PathSeq| after.contains(q) <==> (keys.contains(q) && q != keys[idx]) by {
        if after.contains(q) {
            let i = choose|i: int| 0 <= i < after.len() && after[i] == q;
            let oi = if i < idx { i } else { i + 1 };
            assert(keys[oi] == q);
            lemma_path_lt_trichotomy(keys[oi], keys[idx]);
            if oi < idx {
                assert(path_lt(keys[oi], keys[idx]));
            } else {
                assert(path_lt(keys[idx], keys[oi]));
            }
        }
        if keys.contains(q) && q != keys[idx] {
            let i = choose|i: int| 0 <= i < keys.len() && keys[i] == q;
            if i < idx {
                assert(after[i] == q);
            } else {
                assert(after[i - 1] == q);
            }
        }
    }
}

/// Sorted keys are fixed by what they hold: two sorted sequences with the
/// same members are the same sequence.
pub proof fn lemma_sorted_unique(a: Seq<PathSeq>, b: Seq<PathSeq>)
    requires
        strictly_sorted(a),
        strictly_sorted(b),
        forall|q: PathSeq| a.contains(q) <==> b.contains(q),
    ensures
        a == b,
    decreases a.len(),
{
    if a.len() == 0 {
        if b.len() > 0 {
            assert(b.contains(b[0]));
        }
        assert(a =~= b);
    } else if b.len() == 0 {
        assert(a.contains(a[0]));
    } else {
        // Both start with their least member.
        assert(a.contains(a[0]));
        assert(b.contains(b[0]));
        let ia = choose|i: int| 0 <= i < a.len() && a[i] == b[0];
        let ib = choose|i: int| 0 <= i < b.len() && b[i] == a[0];
        lemma_path_lt_trichotomy(a[0], b[0]);
        if ia > 0 {
            assert(path_lt(a[0], a[ia]));
        }
        if ib > 0 {
            assert(path_lt(b[0], b[ib]));
        }
        assert(a[0] == b[0]);
        lemma_remove_at(a, 0);
        lemma_remove_at(b, 0);
        assert forall|q: PathSeq| a.remove(0).contains(q) <==> b.remove(0).contains(q) by {
            assert(a.remove(0).contains(q) <==> (a.contains(q) && q != a[0]));
            assert(b.remove(0).contains(q) <==> (b.contains(q) && q != b[0]));
        }
        lemma_sorted_unique(a.remove(0), b.remove(0));
        assert forall|i: int| 0 <= i < a.len() implies a[i] == b[i] by {
            if i > 0 {
                assert(a.remove(0)[i - 1] == a[i]);
                assert(b.remove(0)[i - 1] == b[i]);
            }
        }
        assert(a.remove(0).len() == b.remove(0).len());
        assert(a =~= b);
    }
}

/// Items in the order of their paths, at most one for each path.
#[derive(Debug, Clone, PartialEq, Eq)]
pub struct Sorted<T> {
    items: Vec<T>,
}

impl<T: Keyed> Sorted<T> {
    /// The items, in the order of their paths.
    pub closed spec fn items(&self) -> Seq<T> {
        self.items@
    }

    /// The paths of the items, in order.
    pub open spec fn keys(&self) -> Seq<PathSeq> {
        keys_of(self.items())
    }

    /// The paths are in strictly rising order, so no path occurs twice.
    pub open spec fn wf(&self) -> bool {
        strictly_sorted(self.keys())
    }

    /// Whether an item is filed under `p`.
    #[verifier::inline]
    pub open spec fn has(&self, p: PathSeq) -> bool {
        self.keys().contains(p)
    }

    /// A collection without items.
    pub fn new() -> (s: Self)
        ensures
            s.wf(),
            s.items() == Seq::<T>::empty(),
    {
        Sorted { items: Vec::new() }
    }

    /// The number of items.
    pub fn len(&self) -> (n: usize)
        ensures
            n == self.items().len(),
    {
        self.items.len()
    }

    /// The item at position `i` in path order.
    pub fn get(&self, i: usize) -> (item: &T)
        requires
            i < self.items().len(),
        ensures
            *item == self.items()[i as int],
    {
        &self.items[i]
    }

    /// Where `p` belongs, and whether an item is filed under it.
    pub fn position(&self, p: &WatchPath) -> (r: (usize, bool))
        requires
            self.wf(),
        ensures
            is_slot(self.keys(), p@, r.0 as int),
            r.1 == self.has(p@),
            r.1 ==> r.0 < self.items().len() && self.keys()[r.0 as int] == p@,
    {
        let ghost keys = self.keys();
        let mut i: usize = 0;
        while i < self.items.len()
            invariant
                i <= self.items.len(),
                keys == self.keys(),
                strictly_sorted(keys),
                forall|j: int| 0 <= j < i ==> path_lt(#[trigger] keys[j], p@),
            decreases self.items.len() - i,
        {
            let r = self.items[i].path().rank(p);
            assert(keys[i as int] == self.items@[i as int].key());
            match r {
                Rank::Before => {},
                Rank::Same => {
                    proof {
                        assert forall|j: int| i <= j < keys.len() implies !path_lt(
                            #[trigger] keys[j],
                            p@,
                        ) by {
                            lemma_path_lt_trichotomy(keys[j], p@);
                            if i < j {
                                assert(path_lt(keys[i as int], keys[j]));
                            }
                        }
                        lemma_slot_decides_membership(keys, p@, i as int);
                    }
                    return (i, true);
                },
                Rank::After => {
                    proof {
                        assert forall|j: int| i <= j < keys.len() implies !path_lt(
                            #[trigger] keys[j],
                            p@,
                        ) by {
                            lemma_path_lt_trichotomy(keys[j], p@);
                            if i < j {
                                assert(path_lt(keys[i as int], keys[j]));
                                lemma_path_lt_transitive(p@, keys[i as int], keys[j]);
                            }
                        }
                        lemma_path_lt_trichotomy(keys[i as int], p@);
                        lemma_slot_decides_membership(keys, p@, i as int);
                    }
                    return (i, false);
                },
            }
            i += 1;
        }
        proof {
            lemma_slot_decides_membership(keys, p@, i as int);
        }
        (i, false)
    }

    /// Whether an item is filed under `p`.
    pub fn contains(&self, p: &WatchPath) -> (r: bool)
        requires
            self.wf(),
        ensures
            r == self.has(p@),
    {
        self.position(p).1
    }

    /// Files `item` under its path. An item that was filed there before is
    /// replaced. Returns the item's position and whether it replaced one.
    pub fn insert(&mut self, item: T) -> (r: (usize, bool))
        requires
            old(self).wf(),
        ensures
            final(self).wf(),
            is_slot(old(self).keys(), item.key(), r.0 as int),
            r.1 == old(self).has(item.key()),
            r.1 ==> final(self).items() == old(self).items().update(r.0 as int, item),
            !r.1 ==> final(self).items() == old(self).items().insert(r.0 as int, item),
            forall|q: PathSeq| final(self).has(q) <==> (old(self).has(q) || q == item.key()),
    {
        let ghost before = self.keys();
        let (idx, found) = self.position(item.path());
        if found {
            self.items.set(idx, item);
            assert(self.keys() =~= before);
        } else {
            self.items.insert(idx, item);
            proof {
                lemma_insert_at_slot(before, item.key(), idx as int);
                assert(self.keys() =~= before.insert(idx as int, item.key()));
            }
        }
        (idx, found)
    }

    /// Takes out the item filed under `p`, if there is one, and returns it.
    pub fn remove(&mut self, p: &WatchPath) -> (r: Option<T>)
        requires
            old(self).wf(),
        ensures
            final(self).wf(),
            r is Some == old(self).has(p@),
            r matches Some(item) ==> {
                let idx = old(self).keys().index_of(p@);
                &&& item == old(self).items()[idx]
                &&& item.key() == p@
                &&& final(self).items() == old(self).items().remove(idx)
            },
            r is None ==> final(self).items() == old(self).items(),
            forall|q: PathSeq| final(self).has(q) <==> (old(self).has(q) && q != p@),
    {
        let ghost before = self.keys();
        let (idx, found) = self.position(p);
        if found {
            let item = self.items.remove(idx);
            proof {
                lemma_remove_at(before, idx as int);
                assert(self.keys() =~= before.remove(idx as int));
                lemma_index_of_sorted(before, idx as int);
            }
            Some(item)
        } else {
            None
        }
    }
}

/// In sorted keys, the first position of a key is its only position.
pub proof fn lemma_index_of_sorted(keys: Seq<PathSeq>, idx: int)
    requires
        strictly_sorted(keys),
        0 <= idx < keys.len(),
    ensures
        keys.index_of(keys[idx]) == idx,
{
    let found = keys.index_of(keys[idx]);
    assert(keys.contains(keys[idx]));
    lemma_path_lt_trichotomy(keys[found], keys[idx]);
    if found < idx {
        assert(path_lt(keys[found], keys[idx]));
    } else if idx < found {
        assert(path_lt(keys[idx], keys[found]));
    }
}

} // verus!
