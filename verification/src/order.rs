//! Lexicographic order on sequences, built from an order on their elements.

use vstd::prelude::*;

verus! {

/// How one value stands to another in a total order.
#[derive(Clone, Copy, Debug, PartialEq, Eq, Structural)]
pub enum Rank {
    Before,
    Same,
    After,
}

/// `lt` is a strict total order: nothing is below itself, it is transitive,
/// and two different values are always ordered one way or the other.
pub open spec fn strict_total<T>(lt: spec_fn(T, T) -> bool) -> bool {
    &&& forall|x: T| !#[trigger] lt(x, x)
    &&& forall|x: T, y: T, z: T| #[trigger] lt(x, y) && #[trigger] lt(y, z) ==> lt(x, z)
    &&& forall|x: T, y: T| #[trigger] lt(x, y) || x == y || lt(y, x)
}

/// `a` and `b` hold the same elements at every position below `k`.
pub open spec fn agree<T>(a: Seq<T>, b: Seq<T>, k: int) -> bool {
    &&& 0 <= k <= a.len()
    &&& k <= b.len()
    &&& forall|i: int| 0 <= i < k ==> a[i] == b[i]
}

/// Position `k` puts `a` strictly before `b`: they agree below `k`, and at `k`
/// either `a` has ended while `b` goes on, or `a` holds the smaller element.
pub open spec fn decides<T>(a: Seq<T>, b: Seq<T>, lt: spec_fn(T, T) -> bool, k: int) -> bool {
    &&& agree(a, b, k)
    &&& k < b.len()
    &&& (k == a.len() || lt(a[k], b[k]))
}

/// `a` comes strictly before `b` in the lexicographic order over `lt`.
pub open spec fn lex_lt<T>(a: Seq<T>, b: Seq<T>, lt: spec_fn(T, T) -> bool) -> bool {
    exists|k: int| #[trigger] decides(a, b, lt, k)
}

pub proof fn lemma_lex_irreflexive<T>(a: Seq<T>, lt: spec_fn(T, T) -> bool)
    requires
        strict_total(lt),
    ensures
        !lex_lt(a, a, lt),
{
    if lex_lt(a, a, lt) {
        let k = choose|k: int| #[trigger] decides(a, a, lt, k);
        assert(!lt(a[k], a[k]));
    }
}

pub proof fn lemma_lex_transitive<T>(a: Seq<T>, b: Seq<T>, c: Seq<T>, lt: spec_fn(T, T) -> bool)
    requires
        strict_total(lt),
        lex_lt(a, b, lt),
        lex_lt(b, c, lt),
    ensures
        lex_lt(a, c, lt),
{
    let k1 = choose|k: int| #[trigger] decides(a, b, lt, k);
    let k2 = choose|k: int| #[trigger] decides(b, c, lt, k);
    let k = if k1 <= k2 { k1 } else { k2 };
    assert(agree(a, c, k));
    if k1 < k2 {
        assert(b[k1] == c[k1]);
    } else if k1 == k2 {
        if k1 < a.len() {
            assert(lt(a[k], b[k]) && lt(b[k], c[k]));
        }
    } else {
        assert(a[k2] == b[k2]);
    }
    assert(decides(a, c, lt, k));
}

/// From a position below which `a` and `b` agree, one of the three cases is reached.
proof fn lemma_lex_total_from<T>(a: Seq<T>, b: Seq<T>, lt: spec_fn(T, T) -> bool, k: int)
    requires
        strict_total(lt),
        agree(a, b, k),
    ensures
        lex_lt(a, b, lt) || a == b || lex_lt(b, a, lt),
    decreases a.len() - k,
{
    if k == a.len() {
        if k == b.len() {
            assert(a =~= b);
        } else {
            assert(decides(a, b, lt, k));
        }
    } else if k == b.len() {
        assert(agree(b, a, k));
        assert(decides(b, a, lt, k));
    } else if a[k] == b[k] {
        lemma_lex_total_from(a, b, lt, k + 1);
    } else {
        assert(lt(a[k], b[k]) || a[k] == b[k] || lt(b[k], a[k]));
        if lt(a[k], b[k]) {
            assert(decides(a, b, lt, k));
        } else {
            assert(agree(b, a, k));
            assert(decides(b, a, lt, k));
        }
    }
}

pub proof fn lemma_lex_total<T>(a: Seq<T>, b: Seq<T>, lt: spec_fn(T, T) -> bool)
    requires
        strict_total(lt),
    ensures
        lex_lt(a, b, lt) || a == b || lex_lt(b, a, lt),
{
    lemma_lex_total_from(a, b, lt, 0);
}

/// Of `a` before `b`, `a` equal to `b` and `b` before `a`, at most one holds.
pub proof fn lemma_lex_exclusive<T>(a: Seq<T>, b: Seq<T>, lt: spec_fn(T, T) -> bool)
    requires
        strict_total(lt),
    ensures
        !(lex_lt(a, b, lt) && lex_lt(b, a, lt)),
        !(lex_lt(a, b, lt) && a == b),
{
    lemma_lex_irreflexive(a, lt);
    if lex_lt(a, b, lt) && lex_lt(b, a, lt) {
        lemma_lex_transitive(a, b, a, lt);
    }
}

/// A sequence comes after each of its proper prefixes.
pub proof fn lemma_prefix_before<T>(a: Seq<T>, b: Seq<T>, lt: spec_fn(T, T) -> bool)
    requires
        a.len() < b.len(),
        agree(a, b, a.len() as int),
    ensures
        lex_lt(a, b, lt),
{
    assert(decides(a, b, lt, a.len() as int));
}

} // verus!
