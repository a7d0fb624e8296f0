//! Fuzzy comparison of two pieces of bytecode.
//!
//! Two compilations of one contract differ in the metadata that the compiler
//! appends and in the values of immutables, and deployed code may carry
//! constructor arguments behind it. So the comparison looks only at the
//! length that both pieces have, counts the positions at which they differ,
//! and accepts the pair when fewer than one position in
//! [`THRESHOLD_DIVISOR`] differs.

use vstd::prelude::*;

verus! {

/// Two pieces match when fewer than one in this many compared bytes differ.
pub const THRESHOLD_DIVISOR: usize = 5;

/// Number of positions below `n` at which `a` and `b` hold different bytes.
pub open spec fn differing(a: Seq<u8>, b: Seq<u8>, n: nat) -> nat
    decreases n,
{
    if n == 0 {
        0
    } else {
        let rest = differing(a, b, (n - 1) as nat);
        if a[n - 1] != b[n - 1] {
            rest + 1
        } else {
            rest
        }
    }
}

/// The length over which two pieces are compared: that of the shorter one.
pub open spec fn compared_len(a: Seq<u8>, b: Seq<u8>) -> nat {
    if a.len() <= b.len() {
        a.len()
    } else {
        b.len()
    }
}

/// Whether `a` and `b` are close enough to count as the same contract.
/// Nothing matches an empty piece.
pub open spec fn fuzzy_match(a: Seq<u8>, b: Seq<u8>) -> bool {
    let n = compared_len(a, b);
    n > 0 && THRESHOLD_DIVISOR * differing(a, b, n) < n
}

/// The outcome of comparing two pieces of bytecode.
#[derive(Clone, Copy, Debug, PartialEq, Eq, Structural)]
pub struct DiffScore {
    /// At how many of the compared positions the two differ.
    pub differing: usize,
    /// How many positions were compared.
    pub compared: usize,
}

impl DiffScore {
    /// Whether the score is low enough for a match: something was compared,
    /// and fewer than one position in [`THRESHOLD_DIVISOR`] differs.
    pub open spec fn accepts(self) -> bool {
        self.compared > 0 && THRESHOLD_DIVISOR * self.differing < self.compared
    }

    pub fn under_threshold(&self) -> (r: bool)
        ensures
            r == self.accepts(),
    {
        self.compared > 0 && self.differing <= (self.compared - 1) / THRESHOLD_DIVISOR
    }
}

/// Positions from `m` up to `n` add at most `n - m` to the count.
pub proof fn lemma_differing_grows_slowly(a: Seq<u8>, b: Seq<u8>, m: nat, n: nat)
    requires
        m <= n,
    ensures
        differing(a, b, m) <= differing(a, b, n) <= differing(a, b, m) + (n - m),
    decreases n - m,
{
    if m < n {
        lemma_differing_grows_slowly(a, b, m, (n - 1) as nat);
    }
}

/// Where the two pieces agree below `n`, nothing is counted.
pub proof fn lemma_differing_none(a: Seq<u8>, b: Seq<u8>, n: nat)
    requires
        forall|i: int| 0 <= i < n ==> a[i] == b[i],
    ensures
        differing(a, b, n) == 0,
    decreases n,
{
    if n > 0 {
        lemma_differing_none(a, b, (n - 1) as nat);
    }
}

/// Where the two pieces differ everywhere below `n`, every position is counted.
pub proof fn lemma_differing_all(a: Seq<u8>, b: Seq<u8>, n: nat)
    requires
        forall|i: int| 0 <= i < n ==> a[i] != b[i],
    ensures
        differing(a, b, n) == n,
    decreases n,
{
    if n > 0 {
        lemma_differing_all(a, b, (n - 1) as nat);
    }
}

/// Two pieces that differ only in their last `tail` compared bytes match,
/// as long as the tail is shorter than a fifth of what is compared.
pub proof fn lemma_tail_difference_matches(a: Seq<u8>, b: Seq<u8>, tail: nat)
    requires
        tail <= compared_len(a, b),
        THRESHOLD_DIVISOR * tail < compared_len(a, b),
        forall|i: int| 0 <= i < compared_len(a, b) - tail ==> a[i] == b[i],
    ensures
        fuzzy_match(a, b),
{
    let n = compared_len(a, b);
    let head = (n - tail) as nat;
    lemma_differing_none(a, b, head);
    lemma_differing_grows_slowly(a, b, head, n);
}

/// Two pieces that differ at every compared position do not match, and
/// nothing matches an empty piece.
pub proof fn lemma_unrelated_do_not_match(a: Seq<u8>, b: Seq<u8>)
    requires
        forall|i: int| 0 <= i < compared_len(a, b) ==> a[i] != b[i],
    ensures
        !fuzzy_match(a, b),
{
    lemma_differing_all(a, b, compared_len(a, b));
}

/// Counts the positions at which `a` and `b` differ, over the length of the
/// shorter one.
pub fn diff_score(a: &[u8], b: &[u8]) -> (score: DiffScore)
    ensures
        score.compared == compared_len(a@, b@),
        score.differing == differing(a@, b@, compared_len(a@, b@)),
        score.differing <= score.compared,
{
    let n = if a.len() <= b.len() { a.len() } else { b.len() };
    let mut count: usize = 0;
    let mut i: usize = 0;
    while i < n
        invariant
            i <= n,
            n <= a@.len(),
            n <= b@.len(),
            count == differing(a@, b@, i as nat),
            count <= i,
        decreases n - i,
    {
        if a[i] != b[i] {
            count += 1;
        }
        i += 1;
    }
    DiffScore { differing: count, compared: n }
}

/// Whether `a` and `b` are close enough to count as the same contract.
pub fn is_fuzzy_match(a: &[u8], b: &[u8]) -> (r: bool)
    ensures
        r == fuzzy_match(a@, b@),
{
    diff_score(a, b).under_threshold()
}

} // verus!
