//! Reconciliation of deployed contracts that have no ABI yet with the
//! records of the repository.
//!
//! A pass goes through the contracts that the store lists as incomplete.
//! For each it needs bytecode: the code that the store has cached, or code
//! fetched from the chain. The fetching is done by the caller; the pass
//! decides which fetch to start next and never has more than
//! [`MAX_IN_FLIGHT`] of them outstanding. Contracts whose code matches a
//! record are then written back, one after the other.

use vstd::prelude::*;
use crate::abi::{best_match, AbiRecord, AbiRecordView, AbiRepository};
use crate::path::copy_bytes;

verus! {

/// The most fetches that are outstanding at any moment of a pass.
pub const MAX_IN_FLIGHT: usize = 10;

/// A deployed contract of which the store knows neither ABI nor name.
#[derive(Debug, Clone, PartialEq, Eq)]
pub struct IncompleteContract {
    pub chain_id: u32,
    pub address: [u8; 20],
    /// The bytecode, where the store has fetched it before.
    pub code: Option<Vec<u8>>,
}

/// What an incomplete contract holds.
pub struct IncompleteView {
    pub chain_id: u32,
    pub address: [u8; 20],
    pub code: Option<Seq<u8>>,
}

impl View for IncompleteContract {
    type V = IncompleteView;

    open spec fn view(&self) -> IncompleteView {
        IncompleteView {
            chain_id: self.chain_id,
            address: self.address,
            code: code_view(self.code),
        }
    }
}

/// What optional bytecode holds.
pub open spec fn code_view(code: Option<Vec<u8>>) -> Option<Seq<u8>> {
    match code {
        Some(c) => Some(c@),
        None => None,
    }
}

/// The cached bytecode of a contract that can be used as it is: there is
/// some, and it is not empty.
pub open spec fn cached_code(c: IncompleteView) -> Option<Seq<u8>> {
    match c.code {
        Some(code) => if code.len() > 0 {
            Some(code)
        } else {
            None
        },
        None => None,
    }
}

/// How far a pass has come with one contract.
#[derive(Debug, Clone, PartialEq, Eq)]
pub enum Slot {
    /// Not looked at yet.
    Pending,
    /// Its bytecode is being fetched.
    InFlight,
    /// Its bytecode is known.
    Ready(Vec<u8>),
    /// No bytecode could be had for it in this pass.
    Dropped,
}

/// What a slot holds.
pub enum SlotView {
    Pending,
    InFlight,
    Ready(Seq<u8>),
    Dropped,
}

impl View for Slot {
    type V = SlotView;

    open spec fn view(&self) -> SlotView {
        match self {
            Slot::Pending => SlotView::Pending,
            Slot::InFlight => SlotView::InFlight,
            Slot::Ready(code) => SlotView::Ready(code@),
            Slot::Dropped => SlotView::Dropped,
        }
    }
}

/// What the caller of a pass is to do next.
#[derive(Debug, Clone, Copy, PartialEq, Eq)]
pub enum Step {
    /// Start fetching the bytecode of this contract, and hand the outcome
    /// back under `ticket`.
    Fetch { ticket: usize, chain_id: u32, address: [u8; 20] },
    /// Wait until one of the outstanding fetches has ended.
    Wait,
    /// Every contract has been dealt with.
    Done,
}

/// The state of a pass.
pub struct PassView {
    /// The contracts that the pass goes through.
    pub contracts: Seq<IncompleteView>,
    /// How far the pass has come with each of them.
    pub slots: Seq<SlotView>,
    /// The contracts before this position have been looked at.
    pub next: int,
    /// How many fetches are outstanding.
    pub in_flight: int,
}

/// How many of the first `n` slots are being fetched.
pub open spec fn in_flight_among(slots: Seq<SlotView>, n: int) -> int
    decreases n,
{
    if n <= 0 {
        0
    } else {
        in_flight_among(slots, n - 1) + if slots[n - 1] is InFlight {
            1int
        } else {
            0int
        }
    }
}

/// The state of a pass is well formed.
pub open spec fn pass_wf(v: PassView) -> bool {
    &&& v.slots.len() == v.contracts.len()
    &&& 0 <= v.next <= v.slots.len()
    &&& forall|i: int| 0 <= i < v.next ==> !(#[trigger] v.slots[i] is Pending)
    &&& forall|i: int| v.next <= i < v.slots.len() ==> #[trigger] v.slots[i] is Pending
    &&& v.in_flight == in_flight_among(v.slots, v.slots.len() as int)
    &&& v.in_flight <= MAX_IN_FLIGHT
}

/// The state in which a pass over `contracts` starts.
pub open spec fn pass_start(contracts: Seq<IncompleteView>) -> PassView {
    PassView {
        contracts,
        slots: Seq::new(contracts.len(), |i: int| SlotView::Pending),
        next: 0,
        in_flight: 0,
    }
}

/// The next step of a pass, and the state after it. Contracts with usable
/// cached code are passed over and become ready. The first contract without
/// such code is fetched if fewer than [`MAX_IN_FLIGHT`] fetches are
/// outstanding; else the caller waits.
pub open spec fn advance(v: PassView) -> (PassView, Step)
    decreases v.contracts.len() - v.next,
{
    if v.next < 0 || v.next >= v.contracts.len() {
        (
            v,
            if v.in_flight > 0 {
                Step::Wait
            } else {
                Step::Done
            },
        )
    } else {
        let c = v.contracts[v.next];
        match cached_code(c) {
            Some(code) => advance(
                PassView { slots: v.slots.update(v.next, SlotView::Ready(code)), next: v.next + 1, ..v },
            ),
            None => if v.in_flight < MAX_IN_FLIGHT {
                (
                    PassView {
                        slots: v.slots.update(v.next, SlotView::InFlight),
                        next: v.next + 1,
                        in_flight: v.in_flight + 1,
                        ..v
                    },
                    Step::Fetch { ticket: v.next as usize, chain_id: c.chain_id, address: c.address },
                )
            } else {
                (v, Step::Wait)
            },
        }
    }
}

/// The state after the fetch with the given ticket has ended. With code the
/// contract becomes ready, without it is dropped from this pass. A ticket
/// under which no fetch is outstanding changes nothing.
pub open spec fn complete(v: PassView, ticket: int, code: Option<Seq<u8>>) -> PassView {
    if 0 <= ticket < v.slots.len() && v.slots[ticket] is InFlight {
        PassView {
            slots: v.slots.update(
                ticket,
                match code {
                    Some(c) => SlotView::Ready(c),
                    None => SlotView::Dropped,
                },
            ),
            in_flight: v.in_flight - 1,
            ..v
        }
    } else {
        v
    }
}

/// Changing one slot changes the count by what that slot adds.
pub proof fn lemma_in_flight_update(slots: Seq<SlotView>, i: int, slot: SlotView, n: int)
    requires
        0 <= i < slots.len(),
        0 <= n <= slots.len(),
    ensures
        in_flight_among(slots.update(i, slot), n) == in_flight_among(slots, n) + if i < n {
            (if slot is InFlight {
                1int
            } else {
                0int
            }) - (if slots[i] is InFlight {
                1int
            } else {
                0int
            })
        } else {
            0int
        },
    decreases n,
{
    if n > 0 {
        lemma_in_flight_update(slots, i, slot, n - 1);
    }
}

/// The count lies between nothing and all, and is positive where a slot is
/// being fetched.
pub proof fn lemma_in_flight_bounds(slots: Seq<SlotView>, n: int)
    requires
        0 <= n <= slots.len(),
    ensures
        0 <= in_flight_among(slots, n) <= n,
        forall|i: int| 0 <= i < n && #[trigger] slots[i] is InFlight ==> in_flight_among(slots, n) > 0,
    decreases n,
{
    if n > 0 {
        lemma_in_flight_bounds(slots, n - 1);
    }
}

/// A pass starts well formed, with nothing outstanding.
pub proof fn lemma_start_wf(contracts: Seq<IncompleteView>)
    ensures
        pass_wf(pass_start(contracts)),
{
    let v = pass_start(contracts);
    lemma_in_flight_none(v.slots, v.slots.len() as int);
}

proof fn lemma_in_flight_none(slots: Seq<SlotView>, n: int)
    requires
        0 <= n <= slots.len(),
        forall|i: int| 0 <= i < n ==> !(#[trigger] slots[i] is InFlight),
    ensures
        in_flight_among(slots, n) == 0,
    decreases n,
{
    if n > 0 {
        lemma_in_flight_none(slots, n - 1);
    }
}

/// A step keeps the state well formed, so that never more than
/// [`MAX_IN_FLIGHT`] fetches are outstanding. A fetch is started only below
/// that limit, the caller is told to wait only while a fetch is
/// outstanding, and the pass is done only when every contract is ready or
/// dropped.
pub proof fn lemma_advance(v: PassView)
    requires
        pass_wf(v),
    ensures
        pass_wf(advance(v).0),
        advance(v).0.contracts == v.contracts,
        advance(v).0.in_flight <= MAX_IN_FLIGHT,
        advance(v).1 is Fetch ==> v.in_flight < MAX_IN_FLIGHT && advance(v).0.in_flight == v.in_flight + 1,
        !(advance(v).1 is Fetch) ==> advance(v).0.in_flight == v.in_flight,
        advance(v).1 is Wait ==> advance(v).0.in_flight > 0,
        advance(v).1 is Done ==> forall|i: int|
            0 <= i < v.slots.len() ==> (#[trigger] advance(v).0.slots[i] is Ready || advance(v).0.slots[i] is Dropped),
    decreases v.contracts.len() - v.next,
{
    if v.next >= v.contracts.len() {
        lemma_in_flight_bounds(v.slots, v.slots.len() as int);
        if v.in_flight == 0 {
            assert forall|i: int| 0 <= i < v.slots.len() implies (#[trigger] v.slots[i] is Ready
                || v.slots[i] is Dropped) by {
                assert(!(v.slots[i] is Pending));
            }
        }
    } else {
        let c = v.contracts[v.next];
        match cached_code(c) {
            Some(code) => {
                let w = PassView { slots: v.slots.update(v.next, SlotView::Ready(code)), next: v.next + 1, ..v };
                lemma_in_flight_update(v.slots, v.next, SlotView::Ready(code), v.slots.len() as int);
                assert(v.slots[v.next] is Pending);
                assert(pass_wf(w));
                lemma_advance(w);
            },
            None => {
                if v.in_flight < MAX_IN_FLIGHT {
                    lemma_in_flight_update(v.slots, v.next, SlotView::InFlight, v.slots.len() as int);
                    assert(v.slots[v.next] is Pending);
                } else {
                }
            },
        }
    }
}

/// The end of a fetch keeps the state well formed, and frees one place
/// where a fetch was outstanding under the ticket.
pub proof fn lemma_complete(v: PassView, ticket: int, code: Option<Seq<u8>>)
    requires
        pass_wf(v),
    ensures
        pass_wf(complete(v, ticket, code)),
        complete(v, ticket, code).contracts == v.contracts,
        complete(v, ticket, code).in_flight <= v.in_flight,
{
    if 0 <= ticket < v.slots.len() && v.slots[ticket] is InFlight {
        let slot = match code {
            Some(c) => SlotView::Ready(c),
            None => SlotView::Dropped,
        };
        lemma_in_flight_update(v.slots, ticket, slot, v.slots.len() as int);
        lemma_in_flight_bounds(v.slots, v.slots.len() as int);
        let w = complete(v, ticket, code);
        assert forall|i: int| v.next <= i < w.slots.len() implies #[trigger] w.slots[i] is Pending by {
            assert(v.slots[i] is Pending);
        }
        assert forall|i: int| 0 <= i < w.next implies !(#[trigger] w.slots[i] is Pending) by {
            assert(!(v.slots[i] is Pending));
        }
    }
}

/// A contract whose bytecode matches a record of the repository.
#[derive(Debug, Clone, PartialEq, Eq)]
pub struct MatchResult {
    pub chain_id: u32,
    pub address: [u8; 20],
    pub code: Vec<u8>,
    pub abi: AbiRecord,
}

/// What a match holds.
pub struct MatchView {
    pub chain_id: u32,
    pub address: [u8; 20],
    pub code: Seq<u8>,
    pub abi: AbiRecordView,
}

impl View for MatchResult {
    type V = MatchView;

    open spec fn view(&self) -> MatchView {
        MatchView { chain_id: self.chain_id, address: self.address, code: self.code@, abi: self.abi@ }
    }
}

/// What each of the matches holds, in the same order.
pub open spec fn match_views(matches: Seq<MatchResult>) -> Seq<MatchView> {
    Seq::new(matches.len(), |i: int| matches[i]@)
}

/// The match of one contract: it has bytecode, and a record matches it.
pub open spec fn match_of(c: IncompleteView, slot: SlotView, records: Seq<AbiRecordView>) -> Option<MatchView> {
    match slot {
        SlotView::Ready(code) => match best_match(records, code) {
            Some(abi) => Some(MatchView { chain_id: c.chain_id, address: c.address, code, abi }),
            None => None,
        },
        _ => None,
    }
}

/// The matches among the first `n` contracts, in the order of the contracts.
pub open spec fn matches_among(
    contracts: Seq<IncompleteView>,
    slots: Seq<SlotView>,
    records: Seq<AbiRecordView>,
    n: int,
) -> Seq<MatchView>
    decreases n,
{
    if n <= 0 {
        Seq::empty()
    } else {
        let before = matches_among(contracts, slots, records, n - 1);
        match match_of(contracts[n - 1], slots[n - 1], records) {
            Some(m) => before.push(m),
            None => before,
        }
    }
}

/// Each match comes from a contract that has one, and where no contract has
/// a match there are no matches.
pub proof fn lemma_matches_among(
    contracts: Seq<IncompleteView>,
    slots: Seq<SlotView>,
    records: Seq<AbiRecordView>,
    n: int,
)
    requires
        0 <= n <= contracts.len(),
        contracts.len() == slots.len(),
    ensures
        forall|k: int|
            0 <= k < matches_among(contracts, slots, records, n).len() ==> exists|i: int|
                0 <= i < n && #[trigger] match_of(contracts[i], slots[i], records) == Some(
                    #[trigger] matches_among(contracts, slots, records, n)[k],
                ),
        (forall|i: int| 0 <= i < n ==> #[trigger] match_of(contracts[i], slots[i], records) is None)
            <==> matches_among(contracts, slots, records, n).len() == 0,
    decreases n,
{
    if n > 0 {
        lemma_matches_among(contracts, slots, records, n - 1);
        let before = matches_among(contracts, slots, records, n - 1);
        let all = matches_among(contracts, slots, records, n);
        assert forall|k: int| 0 <= k < all.len() implies exists|i: int|
            0 <= i < n && #[trigger] match_of(contracts[i], slots[i], records) == Some(#[trigger] all[k]) by {
            if k < before.len() {
                let i = choose|i: int|
                    0 <= i < n - 1 && #[trigger] match_of(contracts[i], slots[i], records) == Some(before[k]);
                assert(match_of(contracts[i], slots[i], records) == Some(all[k]));
            } else {
                assert(match_of(contracts[n - 1], slots[n - 1], records) == Some(all[k]));
            }
        }
        if all.len() == 0 {
            assert(match_of(contracts[n - 1], slots[n - 1], records) is None);
        }
    }
}

/// A pass over the incomplete contracts of the store.
#[derive(Debug, Clone, PartialEq, Eq)]
pub struct Reconciler {
    contracts: Vec<IncompleteContract>,
    slots: Vec<Slot>,
    next: usize,
    in_flight: usize,
}

impl View for Reconciler {
    type V = PassView;

    closed spec fn view(&self) -> PassView {
        PassView {
            contracts: Seq::new(self.contracts@.len(), |i: int| self.contracts@[i]@),
            slots: Seq::new(self.slots@.len(), |i: int| self.slots@[i]@),
            next: self.next as int,
            in_flight: self.in_flight as int,
        }
    }
}

impl Reconciler {
    /// What the contracts hold, in the given order.
    pub open spec fn contract_views(contracts: Seq<IncompleteContract>) -> Seq<IncompleteView> {
        Seq::new(contracts.len(), |i: int| contracts[i]@)
    }

    /// The pass is in a state that its steps can reach.
    pub open spec fn wf(&self) -> bool {
        pass_wf(self@)
    }

    /// Starts a pass over `contracts`.
    pub fn new(contracts: Vec<IncompleteContract>) -> (r: Reconciler)
        ensures
            r.wf(),
            r@ == pass_start(Self::contract_views(contracts@)),
    {
        let mut slots: Vec<Slot> = Vec::new();
        let mut i: usize = 0;
        while i < contracts.len()
            invariant
                i <= contracts.len(),
                slots@.len() == i,
                forall|j: int| 0 <= j < i ==> slots@[j]@ == SlotView::Pending,
            decreases contracts.len() - i,
        {
            slots.push(Slot::Pending);
            i += 1;
        }
        let ghost views = Self::contract_views(contracts@);
        let r = Reconciler { contracts, slots, next: 0, in_flight: 0 };
        proof {
            assert(r@.contracts =~= views);
            assert(r@.slots =~= pass_start(views).slots);
            lemma_start_wf(views);
        }
        r
    }

    /// How many fetches are outstanding.
    pub fn in_flight(&self) -> (n: usize)
        requires
            self.wf(),
        ensures
            n == self@.in_flight,
            n <= MAX_IN_FLIGHT,
    {
        self.in_flight
    }

    /// Tells the caller what to do next, and notes it.
    pub fn next_step(&mut self) -> (step: Step)
        requires
            old(self).wf(),
        ensures
            final(self).wf(),
            (final(self)@, step) == advance(old(self)@),
    {
        let ghost start = self@;
        proof {
            lemma_advance(start);
        }
        while self.next < self.contracts.len()
            invariant
                self.wf(),
                start == old(self)@,
                pass_wf(advance(start).0),
                advance(self@) == advance(start),
            decreases self.contracts.len() - self.next,
        {
            let ghost v = self@;
            let i = self.next;
            assert(v.contracts[i as int] == self.contracts@[i as int]@);
            let cached: Option<Vec<u8>> = match &self.contracts[i].code {
                Some(code) => if code.len() > 0 {
                    Some(copy_bytes(code))
                } else {
                    None
                },
                None => None,
            };
            match cached {
                Some(code) => {
                    let ghost w = PassView {
                        slots: v.slots.update(i as int, SlotView::Ready(code@)),
                        next: v.next + 1,
                        ..v
                    };
                    self.slots.set(i, Slot::Ready(code));
                    self.next = i + 1;
                    proof {
                        assert(self@.slots =~= w.slots);
                        assert(self@.contracts =~= w.contracts);
                        assert(self@ == w);
                        lemma_in_flight_update(v.slots, v.next, SlotView::Ready(code@), v.slots.len() as int);
                        assert(v.slots[v.next] is Pending);
                    }
                },
                None => {
                    if self.in_flight < MAX_IN_FLIGHT {
                        let ghost w = PassView {
                            slots: v.slots.update(i as int, SlotView::InFlight),
                            next: v.next + 1,
                            in_flight: v.in_flight + 1,
                            ..v
                        };
                        let chain_id = self.contracts[i].chain_id;
                        let address = self.contracts[i].address;
                        self.slots.set(i, Slot::InFlight);
                        self.next = i + 1;
                        self.in_flight = self.in_flight + 1;
                        proof {
                            assert(self@.slots =~= w.slots);
                            assert(self@.contracts =~= w.contracts);
                            assert(self@ == w);
                        }
                        return Step::Fetch { ticket: i, chain_id, address };
                    } else {
                        return Step::Wait;
                    }
                },
            }
        }
        if self.in_flight > 0 {
            Step::Wait
        } else {
            Step::Done
        }
    }

    /// Notes the end of the fetch that was started under `ticket`: with the
    /// bytecode that came back, or with `None` where the fetch failed.
    /// Returns whether a fetch was outstanding under the ticket.
    pub fn fetch_completed(&mut self, ticket: usize, code: Option<Vec<u8>>) -> (accepted: bool)
        requires
            old(self).wf(),
        ensures
            final(self).wf(),
            final(self)@ == complete(old(self)@, ticket as int, code_view(code)),
            accepted == (ticket < old(self)@.slots.len() && old(self)@.slots[ticket as int] is InFlight),
    {
        let ghost v = self@;
        let ghost given = code_view(code);
        proof {
            lemma_complete(v, ticket as int, given);
        }
        if ticket >= self.slots.len() {
            return false;
        }
        assert(v.slots[ticket as int] == self.slots@[ticket as int]@);
        let outstanding = match &self.slots[ticket] {
            Slot::InFlight => true,
            _ => false,
        };
        if !outstanding {
            return false;
        }
        proof {
            lemma_in_flight_bounds(v.slots, v.slots.len() as int);
        }
        let slot = match code {
            Some(c) => Slot::Ready(c),
            None => Slot::Dropped,
        };
        self.slots.set(ticket, slot);
        self.in_flight = self.in_flight - 1;
        proof {
            let w = complete(v, ticket as int, given);
            assert(self@.slots =~= w.slots);
            assert(self@.contracts =~= w.contracts);
        }
        true
    }

    /// The contracts whose bytecode is known and matches a record of the
    /// repository, each with the first record that matches, in the order of
    /// the contracts.
    pub fn matches(&self, repository: &AbiRepository) -> (found: Vec<MatchResult>)
        requires
            self.wf(),
        ensures
            match_views(found@) == matches_among(
                self@.contracts,
                self@.slots,
                repository@,
                self@.contracts.len() as int,
            ),
    {
        let mut found: Vec<MatchResult> = Vec::new();
        let mut i: usize = 0;
        let ghost v = self@;
        while i < self.contracts.len()
            invariant
                i <= self.contracts.len(),
                v == self@,
                pass_wf(v),
                match_views(found@) == matches_among(v.contracts, v.slots, repository@, i as int),
            decreases self.contracts.len() - i,
        {
            assert(v.contracts[i as int] == self.contracts@[i as int]@);
            assert(v.slots[i as int] == self.slots@[i as int]@);
            match &self.slots[i] {
                Slot::Ready(code) => {
                    match repository.find_best_match(code.as_slice()) {
                        Some(abi) => {
                            let ghost before = match_views(found@);
                            let m = MatchResult {
                                chain_id: self.contracts[i].chain_id,
                                address: self.contracts[i].address,
                                code: copy_bytes(code),
                                abi,
                            };
                            found.push(m);
                            assert(match_views(found@) =~= before.push(m@));
                        },
                        None => {},
                    }
                },
                _ => {},
            }
            i += 1;
        }
        found
    }
}

/// What happens to a pass: the caller asks for the next step, or hands
/// back the outcome of a fetch.
pub enum PassEvent {
    Step,
    Completed { ticket: int, code: Option<Seq<u8>> },
}

/// The state of a pass over `contracts` after the given events.
pub open spec fn run(contracts: Seq<IncompleteView>, events: Seq<PassEvent>) -> PassView
    decreases events.len(),
{
    if events.len() == 0 {
        pass_start(contracts)
    } else {
        let before = run(contracts, events.drop_last());
        match events.last() {
            PassEvent::Step => advance(before).0,
            PassEvent::Completed { ticket, code } => complete(before, ticket, code),
        }
    }
}

/// Whatever the caller does and in whatever order the fetches end, a pass
/// never has more than [`MAX_IN_FLIGHT`] fetches outstanding: however many
/// contracts there are, at most that many slots are in flight at a time.
pub proof fn lemma_bounded_concurrency(contracts: Seq<IncompleteView>, events: Seq<PassEvent>)
    ensures
        pass_wf(run(contracts, events)),
        in_flight_among(run(contracts, events).slots, contracts.len() as int) <= MAX_IN_FLIGHT,
        run(contracts, events).contracts == contracts,
    decreases events.len(),
{
    if events.len() == 0 {
        lemma_start_wf(contracts);
    } else {
        lemma_bounded_concurrency(contracts, events.drop_last());
        let before = run(contracts, events.drop_last());
        match events.last() {
            PassEvent::Step => {
                lemma_advance(before);
            },
            PassEvent::Completed { ticket, code } => {
                lemma_complete(before, ticket, code);
            },
        }
    }
}

/// The contract `c`, with what the pass knows of its bytecode, went
/// through the pass over `contracts` and found no match among `records`.
pub open spec fn left_unmatched(
    c: IncompleteView,
    slot: SlotView,
    contracts: Seq<IncompleteView>,
    slots: Seq<SlotView>,
    records: Seq<AbiRecordView>,
) -> bool {
    exists|i: int|
        {
            &&& 0 <= i < contracts.len()
            &&& #[trigger] contracts[i] == c
            &&& slots[i] == slot
            &&& match_of(c, slot, records) is None
        }
}

/// A second pass with nothing new writes nothing. The contracts that a
/// pass has matched are written to the store and are no longer incomplete;
/// so the next pass sees only contracts that the first one left without a
/// match. With the same bytecode for each of them and the same records, it
/// finds no match either.
pub proof fn lemma_second_pass_finds_nothing(
    first_contracts: Seq<IncompleteView>,
    first_slots: Seq<SlotView>,
    second_contracts: Seq<IncompleteView>,
    second_slots: Seq<SlotView>,
    records: Seq<AbiRecordView>,
)
    requires
        first_contracts.len() == first_slots.len(),
        second_contracts.len() == second_slots.len(),
        forall|j: int|
            0 <= j < second_contracts.len() ==> left_unmatched(
                #[trigger] second_contracts[j],
                second_slots[j],
                first_contracts,
                first_slots,
                records,
            ),
    ensures
        matches_among(second_contracts, second_slots, records, second_contracts.len() as int).len() == 0,
{
    assert forall|j: int| 0 <= j < second_contracts.len() implies #[trigger] match_of(
        second_contracts[j],
        second_slots[j],
        records,
    ) is None by {
        assert(left_unmatched(second_contracts[j], second_slots[j], first_contracts, first_slots, records));
    }
    lemma_matches_among(second_contracts, second_slots, records, second_contracts.len() as int);
}

/// How far the writing of the matches has come.
pub struct PersistView {
    /// The matches to write, in order.
    pub writes: Seq<MatchView>,
    /// How many of them have been written.
    pub written: int,
    /// Whether a write has failed. Nothing is written after that.
    pub failed: bool,
}

/// The state after a write has ended, well (`ok`) or not. A failure ends
/// the writing; what was written before stays written.
pub open spec fn persist_step(v: PersistView, ok: bool) -> PersistView {
    if v.failed || v.written >= v.writes.len() {
        v
    } else if ok {
        PersistView { written: v.written + 1, ..v }
    } else {
        PersistView { failed: true, ..v }
    }
}

/// How the writing of a pass ended.
#[derive(Debug, Clone, Copy, PartialEq, Eq, Structural)]
pub struct PassOutcome {
    /// How many matches were written to the store.
    pub written: usize,
    /// Whether a write failed, so that the matches after it were not written.
    pub failed: bool,
    /// Whether the user interface is to be told that contracts have changed:
    /// when at least one match was written.
    pub notify: bool,
}

/// The writing of the matches of a pass, one after the other.
#[derive(Debug, Clone, PartialEq, Eq)]
pub struct PersistPass {
    writes: Vec<MatchResult>,
    written: usize,
    failed: bool,
}

impl View for PersistPass {
    type V = PersistView;

    closed spec fn view(&self) -> PersistView {
        PersistView { writes: match_views(self.writes@), written: self.written as int, failed: self.failed }
    }
}

impl PersistPass {
    /// No more has been written than there is to write.
    pub open spec fn wf(&self) -> bool {
        0 <= self@.written <= self@.writes.len()
    }

    /// Starts the writing of `writes`.
    pub fn new(writes: Vec<MatchResult>) -> (p: PersistPass)
        ensures
            p.wf(),
            p@ == (PersistView { writes: match_views(writes@), written: 0, failed: false }),
    {
        PersistPass { writes, written: 0, failed: false }
    }

    /// The match to write next. There is none when all are written or a
    /// write has failed.
    pub fn next_write(&self) -> (m: Option<&MatchResult>)
        requires
            self.wf(),
        ensures
            match m {
                Some(w) => !self@.failed && self@.written < self@.writes.len() && w@ == self@.writes[self@.written],
                None => self@.failed || self@.written == self@.writes.len(),
            },
    {
        if self.failed || self.written >= self.writes.len() {
            None
        } else {
            Some(&self.writes[self.written])
        }
    }

    /// Notes how the write of the match that `next_write` gave has ended.
    pub fn write_completed(&mut self, ok: bool)
        requires
            old(self).wf(),
        ensures
            final(self).wf(),
            final(self)@ == persist_step(old(self)@, ok),
    {
        if self.failed || self.written >= self.writes.len() {
            return ;
        }
        if ok {
            self.written = self.written + 1;
        } else {
            self.failed = true;
        }
    }

    /// How the writing stands.
    pub fn outcome(&self) -> (o: PassOutcome)
        requires
            self.wf(),
        ensures
            o.written == self@.written,
            o.failed == self@.failed,
            o.notify == (self@.written > 0),
    {
        PassOutcome { written: self.written, failed: self.failed, notify: self.written > 0 }
    }
}

} // verus!
