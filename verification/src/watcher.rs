//! The state that the watcher's loop owns, and what each event does to it.
//!
//! The loop itself waits and does the work that touches the outside: it
//! scans the disk for manifests, registers directories with the file
//! watcher, reads artifact files, talks to the store. This module decides.
//! Each event goes in with what the loop has read, and what the loop is to
//! do next comes out.

use vstd::prelude::*;
use crate::abi::{best_match, filed, in_path_order, lemma_file_unfile_refile, lemma_filed, lookup_in, unfiled, AbiRecord, AbiRecordView, AbiRepository};
use crate::artifact::{artifact_name, classify, record_of, ArtifactFile, Change};
use crate::path::{copy_bytes, lemma_path_lt_trichotomy, path_lt, within, PathSeq, WatchPath};
use crate::reconcile::{pass_start, IncompleteContract, Reconciler};
use crate::roots::{find_project_roots, is_project_root, lemma_project_roots_unnested, manifest_name, manifest_name_spec, output_dir_name_spec, watch_target, PathSet};
use crate::sorted::{keys_of, lemma_sorted_unique, strictly_sorted, Sorted};

verus! {

/// File events are gathered over this many milliseconds before they are
/// handed on as one batch.
pub const DEBOUNCE_MILLIS: u64 = 200;

/// The project roots are derived anew after this many seconds, whatever
/// else happens.
pub const POLL_INTERVAL_SECS: u64 = 60;

/// How many messages the mailbox holds before a sender has to wait.
pub const MAILBOX_CAPACITY: usize = 100;

/// A message to the watcher.
#[derive(Debug, Clone, PartialEq, Eq)]
pub enum Msg {
    /// Watch these roots, and no others, from now on.
    UpdateRoots(Vec<WatchPath>),
    /// Derive the project roots anew, now.
    PollFoundryRoots,
    /// A contract without ABI may have come into the store.
    NewContract,
}

/// What the rest of the program tells the watcher's feeder.
#[derive(Debug, Clone, Copy, PartialEq, Eq, Structural)]
pub enum InternalMsg {
    /// The settings have changed.
    SettingsUpdated,
    /// The store has taken in a contract.
    ContractFound,
    /// Anything else.
    Other,
}

/// The message that the watcher gets for a notice from the rest of the
/// program. Changed settings make the configured watch path, where one is
/// set, the only watch root. A contract that was found asks for a
/// reconciliation. Nothing else concerns the watcher.
pub fn route_internal(msg: InternalMsg, watch_path: Option<WatchPath>) -> (r: Option<Msg>)
    ensures
        match msg {
            InternalMsg::SettingsUpdated => match watch_path {
                Some(path) => r matches Some(Msg::UpdateRoots(roots)) && roots@ == seq![path],
                None => r is None,
            },
            InternalMsg::ContractFound => r == Some(Msg::NewContract),
            InternalMsg::Other => r is None,
        },
{
    match msg {
        InternalMsg::SettingsUpdated => match watch_path {
            Some(path) => {
                let mut roots: Vec<WatchPath> = Vec::new();
                roots.push(path);
                assert(roots@ =~= seq![path]);
                Some(Msg::UpdateRoots(roots))
            },
            None => None,
        },
        InternalMsg::ContractFound => Some(Msg::NewContract),
        InternalMsg::Other => None,
    }
}

/// One debounced file event.
#[derive(Debug, Clone, PartialEq, Eq)]
pub struct FileEvent {
    /// The paths that the event names. Only the first one counts.
    pub paths: Vec<WatchPath>,
    /// What the file at the first path holds, or `None` where it is gone,
    /// cannot be read, or does not hold what an artifact holds.
    pub decoded: Option<ArtifactFile>,
}

/// What a file event holds.
pub struct FileEventView {
    pub paths: Seq<PathSeq>,
    pub decoded: Option<(Seq<char>, Seq<u8>)>,
}

impl View for FileEvent {
    type V = FileEventView;

    open spec fn view(&self) -> FileEventView {
        FileEventView {
            paths: keys_of(self.paths@),
            decoded: match self.decoded {
                Some(file) => Some((file.abi@, file.code@)),
                None => None,
            },
        }
    }
}

/// Every event of the batch names a path.
pub open spec fn all_name_a_path(events: Seq<FileEvent>) -> bool {
    forall|i: int| 0 <= i < events.len() ==> (#[trigger] events[i]).paths@.len() > 0
}

/// What each of the events holds, in the same order.
pub open spec fn event_views(events: Seq<FileEvent>) -> Seq<FileEventView> {
    Seq::new(events.len(), |i: int| events[i]@)
}

/// What the loop can wake up for.
#[derive(Debug, Clone, PartialEq, Eq)]
pub enum Event {
    /// The poll interval has passed.
    Tick,
    /// A message has come in.
    Message(Msg),
    /// The file watcher has handed on a batch of events.
    Debounced(Vec<FileEvent>),
    /// The wake signal has fired.
    Wake,
}

/// What the loop is to do after an event.
#[derive(Debug, Clone, Copy, PartialEq, Eq, Structural)]
pub enum Effect {
    /// Look for manifests under the watch roots and hand what was found to
    /// `update_foundry_roots`.
    Rescan,
    /// Run a reconciliation pass.
    Reconcile,
    /// Nothing.
    Nothing,
}

/// How a new set of watch roots differs from the one before.
#[derive(Debug, Clone, PartialEq, Eq)]
pub struct RootsDiff {
    /// The roots that are no longer watched.
    pub removed: PathSet,
    /// The roots that are watched from now on.
    pub added: PathSet,
    /// What the loop is to do next: scan, so that the project roots are
    /// derived from the new roots.
    pub effect: Effect,
}

/// What a `RootsDiff` holds.
pub struct RootsDiffView {
    pub removed: Seq<PathSeq>,
    pub added: Seq<PathSeq>,
    pub effect: Effect,
}

impl View for RootsDiff {
    type V = RootsDiffView;

    open spec fn view(&self) -> RootsDiffView {
        RootsDiffView { removed: self.removed.keys(), added: self.added.keys(), effect: self.effect }
    }
}

/// How the project roots have changed. For each root in `dropped` the loop
/// stops watching its output directory, for each root in `found` it starts
/// to, recursively.
#[derive(Debug, Clone, PartialEq, Eq)]
pub struct WatchPlan {
    /// Project roots that are none any more.
    pub dropped: PathSet,
    /// Project roots that were none before.
    pub found: PathSet,
}

/// What a `WatchPlan` holds.
pub struct WatchPlanView {
    pub dropped: Seq<PathSeq>,
    pub found: Seq<PathSeq>,
}

impl View for WatchPlan {
    type V = WatchPlanView;

    open spec fn view(&self) -> WatchPlanView {
        WatchPlanView { dropped: self.dropped.keys(), found: self.found.keys() }
    }
}

/// The output directories of the given project roots, in the same order.
pub open spec fn targets_of(project_roots: Seq<PathSeq>) -> Seq<PathSeq> {
    Seq::new(project_roots.len(), |i: int| project_roots[i].push(output_dir_name_spec()))
}

/// The output directories of the given project roots.
pub fn targets(project_roots: &PathSet) -> (r: Vec<WatchPath>)
    ensures
        keys_of(r@) == targets_of(project_roots.keys()),
{
    let mut r: Vec<WatchPath> = Vec::new();
    let mut i: usize = 0;
    while i < project_roots.len()
        invariant
            i <= project_roots.keys().len(),
            r@.len() == i,
            forall|j: int| 0 <= j < i ==> r@[j]@ == project_roots.keys()[j].push(output_dir_name_spec()),
        decreases project_roots.keys().len() - i,
    {
        r.push(watch_target(project_roots.path_at(i)));
        i += 1;
    }
    assert(keys_of(r@) =~= targets_of(project_roots.keys()));
    r
}

impl WatchPlan {
    /// The directories to stop watching.
    pub fn unwatch_targets(&self) -> (r: Vec<WatchPath>)
        ensures
            keys_of(r@) == targets_of(self@.dropped),
    {
        targets(&self.dropped)
    }

    /// The directories to start watching, each with all that lies below it.
    pub fn watch_targets(&self) -> (r: Vec<WatchPath>)
        ensures
            keys_of(r@) == targets_of(self@.found),
    {
        targets(&self.found)
    }

    /// Whether the plan asks for nothing.
    pub fn is_empty(&self) -> (r: bool)
        ensures
            r == (self@.dropped.len() == 0 && self@.found.len() == 0),
    {
        self.dropped.is_empty() && self.found.is_empty()
    }
}

/// The state of the watcher.
pub struct WatcherView {
    /// The watch roots, in order.
    pub roots: Seq<PathSeq>,
    /// The project roots as last derived, in order.
    pub project_roots: Seq<PathSeq>,
    /// The records of the repository, in the order of their paths.
    pub abis: Seq<AbiRecordView>,
    /// Whether the wake signal is raised. It holds no count: raised twice
    /// is raised.
    pub wake: bool,
}

/// The sets are in order and the repository is.
pub open spec fn watcher_wf(v: WatcherView) -> bool {
    &&& strictly_sorted(v.roots)
    &&& strictly_sorted(v.project_roots)
    &&& in_path_order(v.abis)
}

/// `keys` holds the paths of `of`, and no others.
pub open spec fn same_members(keys: Seq<PathSeq>, of: Seq<PathSeq>) -> bool {
    forall|q: PathSeq| keys.contains(q) <==> of.contains(q)
}

/// `keys` holds, in order, the paths of `a` that are not in `b`.
pub open spec fn is_difference(keys: Seq<PathSeq>, a: Seq<PathSeq>, b: Seq<PathSeq>) -> bool {
    &&& strictly_sorted(keys)
    &&& forall|q: PathSeq| keys.contains(q) <==> (a.contains(q) && !b.contains(q))
}

/// What `update_roots` does: the watch roots become the requested ones, the
/// rest of the state stays, the difference to the roots before is
/// reported, and a scan is asked for.
pub open spec fn update_roots_post(
    before: WatcherView,
    requested: Seq<PathSeq>,
    after: WatcherView,
    diff: RootsDiffView,
) -> bool {
    &&& strictly_sorted(after.roots)
    &&& same_members(after.roots, requested)
    &&& after.project_roots == before.project_roots
    &&& after.abis == before.abis
    &&& after.wake == before.wake
    &&& is_difference(diff.removed, before.roots, requested)
    &&& is_difference(diff.added, requested, before.roots)
    &&& diff.effect == Effect::Rescan
}

/// What `update_foundry_roots` does: the project roots become those that
/// the manifests give under the watch roots, the rest of the state stays,
/// and the difference to the project roots before is reported.
pub open spec fn update_foundry_roots_post(
    before: WatcherView,
    manifests: Seq<PathSeq>,
    after: WatcherView,
    plan: WatchPlanView,
) -> bool {
    &&& strictly_sorted(after.project_roots)
    &&& forall|q: PathSeq| after.project_roots.contains(q) <==> is_project_root(q, before.roots, manifests)
    &&& after.roots == before.roots
    &&& after.abis == before.abis
    &&& after.wake == before.wake
    &&& is_difference(plan.dropped, before.project_roots, after.project_roots)
    &&& is_difference(plan.found, after.project_roots, before.project_roots)
}

/// What one file event does to the repository and to the wake signal. The
/// event names at least one path, and only the first one counts. Where the
/// file there is an artifact, its record is filed; else what was filed
/// under the path is taken out. The signal is raised whenever the
/// repository has changed.
pub open spec fn apply_file_event(abis: Seq<AbiRecordView>, wake: bool, e: FileEventView) -> (
    Seq<AbiRecordView>,
    bool,
)
    recommends
        e.paths.len() > 0,
{
    let path = e.paths[0];
    let record = match e.decoded {
        Some((abi, code)) => record_of(path, abi, code),
        None => None,
    };
    match record {
        Some(r) => (filed(abis, r), true),
        None => (unfiled(abis, path), wake || lookup_in(abis, path) is Some),
    }
}

/// What a batch of file events does, one event after the other.
pub open spec fn apply_file_events(abis: Seq<AbiRecordView>, wake: bool, events: Seq<FileEventView>) -> (
    Seq<AbiRecordView>,
    bool,
)
    decreases events.len(),
{
    if events.len() == 0 {
        (abis, wake)
    } else {
        let (a, w) = apply_file_events(abis, wake, events.drop_last());
        apply_file_event(a, w, events.last())
    }
}

/// A keyed sequence without members is empty.
proof fn lemma_no_members_is_empty(keys: Seq<PathSeq>)
    requires
        forall|q: PathSeq| !keys.contains(q),
    ensures
        keys.len() == 0,
{
    if keys.len() > 0 {
        assert(keys.contains(keys[0]));
    }
}

/// Asking twice for the same roots changes nothing the second time. After
/// `update_roots` and the derivation of the project roots that follows it,
/// the same request, with the same manifests on disk, reports no root as
/// added or removed, leaves the state as it is, and gives a plan that asks
/// for no directory to be watched or unwatched.
pub proof fn lemma_update_roots_idempotent(
    start: WatcherView,
    requested: Seq<PathSeq>,
    manifests: Seq<PathSeq>,
    first_updated: WatcherView,
    first_diff: RootsDiffView,
    first_derived: WatcherView,
    first_plan: WatchPlanView,
    second_updated: WatcherView,
    second_diff: RootsDiffView,
    second_derived: WatcherView,
    second_plan: WatchPlanView,
)
    requires
        update_roots_post(start, requested, first_updated, first_diff),
        update_foundry_roots_post(first_updated, manifests, first_derived, first_plan),
        update_roots_post(first_derived, requested, second_updated, second_diff),
        update_foundry_roots_post(second_updated, manifests, second_derived, second_plan),
    ensures
        second_diff.removed.len() == 0,
        second_diff.added.len() == 0,
        second_plan.dropped.len() == 0,
        second_plan.found.len() == 0,
        second_derived == first_derived,
{
    assert forall|q: PathSeq| second_updated.roots.contains(q) <==> first_derived.roots.contains(q) by {
        assert(second_updated.roots.contains(q) <==> requested.contains(q));
        assert(first_updated.roots.contains(q) <==> requested.contains(q));
    }
    lemma_sorted_unique(second_updated.roots, first_derived.roots);
    assert forall|q: PathSeq| !second_diff.removed.contains(q) by {
        assert(first_updated.roots.contains(q) <==> requested.contains(q));
    }
    assert forall|q: PathSeq| !second_diff.added.contains(q) by {
        assert(first_updated.roots.contains(q) <==> requested.contains(q));
    }
    lemma_no_members_is_empty(second_diff.removed);
    lemma_no_members_is_empty(second_diff.added);
    assert forall|q: PathSeq|
        second_derived.project_roots.contains(q) <==> first_derived.project_roots.contains(q) by {
        assert(second_derived.project_roots.contains(q) <==> is_project_root(q, second_updated.roots, manifests));
        assert(first_derived.project_roots.contains(q) <==> is_project_root(q, first_updated.roots, manifests));
    }
    lemma_sorted_unique(second_derived.project_roots, first_derived.project_roots);
    lemma_no_members_is_empty(second_plan.dropped);
    lemma_no_members_is_empty(second_plan.found);
}

/// After the project roots have been derived, no project root lies below
/// another one, and each of them holds a manifest and lies under a watch
/// root.
pub proof fn lemma_project_roots_never_nested(
    before: WatcherView,
    manifests: Seq<PathSeq>,
    after: WatcherView,
    plan: WatchPlanView,
    i: int,
    j: int,
)
    requires
        update_foundry_roots_post(before, manifests, after, plan),
        0 <= i < after.project_roots.len(),
        0 <= j < after.project_roots.len(),
        i != j,
    ensures
        !within(after.project_roots[i], after.project_roots[j]),
        is_project_root(after.project_roots[i], after.roots, manifests),
{
    let p = after.project_roots[i];
    let q = after.project_roots[j];
    assert(after.project_roots.contains(p));
    assert(after.project_roots.contains(q));
    lemma_path_lt_trichotomy(p, q);
    if i < j {
        assert(path_lt(p, q));
    } else {
        assert(path_lt(q, p));
    }
    lemma_project_roots_unnested(p, q, before.roots, manifests);
}

/// The wake signal holds no count: however often it is raised before the
/// loop looks, the loop is woken once, and then not again until the signal
/// is raised anew.
pub proof fn lemma_wake_coalesces(start: WatcherView, once: WatcherView, twice: WatcherView, e1: Effect, e2: Effect)
    requires
        process_msg_post(start, Msg::NewContract, once, e1),
        process_msg_post(once, Msg::NewContract, twice, e2),
    ensures
        twice == once,
        once.wake,
{
}

/// What the file events of one artifact do to the repository. When the
/// file appears as a valid artifact, its record is found under its path.
/// When the file is then gone or unreadable, nothing is found there. When
/// it appears again, the new record is found there, and it is the only one
/// with that path: the repository is as long as after the first event.
pub proof fn lemma_debounce_classification(
    abis: Seq<AbiRecordView>,
    wake: bool,
    path: PathSeq,
    first: (Seq<char>, Seq<u8>),
    second: (Seq<char>, Seq<u8>),
)
    requires
        in_path_order(abis),
        artifact_name(path) is Some,
    ensures
        ({
            let appear = FileEventView { paths: seq![path], decoded: Some(first) };
            let vanish = FileEventView { paths: seq![path], decoded: None };
            let reappear = FileEventView { paths: seq![path], decoded: Some(second) };
            let s1 = apply_file_event(abis, wake, appear);
            let s2 = apply_file_event(s1.0, s1.1, vanish);
            let s3 = apply_file_event(s2.0, s2.1, reappear);
            let direct = apply_file_event(s1.0, s1.1, reappear);
            &&& lookup_in(s1.0, path) == record_of(path, first.0, first.1)
            &&& s1.1
            &&& lookup_in(s2.0, path) is None
            &&& lookup_in(s3.0, path) == record_of(path, second.0, second.1)
            &&& lookup_in(direct.0, path) == record_of(path, second.0, second.1)
            &&& direct.0.len() == s1.0.len()
            &&& s3.0 == direct.0
            &&& in_path_order(s3.0)
        }),
{
    let r1 = record_of(path, first.0, first.1)->0;
    let r2 = record_of(path, second.0, second.1)->0;
    lemma_file_unfile_refile(abis, r1, r2);
    lemma_filed(abis, r2);
}

/// The state that the watcher's loop owns: the watch roots, the project
/// roots derived from them, the repository of records, and the wake signal.
#[derive(Debug, Clone, PartialEq, Eq)]
pub struct Watcher {
    roots: PathSet,
    foundry_roots: PathSet,
    abis: AbiRepository,
    wake: bool,
}

impl View for Watcher {
    type V = WatcherView;

    closed spec fn view(&self) -> WatcherView {
        WatcherView {
            roots: self.roots.keys(),
            project_roots: self.foundry_roots.keys(),
            abis: self.abis@,
            wake: self.wake,
        }
    }
}

impl Watcher {
    /// The state is well formed.
    pub open spec fn wf(&self) -> bool {
        watcher_wf(self@)
    }

    /// A watcher that watches nothing and knows no record.
    pub fn new() -> (w: Watcher)
        ensures
            w.wf(),
            w@ == (WatcherView {
                roots: Seq::empty(),
                project_roots: Seq::empty(),
                abis: Seq::empty(),
                wake: false,
            }),
    {
        let w = Watcher { roots: Sorted::new(), foundry_roots: Sorted::new(), abis: AbiRepository::new(), wake: false };
        assert(w@.roots =~= Seq::<PathSeq>::empty());
        assert(w@.project_roots =~= Seq::<PathSeq>::empty());
        w
    }

    /// The watch roots.
    pub fn roots(&self) -> (r: &PathSet)
        ensures
            r.keys() == self@.roots,
            self.wf() ==> r.wf(),
    {
        &self.roots
    }

    /// The project roots as last derived.
    pub fn foundry_roots(&self) -> (r: &PathSet)
        ensures
            r.keys() == self@.project_roots,
            self.wf() ==> r.wf(),
    {
        &self.foundry_roots
    }

    /// The repository of records.
    pub fn abis(&self) -> (r: &AbiRepository)
        ensures
            r@ == self@.abis,
    {
        &self.abis
    }

    /// Whether the wake signal is raised.
    pub fn wake_pending(&self) -> (r: bool)
        ensures
            r == self@.wake,
    {
        self.wake
    }

    /// Lowers the wake signal and returns whether it was raised.
    pub fn take_wake(&mut self) -> (r: bool)
        ensures
            r == old(self)@.wake,
            final(self)@ == (WatcherView { wake: false, ..old(self)@ }),
    {
        let r = self.wake;
        self.wake = false;
        r
    }

    /// Handles one event of the loop and says what the loop is to do next.
    /// A tick asks for a new scan. A message is handled by `process_msg`, a
    /// batch of file events by `process_debounced_events`. The wake signal
    /// asks for a reconciliation pass if it is raised, and is lowered.
    /// Every file event of a batch has to name a path.
    pub fn handle_event(&mut self, event: Event) -> (effect: Effect)
        requires
            old(self).wf(),
            event matches Event::Debounced(events) ==> all_name_a_path(events@),
        ensures
            final(self).wf(),
            match event {
                Event::Tick => effect == Effect::Rescan && final(self)@ == old(self)@,
                Event::Message(msg) => process_msg_post(old(self)@, msg, final(self)@, effect),
                Event::Debounced(events) => {
                    &&& effect == Effect::Nothing
                    &&& process_events_post(old(self)@, event_views(events@), final(self)@)
                },
                Event::Wake => {
                    &&& effect == if old(self)@.wake {
                        Effect::Reconcile
                    } else {
                        Effect::Nothing
                    }
                    &&& final(self)@ == (WatcherView { wake: false, ..old(self)@ })
                },
            },
    {
        match event {
            Event::Tick => Effect::Rescan,
            Event::Message(msg) => self.process_msg(msg),
            Event::Debounced(events) => {
                self.process_debounced_events(&events);
                Effect::Nothing
            },
            Event::Wake => {
                if self.take_wake() {
                    Effect::Reconcile
                } else {
                    Effect::Nothing
                }
            },
        }
    }

    /// Handles a message. New roots replace the old ones and ask for a
    /// scan, a poll asks for a scan, and a new contract raises the wake
    /// signal.
    pub fn process_msg(&mut self, msg: Msg) -> (effect: Effect)
        requires
            old(self).wf(),
        ensures
            final(self).wf(),
            process_msg_post(old(self)@, msg, final(self)@, effect),
    {
        match msg {
            Msg::UpdateRoots(roots) => {
                self.update_roots(&roots).effect
            },
            Msg::PollFoundryRoots => Effect::Rescan,
            Msg::NewContract => {
                self.wake = true;
                Effect::Nothing
            },
        }
    }

    /// Replaces the watch roots by `roots` and reports the difference. The
    /// project roots are not touched: the loop scans the new roots and hands
    /// what it finds to `update_foundry_roots`.
    pub fn update_roots(&mut self, roots: &Vec<WatchPath>) -> (diff: RootsDiff)
        requires
            old(self).wf(),
        ensures
            final(self).wf(),
            update_roots_post(old(self)@, keys_of(roots@), final(self)@, diff@),
    {
        let requested = PathSet::from_paths(roots);
        let removed = self.roots.without(&requested);
        let added = requested.without(&self.roots);
        self.roots = requested;
        RootsDiff { removed, added, effect: Effect::Rescan }
    }

    /// Adds one watch root. Returns whether it was new; if so, the project
    /// roots are to be derived anew.
    pub fn add_path(&mut self, path: WatchPath) -> (added: bool)
        requires
            old(self).wf(),
        ensures
            final(self).wf(),
            added == !old(self)@.roots.contains(path@),
            forall|q: PathSeq| final(self)@.roots.contains(q) <==> (old(self)@.roots.contains(q) || q == path@),
            final(self)@.project_roots == old(self)@.project_roots,
            final(self)@.abis == old(self)@.abis,
            final(self)@.wake == old(self)@.wake,
    {
        let (_, present) = self.roots.insert(path);
        !present
    }

    /// Removes one watch root. Returns whether it was one; if so, the
    /// project roots are to be derived anew.
    pub fn remove_path(&mut self, path: &WatchPath) -> (removed: bool)
        requires
            old(self).wf(),
        ensures
            final(self).wf(),
            removed == old(self)@.roots.contains(path@),
            forall|q: PathSeq| final(self)@.roots.contains(q) <==> (old(self)@.roots.contains(q) && q != path@),
            final(self)@.project_roots == old(self)@.project_roots,
            final(self)@.abis == old(self)@.abis,
            final(self)@.wake == old(self)@.wake,
    {
        self.roots.remove(path).is_some()
    }

    /// The patterns to scan the disk with, one for each watch root: the
    /// manifest file at any depth below the root.
    pub fn scan_patterns(&self) -> (patterns: Vec<WatchPath>)
        ensures
            patterns@.len() == self@.roots.len(),
            forall|i: int|
                0 <= i < patterns@.len() ==> (#[trigger] patterns@[i])@ == self@.roots[i].push(
                    seq![42u8, 42u8],
                ).push(manifest_name_spec()),
    {
        let mut patterns: Vec<WatchPath> = Vec::new();
        let mut i: usize = 0;
        while i < self.roots.len()
            invariant
                i <= self.roots.keys().len(),
                patterns@.len() == i,
                forall|j: int|
                    0 <= j < i ==> (#[trigger] patterns@[j])@ == self.roots.keys()[j].push(seq![42u8, 42u8]).push(
                        manifest_name_spec(),
                    ),
            decreases self.roots.keys().len() - i,
        {
            let mut any_depth: Vec<u8> = Vec::new();
            any_depth.push(42u8);
            any_depth.push(42u8);
            assert(any_depth@ =~= seq![42u8, 42u8]);
            let name = manifest_name();
            let pattern = self.roots.path_at(i).join(any_depth.as_slice()).join(name.as_slice());
            patterns.push(pattern);
            i += 1;
        }
        patterns
    }

    /// The project roots that the given manifests give under the watch
    /// roots. See `find_project_roots`.
    pub fn find_foundry_roots(&self, manifests: &Vec<WatchPath>) -> (found: PathSet)
        ensures
            found.wf(),
            forall|q: PathSeq| found.has(q) <==> is_project_root(q, self@.roots, keys_of(manifests@)),
    {
        find_project_roots(&self.roots, manifests)
    }

    /// Takes the manifests that a scan has found, derives the project roots
    /// from them, and reports how these differ from the project roots
    /// before.
    pub fn update_foundry_roots(&mut self, manifests: &Vec<WatchPath>) -> (plan: WatchPlan)
        requires
            old(self).wf(),
        ensures
            final(self).wf(),
            update_foundry_roots_post(old(self)@, keys_of(manifests@), final(self)@, plan@),
    {
        let derived = self.find_foundry_roots(manifests);
        let dropped = self.foundry_roots.without(&derived);
        let found = derived.without(&self.foundry_roots);
        self.foundry_roots = derived;
        WatchPlan { dropped, found }
    }

    /// Notes that the output directory of a project root could not be
    /// registered with the file watcher. The root is taken out of the
    /// project roots, so that the next derivation finds it anew and the
    /// registration is tried again.
    pub fn watch_failed(&mut self, project_root: &WatchPath) -> (was_root: bool)
        requires
            old(self).wf(),
        ensures
            final(self).wf(),
            watch_failed_post(old(self)@, project_root@, final(self)@),
            was_root == old(self)@.project_roots.contains(project_root@),
    {
        self.foundry_roots.remove(project_root).is_some()
    }

    /// The path that a file event is about: its first one. An event that
    /// names no path is about none.
    pub fn subject(paths: &Vec<WatchPath>) -> (p: Option<&WatchPath>)
        ensures
            match p {
                Some(path) => paths@.len() > 0 && *path == paths@[0],
                None => paths@.len() == 0,
            },
    {
        if paths.len() == 0 {
            None
        } else {
            Some(&paths[0])
        }
    }

    /// Handles a batch of file events, one after the other. Every event has
    /// to name a path: an event without one is about no file.
    pub fn process_debounced_events(&mut self, events: &Vec<FileEvent>)
        requires
            old(self).wf(),
            all_name_a_path(events@),
        ensures
            final(self).wf(),
            process_events_post(old(self)@, event_views(events@), final(self)@),
    {
        let ghost views = event_views(events@);
        let mut i: usize = 0;
        while i < events.len()
            invariant
                i <= events.len(),
                views == event_views(events@),
                all_name_a_path(events@),
                self.wf(),
                self@.roots == old(self)@.roots,
                self@.project_roots == old(self)@.project_roots,
                (self@.abis, self@.wake) == apply_file_events(
                    old(self)@.abis,
                    old(self)@.wake,
                    views.subrange(0, i as int),
                ),
            decreases events.len() - i,
        {
            let ghost before = self@;
            let event = &events[i];
            proof {
                assert(views.subrange(0, i + 1).drop_last() =~= views.subrange(0, i as int));
                assert(views.subrange(0, i + 1).last() == event@);
            }
            let path = &event.paths[0];
            let decoded = match &event.decoded {
                Some(file) => Some(ArtifactFile { abi: file.abi.clone(), code: copy_bytes(&file.code) }),
                None => None,
            };
            assert(event@.paths[0] == path@);
            match classify(path.duplicate(), decoded) {
                Change::Upsert(record) => {
                    self.insert_abi(record);
                },
                Change::Remove(gone) => {
                    self.remove_abi(&gone);
                },
            }
            i += 1;
        }
        assert(views.subrange(0, events@.len() as int) =~= views);
    }

    /// Files a record in the repository and raises the wake signal.
    pub fn insert_abi(&mut self, abi: AbiRecord)
        requires
            old(self).wf(),
        ensures
            final(self).wf(),
            final(self)@ == (WatcherView { abis: filed(old(self)@.abis, abi@), wake: true, ..old(self)@ }),
    {
        self.abis.insert(abi);
        self.wake = true;
    }

    /// Takes the record filed under `path` out of the repository, if there
    /// is one. The wake signal is raised if there was one.
    pub fn remove_abi(&mut self, path: &WatchPath)
        requires
            old(self).wf(),
        ensures
            final(self).wf(),
            final(self)@ == (WatcherView {
                abis: unfiled(old(self)@.abis, path@),
                wake: old(self)@.wake || lookup_in(old(self)@.abis, path@) is Some,
                ..old(self)@
            }),
    {
        if self.abis.remove(path) {
            self.wake = true;
        }
    }

    /// The first record, in the order of the paths, whose bytecode matches
    /// `code`.
    pub fn get_abi_for(&self, code: &[u8]) -> (r: Option<AbiRecord>)
        ensures
            match r {
                Some(record) => best_match(self@.abis, code@) == Some(record@),
                None => best_match(self@.abis, code@) is None,
            },
    {
        self.abis.find_best_match(code)
    }

    /// Starts a reconciliation pass over the contracts that the store lists
    /// as incomplete. The loop drives the pass: it fetches what
    /// `Reconciler::next_step` asks for, takes the matches from
    /// `Reconciler::matches` with the repository of this watcher, and
    /// writes them with a `PersistPass`.
    pub fn update_incomplete_contracts(&self, contracts: Vec<IncompleteContract>) -> (pass: Reconciler)
        ensures
            pass.wf(),
            pass@ == pass_start(Reconciler::contract_views(contracts@)),
    {
        Reconciler::new(contracts)
    }
}

/// What `watch_failed` does: the project root is one no more, and nothing
/// else changes.
pub open spec fn watch_failed_post(before: WatcherView, project_root: PathSeq, after: WatcherView) -> bool {
    &&& strictly_sorted(after.project_roots)
    &&& forall|q: PathSeq|
        after.project_roots.contains(q) <==> (before.project_roots.contains(q) && q != project_root)
    &&& after.roots == before.roots
    &&& after.abis == before.abis
    &&& after.wake == before.wake
}

/// A registration that failed is tried again. When the output directory of
/// a project root could not be watched and `watch_failed` was told, the
/// next derivation reports that root as found again, as long as its
/// manifest is still there.
pub proof fn lemma_failed_watch_is_retried(
    derived: WatcherView,
    project_root: PathSeq,
    noted: WatcherView,
    manifests: Seq<PathSeq>,
    next: WatcherView,
    plan: WatchPlanView,
)
    requires
        watch_failed_post(derived, project_root, noted),
        update_foundry_roots_post(noted, manifests, next, plan),
        is_project_root(project_root, derived.roots, manifests),
    ensures
        plan.found.contains(project_root),
        next.project_roots.contains(project_root),
{
}

/// What `process_msg` does.
pub open spec fn process_msg_post(before: WatcherView, msg: Msg, after: WatcherView, effect: Effect) -> bool {
    match msg {
        Msg::UpdateRoots(roots) => {
            &&& effect == Effect::Rescan
            &&& strictly_sorted(after.roots)
            &&& same_members(after.roots, keys_of(roots@))
            &&& after.project_roots == before.project_roots
            &&& after.abis == before.abis
            &&& after.wake == before.wake
        },
        Msg::PollFoundryRoots => effect == Effect::Rescan && after == before,
        Msg::NewContract => effect == Effect::Nothing && after == (WatcherView { wake: true, ..before }),
    }
}

/// What `process_debounced_events` does.
pub open spec fn process_events_post(before: WatcherView, events: Seq<FileEventView>, after: WatcherView) -> bool {
    &&& after.roots == before.roots
    &&& after.project_roots == before.project_roots
    &&& (after.abis, after.wake) == apply_file_events(before.abis, before.wake, events)
}

} // verus!
