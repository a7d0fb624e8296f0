//! The records of compiled contracts that the watcher has found, filed by
//! the path of the artifact they came from.

use vstd::prelude::*;
use crate::matching::{fuzzy_match, is_fuzzy_match};
use crate::path::{copy_bytes, PathSeq, WatchPath};
use crate::sorted::{lemma_index_of_sorted, lemma_insert_at_slot, lemma_remove_at, lemma_slot_decides_membership, lemma_slot_exists, lemma_slot_unique, lemma_sorted_unique, slot_of, strictly_sorted, Keyed, Sorted};

verus! {

/// One compiled contract, as read from an artifact file.
#[derive(Debug, Clone, PartialEq, Eq)]
pub struct AbiRecord {
    /// Where the artifact lies. No two records share a path.
    pub path: WatchPath,
    /// The contract's name.
    pub name: String,
    /// The contract's interface, as JSON text.
    pub abi: String,
    /// The compiled bytecode.
    pub code: Vec<u8>,
}

/// What a record holds.
pub struct AbiRecordView {
    pub path: PathSeq,
    pub name: Seq<char>,
    pub abi: Seq<char>,
    pub code: Seq<u8>,
}

impl View for AbiRecord {
    type V = AbiRecordView;

    open spec fn view(&self) -> AbiRecordView {
        AbiRecordView { path: self.path@, name: self.name@, abi: self.abi@, code: self.code@ }
    }
}

impl Keyed for AbiRecord {
    open spec fn key(&self) -> PathSeq {
        self.path@
    }

    fn path(&self) -> (p: &WatchPath) {
        &self.path
    }
}

impl AbiRecord {
    /// A copy of this record.
    pub fn duplicate(&self) -> (r: AbiRecord)
        ensures
            r@ == self@,
    {
        AbiRecord {
            path: self.path.duplicate(),
            name: self.name.clone(),
            abi: self.abi.clone(),
            code: copy_bytes(&self.code),
        }
    }
}

/// What each of the records holds, in the same order.
pub open spec fn views_of(records: Seq<AbiRecord>) -> Seq<AbiRecordView> {
    Seq::new(records.len(), |i: int| records[i]@)
}

/// The paths of the records, in the same order.
pub open spec fn record_paths(records: Seq<AbiRecordView>) -> Seq<PathSeq> {
    Seq::new(records.len(), |i: int| records[i].path)
}

/// The records stand in strictly rising order of their paths, so that no
/// path is filed twice.
pub open spec fn in_path_order(records: Seq<AbiRecordView>) -> bool {
    strictly_sorted(record_paths(records))
}

/// The record filed under `p`, if there is one.
pub open spec fn lookup_in(records: Seq<AbiRecordView>, p: PathSeq) -> Option<AbiRecordView> {
    let paths = record_paths(records);
    if paths.contains(p) {
        Some(records[paths.index_of(p)])
    } else {
        None
    }
}

/// The records after `record` has been filed: in place of the record with
/// the same path where there is one, else at the place that its path gives it.
pub open spec fn filed(records: Seq<AbiRecordView>, record: AbiRecordView) -> Seq<AbiRecordView> {
    let paths = record_paths(records);
    let idx = slot_of(paths, record.path);
    if paths.contains(record.path) {
        records.update(idx, record)
    } else {
        records.insert(idx, record)
    }
}

/// The records after the one filed under `p`, if any, has been taken out.
pub open spec fn unfiled(records: Seq<AbiRecordView>, p: PathSeq) -> Seq<AbiRecordView> {
    let paths = record_paths(records);
    if paths.contains(p) {
        records.remove(paths.index_of(p))
    } else {
        records
    }
}

/// Filing keeps the order, makes the record the one found under its path,
/// and leaves what is found under every other path as it was. The number of
/// records grows by one if the path is new, else it stays.
pub proof fn lemma_filed(records: Seq<AbiRecordView>, record: AbiRecordView)
    requires
        in_path_order(records),
    ensures
        in_path_order(filed(records, record)),
        forall|q: PathSeq|
            lookup_in(filed(records, record), q) == if q == record.path {
                Some(record)
            } else {
                lookup_in(records, q)
            },
        filed(records, record).len() == if lookup_in(records, record.path) is Some {
            records.len()
        } else {
            records.len() + 1
        },
{
    let keys = record_paths(records);
    let after = filed(records, record);
    let keys_after = record_paths(after);
    lemma_slot_exists(keys, record.path);
    let idx = slot_of(keys, record.path);
    lemma_slot_decides_membership(keys, record.path, idx);
    if keys.contains(record.path) {
        assert(keys_after =~= keys);
        lemma_index_of_sorted(keys, idx);
        assert forall|q: PathSeq|
            lookup_in(after, q) == if q == record.path {
                Some(record)
            } else {
                lookup_in(records, q)
            } by {
            if q != record.path && keys.contains(q) {
                assert(keys.index_of(q) != idx);
            }
        }
    } else {
        assert(keys_after =~= keys.insert(idx, record.path));
        lemma_insert_at_slot(keys, record.path, idx);
        assert forall|q: PathSeq|
            lookup_in(after, q) == if q == record.path {
                Some(record)
            } else {
                lookup_in(records, q)
            } by {
            if q == record.path {
                assert(keys_after[idx] == q);
                lemma_index_of_sorted(keys_after, idx);
            } else if keys.contains(q) {
                let i = keys.index_of(q);
                let j = if i < idx {
                    i
                } else {
                    i + 1
                };
                assert(keys_after[j] == q);
                lemma_index_of_sorted(keys_after, j);
            }
        }
    }
}

/// Taking a path out keeps the order, leaves nothing to be found under that
/// path, and leaves what is found under every other path as it was.
pub proof fn lemma_unfiled(records: Seq<AbiRecordView>, p: PathSeq)
    requires
        in_path_order(records),
    ensures
        in_path_order(unfiled(records, p)),
        forall|q: PathSeq|
            lookup_in(unfiled(records, p), q) == if q == p {
                None
            } else {
                lookup_in(records, q)
            },
{
    let keys = record_paths(records);
    if keys.contains(p) {
        let idx = keys.index_of(p);
        let after = unfiled(records, p);
        let keys_after = record_paths(after);
        assert(keys_after =~= keys.remove(idx));
        lemma_remove_at(keys, idx);
        assert forall|q: PathSeq|
            lookup_in(after, q) == if q == p {
                None
            } else {
                lookup_in(records, q)
            } by {
            if q != p && keys.contains(q) {
                let i = keys.index_of(q);
                let j = if i < idx {
                    i
                } else {
                    i - 1
                };
                assert(keys_after[j] == q);
                lemma_index_of_sorted(keys_after, j);
            }
        }
    }
}

/// Records in path order are fixed by what is found under each path.
pub proof fn lemma_records_unique(a: Seq<AbiRecordView>, b: Seq<AbiRecordView>)
    requires
        in_path_order(a),
        in_path_order(b),
        forall|q: PathSeq| lookup_in(a, q) == lookup_in(b, q),
    ensures
        a == b,
{
    let ka = record_paths(a);
    let kb = record_paths(b);
    assert forall|q: PathSeq| ka.contains(q) <==> kb.contains(q) by {
        assert(lookup_in(a, q) == lookup_in(b, q));
    }
    lemma_sorted_unique(ka, kb);
    assert forall|i: int| 0 <= i < a.len() implies a[i] == b[i] by {
        lemma_index_of_sorted(ka, i);
        assert(ka[i] == a[i].path);
        assert(lookup_in(a, ka[i]) == lookup_in(b, ka[i]));
    }
    assert(a =~= b);
}

/// An artifact that is found is filed under its path. When it is then found
/// unreadable or gone, nothing is filed under that path any more. When it
/// comes back, the new record stands where an older one with that path
/// stood: filing twice under one path leaves one record, the later one.
pub proof fn lemma_file_unfile_refile(records: Seq<AbiRecordView>, first: AbiRecordView, second: AbiRecordView)
    requires
        in_path_order(records),
        first.path == second.path,
    ensures
        lookup_in(filed(records, first), first.path) == Some(first),
        lookup_in(unfiled(filed(records, first), first.path), first.path) is None,
        lookup_in(records, first.path) is None ==> unfiled(filed(records, first), first.path) == records,
        filed(filed(records, first), second) == filed(records, second),
        filed(filed(records, first), second).len() == filed(records, first).len(),
        filed(unfiled(filed(records, first), first.path), second) == filed(records, second),
{
    lemma_filed(records, first);
    lemma_filed(records, second);
    let once = filed(records, first);
    lemma_filed(once, second);
    lemma_unfiled(once, first.path);
    let gone = unfiled(once, first.path);
    lemma_filed(gone, second);
    lemma_records_unique(filed(once, second), filed(records, second));
    lemma_records_unique(filed(gone, second), filed(records, second));
    if lookup_in(records, first.path) is None {
        lemma_records_unique(gone, records);
    }
}

/// The first position from `from` on whose record matches `code`.
pub open spec fn first_match_from(records: Seq<AbiRecordView>, code: Seq<u8>, from: int) -> Option<int>
    decreases records.len() - from,
{
    if from < 0 || from >= records.len() {
        None
    } else if fuzzy_match(records[from].code, code) {
        Some(from)
    } else {
        first_match_from(records, code, from + 1)
    }
}

/// The first record, in the given order, whose bytecode matches `code`.
pub open spec fn best_match(records: Seq<AbiRecordView>, code: Seq<u8>) -> Option<AbiRecordView> {
    match first_match_from(records, code, 0) {
        Some(i) => Some(records[i]),
        None => None,
    }
}

/// What `first_match_from` finds is a match with none before it, and it
/// finds one whenever there is one.
pub proof fn lemma_first_match_from(records: Seq<AbiRecordView>, code: Seq<u8>, from: int)
    requires
        0 <= from,
    ensures
        match first_match_from(records, code, from) {
            Some(i) => {
                &&& from <= i < records.len()
                &&& fuzzy_match(records[i].code, code)
                &&& forall|j: int| from <= j < i ==> !fuzzy_match(#[trigger] records[j].code, code)
            },
            None => forall|j: int| from <= j < records.len() ==> !fuzzy_match(#[trigger] records[j].code, code),
        },
    decreases records.len() - from,
{
    if from < records.len() && !fuzzy_match(records[from].code, code) {
        lemma_first_match_from(records, code, from + 1);
    }
}

/// The best match is a record that matches and has no matching record
/// before it; there is none exactly when no record matches.
pub proof fn lemma_best_match_is_first(records: Seq<AbiRecordView>, code: Seq<u8>)
    ensures
        match best_match(records, code) {
            Some(r) => exists|i: int|
                {
                    &&& 0 <= i < records.len()
                    &&& #[trigger] records[i] == r
                    &&& fuzzy_match(r.code, code)
                    &&& forall|j: int| 0 <= j < i ==> !fuzzy_match(#[trigger] records[j].code, code)
                },
            None => forall|j: int| 0 <= j < records.len() ==> !fuzzy_match(#[trigger] records[j].code, code),
        },
{
    lemma_first_match_from(records, code, 0);
}

/// The records of all artifacts that are known, in the order of their paths.
#[derive(Debug, Clone, PartialEq, Eq)]
pub struct AbiRepository {
    records: Sorted<AbiRecord>,
}

impl View for AbiRepository {
    type V = Seq<AbiRecordView>;

    /// What the records hold, in the order of their paths.
    closed spec fn view(&self) -> Seq<AbiRecordView> {
        views_of(self.records.items())
    }
}

impl AbiRepository {
    /// The records stand in strictly rising order of their paths.
    pub open spec fn wf(&self) -> bool {
        in_path_order(self@)
    }

    proof fn lemma_keys(&self)
        ensures
            record_paths(self@) == self.records.keys(),
    {
        assert(record_paths(self@) =~= self.records.keys());
    }

    /// A repository without records.
    pub fn new() -> (r: AbiRepository)
        ensures
            r.wf(),
            r@ == Seq::<AbiRecordView>::empty(),
    {
        let r = AbiRepository { records: Sorted::new() };
        assert(r@ =~= Seq::<AbiRecordView>::empty());
        r
    }

    /// The number of records.
    pub fn len(&self) -> (n: usize)
        ensures
            n == self@.len(),
    {
        self.records.len()
    }

    /// The record at position `i` in path order.
    pub fn get(&self, i: usize) -> (r: &AbiRecord)
        requires
            i < self@.len(),
        ensures
            r@ == self@[i as int],
    {
        self.records.get(i)
    }

    /// The record filed under `path`, if there is one.
    pub fn find(&self, path: &WatchPath) -> (r: Option<&AbiRecord>)
        requires
            self.wf(),
        ensures
            match r {
                Some(record) => lookup_in(self@, path@) == Some(record@),
                None => lookup_in(self@, path@) is None,
            },
    {
        proof {
            self.lemma_keys();
        }
        let (idx, found) = self.records.position(path);
        if found {
            proof {
                lemma_index_of_sorted(record_paths(self@), idx as int);
            }
            Some(self.records.get(idx))
        } else {
            None
        }
    }

    /// Files `record` under its path, in place of the record that was filed
    /// there, if there was one. Returns whether one was replaced.
    pub fn insert(&mut self, record: AbiRecord) -> (replaced: bool)
        requires
            old(self).wf(),
        ensures
            final(self).wf(),
            final(self)@ == filed(old(self)@, record@),
            replaced == lookup_in(old(self)@, record.path@) is Some,
    {
        let ghost before = *self;
        let ghost view = record@;
        proof {
            before.lemma_keys();
            lemma_filed(before@, view);
        }
        let (idx, replaced) = self.records.insert(record);
        proof {
            lemma_slot_unique(record_paths(before@), view.path, idx as int);
            if replaced {
                assert(self@ =~= before@.update(idx as int, view));
            } else {
                assert(self@ =~= before@.insert(idx as int, view));
            }
        }
        replaced
    }

    /// Takes out the record filed under `path`, if there is one. Returns
    /// whether there was one.
    pub fn remove(&mut self, path: &WatchPath) -> (removed: bool)
        requires
            old(self).wf(),
        ensures
            final(self).wf(),
            final(self)@ == unfiled(old(self)@, path@),
            removed == lookup_in(old(self)@, path@) is Some,
    {
        let ghost before = *self;
        proof {
            before.lemma_keys();
            lemma_unfiled(before@, path@);
        }
        let taken = self.records.remove(path);
        proof {
            if taken is Some {
                let idx = record_paths(before@).index_of(path@);
                assert(self@ =~= before@.remove(idx));
            }
        }
        taken.is_some()
    }

    /// The first record in path order whose bytecode matches `code`. Where
    /// several records match, the one with the least path is returned,
    /// whatever their scores.
    pub fn find_best_match(&self, code: &[u8]) -> (r: Option<AbiRecord>)
        ensures
            match r {
                Some(record) => best_match(self@, code@) == Some(record@),
                None => best_match(self@, code@) is None,
            },
    {
        let mut i: usize = 0;
        while i < self.records.len()
            invariant
                i <= self@.len(),
                first_match_from(self@, code@, 0) == first_match_from(self@, code@, i as int),
            decreases self@.len() - i,
        {
            let record = self.records.get(i);
            if is_fuzzy_match(record.code.as_slice(), code) {
                return Some(record.duplicate());
            }
            i += 1;
        }
        None
    }
}

} // verus!
