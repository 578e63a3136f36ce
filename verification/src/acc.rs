//! The accumulator: the in-memory deduplicating front of one ingestion
//! epoch.

use vstd::prelude::*;

use crate::dir::Dir;
use crate::error::rill_error;
use crate::kv::rill_kv;
use crate::pairs::compacted;
use crate::store::install_sorted;
use crate::table::initial_slot_count;
use crate::table::AssocTable;

verus! {

/// One ingestion epoch's in-memory state: a seeded hash set that absorbs
/// `(key, val)` observations, deduplicating them in O(1) amortized time
/// with no blocking I/O on the hot path. A rotation drains it into a sealed
/// bucket; closing it without rotating discards its contents.
pub struct Acc {
    table: AssocTable,
}

impl Acc {
    /// The set of distinct records ingested in the current epoch.
    pub closed spec fn contents(&self) -> Set<rill_kv> {
        self.table.contents()
    }

    /// The accumulator's table is well formed.
    pub closed spec fn wf(&self) -> bool {
        self.table.wf()
    }

    /// How many backing slots the table holds.
    pub closed spec fn spec_slot_count(&self) -> nat {
        self.table.spec_slot_count()
    }

    /// Opens a fresh accumulator epoch sized by `cap`, hashing with `seed`.
    pub fn new(cap: usize, seed: u64) -> (a: Acc)
        ensures
            a.wf(),
            a.contents() == Set::<rill_kv>::empty(),
            a.spec_slot_count() == initial_slot_count(cap),
            a.spec_slot_count() <= usize::MAX / 2,
    {
        Acc { table: AssocTable::new(cap, seed) }
    }

    /// Records one observation; duplicates within the epoch are absorbed.
    /// Fails only when the table's doubled slot count cannot be
    /// represented, surfaced as `AllocationError` with the epoch unchanged.
    pub fn ingest(&mut self, key: u64, val: u64) -> (r: Result<(), rill_error>)
        requires
            old(self).wf(),
        ensures
            final(self).wf(),
            r is Ok ==> final(self).contents() == old(self).contents().insert(
                rill_kv { key, val },
            ),
            r is Err ==> r == Err::<(), rill_error>(rill_error::AllocationError) && *final(self)
                == *old(self),
            old(self).spec_slot_count() <= usize::MAX / 2 ==> r is Ok,
            final(self).spec_slot_count() == old(self).spec_slot_count() || final(self).spec_slot_count() == 2 * old(self).spec_slot_count(),
    {
        match self.table.insert(key, val) {
            Ok(_) => Ok(()),
            Err(e) => Err(e),
        }
    }

    /// Snapshots the epoch's records into a new bucket file named `name`
    /// with timestamp `ts` and a unit quantum, without ending the epoch.
    /// `WriteError`, with the directory untouched, if the name is taken.
    pub fn write(&self, dir: &mut Dir, name: u64, ts: u64) -> (r: Result<(), rill_error>)
        requires
            self.wf(),
            old(dir).wf(),
        ensures
            final(dir).wf(),
            final(dir).temp_spec() is None,
            r is Ok <==> !old(dir).has_name(name),
            r is Ok ==> final(dir).files_seq().len() == old(dir).files_seq().len() + 1
                && final(dir).files_seq().drop_last() == old(dir).files_seq() && {
                let s = final(dir).files_seq().last();
                &&& s.spec_name() == name
                &&& s.spec_ts() == ts
                &&& s.spec_quant() == 0
                &&& s.wf()
                &&& s@.to_set() == self.contents()
            },
            r is Err ==> r == Err::<(), rill_error>(rill_error::WriteError)
                && final(dir).files_seq() == old(dir).files_seq(),
    {
        let v = self.table.to_vec();
        let recs = compacted(&v);
        install_sorted(dir, name, ts, 0, &recs)
    }

    /// The epoch's distinct records, as a vector without duplicates.
    pub(crate) fn snapshot(&self) -> (v: Vec<rill_kv>)
        requires
            self.wf(),
        ensures
            v@.no_duplicates(),
            v@.to_set() == self.contents(),
    {
        self.table.to_vec()
    }

    /// Starts a fresh, empty epoch over the same table storage.
    pub(crate) fn reset(&mut self)
        requires
            old(self).wf(),
        ensures
            final(self).wf(),
            final(self).contents() == Set::<rill_kv>::empty(),
    {
        self.table.clear();
    }
}

} // verus!
