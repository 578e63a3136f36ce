//! The directory: a namespace of immutable bucket files, written through a
//! crash-safe temporary-then-rename protocol.

use vstd::prelude::*;

use crate::error::rill_error;
use crate::kv::rill_kv;
use crate::kv::strictly_sorted;
use crate::store::Store;

verus! {

/// The persistent collection of sealed bucket files for one dataset, each
/// identified by a numeric file name, together with at most one in-progress
/// temporary file. Sealed files are immutable: the namespace only ever gains
/// a whole new file through [`Dir::commit`] or loses one whole file; no
/// sealed file is mutated in place, so a write that stops partway — a
/// simulated crash, by [`Dir::abort`] — leaves every sealed file, and the
/// set of sealed files, exactly as it was.
pub struct Dir {
    files: Vec<Store>,
    temp: Option<Store>,
}

impl Dir {
    /// The sealed bucket files, in the order they were committed.
    pub closed spec fn files_seq(&self) -> Seq<Store> {
        self.files@
    }

    /// The in-progress temporary file, if a write is under way.
    pub closed spec fn temp_spec(&self) -> Option<Store> {
        self.temp
    }

    /// File names are unique and every sealed file is sorted and
    /// deduplicated.
    pub open spec fn wf(&self) -> bool {
        &&& forall|i: int, j: int|
            0 <= i < j < self.files_seq().len() ==> self.files_seq()[i].spec_name()
                != self.files_seq()[j].spec_name()
        &&& forall|i: int|
            0 <= i < self.files_seq().len() ==> (#[trigger] self.files_seq()[i]).wf()
    }

    /// Whether a sealed file of this name exists.
    pub open spec fn has_name(&self, name: u64) -> bool {
        exists|i: int|
            0 <= i < self.files_seq().len() && self.files_seq()[i].spec_name() == name
    }

    /// An empty directory.
    pub fn new() -> (d: Dir)
        ensures
            d.wf(),
            d.files_seq() == Seq::<Store>::empty(),
            d.temp_spec() is None,
    {
        Dir { files: Vec::new(), temp: None }
    }

    /// How many sealed files the directory holds.
    pub fn file_count(&self) -> (n: usize)
        ensures
            n == self.files_seq().len(),
    {
        self.files.len()
    }

    /// The names of the sealed files, in the order they were committed.
    pub fn names(&self) -> (v: Vec<u64>)
        ensures
            v@.len() == self.files_seq().len(),
            forall|i: int| 0 <= i < v@.len() ==> v@[i] == self.files_seq()[i].spec_name(),
    {
        let n = self.files.len();
        let mut v: Vec<u64> = Vec::new();
        for i in 0..n
            invariant
                n == self.files_seq().len(),
                v@.len() == i,
                forall|k: int| 0 <= k < i ==> v@[k] == self.files_seq()[k].spec_name(),
        {
            v.push(self.files[i].name());
        }
        v
    }

    /// The sealed file at position `i`.
    pub(crate) fn file_ref(&self, i: usize) -> (s: &Store)
        requires
            i < self.files_seq().len(),
        ensures
            *s == self.files_seq()[i as int],
    {
        &self.files[i]
    }

    /// The position of the sealed file of this name.
    pub(crate) fn find(&self, name: u64) -> (r: Option<usize>)
        ensures
            match r {
                Some(i) => i < self.files_seq().len() && self.files_seq()[i as int].spec_name()
                    == name,
                None => !self.has_name(name),
            },
    {
        let n = self.files.len();
        for i in 0..n
            invariant
                n == self.files_seq().len(),
                forall|k: int| 0 <= k < i ==> self.files_seq()[k].spec_name() != name,
        {
            if self.files[i].name() == name {
                return Some(i);
            }
        }
        None
    }

    /// Opens a temporary file for the coming bucket, discarding any earlier
    /// unfinished one. The sealed files are untouched.
    pub fn begin(&mut self, name: u64, ts: u64, quant: u64)
        ensures
            final(self).files_seq() == old(self).files_seq(),
            (final(self).temp_spec() matches Some(t) && t.spec_name() == name && t.spec_ts() == ts
                && t.spec_quant() == quant && t@ == Seq::<rill_kv>::empty()),
            old(self).wf() ==> final(self).wf(),
    {
        self.temp = Some(Store::empty_store(name, ts, quant));
    }

    /// Appends one record to the temporary file. The sealed files are
    /// untouched; without an open temporary file the call fails with
    /// `WriteError`.
    pub fn append(&mut self, key: u64, val: u64) -> (r: Result<(), rill_error>)
        ensures
            final(self).files_seq() == old(self).files_seq(),
            old(self).wf() ==> final(self).wf(),
            r is Ok <==> old(self).temp_spec() is Some,
            r is Ok ==> (final(self).temp_spec() matches Some(t) && {
                let t0 = old(self).temp_spec()->0;
                t.spec_name() == t0.spec_name() && t.spec_ts() == t0.spec_ts() && t.spec_quant()
                    == t0.spec_quant() && t@ == t0@.push(rill_kv { key, val })
            }),
            r is Err ==> r == Err::<(), rill_error>(rill_error::WriteError) && *final(self) == *old(
                self,
            ),
    {
        match &mut self.temp {
            Some(t) => {
                t.push_rec(rill_kv { key, val });
                Ok(())
            },
            None => Err(rill_error::WriteError),
        }
    }

    /// Drops the temporary file, as a failed or crashed write would: no
    /// sealed file, and no partial file, is visible afterwards.
    pub fn abort(&mut self)
        ensures
            final(self).files_seq() == old(self).files_seq(),
            final(self).temp_spec() is None,
            old(self).wf() ==> final(self).wf(),
    {
        self.temp = None;
    }

    /// Atomically renames the temporary file into the namespace, after
    /// validating the on-disk invariant. The whole file appears, or — when
    /// no write was begun, its records are not strictly sorted, or the name
    /// is already taken — nothing does, with `WriteError`; either way the
    /// temporary file is gone.
    pub fn commit(&mut self) -> (r: Result<(), rill_error>)
        requires
            old(self).wf(),
        ensures
            final(self).wf(),
            final(self).temp_spec() is None,
            r is Ok <==> (old(self).temp_spec() matches Some(t) && strictly_sorted(t@)
                && !old(self).has_name(t.spec_name())),
            r is Ok ==> final(self).files_seq() == old(self).files_seq().push(
                old(self).temp_spec()->0,
            ),
            r is Err ==> r == Err::<(), rill_error>(rill_error::WriteError)
                && final(self).files_seq() == old(self).files_seq(),
    {
        let t = self.temp.take();
        proof {
            assert(self.files_seq() == old(self).files_seq());
            assert(self.wf());
        }
        match t {
            None => Err(rill_error::WriteError),
            Some(t) => {
                if !t.check_sorted() {
                    return Err(rill_error::WriteError);
                }
                match self.find(t.name()) {
                    Some(_) => Err(rill_error::WriteError),
                    None => {
                        self.files.push(t);
                        Ok(())
                    },
                }
            },
        }
    }

    /// Deletes the sealed file of this name; `NotFoundError` if none
    /// exists, in which case the namespace is unchanged.
    pub(crate) fn remove(&mut self, name: u64) -> (r: Result<(), rill_error>)
        requires
            old(self).wf(),
        ensures
            final(self).wf(),
            final(self).temp_spec() == old(self).temp_spec(),
            r is Ok <==> old(self).has_name(name),
            r is Ok ==> exists|i: int|
                0 <= i < old(self).files_seq().len() && old(self).files_seq()[i].spec_name()
                    == name && final(self).files_seq() == old(self).files_seq().remove(i),
            r is Err ==> r == Err::<(), rill_error>(rill_error::NotFoundError) && *final(self)
                == *old(self),
    {
        match self.find(name) {
            None => Err(rill_error::NotFoundError),
            Some(i) => {
                let ghost pre = self.files@;
                proof {
                    assert forall|a: int| 0 <= a < pre.len() implies (#[trigger] pre[a]).wf() by {
                        assert(self.files_seq()[a].wf());
                    }
                    assert forall|a: int, b: int|
                        0 <= a < b < pre.len() implies pre[a].spec_name()
                        != pre[b].spec_name() by {
                        assert(self.files_seq()[a].spec_name() != self.files_seq()[b].spec_name());
                    }
                }
                self.files.remove(i);
                proof {
                    pre.remove_ensures(i as int);
                    assert forall|a: int, b: int|
                        0 <= a < b < self.files_seq().len() implies self.files_seq()[a].spec_name()
                        != self.files_seq()[b].spec_name() by {
                        let a0 = if a < i { a } else { a + 1 };
                        let b0 = if b < i { b } else { b + 1 };
                        assert(self.files_seq()[a] == pre[a0] && self.files_seq()[b] == pre[b0]);
                    }
                    assert forall|a: int|
                        0 <= a < self.files_seq().len() implies (#[trigger] self.files_seq()[a]).wf() by {
                        let a0 = if a < i { a } else { a + 1 };
                        assert(self.files_seq()[a] == pre[a0]);
                    }
                }
                Ok(())
            },
        }
    }
}

/// Holds of buckets older than the cutoff: candidates for compaction.
pub open spec fn stale_pred(cutoff: u64) -> spec_fn(Store) -> bool {
    |s: Store| s.spec_ts() < cutoff
}

/// Holds of buckets at or past the cutoff: kept as they are.
pub open spec fn recent_pred(cutoff: u64) -> spec_fn(Store) -> bool {
    |s: Store| s.spec_ts() >= cutoff
}

/// Holds of buckets that survive a compaction: recent ones and the merged
/// bucket itself.
pub open spec fn kept_pred(cutoff: u64, keep: u64) -> spec_fn(Store) -> bool {
    |s: Store| s.spec_ts() >= cutoff || s.spec_name() == keep
}

/// Filtering one more bucket keeps it exactly when the predicate holds.
pub(crate) proof fn lemma_filter_step(ss: Seq<Store>, pred: spec_fn(Store) -> bool, j: int)
    requires
        0 <= j < ss.len(),
    ensures
        pred(ss[j]) ==> ss.take(j + 1).filter(pred) == ss.take(j).filter(pred).push(ss[j]),
        !pred(ss[j]) ==> ss.take(j + 1).filter(pred) == ss.take(j).filter(pred),
{
    reveal(Seq::filter);
    assert(ss.take(j + 1).drop_last() =~= ss.take(j));
    assert(ss.take(j + 1).last() == ss[j]);
}

/// Filtering a sequence extended by one bucket keeps it exactly when the
/// predicate holds.
pub(crate) proof fn lemma_filter_push(ss: Seq<Store>, pred: spec_fn(Store) -> bool, s: Store)
    ensures
        pred(s) ==> (ss.push(s)).filter(pred) == ss.filter(pred).push(s),
        !pred(s) ==> (ss.push(s)).filter(pred) == ss.filter(pred),
{
    reveal(Seq::filter);
    assert(ss.push(s).drop_last() =~= ss);
    assert(ss.push(s).last() == s);
}

/// Two predicates that agree on every bucket of a sequence filter it alike.
pub(crate) proof fn lemma_filter_agree(
    ss: Seq<Store>,
    p1: spec_fn(Store) -> bool,
    p2: spec_fn(Store) -> bool,
)
    requires
        forall|i: int| 0 <= i < ss.len() ==> p1(#[trigger] ss[i]) == p2(ss[i]),
    ensures
        ss.filter(p1) == ss.filter(p2),
    decreases ss.len(),
{
    reveal(Seq::filter);
    if ss.len() > 0 {
        assert(forall|i: int|
            0 <= i < ss.drop_last().len() ==> p1(#[trigger] ss.drop_last()[i]) == p2(
                ss.drop_last()[i],
            ));
        lemma_filter_agree(ss.drop_last(), p1, p2);
        assert(p1(ss.last()) == p2(ss.last()));
    }
}

impl Dir {
    /// Deletes every sealed file older than `cutoff`, sparing the file
    /// named `keep`: the removal step of a compaction, run after the merged
    /// bucket is durably in place.
    pub(crate) fn retain_recent(&mut self, cutoff: u64, keep: u64)
        requires
            old(self).wf(),
        ensures
            final(self).wf(),
            final(self).temp_spec() == old(self).temp_spec(),
            final(self).files_seq() == old(self).files_seq().filter(kept_pred(cutoff, keep)),
    {
        let ghost orig = self.files@;
        proof {
            reveal(Seq::filter);
            assert(orig.take(0).filter(kept_pred(cutoff, keep)) =~= Seq::<Store>::empty());
            assert(self.files@.take(0) =~= Seq::<Store>::empty());
            assert(self.files@.skip(0) =~= orig.skip(0));
        }
        let mut i: usize = 0;
        let ghost mut j: int = 0;
        while i < self.files.len()
            invariant
                self.temp == old(self).temp,
                i <= self.files@.len(),
                0 <= j <= orig.len(),
                orig == old(self).files_seq(),
                self.files@.take(i as int) == orig.take(j).filter(kept_pred(cutoff, keep)),
                self.files@.skip(i as int) == orig.skip(j),
                self.wf(),
            decreases orig.len() - j,
        {
            proof {
                assert(self.files@.skip(i as int).len() == self.files@.len() - i);
                assert(orig.skip(j).len() == orig.len() - j);
                assert(j < orig.len());
                assert(self.files@.skip(i as int)[0] == self.files@[i as int]);
                assert(orig.skip(j)[0] == orig[j]);
                assert(self.files@[i as int] == orig[j]);
                lemma_filter_step(orig, kept_pred(cutoff, keep), j);
            }
            let keep_this = {
                let s = &self.files[i];
                s.ts() >= cutoff || s.name() == keep
            };
            if keep_this {
                proof {
                    assert(self.files@.take(i + 1) =~= self.files@.take(i as int).push(
                        self.files@[i as int],
                    ));
                    assert(self.files@.take(i + 1) == orig.take(j + 1).filter(
                        kept_pred(cutoff, keep),
                    ));
                    assert forall|k: int|
                        0 <= k < self.files@.len() - i - 1 implies #[trigger] self.files@.skip(
                        i + 1,
                    )[k] == orig.skip(j + 1)[k] by {
                        assert(self.files@.skip(i + 1)[k] == self.files@[i + 1 + k]);
                        assert(self.files@.skip(i as int)[k + 1] == self.files@[i + 1 + k]);
                        assert(orig.skip(j)[k + 1] == orig[j + 1 + k]);
                        assert(orig.skip(j + 1)[k] == orig[j + 1 + k]);
                    }
                    assert(self.files@.skip(i + 1) =~= orig.skip(j + 1));
                    j = j + 1;
                }
                i = i + 1;
            } else {
                let ghost pre = self.files@;
                proof {
                    assert forall|a: int| 0 <= a < pre.len() implies (#[trigger] pre[a]).wf() by {
                        assert(self.files_seq()[a].wf());
                    }
                    assert forall|a: int, b: int|
                        0 <= a < b < pre.len() implies pre[a].spec_name()
                        != pre[b].spec_name() by {
                        assert(self.files_seq()[a].spec_name() != self.files_seq()[b].spec_name());
                    }
                }
                self.files.remove(i);
                proof {
                    pre.remove_ensures(i as int);
                    assert(self.files@ == pre.remove(i as int));
                    assert(self.files@.take(i as int) =~= pre.take(i as int));
                    assert forall|k: int|
                        0 <= k < self.files@.len() - i implies #[trigger] self.files@.skip(
                        i as int,
                    )[k] == orig.skip(j + 1)[k] by {
                        assert(self.files@.skip(i as int)[k] == self.files@[i + k]);
                        assert(self.files@[i + k] == pre[i + 1 + k]);
                        assert(pre.skip(i as int)[k + 1] == pre[i + 1 + k]);
                        assert(orig.skip(j)[k + 1] == orig[j + 1 + k]);
                        assert(orig.skip(j + 1)[k] == orig[j + 1 + k]);
                    }
                    assert(self.files@.skip(i as int) =~= orig.skip(j + 1));
                    assert forall|a: int, b: int|
                        0 <= a < b < self.files@.len() implies self.files@[a].spec_name()
                        != self.files@[b].spec_name() by {
                        let a0 = if a < i {
                            a
                        } else {
                            a + 1
                        };
                        let b0 = if b < i {
                            b
                        } else {
                            b + 1
                        };
                        if a < i {
                            assert(pre.remove(i as int)[a] == pre[a]);
                        } else {
                            assert(pre.remove(i as int)[a] == pre[a + 1]);
                        }
                        if b < i {
                            assert(pre.remove(i as int)[b] == pre[b]);
                        } else {
                            assert(pre.remove(i as int)[b] == pre[b + 1]);
                        }
                        assert(self.files@[a] == pre[a0] && self.files@[b] == pre[b0]);
                    }
                    assert forall|a: int|
                        0 <= a < self.files@.len() implies (#[trigger] self.files@[a]).wf() by {
                        let a0 = if a < i {
                            a
                        } else {
                            a + 1
                        };
                        if a < i {
                            assert(pre.remove(i as int)[a] == pre[a]);
                        } else {
                            assert(pre.remove(i as int)[a] == pre[a + 1]);
                        }
                        assert(self.files@[a] == pre[a0]);
                        assert(pre[a0].wf());
                    }
                    j = j + 1;
                }
            }
        }
        proof {
            assert(self.files@.skip(i as int).len() == 0);
            assert(orig.skip(j).len() == 0);
            assert(j == orig.len());
            assert(orig.take(j) =~= orig);
            assert(self.files@.take(i as int) =~= self.files@);
        }
    }
}

} // verus!
