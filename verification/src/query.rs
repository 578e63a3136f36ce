//! The query session: fans a lookup out across every sealed bucket, unions
//! and deduplicates the results, and returns them sorted.

use vstd::prelude::*;

use crate::dir::Dir;
use crate::error::rill_error;
use crate::kv::lemma_card_le_len;
use crate::kv::lemma_sorted_len_is_card;
use crate::kv::rill_kv;
use crate::kv::strictly_sorted;
use crate::pairs::lemma_can_append_within;
use crate::pairs::Pairs;
use crate::store::append_matches;
use crate::store::key_matches;
use crate::store::keys_matches;
use crate::store::lemma_total_pointwise;
use crate::store::lemma_total_take_le;
use crate::store::lemma_total_take_step;
use crate::store::stores_total_len;
use crate::store::vals_matches;
use crate::store::lemma_concat_to_set;
use crate::store::lemma_union_take_step;
use crate::store::stores_union;
use crate::store::Store;

verus! {

/// The records of `s` with the given key.
pub open spec fn set_key_matches(s: Set<rill_kv>, key: u64) -> Set<rill_kv> {
    Set::new(|kv: rill_kv| s.contains(kv) && kv.key == key)
}

/// The records of `s` whose key lies in `keys`.
pub open spec fn set_keys_matches(s: Set<rill_kv>, keys: Seq<u64>) -> Set<rill_kv> {
    Set::new(|kv: rill_kv| s.contains(kv) && keys.contains(kv.key))
}

/// The records of `s` whose value lies in `vals`.
pub open spec fn set_vals_matches(s: Set<rill_kv>, vals: Seq<u64>) -> Set<rill_kv> {
    Set::new(|kv: rill_kv| s.contains(kv) && vals.contains(kv.val))
}

/// A read session over one directory: it snapshots every sealed bucket at
/// open time and holds them for its lifetime, so a session opened before a
/// rotation keeps seeing exactly the pre-rotation buckets. Records still
/// sitting in the live accumulator are not part of any snapshot: they
/// become visible only once a rotation seals them into a bucket.
pub struct Query {
    stores: Vec<Store>,
}

impl Query {
    /// The snapshotted buckets.
    pub closed spec fn stores_seq(&self) -> Seq<Store> {
        self.stores@
    }

    /// Every snapshotted bucket is sorted and deduplicated.
    pub open spec fn wf(&self) -> bool {
        forall|i: int| 0 <= i < self.stores_seq().len() ==> (#[trigger] self.stores_seq()[i]).wf()
    }

    /// Every record the session can see: the union of its buckets.
    pub open spec fn visible(&self) -> Set<rill_kv> {
        stores_union(self.stores_seq())
    }

    /// Opens a session over the directory's sealed buckets.
    pub fn new(dir: &Dir) -> (r: Result<Query, rill_error>)
        requires
            dir.wf(),
        ensures
            r is Ok,
            r->Ok_0.wf(),
            r->Ok_0.stores_seq().len() == dir.files_seq().len(),
            forall|i: int|
                0 <= i < dir.files_seq().len() ==> (#[trigger] r->Ok_0.stores_seq()[i])@
                    == dir.files_seq()[i]@,
            r->Ok_0.visible() == stores_union(dir.files_seq()),
            stores_total_len(r->Ok_0.stores_seq()) == stores_total_len(dir.files_seq()),
    {
        let n = dir.file_count();
        let mut stores: Vec<Store> = Vec::new();
        for i in 0..n
            invariant
                n == dir.files_seq().len(),
                dir.wf(),
                stores@.len() == i,
                forall|k: int| 0 <= k < i ==> (#[trigger] stores@[k])@ == dir.files_seq()[k]@,
                forall|k: int| 0 <= k < i ==> (#[trigger] stores@[k]).wf(),
        {
            let s = dir.file_ref(i).duplicate();
            stores.push(s);
        }
        let q = Query { stores };
        proof {
            assert forall|kv: rill_kv|
                q.visible().contains(kv) <==> stores_union(dir.files_seq()).contains(kv) by {
                if q.visible().contains(kv) {
                    let i = choose|i: int|
                        0 <= i < q.stores_seq().len() && q.stores_seq()[i]@.contains(kv);
                    assert(dir.files_seq()[i]@.contains(kv));
                }
                if stores_union(dir.files_seq()).contains(kv) {
                    let i = choose|i: int|
                        0 <= i < dir.files_seq().len() && dir.files_seq()[i]@.contains(kv);
                    assert(q.stores_seq()[i]@.contains(kv));
                }
            }
            assert(q.visible() =~= stores_union(dir.files_seq()));
            lemma_total_pointwise(q.stores_seq(), dir.files_seq());
        }
        Ok(q)
    }

    /// Appends every visible record with the given key, across all
    /// buckets, deduplicated and in KV order. On `AllocationError` a part
    /// of them has been appended.
    pub fn key(&self, key: u64, out: &mut Pairs) -> (r: Result<(), rill_error>)
        requires
            self.wf(),
            old(out).wf(),
        ensures
            final(out).wf(),
            old(out)@.is_prefix_of(final(out)@),
            r is Ok ==> strictly_sorted(final(out)@.skip(old(out)@.len() as int)) && final(out)@.skip(old(out)@.len() as int).to_set() == set_key_matches(self.visible(), key),
            r is Err ==> r == Err::<(), rill_error>(rill_error::AllocationError) && (forall|k: int|
                old(out)@.len() <= k < final(out)@.len() ==> set_key_matches(
                    self.visible(),
                    key,
                ).contains(#[trigger] final(out)@[k])),
            old(out)@.len() + stores_total_len(self.stores_seq()) <= usize::MAX / 2 ==> r is Ok,
    {
        let n = self.stores.len();
        let mut scratch = match Pairs::with_capacity(0) {
            Ok(p) => p,
            Err(e) => {
                return Err(e);
            },
        };
        for i in 0..n
            invariant
                n == self.stores_seq().len(),
                self.wf(),
                *out == *old(out),
                old(out).wf(),
                scratch.wf(),
                scratch@.to_set() == set_key_matches(stores_union(self.stores_seq().take(i as int)), key),
                scratch@.len() <= stores_total_len(self.stores_seq().take(i as int)),
        {
            let ghost pre = scratch@;
            let ghost pre_cap = scratch.spec_capacity();
            let r = self.stores[i].key(key, &mut scratch);
            proof {
                lemma_union_take_step(self.stores_seq(), i as int);
                lemma_total_take_step(self.stores_seq(), i as int);
                lemma_card_le_len(
                    key_matches(self.stores_seq()[i as int]@, key),
                    self.stores_seq()[i as int]@,
                );
                assert(scratch@ =~= pre + scratch@.skip(pre.len() as int));
                lemma_concat_to_set(pre, scratch@.skip(pre.len() as int));
            }
            if r.is_err() {
                proof {
                    if old(out)@.len() + stores_total_len(self.stores_seq()) <= usize::MAX / 2 {
                        lemma_total_take_le(self.stores_seq(), i + 1);
                        lemma_can_append_within(
                            pre.len() as int,
                            pre_cap as int,
                            key_matches(self.stores_seq()[i as int]@, key).len() as int,
                        );
                        assert(false);
                    }
                }
                return Err(rill_error::AllocationError);
            }
            proof {
                lemma_sorted_len_is_card(scratch@.skip(pre.len() as int));
            }
            proof {
                assert(scratch@.to_set() =~= set_key_matches(
                    stores_union(self.stores_seq().take(i + 1)),
                    key,
                ));
            }
        }
        proof {
            assert(self.stores_seq().take(n as int) =~= self.stores_seq());
        }
        scratch.compact();
        let r = append_matches(out, scratch.records());
        proof {
            if old(out)@.len() + stores_total_len(self.stores_seq()) <= usize::MAX / 2 {
                lemma_can_append_within(
                    old(out)@.len() as int,
                    old(out).spec_capacity() as int,
                    scratch@.len() as int,
                );
            }
        }
        r
    }

    /// Appends every visible record whose key lies in `keys`, across all
    /// buckets, deduplicated and in KV order. On `AllocationError` a part
    /// of them has been appended.
    pub fn keys(&self, keys: &[u64], out: &mut Pairs) -> (r: Result<(), rill_error>)
        requires
            self.wf(),
            old(out).wf(),
        ensures
            final(out).wf(),
            old(out)@.is_prefix_of(final(out)@),
            r is Ok ==> strictly_sorted(final(out)@.skip(old(out)@.len() as int)) && final(out)@.skip(old(out)@.len() as int).to_set() == set_keys_matches(self.visible(), keys@),
            r is Err ==> r == Err::<(), rill_error>(rill_error::AllocationError) && (forall|k: int|
                old(out)@.len() <= k < final(out)@.len() ==> set_keys_matches(
                    self.visible(),
                    keys@,
                ).contains(#[trigger] final(out)@[k])),
            old(out)@.len() + stores_total_len(self.stores_seq()) <= usize::MAX / 2 ==> r is Ok,
    {
        let n = self.stores.len();
        let mut scratch = match Pairs::with_capacity(0) {
            Ok(p) => p,
            Err(e) => {
                return Err(e);
            },
        };
        for i in 0..n
            invariant
                n == self.stores_seq().len(),
                self.wf(),
                *out == *old(out),
                old(out).wf(),
                scratch.wf(),
                scratch@.to_set() == set_keys_matches(
                    stores_union(self.stores_seq().take(i as int)),
                    keys@,
                ),
                scratch@.len() <= stores_total_len(self.stores_seq().take(i as int)),
        {
            let ghost pre = scratch@;
            let ghost pre_cap = scratch.spec_capacity();
            let r = self.stores[i].keys(keys, &mut scratch);
            proof {
                lemma_union_take_step(self.stores_seq(), i as int);
                lemma_total_take_step(self.stores_seq(), i as int);
                lemma_card_le_len(
                    keys_matches(self.stores_seq()[i as int]@, keys@),
                    self.stores_seq()[i as int]@,
                );
                assert(scratch@ =~= pre + scratch@.skip(pre.len() as int));
                lemma_concat_to_set(pre, scratch@.skip(pre.len() as int));
            }
            if r.is_err() {
                proof {
                    if old(out)@.len() + stores_total_len(self.stores_seq()) <= usize::MAX / 2 {
                        lemma_total_take_le(self.stores_seq(), i + 1);
                        lemma_can_append_within(
                            pre.len() as int,
                            pre_cap as int,
                            keys_matches(self.stores_seq()[i as int]@, keys@).len() as int,
                        );
                        assert(false);
                    }
                }
                return Err(rill_error::AllocationError);
            }
            proof {
                lemma_sorted_len_is_card(scratch@.skip(pre.len() as int));
            }
            proof {
                assert(scratch@.to_set() =~= set_keys_matches(
                    stores_union(self.stores_seq().take(i + 1)),
                    keys@,
                ));
            }
        }
        proof {
            assert(self.stores_seq().take(n as int) =~= self.stores_seq());
        }
        scratch.compact();
        let r = append_matches(out, scratch.records());
        proof {
            if old(out)@.len() + stores_total_len(self.stores_seq()) <= usize::MAX / 2 {
                lemma_can_append_within(
                    old(out)@.len() as int,
                    old(out).spec_capacity() as int,
                    scratch@.len() as int,
                );
            }
        }
        r
    }

    /// Appends every visible record whose value lies in `vals`, across all
    /// buckets, deduplicated and in KV order. On `AllocationError` a part
    /// of them has been appended.
    pub fn vals(&self, vals: &[u64], out: &mut Pairs) -> (r: Result<(), rill_error>)
        requires
            self.wf(),
            old(out).wf(),
        ensures
            final(out).wf(),
            old(out)@.is_prefix_of(final(out)@),
            r is Ok ==> strictly_sorted(final(out)@.skip(old(out)@.len() as int)) && final(out)@.skip(old(out)@.len() as int).to_set() == set_vals_matches(self.visible(), vals@),
            r is Err ==> r == Err::<(), rill_error>(rill_error::AllocationError) && (forall|k: int|
                old(out)@.len() <= k < final(out)@.len() ==> set_vals_matches(
                    self.visible(),
                    vals@,
                ).contains(#[trigger] final(out)@[k])),
            old(out)@.len() + stores_total_len(self.stores_seq()) <= usize::MAX / 2 ==> r is Ok,
    {
        let n = self.stores.len();
        let mut scratch = match Pairs::with_capacity(0) {
            Ok(p) => p,
            Err(e) => {
                return Err(e);
            },
        };
        for i in 0..n
            invariant
                n == self.stores_seq().len(),
                self.wf(),
                *out == *old(out),
                old(out).wf(),
                scratch.wf(),
                scratch@.to_set() == set_vals_matches(
                    stores_union(self.stores_seq().take(i as int)),
                    vals@,
                ),
                scratch@.len() <= stores_total_len(self.stores_seq().take(i as int)),
        {
            let ghost pre = scratch@;
            let ghost pre_cap = scratch.spec_capacity();
            let r = self.stores[i].vals(vals, &mut scratch);
            proof {
                lemma_union_take_step(self.stores_seq(), i as int);
                lemma_total_take_step(self.stores_seq(), i as int);
                lemma_card_le_len(
                    vals_matches(self.stores_seq()[i as int]@, vals@),
                    self.stores_seq()[i as int]@,
                );
                assert(scratch@ =~= pre + scratch@.skip(pre.len() as int));
                lemma_concat_to_set(pre, scratch@.skip(pre.len() as int));
            }
            if r.is_err() {
                proof {
                    if old(out)@.len() + stores_total_len(self.stores_seq()) <= usize::MAX / 2 {
                        lemma_total_take_le(self.stores_seq(), i + 1);
                        lemma_can_append_within(
                            pre.len() as int,
                            pre_cap as int,
                            vals_matches(self.stores_seq()[i as int]@, vals@).len() as int,
                        );
                        assert(false);
                    }
                }
                return Err(rill_error::AllocationError);
            }
            proof {
                lemma_sorted_len_is_card(scratch@.skip(pre.len() as int));
            }
            proof {
                assert(scratch@.to_set() =~= set_vals_matches(
                    stores_union(self.stores_seq().take(i + 1)),
                    vals@,
                ));
            }
        }
        proof {
            assert(self.stores_seq().take(n as int) =~= self.stores_seq());
        }
        scratch.compact();
        let r = append_matches(out, scratch.records());
        proof {
            if old(out)@.len() + stores_total_len(self.stores_seq()) <= usize::MAX / 2 {
                lemma_can_append_within(
                    old(out)@.len() as int,
                    old(out).spec_capacity() as int,
                    scratch@.len() as int,
                );
            }
        }
        r
    }

    /// Every visible record, across all buckets, deduplicated and in KV
    /// order, in a fresh pair set.
    pub fn all(&self) -> (r: Result<Pairs, rill_error>)
        requires
            self.wf(),
        ensures
            r is Ok ==> r->Ok_0.wf() && strictly_sorted(r->Ok_0@) && r->Ok_0@.to_set()
                == self.visible(),
            r is Err ==> r == Err::<Pairs, rill_error>(rill_error::AllocationError),
            stores_total_len(self.stores_seq()) <= usize::MAX / 2 ==> r is Ok,
    {
        let n = self.stores.len();
        let mut scratch = match Pairs::with_capacity(0) {
            Ok(p) => p,
            Err(e) => {
                return Err(e);
            },
        };
        for i in 0..n
            invariant
                n == self.stores_seq().len(),
                self.wf(),
                scratch.wf(),
                scratch@.to_set() == stores_union(self.stores_seq().take(i as int)),
                scratch@.len() <= stores_total_len(self.stores_seq().take(i as int)),
        {
            let ghost pre = scratch@;
            let ghost pre_cap = scratch.spec_capacity();
            let r = append_matches(&mut scratch, self.stores[i].recs_ref());
            proof {
                lemma_union_take_step(self.stores_seq(), i as int);
                lemma_total_take_step(self.stores_seq(), i as int);
                assert(scratch@ =~= pre + scratch@.skip(pre.len() as int));
                lemma_concat_to_set(pre, scratch@.skip(pre.len() as int));
            }
            if r.is_err() {
                proof {
                    if stores_total_len(self.stores_seq()) <= usize::MAX / 2 {
                        lemma_total_take_le(self.stores_seq(), i + 1);
                        lemma_can_append_within(
                            pre.len() as int,
                            pre_cap as int,
                            self.stores_seq()[i as int]@.len() as int,
                        );
                        assert(false);
                    }
                }
                return Err(rill_error::AllocationError);
            }
            proof {
                lemma_sorted_len_is_card(scratch@.skip(pre.len() as int));
                lemma_card_le_len(
                    self.stores_seq()[i as int]@.to_set(),
                    self.stores_seq()[i as int]@,
                );
                assert(scratch@.to_set() =~= stores_union(self.stores_seq().take(i + 1)));
            }
        }
        proof {
            assert(self.stores_seq().take(n as int) =~= self.stores_seq());
        }
        scratch.compact();
        Ok(scratch)
    }
}

/// The visibility boundary: a record that is not among a session's visible
/// records — one ingested after the buckets the session snapshotted were
/// sealed — appears in no result of that session, whichever lookup is
/// asked.
pub proof fn lemma_visibility_boundary(q: Query, kv: rill_kv, key: u64, keys: Seq<u64>, vals: Seq<
    u64,
>)
    requires
        !q.visible().contains(kv),
    ensures
        !set_key_matches(q.visible(), key).contains(kv),
        !set_keys_matches(q.visible(), keys).contains(kv),
        !set_vals_matches(q.visible(), vals).contains(kv),
{
}

} // verus!
