//! The immutable bucket: a sorted, deduplicated record array with its
//! timestamp and quantum, and the lookups and merge over such arrays.

use vstd::prelude::*;

use crate::dir::Dir;
use crate::error::rill_error;
use crate::kv::kv_less;
use crate::kv::kv_lt;
use crate::kv::lemma_card_le_len;
use crate::kv::lemma_sorted_len_is_card;
use crate::kv::rill_kv;
use crate::kv::strictly_sorted;
use crate::pairs::can_append;
use crate::pairs::compacted;
use crate::pairs::lemma_can_append_within;
use crate::pairs::Pairs;

verus! {

/// One bucket: an immutable, sorted, deduplicated array of records tagged
/// with the file name it lives under, the bucket timestamp `ts`, and the
/// time span `quant` the bucket covers (`0` for a bucket sealed directly
/// from a single rotation).
pub struct Store {
    pub(crate) name: u64,
    pub(crate) ts: u64,
    pub(crate) quant: u64,
    pub(crate) recs: Vec<rill_kv>,
}

impl View for Store {
    type V = Seq<rill_kv>;

    closed spec fn view(&self) -> Seq<rill_kv> {
        self.recs@
    }
}

/// The records of `s` with the given key.
pub open spec fn key_matches(s: Seq<rill_kv>, key: u64) -> Set<rill_kv> {
    Set::new(|kv: rill_kv| s.contains(kv) && kv.key == key)
}

/// The records of `s` whose key lies in `keys`.
pub open spec fn keys_matches(s: Seq<rill_kv>, keys: Seq<u64>) -> Set<rill_kv> {
    Set::new(|kv: rill_kv| s.contains(kv) && keys.contains(kv.key))
}

/// The records of `s` whose value lies in `vals`.
pub open spec fn vals_matches(s: Seq<rill_kv>, vals: Seq<u64>) -> Set<rill_kv> {
    Set::new(|kv: rill_kv| s.contains(kv) && vals.contains(kv.val))
}

impl Store {
    /// The file name the bucket lives under.
    pub closed spec fn spec_name(&self) -> u64 {
        self.name
    }

    /// The bucket timestamp.
    pub closed spec fn spec_ts(&self) -> u64 {
        self.ts
    }

    /// The time span the bucket covers.
    pub closed spec fn spec_quant(&self) -> u64 {
        self.quant
    }

    /// The records are strictly increasing in KV order: sorted, and no
    /// record twice.
    pub open spec fn wf(&self) -> bool {
        strictly_sorted(self@)
    }

    /// The bucket timestamp.
    pub fn ts(&self) -> (t: u64)
        ensures
            t == self.spec_ts(),
    {
        self.ts
    }

    /// The time span the bucket covers.
    pub fn quant(&self) -> (q: u64)
        ensures
            q == self.spec_quant(),
    {
        self.quant
    }

    /// The number of records held.
    pub fn len(&self) -> (n: usize)
        ensures
            n == self@.len(),
    {
        self.recs.len()
    }

    /// The record at `index`, or `OutOfRangeError` past the length.
    pub fn get(&self, index: usize) -> (r: Result<rill_kv, rill_error>)
        ensures
            index < self@.len() ==> r == Ok::<rill_kv, rill_error>(self@[index as int]),
            index >= self@.len() ==> r == Err::<rill_kv, rill_error>(rill_error::OutOfRangeError),
    {
        if index < self.recs.len() {
            Ok(self.recs[index])
        } else {
            Err(rill_error::OutOfRangeError)
        }
    }

    /// The file name the bucket lives under.
    pub fn name(&self) -> (n: u64)
        ensures
            n == self.spec_name(),
    {
        self.name
    }

    /// A fresh, empty bucket under construction.
    pub(crate) fn empty_store(name: u64, ts: u64, quant: u64) -> (s: Store)
        ensures
            s.spec_name() == name,
            s.spec_ts() == ts,
            s.spec_quant() == quant,
            s@ == Seq::<rill_kv>::empty(),
    {
        let recs: Vec<rill_kv> = Vec::new();
        proof {
            assert(recs@ =~= Seq::<rill_kv>::empty());
        }
        Store { name, ts, quant, recs }
    }

    /// Appends one record to a bucket under construction.
    pub(crate) fn push_rec(&mut self, kv: rill_kv)
        ensures
            final(self).spec_name() == old(self).spec_name(),
            final(self).spec_ts() == old(self).spec_ts(),
            final(self).spec_quant() == old(self).spec_quant(),
            final(self)@ == old(self)@.push(kv),
    {
        self.recs.push(kv);
    }

    /// Decides whether the records are strictly increasing in KV order.
    pub(crate) fn check_sorted(&self) -> (r: bool)
        ensures
            r == strictly_sorted(self@),
    {
        let n = self.recs.len();
        let mut i: usize = 1;
        while i < n
            invariant
                n == self@.len(),
                1 <= i,
                i <= n || n == 0,
                forall|k: int| 0 < k < i && k < n ==> kv_lt(self@[k - 1], #[trigger] self@[k]),
            decreases n - i,
        {
            if !kv_less(&self.recs[i - 1], &self.recs[i]) {
                return false;
            }
            i = i + 1;
        }
        proof {
            assert forall|a: int, b: int|
                0 <= a < b < self@.len() implies kv_lt(self@[a], self@[b]) by {
                lemma_adjacent_sorted(self@, a, b);
            }
        }
        true
    }

    /// The record array, for the query layer.
    pub(crate) fn recs_ref(&self) -> (v: &Vec<rill_kv>)
        ensures
            v@ == self@,
    {
        &self.recs
    }

    /// An independent copy of the bucket, for a query session's snapshot.
    pub(crate) fn duplicate(&self) -> (s: Store)
        ensures
            s.spec_name() == self.spec_name(),
            s.spec_ts() == self.spec_ts(),
            s.spec_quant() == self.spec_quant(),
            s@ == self@,
    {
        Store { name: self.name, ts: self.ts, quant: self.quant, recs: copy_recs(&self.recs) }
    }
}

/// Every record held by any of the buckets.
pub open spec fn stores_union(ss: Seq<Store>) -> Set<rill_kv> {
    Set::new(|kv: rill_kv| exists|i: int| 0 <= i < ss.len() && ss[i]@.contains(kv))
}

/// The records of all the buckets, counted with repetition.
pub open spec fn stores_total_len(ss: Seq<Store>) -> int
    decreases ss.len(),
{
    if ss.len() == 0 {
        0
    } else {
        stores_total_len(ss.drop_last()) + ss.last()@.len()
    }
}

/// Extending a bucket prefix by one bucket adds its record count.
pub(crate) proof fn lemma_total_take_step(ss: Seq<Store>, i: int)
    requires
        0 <= i < ss.len(),
    ensures
        stores_total_len(ss.take(i + 1)) == stores_total_len(ss.take(i)) + ss[i]@.len(),
{
    assert(ss.take(i + 1).drop_last() =~= ss.take(i));
    assert(ss.take(i + 1).last() == ss[i]);
}

/// Bucket sequences with pointwise equal records hold equally many.
pub(crate) proof fn lemma_total_pointwise(a: Seq<Store>, b: Seq<Store>)
    requires
        a.len() == b.len(),
        forall|i: int| 0 <= i < a.len() ==> (#[trigger] a[i])@ == b[i]@,
    ensures
        stores_total_len(a) == stores_total_len(b),
    decreases a.len(),
{
    if a.len() > 0 {
        assert(forall|i: int|
            0 <= i < a.drop_last().len() ==> (#[trigger] a.drop_last()[i])@ == b.drop_last()[i]@);
        lemma_total_pointwise(a.drop_last(), b.drop_last());
        assert(a.last()@ == b.last()@);
    }
}

/// A prefix of the buckets holds no more records than all of them.
pub(crate) proof fn lemma_total_take_le(ss: Seq<Store>, j: int)
    requires
        0 <= j <= ss.len(),
    ensures
        stores_total_len(ss.take(j)) <= stores_total_len(ss),
    decreases ss.len(),
{
    if j == ss.len() {
        assert(ss.take(j) =~= ss);
    } else {
        assert(ss.drop_last().take(j) =~= ss.take(j));
        lemma_total_take_le(ss.drop_last(), j);
    }
}

impl Store {
    /// Serializes the pair set — compacted, so the file meets the sorted,
    /// deduplicated on-disk invariant — into a new bucket file, through the
    /// crash-safe write-temporary-then-rename protocol: either the whole
    /// file appears under `name`, or, with `WriteError` (the name is already
    /// taken), nothing does and the directory is untouched.
    pub fn write(dir: &mut Dir, name: u64, ts: u64, quant: u64, pairs: &Pairs) -> (r: Result<
        (),
        rill_error,
    >)
        requires
            old(dir).wf(),
        ensures
            final(dir).wf(),
            final(dir).temp_spec() is None,
            r is Ok <==> !old(dir).has_name(name),
            r is Ok ==> final(dir).files_seq().len() == old(dir).files_seq().len() + 1
                && final(dir).files_seq().drop_last() == old(dir).files_seq() && {
                let s = final(dir).files_seq().last();
                &&& s.spec_name() == name
                &&& s.spec_ts() == ts
                &&& s.spec_quant() == quant
                &&& s.wf()
                &&& s@.to_set() == pairs@.to_set()
            },
            r is Err ==> r == Err::<(), rill_error>(rill_error::WriteError)
                && final(dir).files_seq() == old(dir).files_seq(),
    {
        let recs = compacted(pairs.records());
        install_sorted(dir, name, ts, quant, &recs)
    }

    /// Opens the bucket file of this name, as an independent handle;
    /// `NotFoundError` if the directory holds no such file.
    pub fn open(dir: &Dir, name: u64) -> (r: Result<Store, rill_error>)
        requires
            dir.wf(),
        ensures
            r is Ok <==> dir.has_name(name),
            r is Ok ==> r->Ok_0.wf() && r->Ok_0.spec_name() == name && exists|i: int|
                0 <= i < dir.files_seq().len() && (#[trigger] dir.files_seq()[i]).spec_name()
                    == name && r->Ok_0.spec_ts() == dir.files_seq()[i].spec_ts()
                    && r->Ok_0.spec_quant() == dir.files_seq()[i].spec_quant() && r->Ok_0@
                    == dir.files_seq()[i]@,
            r is Err ==> r == Err::<Store, rill_error>(rill_error::NotFoundError),
    {
        match dir.find(name) {
            None => Err(rill_error::NotFoundError),
            Some(i) => {
                let s = dir.file_ref(i).duplicate();
                Ok(s)
            },
        }
    }

    /// Deletes this bucket's file from the directory; the in-memory handle
    /// stays usable. `NotFoundError`, with the directory unchanged, if the
    /// file is already gone.
    pub fn rm(&self, dir: &mut Dir) -> (r: Result<(), rill_error>)
        requires
            old(dir).wf(),
        ensures
            final(dir).wf(),
            final(dir).temp_spec() == old(dir).temp_spec(),
            r is Ok <==> old(dir).has_name(self.spec_name()),
            r is Ok ==> exists|i: int|
                0 <= i < old(dir).files_seq().len() && old(dir).files_seq()[i].spec_name()
                    == self.spec_name() && final(dir).files_seq() == old(dir).files_seq().remove(
                    i,
                ),
            r is Err ==> r == Err::<(), rill_error>(rill_error::NotFoundError) && *final(dir)
                == *old(dir),
    {
        dir.remove(self.name())
    }

    /// Merges the sorted record arrays of all input buckets into one new
    /// bucket file holding their union, equal records across inputs
    /// collapsed to a single entry, written through the same crash-safe
    /// protocol as [`Store::write`]. On `WriteError` (the name is already
    /// taken) the directory is untouched; the input buckets are never
    /// touched.
    pub fn merge(dir: &mut Dir, name: u64, ts: u64, quant: u64, stores: &[Store]) -> (r: Result<
        (),
        rill_error,
    >)
        requires
            old(dir).wf(),
            forall|i: int| 0 <= i < stores@.len() ==> (#[trigger] stores@[i]).wf(),
        ensures
            final(dir).wf(),
            final(dir).temp_spec() is None,
            r is Ok <==> !old(dir).has_name(name),
            r is Ok ==> final(dir).files_seq().len() == old(dir).files_seq().len() + 1
                && final(dir).files_seq().drop_last() == old(dir).files_seq() && {
                let s = final(dir).files_seq().last();
                &&& s.spec_name() == name
                &&& s.spec_ts() == ts
                &&& s.spec_quant() == quant
                &&& s.wf()
                &&& s@.to_set() == stores_union(stores@)
            },
            r is Err ==> r == Err::<(), rill_error>(rill_error::WriteError)
                && final(dir).files_seq() == old(dir).files_seq(),
    {
        let merged = merge_all(stores);
        install_sorted(dir, name, ts, quant, &merged)
    }

    /// Appends every record of this bucket with the given key, in KV order,
    /// found by binary search on the primary sort field. On
    /// `AllocationError` a part of them has been appended.
    pub fn key(&self, key: u64, out: &mut Pairs) -> (r: Result<(), rill_error>)
        requires
            self.wf(),
            old(out).wf(),
        ensures
            final(out).wf(),
            old(out)@.is_prefix_of(final(out)@),
            r is Ok ==> strictly_sorted(final(out)@.skip(old(out)@.len() as int)) && final(out)@.skip(old(out)@.len() as int).to_set() == key_matches(self@, key),
            r is Err ==> r == Err::<(), rill_error>(rill_error::AllocationError) && (forall|k: int|
                old(out)@.len() <= k < final(out)@.len() ==> key_matches(self@, key).contains(
                    #[trigger] final(out)@[k],
                )),
            r is Ok <==> can_append(
                old(out)@.len() as int,
                old(out).spec_capacity() as int,
                key_matches(self@, key).len() as int,
            ),
            old(out)@.len() + self@.len() <= usize::MAX / 2 ==> r is Ok,
    {
        let m = key_matches_vec(&self.recs, key);
        proof {
            lemma_sorted_len_is_card(m@);
            lemma_card_le_len(key_matches(self@, key), self@);
            if old(out)@.len() + self@.len() <= usize::MAX / 2 {
                lemma_can_append_within(
                    old(out)@.len() as int,
                    old(out).spec_capacity() as int,
                    m@.len() as int,
                );
            }
        }
        append_matches(out, &m)
    }

    /// Appends every record of this bucket whose key lies in `keys`, in KV
    /// order, each key searched independently and the per-key results
    /// merged. On `AllocationError` a part of them has been appended.
    pub fn keys(&self, keys: &[u64], out: &mut Pairs) -> (r: Result<(), rill_error>)
        requires
            self.wf(),
            old(out).wf(),
        ensures
            final(out).wf(),
            old(out)@.is_prefix_of(final(out)@),
            r is Ok ==> strictly_sorted(final(out)@.skip(old(out)@.len() as int)) && final(out)@.skip(old(out)@.len() as int).to_set() == keys_matches(self@, keys@),
            r is Err ==> r == Err::<(), rill_error>(rill_error::AllocationError) && (forall|k: int|
                old(out)@.len() <= k < final(out)@.len() ==> keys_matches(self@, keys@).contains(
                    #[trigger] final(out)@[k],
                )),
            r is Ok <==> can_append(
                old(out)@.len() as int,
                old(out).spec_capacity() as int,
                keys_matches(self@, keys@).len() as int,
            ),
            old(out)@.len() + self@.len() <= usize::MAX / 2 ==> r is Ok,
    {
        let m = keys_matches_vec(&self.recs, keys);
        proof {
            lemma_sorted_len_is_card(m@);
            lemma_card_le_len(keys_matches(self@, keys@), self@);
            if old(out)@.len() + self@.len() <= usize::MAX / 2 {
                lemma_can_append_within(
                    old(out)@.len() as int,
                    old(out).spec_capacity() as int,
                    m@.len() as int,
                );
            }
        }
        append_matches(out, &m)
    }

    /// Appends every record of this bucket whose value lies in `vals`, in
    /// KV order, by a linear scan (values are not the primary sort field).
    /// On `AllocationError` a part of them has been appended.
    pub fn vals(&self, vals: &[u64], out: &mut Pairs) -> (r: Result<(), rill_error>)
        requires
            self.wf(),
            old(out).wf(),
        ensures
            final(out).wf(),
            old(out)@.is_prefix_of(final(out)@),
            r is Ok ==> strictly_sorted(final(out)@.skip(old(out)@.len() as int)) && final(out)@.skip(old(out)@.len() as int).to_set() == vals_matches(self@, vals@),
            r is Err ==> r == Err::<(), rill_error>(rill_error::AllocationError) && (forall|k: int|
                old(out)@.len() <= k < final(out)@.len() ==> vals_matches(self@, vals@).contains(
                    #[trigger] final(out)@[k],
                )),
            r is Ok <==> can_append(
                old(out)@.len() as int,
                old(out).spec_capacity() as int,
                vals_matches(self@, vals@).len() as int,
            ),
            old(out)@.len() + self@.len() <= usize::MAX / 2 ==> r is Ok,
    {
        let m = vals_matches_vec(&self.recs, vals);
        proof {
            lemma_sorted_len_is_card(m@);
            lemma_card_le_len(vals_matches(self@, vals@), self@);
            if old(out)@.len() + self@.len() <= usize::MAX / 2 {
                lemma_can_append_within(
                    old(out)@.len() as int,
                    old(out).spec_capacity() as int,
                    m@.len() as int,
                );
            }
        }
        append_matches(out, &m)
    }
}

/// Appends a sorted match vector to the output pair set, turning an
/// allocation failure into the partial-append contract.
pub(crate) fn append_matches(out: &mut Pairs, m: &Vec<rill_kv>) -> (r: Result<(), rill_error>)
    requires
        old(out).wf(),
        strictly_sorted(m@),
    ensures
        final(out).wf(),
        old(out)@.is_prefix_of(final(out)@),
        r is Ok ==> strictly_sorted(final(out)@.skip(old(out)@.len() as int)) && final(out)@.skip(
            old(out)@.len() as int,
        ).to_set() == m@.to_set(),
        r is Err ==> r == Err::<(), rill_error>(rill_error::AllocationError) && (forall|k: int|
            old(out)@.len() <= k < final(out)@.len() ==> m@.to_set().contains(
                #[trigger] final(out)@[k],
            )),
        r is Ok <==> can_append(
            old(out)@.len() as int,
            old(out).spec_capacity() as int,
            m@.len() as int,
        ),
{
    let r = out.append_all(m);
    proof {
        if r is Ok {
            assert(final(out)@.skip(old(out)@.len() as int) =~= m@);
        } else {
            let k0 = choose|k0: int|
                0 <= k0 <= m@.len() && final(out)@ == old(out)@ + m@.take(k0);
            assert forall|k: int|
                old(out)@.len() <= k < final(out)@.len() implies m@.to_set().contains(
                final(out)@[k],
            ) by {
                assert(final(out)@[k] == m@.take(k0)[k - old(out)@.len()]);
                assert(final(out)@[k] == m@[k - old(out)@.len()]);
                assert(m@.contains(final(out)@[k]));
            }
        }
        assert(old(out)@.is_prefix_of(final(out)@)) by {
            if r is Err {
                let k0 = choose|k0: int|
                    0 <= k0 <= m@.len() && final(out)@ == old(out)@ + m@.take(k0);
                assert(final(out)@.take(old(out)@.len() as int) =~= old(out)@);
            } else {
                assert(final(out)@.take(old(out)@.len() as int) =~= old(out)@);
            }
        }
    }
    r
}

/// The sorted union of the record arrays of all the buckets, merged
/// pairwise.
fn merge_all(stores: &[Store]) -> (out: Vec<rill_kv>)
    requires
        forall|i: int| 0 <= i < stores@.len() ==> (#[trigger] stores@[i]).wf(),
    ensures
        strictly_sorted(out@),
        out@.to_set() == stores_union(stores@),
{
    let n = stores.len();
    let mut out: Vec<rill_kv> = Vec::new();
    proof {
        assert(out@.to_set() =~= stores_union(stores@.take(0)));
    }
    for i in 0..n
        invariant
            n == stores@.len(),
            forall|k: int| 0 <= k < stores@.len() ==> (#[trigger] stores@[k]).wf(),
            strictly_sorted(out@),
            out@.to_set() == stores_union(stores@.take(i as int)),
    {
        let merged = merge_two(&out, &stores[i].recs);
        proof {
            lemma_union_take_step(stores@, i as int);
        }
        out = merged;
        proof {
            assert(out@.to_set() =~= stores_union(stores@.take(i + 1)));
        }
    }
    proof {
        assert(stores@.take(n as int) =~= stores@);
    }
    out
}

/// Extending a bucket prefix by one bucket unions in its records.
pub(crate) proof fn lemma_union_take_step(ss: Seq<Store>, i: int)
    requires
        0 <= i < ss.len(),
    ensures
        stores_union(ss.take(i + 1)) == stores_union(ss.take(i)).union(ss[i]@.to_set()),
{
    let a = ss.take(i);
    let b = ss.take(i + 1);
    assert forall|kv: rill_kv|
        stores_union(b).contains(kv) <==> stores_union(a).contains(kv) || ss[i]@.contains(
            kv,
        ) by {
        if stores_union(b).contains(kv) {
            let k = choose|k: int| 0 <= k < b.len() && b[k]@.contains(kv);
            if k < i {
                assert(a[k]@.contains(kv));
            }
        }
        if stores_union(a).contains(kv) {
            let k = choose|k: int| 0 <= k < a.len() && a[k]@.contains(kv);
            assert(b[k]@.contains(kv));
        }
        if ss[i]@.contains(kv) {
            assert(b[i]@.contains(kv));
        }
    }
    assert(stores_union(b) =~= stores_union(a).union(ss[i]@.to_set()));
}

/// The multi-key lookup does not depend on the order of the requested
/// keys: key lists holding the same keys match the same records, so two
/// lookups with permuted key lists return the same result and succeed or
/// fail together.
pub proof fn lemma_keys_order_irrelevant(s: Seq<rill_kv>, keys1: Seq<u64>, keys2: Seq<u64>)
    requires
        forall|k: u64| keys1.contains(k) <==> keys2.contains(k),
    ensures
        keys_matches(s, keys1) == keys_matches(s, keys2),
{
    assert(keys_matches(s, keys1) =~= keys_matches(s, keys2));
}

/// Records deduplicate across epochs: when two buckets — say, two epochs
/// that each observed the same record — are merged, a record held by both
/// (or by either) occurs exactly once in the merged bucket, since the
/// merged records are the strictly sorted arrangement of the buckets'
/// union.
pub proof fn lemma_merge_dedup(a: Seq<rill_kv>, b: Seq<rill_kv>, merged: Seq<rill_kv>, kv: rill_kv)
    requires
        strictly_sorted(merged),
        merged.to_set() == a.to_set().union(b.to_set()),
        a.to_set().contains(kv) || b.to_set().contains(kv),
    ensures
        merged.to_multiset().count(kv) == 1,
{
    crate::kv::lemma_sorted_no_duplicates(merged);
    merged.lemma_multiset_has_no_duplicates();
    assert(merged.to_set().contains(kv));
    assert(merged.contains(kv));
    let i = choose|i: int| 0 <= i < merged.len() && merged[i] == kv;
    merged.to_multiset_ensures();
    assert(merged.to_multiset().count(kv) > 0);
}

/// Writes a finished, sorted record array to a new bucket file through the
/// temporary-then-rename protocol.
pub(crate) fn install_sorted(dir: &mut Dir, name: u64, ts: u64, quant: u64, recs: &Vec<rill_kv>) -> (r:
    Result<(), rill_error>)
    requires
        old(dir).wf(),
        strictly_sorted(recs@),
    ensures
        final(dir).wf(),
        final(dir).temp_spec() is None,
        r is Ok <==> !old(dir).has_name(name),
        r is Ok ==> final(dir).files_seq().len() == old(dir).files_seq().len() + 1
            && final(dir).files_seq().drop_last() == old(dir).files_seq() && {
            let s = final(dir).files_seq().last();
            &&& s.spec_name() == name
            &&& s.spec_ts() == ts
            &&& s.spec_quant() == quant
            &&& s@ == recs@
        },
        r is Err ==> r == Err::<(), rill_error>(rill_error::WriteError) && final(dir).files_seq()
            == old(dir).files_seq(),
{
    dir.begin(name, ts, quant);
    let n = recs.len();
    for i in 0..n
        invariant
            n == recs@.len(),
            dir.wf(),
            dir.files_seq() == old(dir).files_seq(),
            (dir.temp_spec() matches Some(t) && t.spec_name() == name && t.spec_ts() == ts
                && t.spec_quant() == quant && t@ == recs@.take(i as int)),
    {
        let kv = recs[i];
        let r = dir.append(kv.key, kv.val);
        proof {
            assert(r is Ok);
            assert(dir.temp_spec()->0@ =~= recs@.take(i + 1));
        }
    }
    proof {
        assert(recs@.take(n as int) =~= recs@);
    }
    let r = dir.commit();
    proof {
        if r is Ok {
            assert(final(dir).files_seq().drop_last() =~= old(dir).files_seq());
        }
    }
    r
}

/// An element-wise copy of a record vector.
pub(crate) fn copy_recs(v: &Vec<rill_kv>) -> (out: Vec<rill_kv>)
    ensures
        out@ == v@,
{
    let mut out: Vec<rill_kv> = Vec::new();
    let n = v.len();
    for i in 0..n
        invariant
            n == v@.len(),
            out@ == v@.take(i as int),
    {
        out.push(v[i]);
        proof {
            assert(out@ =~= v@.take(i + 1));
        }
    }
    proof {
        assert(v@.take(n as int) =~= v@);
    }
    out
}

/// The position in a sorted record vector before which every key is below
/// `key` and from which none is.
fn lower_bound_key(v: &Vec<rill_kv>, key: u64) -> (p: usize)
    requires
        strictly_sorted(v@),
    ensures
        p <= v@.len(),
        forall|k: int| 0 <= k < p ==> v@[k].key < key,
        forall|k: int| p <= k < v@.len() ==> v@[k].key >= key,
{
    let mut lo: usize = 0;
    let mut hi: usize = v.len();
    while lo < hi
        invariant
            lo <= hi <= v@.len(),
            strictly_sorted(v@),
            forall|k: int| 0 <= k < lo ==> v@[k].key < key,
            forall|k: int| hi <= k < v@.len() ==> v@[k].key >= key,
        decreases hi - lo,
    {
        let mid = lo + (hi - lo) / 2;
        if v[mid].key < key {
            proof {
                assert forall|k: int| 0 <= k < mid + 1 implies v@[k].key < key by {
                    if k < mid {
                        assert(kv_lt(v@[k], v@[mid as int]));
                    }
                }
            }
            lo = mid + 1;
        } else {
            proof {
                assert forall|k: int| mid <= k < v@.len() implies v@[k].key >= key by {
                    if k > mid {
                        assert(kv_lt(v@[mid as int], v@[k]));
                    }
                }
            }
            hi = mid;
        }
    }
    lo
}

/// The records of a sorted vector with the given key, found by binary
/// search, in order.
fn key_matches_vec(recs: &Vec<rill_kv>, key: u64) -> (out: Vec<rill_kv>)
    requires
        strictly_sorted(recs@),
    ensures
        strictly_sorted(out@),
        out@.to_set() == key_matches(recs@, key),
{
    let n = recs.len();
    let lb = lower_bound_key(recs, key);
    let mut out: Vec<rill_kv> = Vec::new();
    let mut i = lb;
    while i < n && recs[i].key == key
        invariant
            n == recs@.len(),
            strictly_sorted(recs@),
            lb <= i <= n,
            forall|k: int| 0 <= k < lb ==> recs@[k].key < key,
            forall|k: int| lb <= k < n ==> recs@[k].key >= key,
            forall|k: int| lb <= k < i ==> recs@[k].key == key,
            out@ == recs@.subrange(lb as int, i as int),
        decreases n - i,
    {
        out.push(recs[i]);
        proof {
            assert(out@ =~= recs@.subrange(lb as int, i + 1));
        }
        i = i + 1;
    }
    proof {
        assert forall|a: int, b: int| 0 <= a < b < out@.len() implies kv_lt(out@[a], out@[b]) by {
            assert(out@[a] == recs@[lb + a] && out@[b] == recs@[lb + b]);
        }
        assert forall|kv: rill_kv|
            out@.to_set().contains(kv) <==> (recs@.contains(kv) && kv.key == key) by {
            if out@.to_set().contains(kv) {
                let k = choose|k: int| 0 <= k < out@.len() && out@[k] == kv;
                assert(recs@[lb + k] == kv);
                assert(recs@.contains(kv));
            }
            if recs@.contains(kv) && kv.key == key {
                let m = choose|m: int| 0 <= m < recs@.len() && recs@[m] == kv;
                if m < lb {
                    assert(recs@[m].key < key);
                    assert(false);
                }
                if m >= i {
                    assert(i < n && recs@[i as int].key != key);
                    if m > i {
                        assert(kv_lt(recs@[i as int], recs@[m]));
                    }
                    assert(false);
                }
                assert(out@[m - lb] == kv);
                assert(out@.contains(kv));
            }
        }
        assert(out@.to_set() =~= key_matches(recs@, key));
    }
    out
}

/// The records of a sorted vector whose key lies in `keys`, each key
/// searched independently and the per-key results merged, in order.
fn keys_matches_vec(recs: &Vec<rill_kv>, keys: &[u64]) -> (out: Vec<rill_kv>)
    requires
        strictly_sorted(recs@),
    ensures
        strictly_sorted(out@),
        out@.to_set() == keys_matches(recs@, keys@),
{
    let kn = keys.len();
    let mut tmp: Vec<rill_kv> = Vec::new();
    proof {
        assert(tmp@.to_set() =~= keys_matches(recs@, keys@.take(0)));
    }
    for i in 0..kn
        invariant
            kn == keys@.len(),
            strictly_sorted(recs@),
            tmp@.to_set() == keys_matches(recs@, keys@.take(i as int)),
    {
        let mut part = key_matches_vec(recs, keys[i]);
        proof {
            lemma_concat_to_set(tmp@, part@);
            lemma_keys_take_step(recs@, keys@, i as int);
        }
        tmp.append(&mut part);
        proof {
            assert(tmp@.to_set() =~= keys_matches(recs@, keys@.take(i + 1)));
        }
    }
    proof {
        assert(keys@.take(kn as int) =~= keys@);
    }
    compacted(&tmp)
}

/// Extending a key prefix by one key unions in that key's matches.
proof fn lemma_keys_take_step(s: Seq<rill_kv>, keys: Seq<u64>, i: int)
    requires
        0 <= i < keys.len(),
    ensures
        keys_matches(s, keys.take(i + 1)) == keys_matches(s, keys.take(i)).union(
            key_matches(s, keys[i]),
        ),
{
    let a = keys.take(i);
    let b = keys.take(i + 1);
    assert forall|k: u64| b.contains(k) <==> a.contains(k) || k == keys[i] by {
        if b.contains(k) {
            let m = choose|m: int| 0 <= m < b.len() && b[m] == k;
            if m < i {
                assert(a[m] == k);
            }
        }
        if a.contains(k) {
            let m = choose|m: int| 0 <= m < a.len() && a[m] == k;
            assert(b[m] == k);
        }
        if k == keys[i] {
            assert(b[i] == k);
        }
    }
    assert(keys_matches(s, b) =~= keys_matches(s, a).union(key_matches(s, keys[i])));
}

/// Concatenation unions the record sets.
pub(crate) proof fn lemma_concat_to_set(a: Seq<rill_kv>, b: Seq<rill_kv>)
    ensures
        (a + b).to_set() == a.to_set().union(b.to_set()),
{
    assert forall|kv: rill_kv| (a + b).contains(kv) <==> a.contains(kv) || b.contains(kv) by {
        if (a + b).contains(kv) {
            let k = choose|k: int| 0 <= k < (a + b).len() && (a + b)[k] == kv;
            if k < a.len() {
                assert(a[k] == kv);
            } else {
                assert(b[k - a.len()] == kv);
            }
        }
        if a.contains(kv) {
            let k = choose|k: int| 0 <= k < a.len() && a[k] == kv;
            assert((a + b)[k] == kv);
        }
        if b.contains(kv) {
            let k = choose|k: int| 0 <= k < b.len() && b[k] == kv;
            assert((a + b)[a.len() + k] == kv);
        }
    }
    assert((a + b).to_set() =~= a.to_set().union(b.to_set()));
}

/// Whether `vals` holds `v`.
fn contains_u64(vals: &[u64], v: u64) -> (r: bool)
    ensures
        r <==> vals@.contains(v),
{
    let n = vals.len();
    for i in 0..n
        invariant
            n == vals@.len(),
            forall|k: int| 0 <= k < i ==> vals@[k] != v,
    {
        if vals[i] == v {
            return true;
        }
    }
    false
}

/// The records of a sorted vector whose value lies in `vals`, by a linear
/// scan, in order.
fn vals_matches_vec(recs: &Vec<rill_kv>, vals: &[u64]) -> (out: Vec<rill_kv>)
    requires
        strictly_sorted(recs@),
    ensures
        strictly_sorted(out@),
        out@.to_set() == vals_matches(recs@, vals@),
{
    let n = recs.len();
    let mut out: Vec<rill_kv> = Vec::new();
    for i in 0..n
        invariant
            n == recs@.len(),
            strictly_sorted(recs@),
            strictly_sorted(out@),
            out@.to_set() == vals_matches(recs@.take(i as int), vals@),
            out@.len() > 0 ==> exists|m: int| 0 <= m < i && out@.last() == recs@[m],
    {
        let x = recs[i];
        proof {
            lemma_matches_take_step(recs@, vals@, i as int);
        }
        if contains_u64(vals, x.val) {
            proof {
                if out@.len() > 0 {
                    let m = choose|m: int| 0 <= m < i && out@.last() == recs@[m];
                    assert(kv_lt(recs@[m], recs@[i as int]));
                }
                assert forall|a: int| 0 <= a < out@.len() implies kv_lt(out@[a], x) by {
                    if a < out@.len() - 1 {
                        assert(kv_lt(out@[a], out@.last()));
                    }
                }
                out@.lemma_push_to_set_commute(x);
            }
            out.push(x);
            proof {
                assert(out@.last() == recs@[i as int]);
                assert(out@.to_set() =~= vals_matches(recs@.take(i + 1), vals@));
            }
        } else {
            proof {
                assert(out@.to_set() =~= vals_matches(recs@.take(i + 1), vals@));
            }
        }
    }
    proof {
        assert(recs@.take(n as int) =~= recs@);
    }
    out
}

/// Extending a record prefix by one record adds it to the value matches
/// exactly when its value is wanted.
proof fn lemma_matches_take_step(s: Seq<rill_kv>, vals: Seq<u64>, i: int)
    requires
        0 <= i < s.len(),
    ensures
        vals.contains(s[i].val) ==> vals_matches(s.take(i + 1), vals) == vals_matches(
            s.take(i),
            vals,
        ).insert(s[i]),
        !vals.contains(s[i].val) ==> vals_matches(s.take(i + 1), vals) == vals_matches(
            s.take(i),
            vals,
        ),
{
    let a = s.take(i);
    let b = s.take(i + 1);
    assert forall|kv: rill_kv| b.contains(kv) <==> a.contains(kv) || kv == s[i] by {
        if b.contains(kv) {
            let k = choose|k: int| 0 <= k < b.len() && b[k] == kv;
            if k < i {
                assert(a[k] == kv);
            }
        }
        if a.contains(kv) {
            let k = choose|k: int| 0 <= k < a.len() && a[k] == kv;
            assert(b[k] == kv);
        }
        if kv == s[i] {
            assert(b[i] == kv);
        }
    }
    if vals.contains(s[i].val) {
        assert(vals_matches(b, vals) =~= vals_matches(a, vals).insert(s[i]));
    } else {
        assert(vals_matches(b, vals) =~= vals_matches(a, vals));
    }
}

/// The sorted, deduplicated merge of two sorted, deduplicated record
/// vectors: it holds exactly the union of their records, each once.
pub(crate) fn merge_two(a: &Vec<rill_kv>, b: &Vec<rill_kv>) -> (out: Vec<rill_kv>)
    requires
        strictly_sorted(a@),
        strictly_sorted(b@),
    ensures
        strictly_sorted(out@),
        out@.to_set() == a@.to_set().union(b@.to_set()),
{
    let an = a.len();
    let bn = b.len();
    let mut out: Vec<rill_kv> = Vec::new();
    let mut i: usize = 0;
    let mut j: usize = 0;
    while i < an || j < bn
        invariant
            an == a@.len(),
            bn == b@.len(),
            strictly_sorted(a@),
            strictly_sorted(b@),
            i <= an,
            j <= bn,
            strictly_sorted(out@),
            out@.to_set() == a@.take(i as int).to_set().union(b@.take(j as int).to_set()),
            out@.len() > 0 && i < an ==> kv_lt(out@.last(), a@[i as int]),
            out@.len() > 0 && j < bn ==> kv_lt(out@.last(), b@[j as int]),
        decreases an - i + bn - j,
    {
        let take_a = if i < an {
            if j < bn {
                !kv_less(&b[j], &a[i])
            } else {
                true
            }
        } else {
            false
        };
        let x = if take_a {
            a[i]
        } else {
            b[j]
        };
        let dup_b = j < bn && b[j].key == x.key && b[j].val == x.val;
        proof {
            assert forall|p: int| 0 <= p < out@.len() implies kv_lt(out@[p], x) by {
                if p < out@.len() - 1 {
                    assert(kv_lt(out@[p], out@.last()));
                }
            }
            if take_a {
                lemma_take_push_to_set(a@, i as int);
            }
            if dup_b {
                lemma_take_push_to_set(b@, j as int);
            }
            if !take_a {
                lemma_take_push_to_set(b@, j as int);
            }
            out@.lemma_push_to_set_commute(x);
        }
        out.push(x);
        if take_a {
            i = i + 1;
            if dup_b {
                j = j + 1;
            }
            proof {
                assert(out@.to_set() =~= a@.take(i as int).to_set().union(
                    b@.take(j as int).to_set(),
                ));
            }
        } else {
            j = j + 1;
            proof {
                assert(out@.to_set() =~= a@.take(i as int).to_set().union(
                    b@.take(j as int).to_set(),
                ));
            }
        }
        proof {
            if i < an {
                assert(kv_lt(out@.last(), a@[i as int]));
            }
            if j < bn {
                assert(kv_lt(out@.last(), b@[j as int]));
            }
        }
    }
    proof {
        assert(a@.take(an as int) =~= a@);
        assert(b@.take(bn as int) =~= b@);
    }
    out
}

/// Pairwise order between neighbours extends to any two positions.
proof fn lemma_adjacent_sorted(s: Seq<rill_kv>, a: int, b: int)
    requires
        forall|k: int| 0 < k < s.len() ==> kv_lt(s[k - 1], #[trigger] s[k]),
        0 <= a < b < s.len(),
    ensures
        kv_lt(s[a], s[b]),
    decreases b - a,
{
    if b == a + 1 {
        assert(kv_lt(s[b - 1], s[b]));
    } else {
        lemma_adjacent_sorted(s, a, b - 1);
        assert(kv_lt(s[b - 1], s[b]));
    }
}

/// Extending a prefix by one element inserts it into the prefix's set.
proof fn lemma_take_push_to_set(s: Seq<rill_kv>, i: int)
    requires
        0 <= i < s.len(),
    ensures
        s.take(i + 1).to_set() == s.take(i).to_set().insert(s[i]),
{
    assert(s.take(i + 1) =~= s.take(i).push(s[i]));
    s.take(i).lemma_push_to_set_commute(s[i]);
}

} // verus!
