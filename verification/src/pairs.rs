//! A growable, push-only sequence of records with an in-place sort + dedupe.

use vstd::prelude::*;

use crate::kv::kv_less;
use crate::kv::kv_lt;
use crate::kv::rill_kv;
use crate::kv::strictly_sorted;
use crate::error::rill_error;

verus! {

/// A growable sequence of `(key, val)` records. It behaves as an append log:
/// records arrive by [`Pairs::push`] in any order, with duplicates, and
/// [`Pairs::compact`] sorts them by the KV order and removes duplicates in
/// place. Capacity grows geometrically on overflow and is kept across
/// [`Pairs::clear`].
pub struct Pairs {
    data: Vec<rill_kv>,
    cap: usize,
}

impl View for Pairs {
    type V = Seq<rill_kv>;

    closed spec fn view(&self) -> Seq<rill_kv> {
        self.data@
    }
}

/// The capacity after one geometric growth step.
pub open spec fn grown_capacity(cap: int) -> int {
    if cap == 0 {
        1
    } else {
        2 * cap
    }
}

/// Whether `m` more records fit into a pair set of length `len` and
/// capacity `cap`: a full set doubles its capacity, and doubling is
/// representable only up to `usize::MAX / 2`.
pub open spec fn can_append(len: int, cap: int, m: int) -> bool
    decreases m,
{
    if m <= 0 {
        true
    } else if len < cap {
        can_append(len + 1, cap, m - 1)
    } else if cap > usize::MAX / 2 {
        false
    } else {
        can_append(len + 1, grown_capacity(cap), m - 1)
    }
}

/// Appending always fits while the final length stays within
/// `usize::MAX / 2`, whatever the capacity.
pub proof fn lemma_can_append_within(len: int, cap: int, m: int)
    requires
        0 <= len,
        0 <= cap,
        0 <= m,
        len + m <= usize::MAX / 2,
    ensures
        can_append(len, cap, m),
    decreases m,
{
    if m > 0 {
        if len < cap {
            lemma_can_append_within(len + 1, cap, m - 1);
        } else if cap <= usize::MAX / 2 {
            lemma_can_append_within(len + 1, grown_capacity(cap), m - 1);
        } else {
            assert(len >= cap > usize::MAX / 2);
            assert(false);
        }
    }
}

impl Pairs {
    /// The current logical capacity.
    pub closed spec fn spec_capacity(&self) -> usize {
        self.cap
    }

    /// The length never exceeds the capacity.
    pub open spec fn wf(&self) -> bool {
        self@.len() <= self.spec_capacity()
    }

    /// Allocates a pair set with room for `cap` records before the first
    /// growth.
    pub fn with_capacity(cap: usize) -> (r: Result<Pairs, rill_error>)
        ensures
            r is Ok,
            r->Ok_0.wf(),
            r->Ok_0@ == Seq::<rill_kv>::empty(),
            r->Ok_0.spec_capacity() == cap,
    {
        let data: Vec<rill_kv> = Vec::with_capacity(cap);
        assert(data@ =~= Seq::<rill_kv>::empty());
        Ok(Pairs { data, cap })
    }

    /// Resets the length to zero without releasing capacity, so the pair set
    /// can be reused across calls.
    pub fn clear(&mut self)
        ensures
            final(self)@ == Seq::<rill_kv>::empty(),
            final(self).spec_capacity() == old(self).spec_capacity(),
            final(self).wf(),
    {
        self.data.clear();
        assert(self.data@ =~= Seq::<rill_kv>::empty());
    }

    /// The number of records the set can hold before the next growth.
    pub fn capacity(&self) -> (c: usize)
        ensures
            c == self.spec_capacity(),
    {
        self.cap
    }

    /// The number of records currently held.
    pub fn len(&self) -> (n: usize)
        ensures
            n == self@.len(),
    {
        self.data.len()
    }

    /// The record at `index`, or `OutOfRangeError` past the length.
    pub fn get(&self, index: usize) -> (r: Result<rill_kv, rill_error>)
        ensures
            index < self@.len() ==> r == Ok::<rill_kv, rill_error>(self@[index as int]),
            index >= self@.len() ==> r == Err::<rill_kv, rill_error>(rill_error::OutOfRangeError),
    {
        if index < self.data.len() {
            Ok(self.data[index])
        } else {
            Err(rill_error::OutOfRangeError)
        }
    }

    /// Appends a record, doubling the capacity when full. Fails with
    /// `AllocationError` only when the doubled capacity cannot be
    /// represented; the pair set is then left unchanged.
    pub fn push(&mut self, key: u64, val: u64) -> (r: Result<(), rill_error>)
        requires
            old(self).wf(),
        ensures
            final(self).wf(),
            r is Ok <==> (old(self)@.len() < old(self).spec_capacity()
                || old(self).spec_capacity() <= usize::MAX / 2),
            r is Ok ==> final(self)@ == old(self)@.push(rill_kv { key, val }),
            r is Err ==> r == Err::<(), rill_error>(rill_error::AllocationError)
                && *final(self) == *old(self),
            final(self).spec_capacity() >= old(self).spec_capacity(),
            r is Ok && old(self)@.len() < old(self).spec_capacity() ==> final(self).spec_capacity() == old(self).spec_capacity(),
            r is Ok && old(self)@.len() >= old(self).spec_capacity() ==> final(self).spec_capacity() as int == grown_capacity(old(self).spec_capacity() as int),
    {
        if self.data.len() >= self.cap {
            if self.cap > usize::MAX / 2 {
                return Err(rill_error::AllocationError);
            }
            let grown = if self.cap == 0 { 1 } else { self.cap * 2 };
            self.cap = grown;
        }
        self.data.push(rill_kv { key, val });
        Ok(())
    }

    /// The records as a vector, for the store layer.
    pub(crate) fn records(&self) -> (v: &Vec<rill_kv>)
        ensures
            v@ == self@,
    {
        &self.data
    }

    /// Appends every record of `v` in order. On `AllocationError` a prefix
    /// of `v` has been appended.
    pub(crate) fn append_all(&mut self, v: &Vec<rill_kv>) -> (r: Result<(), rill_error>)
        requires
            old(self).wf(),
        ensures
            final(self).wf(),
            final(self).spec_capacity() >= old(self).spec_capacity(),
            r is Ok ==> final(self)@ == old(self)@ + v@,
            r is Err ==> r == Err::<(), rill_error>(rill_error::AllocationError) && (exists|k: int|
                0 <= k <= v@.len() && final(self)@ == old(self)@ + v@.take(k)),
            r is Ok <==> can_append(
                old(self)@.len() as int,
                old(self).spec_capacity() as int,
                v@.len() as int,
            ),
    {
        let m = v.len();
        for i in 0..m
            invariant
                m == v@.len(),
                self.wf(),
                self.spec_capacity() >= old(self).spec_capacity(),
                self@ == old(self)@ + v@.take(i as int),
                can_append(old(self)@.len() as int, old(self).spec_capacity() as int, m as int)
                    == can_append(self@.len() as int, self.spec_capacity() as int, m - i),
        {
            let kv = v[i];
            let ghost pre_len = self@.len() as int;
            let ghost pre_cap = self.spec_capacity() as int;
            let r = self.push(kv.key, kv.val);
            if r.is_err() {
                proof {
                    assert(self@ == old(self)@ + v@.take(i as int));
                    assert(pre_len >= pre_cap && pre_cap > usize::MAX / 2);
                    assert(!can_append(pre_len, pre_cap, m - i));
                }
                return Err(rill_error::AllocationError);
            }
            proof {
                assert(self@ =~= old(self)@ + v@.take(i + 1));
                if pre_len < pre_cap {
                    assert(can_append(pre_len, pre_cap, m - i) == can_append(
                        pre_len + 1,
                        pre_cap,
                        m - i - 1,
                    ));
                } else {
                    assert(can_append(pre_len, pre_cap, m - i) == can_append(
                        pre_len + 1,
                        grown_capacity(pre_cap),
                        m - i - 1,
                    ));
                }
            }
        }
        proof {
            assert(v@.take(m as int) =~= v@);
        }
        Ok(())
    }

    /// Sorts all records by the KV order and removes duplicates, in place:
    /// afterwards the records are strictly increasing and hold exactly the
    /// set of records held before.
    pub fn compact(&mut self)
        ensures
            old(self).wf() ==> final(self).wf(),
            final(self).spec_capacity() == old(self).spec_capacity(),
            strictly_sorted(final(self)@),
            final(self)@.to_set() == old(self)@.to_set(),
            final(self)@.len() <= old(self)@.len(),
    {
        let out = compacted(&self.data);
        self.data = out;
    }
}

/// The position in a strictly sorted vector before which every record is
/// below `x` and from which none is.
fn lower_bound_kv(v: &Vec<rill_kv>, x: &rill_kv) -> (p: usize)
    requires
        strictly_sorted(v@),
    ensures
        p <= v@.len(),
        forall|k: int| 0 <= k < p ==> kv_lt(v@[k], *x),
        forall|k: int| p <= k < v@.len() ==> !kv_lt(v@[k], *x),
{
    let mut lo: usize = 0;
    let mut hi: usize = v.len();
    while lo < hi
        invariant
            lo <= hi <= v@.len(),
            strictly_sorted(v@),
            forall|k: int| 0 <= k < lo ==> kv_lt(v@[k], *x),
            forall|k: int| hi <= k < v@.len() ==> !kv_lt(v@[k], *x),
        decreases hi - lo,
    {
        let mid = lo + (hi - lo) / 2;
        if kv_less(&v[mid], x) {
            proof {
                assert forall|k: int| 0 <= k < mid + 1 implies kv_lt(v@[k], *x) by {
                    if k < mid {
                        assert(kv_lt(v@[k], v@[mid as int]));
                    }
                }
            }
            lo = mid + 1;
        } else {
            proof {
                assert forall|k: int| mid <= k < v@.len() implies !kv_lt(v@[k], *x) by {
                    if k > mid {
                        assert(kv_lt(v@[mid as int], v@[k]));
                    }
                }
            }
            hi = mid;
        }
    }
    lo
}

/// The strictly sorted vector holding exactly the records of `src`.
pub(crate) fn compacted(src: &Vec<rill_kv>) -> (out: Vec<rill_kv>)
    ensures
        strictly_sorted(out@),
        out@.to_set() == src@.to_set(),
        out@.len() <= src@.len(),
{
    let mut out: Vec<rill_kv> = Vec::new();
    let n = src.len();
    for i in 0..n
        invariant
            n == src@.len(),
            strictly_sorted(out@),
            out@.to_set() == src@.take(i as int).to_set(),
            out@.len() <= i,
    {
        let x = src[i];
        let p = lower_bound_kv(&out, &x);
        proof {
            assert(src@.take(i + 1) =~= src@.take(i as int).push(x));
            src@.take(i as int).lemma_push_to_set_commute(x);
        }
        if p < out.len() && out[p].key == x.key && out[p].val == x.val {
            proof {
                assert(out@.to_set().contains(out@[p as int]));
                assert(out@.to_set().insert(x) =~= out@.to_set());
            }
        } else {
            proof {
                lemma_sorted_insert(out@, p as int, x);
            }
            out.insert(p, x);
        }
    }
    proof {
        assert(src@.take(n as int) =~= src@);
    }
    out
}

/// Inserting a record between the records below it and the records above it
/// keeps a sequence strictly sorted and adds the record to its set.
proof fn lemma_sorted_insert(s: Seq<rill_kv>, p: int, x: rill_kv)
    requires
        strictly_sorted(s),
        0 <= p <= s.len(),
        forall|k: int| 0 <= k < p ==> kv_lt(s[k], x),
        forall|k: int| p <= k < s.len() ==> kv_lt(x, s[k]),
    ensures
        strictly_sorted(s.insert(p, x)),
        s.insert(p, x).to_set() == s.to_set().insert(x),
{
    let t = s.insert(p, x);
    s.insert_ensures(p, x);
    assert forall|i: int, j: int| 0 <= i < j < t.len() implies kv_lt(t[i], t[j]) by {
        if j < p {
            assert(t[i] == s[i] && t[j] == s[j]);
        } else if i > p {
            assert(t[i] == s[i - 1] && t[j] == s[j - 1]);
        } else if i < p && j == p {
            assert(t[i] == s[i] && t[j] == x);
        } else if i == p && j > p {
            assert(t[i] == x && t[j] == s[j - 1]);
        } else {
            assert(i < p && j > p);
            assert(t[i] == s[i] && t[j] == s[j - 1]);
            if p < s.len() {
                assert(kv_lt(s[i], x));
                assert(kv_lt(x, s[j - 1]));
            }
        }
    }
    assert forall|y: rill_kv| t.to_set().contains(y) implies s.to_set().contains(y) || y == x by {
        let k = choose|k: int| 0 <= k < t.len() && t[k] == y;
        if k < p {
            assert(s[k] == y);
            assert(s.contains(y));
        } else if k == p {
            assert(y == x);
        } else {
            assert(s[k - 1] == y);
            assert(s.contains(y));
        }
    }
    assert forall|y: rill_kv| s.to_set().contains(y) || y == x implies t.to_set().contains(y) by {
        if y == x {
            assert(t[p] == x);
            assert(t.contains(y));
        } else {
            let k = choose|k: int| 0 <= k < s.len() && s[k] == y;
            if k < p {
                assert(t[k] == y);
            } else {
                assert(t[k + 1] == y);
            }
            assert(t.contains(y));
        }
    }
    assert(t.to_set() =~= s.to_set().insert(x));
}

} // verus!
