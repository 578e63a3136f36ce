//! An open-addressing hash set over `(key, val)` records.

use vstd::prelude::*;
use vstd::arithmetic::div_mod::lemma_small_mod;
use vstd::pervasive::unreached;
use vstd::arithmetic::div_mod::lemma_mod_add_multiples_vanish;

use crate::error::rill_error;
use crate::kv::rill_kv;
use crate::pairs::Pairs;

verus! {

/// An open-addressing hash set keyed by the full `(key, val)` pair. The hash
/// is seeded per table instance to avoid adversarial collision flooding;
/// linear probing guarantees termination because the backing storage always
/// keeps at least one empty slot, and the table rehashes into larger storage
/// when the load factor passes three quarters. No duplicate records ever
/// coexist.
pub struct AssocTable {
    slots: Vec<Option<rill_kv>>,
    used: usize,
    seed: u64,
}

/// The seeded hash of one record.
pub closed spec fn kv_hash(seed: u64, key: u64, val: u64) -> u64 {
    let a = seed ^ key;
    let b = a ^ (a >> 33);
    let c = b ^ (b << 13);
    let d = c ^ val;
    let e = d ^ (d >> 7);
    e ^ (e << 17)
}

/// Computes the seeded hash of one record.
fn kv_hash_exec(seed: u64, key: u64, val: u64) -> (h: u64)
    ensures
        h == kv_hash(seed, key, val),
{
    let a = seed ^ key;
    let b = a ^ (a >> 33);
    let c = b ^ (b << 13);
    let d = c ^ val;
    let e = d ^ (d >> 7);
    e ^ (e << 17)
}

/// The records held in a slot sequence.
pub open spec fn slots_set(s: Seq<Option<rill_kv>>) -> Set<rill_kv> {
    Set::new(|kv: rill_kv| exists|i: int| 0 <= i < s.len() && s[i] == Some(kv))
}

/// The slot a record's probe sequence starts at.
spec fn start_slot(seed: u64, kv: rill_kv, n: int) -> int {
    kv_hash(seed, kv.key, kv.val) as int % n
}

/// The slot the probe sequence from `h` reaches after `k` steps.
spec fn probe(h: int, k: int, n: int) -> int {
    (h + k) % n
}

/// How many probe steps from `h` reach slot `i`.
spec fn dist(h: int, i: int, n: int) -> int {
    (i - h + n) % n
}

/// No record occupies two slots.
spec fn no_dup_slots(s: Seq<Option<rill_kv>>) -> bool {
    forall|i: int, j: int|
        0 <= i < s.len() && 0 <= j < s.len() && i != j && s[i] is Some ==> s[i] != s[j]
}

/// The record in slot `i` is reachable by probing: every slot on its probe
/// path before `i` is occupied.
spec fn reachable(s: Seq<Option<rill_kv>>, seed: u64, i: int) -> bool {
    let n = s.len() as int;
    let h = start_slot(seed, s[i]->0, n);
    forall|k: int| 0 <= k < dist(h, i, n) ==> s[#[trigger] probe(h, k, n)] is Some
}

/// The slot sequence is a well-formed open-addressing table.
spec fn table_inv(s: Seq<Option<rill_kv>>, seed: u64) -> bool {
    &&& s.len() > 0
    &&& no_dup_slots(s)
    &&& forall|i: int| 0 <= i < s.len() && s[i] is Some ==> #[trigger] reachable(s, seed, i)
}

/// How many slots are occupied.
spec fn count_full(s: Seq<Option<rill_kv>>) -> nat
    decreases s.len(),
{
    if s.len() == 0 {
        0
    } else {
        count_full(s.drop_last()) + if s.last() is Some {
            1nat
        } else {
            0nat
        }
    }
}

/// A number below `2n` reduces modulo `n` by at most one subtraction.
proof fn lemma_mod_window(a: int, n: int)
    requires
        n > 0,
        0 <= a < 2 * n,
    ensures
        a % n == if a < n {
            a
        } else {
            a - n
        },
{
    if a < n {
        lemma_small_mod(a as nat, n as nat);
    } else {
        lemma_mod_add_multiples_vanish(a - n, n);
        lemma_small_mod((a - n) as nat, n as nat);
    }
}

/// Probing `dist(h, i, n)` steps from `h` reaches slot `i`.
proof fn lemma_probe_dist(h: int, i: int, n: int)
    requires
        0 <= h < n,
        0 <= i < n,
    ensures
        0 <= dist(h, i, n) < n,
        probe(h, dist(h, i, n), n) == i,
{
    lemma_mod_window(i - h + n, n);
    let d = dist(h, i, n);
    lemma_mod_window(h + d, n);
}

/// The `k`-th probe slot lies `k` steps from `h`.
proof fn lemma_dist_probe(h: int, k: int, n: int)
    requires
        0 <= h < n,
        0 <= k < n,
    ensures
        0 <= probe(h, k, n) < n,
        dist(h, probe(h, k, n), n) == k,
{
    lemma_mod_window(h + k, n);
    let p = probe(h, k, n);
    lemma_mod_window(p - h + n, n);
}

/// A sequence of empty slots has no occupied ones.
proof fn lemma_count_all_none(s: Seq<Option<rill_kv>>)
    requires
        forall|i: int| 0 <= i < s.len() ==> s[i] is None,
    ensures
        count_full(s) == 0,
    decreases s.len(),
{
    if s.len() > 0 {
        lemma_count_all_none(s.drop_last());
    }
}

/// A sequence of occupied slots has no empty ones.
proof fn lemma_count_all_some(s: Seq<Option<rill_kv>>)
    requires
        forall|i: int| 0 <= i < s.len() ==> s[i] is Some,
    ensures
        count_full(s) == s.len(),
    decreases s.len(),
{
    if s.len() > 0 {
        lemma_count_all_some(s.drop_last());
    }
}

/// Overwriting one slot changes the occupied count by the two slots' states.
proof fn lemma_count_update(s: Seq<Option<rill_kv>>, i: int, v: Option<rill_kv>)
    requires
        0 <= i < s.len(),
    ensures
        count_full(s.update(i, v)) == count_full(s) - (if s[i] is Some {
            1int
        } else {
            0int
        }) + (if v is Some {
            1int
        } else {
            0int
        }),
    decreases s.len(),
{
    let t = s.update(i, v);
    if i == s.len() - 1 {
        assert(t.drop_last() =~= s.drop_last());
    } else {
        assert(t.drop_last() =~= s.drop_last().update(i, v));
        lemma_count_update(s.drop_last(), i, v);
    }
}

/// The occupied count of a prefix never exceeds that of the whole.
proof fn lemma_count_take_le(s: Seq<Option<rill_kv>>, j: int)
    requires
        0 <= j <= s.len(),
    ensures
        count_full(s.take(j)) <= count_full(s),
    decreases s.len(),
{
    if j == s.len() {
        assert(s.take(j) =~= s);
    } else {
        assert(s.drop_last().take(j) =~= s.take(j));
        lemma_count_take_le(s.drop_last(), j);
    }
}

/// Extending a prefix by one slot raises its occupied count by that slot.
proof fn lemma_count_take_step(s: Seq<Option<rill_kv>>, j: int)
    requires
        0 <= j < s.len(),
    ensures
        count_full(s.take(j + 1)) == count_full(s.take(j)) + if s[j] is Some {
            1nat
        } else {
            0nat
        },
{
    assert(s.take(j + 1).drop_last() =~= s.take(j));
    assert(s.take(j + 1).last() == s[j]);
}

/// Probes for `x` from its start slot and claims the first empty slot if the
/// record is absent. Linear probing terminates because at least one slot is
/// empty, and finds any present copy of `x` because every held record's probe
/// path is fully occupied.
fn probe_insert(slots: &mut Vec<Option<rill_kv>>, seed: u64, x: rill_kv) -> (added: bool)
    requires
        table_inv(old(slots)@, seed),
        count_full(old(slots)@) + 1 < old(slots)@.len(),
    ensures
        table_inv(final(slots)@, seed),
        final(slots)@.len() == old(slots)@.len(),
        slots_set(final(slots)@) == slots_set(old(slots)@).insert(x),
        added <==> !slots_set(old(slots)@).contains(x),
        count_full(final(slots)@) == count_full(old(slots)@) + if added {
            1nat
        } else {
            0nat
        },
{
    let n = slots.len();
    let h = (kv_hash_exec(seed, x.key, x.val) % (n as u64)) as usize;
    proof {
        lemma_mod_window(kv_hash(seed, x.key, x.val) as int % n as int, n as int);
        assert(0 <= h < n);
        assert(h as int == start_slot(seed, x, n as int));
    }
    let mut k: usize = 0;
    while k < n
        invariant
            slots@ == old(slots)@,
            n == slots@.len(),
            0 < n,
            k <= n,
            h < n,
            h as int == start_slot(seed, x, n as int),
            table_inv(slots@, seed),
            count_full(slots@) + 1 < n,
            forall|k2: int|
                0 <= k2 < k ==> slots@[#[trigger] probe(h as int, k2, n as int)] is Some
                    && slots@[probe(h as int, k2, n as int)] != Some(x),
        decreases n - k,
    {
        let idx = if h >= n - k {
            h - (n - k)
        } else {
            h + k
        };
        proof {
            lemma_mod_window(h + k, n as int);
            assert(idx as int == probe(h as int, k as int, n as int));
            lemma_dist_probe(h as int, k as int, n as int);
        }
        match slots[idx] {
            None => {
                proof {
                    lemma_absent_on_empty(slots@, seed, x, h as int, k as int);
                    lemma_claim_slot(slots@, seed, x, h as int, k as int);
                    lemma_count_update(slots@, idx as int, Some(x));
                }
                slots.set(idx, Some(x));
                return true;
            },
            Some(y) => {
                if y.key == x.key && y.val == x.val {
                    proof {
                        assert(slots@[idx as int] == Some(x));
                        assert(slots_set(slots@).contains(x));
                        assert(slots_set(slots@).insert(x) =~= slots_set(slots@));
                    }
                    return false;
                }
                k = k + 1;
            },
        }
    }
    proof {
        assert forall|i: int| 0 <= i < n implies slots@[i] is Some by {
            lemma_probe_dist(h as int, i, n as int);
            let d = dist(h as int, i, n as int);
            assert(slots@[probe(h as int, d, n as int)] is Some);
        }
        lemma_count_all_some(slots@);
    }
    unreached()
}

/// A record cannot be held anywhere once its probe sequence meets an empty
/// slot whose predecessors all differ from it.
proof fn lemma_absent_on_empty(
    s: Seq<Option<rill_kv>>,
    seed: u64,
    x: rill_kv,
    h: int,
    k: int,
)
    requires
        table_inv(s, seed),
        0 <= h < s.len(),
        0 <= k < s.len(),
        h == start_slot(seed, x, s.len() as int),
        s[probe(h, k, s.len() as int)] is None,
        forall|k2: int|
            0 <= k2 < k ==> s[#[trigger] probe(h, k2, s.len() as int)] is Some
                && s[probe(h, k2, s.len() as int)] != Some(x),
    ensures
        !slots_set(s).contains(x),
{
    let n = s.len() as int;
    if slots_set(s).contains(x) {
        let i = choose|i: int| 0 <= i < s.len() && s[i] == Some(x);
        lemma_probe_dist(h, i, n);
        let d = dist(h, i, n);
        assert(reachable(s, seed, i));
        if d < k {
            assert(s[probe(h, d, n)] != Some(x));
            assert(probe(h, d, n) == i);
            assert(false);
        } else if d == k {
            assert(probe(h, d, n) == i);
            assert(false);
        } else {
            assert(s[probe(h, k, n)] is Some);
            assert(false);
        }
    }
}

/// Writing an absent record into the first empty slot of its probe sequence
/// keeps the table well formed and adds exactly that record.
proof fn lemma_claim_slot(s: Seq<Option<rill_kv>>, seed: u64, x: rill_kv, h: int, k: int)
    requires
        table_inv(s, seed),
        0 <= h < s.len(),
        0 <= k < s.len(),
        h == start_slot(seed, x, s.len() as int),
        s[probe(h, k, s.len() as int)] is None,
        !slots_set(s).contains(x),
        forall|k2: int| 0 <= k2 < k ==> s[#[trigger] probe(h, k2, s.len() as int)] is Some,
    ensures
        table_inv(s.update(probe(h, k, s.len() as int), Some(x)), seed),
        slots_set(s.update(probe(h, k, s.len() as int), Some(x))) == slots_set(s).insert(x),
{
    let n = s.len() as int;
    let idx = probe(h, k, n);
    lemma_dist_probe(h, k, n);
    let t = s.update(idx, Some(x));
    assert forall|i: int| 0 <= i < t.len() && t[i] is Some implies #[trigger] reachable(
        t,
        seed,
        i,
    ) by {
        if i == idx {
            assert(t[i]->0 == x);
            assert(dist(h, i, n) == k);
            assert forall|k2: int| 0 <= k2 < k implies t[#[trigger] probe(h, k2, n)] is Some by {
                assert(s[probe(h, k2, n)] is Some);
            }
        } else {
            assert(s[i] is Some);
            assert(reachable(s, seed, i));
            let h2 = start_slot(seed, s[i]->0, n);
            assert forall|k2: int| 0 <= k2 < dist(h2, i, n) implies t[#[trigger] probe(
                h2,
                k2,
                n,
            )] is Some by {
                assert(s[probe(h2, k2, n)] is Some);
            }
            assert(t[i]->0 == s[i]->0);
        }
    }
    assert forall|i: int, j: int|
        0 <= i < t.len() && 0 <= j < t.len() && i != j && t[i] is Some implies t[i] != t[j] by {
        if i == idx {
            if t[j] == Some(x) {
                assert(s[j] == Some(x));
                assert(slots_set(s).contains(x));
            }
        } else if j == idx {
            if t[i] == Some(x) {
                assert(s[i] == Some(x));
                assert(slots_set(s).contains(x));
            }
        }
    }
    assert forall|y: rill_kv|
        slots_set(t).contains(y) <==> slots_set(s).contains(y) || y == x by {
        if slots_set(t).contains(y) {
            let i = choose|i: int| 0 <= i < t.len() && t[i] == Some(y);
            if i != idx {
                assert(s[i] == Some(y));
            }
        }
        if slots_set(s).contains(y) {
            let i = choose|i: int| 0 <= i < s.len() && s[i] == Some(y);
            assert(i != idx);
            assert(t[i] == Some(y));
        }
        if y == x {
            assert(t[idx] == Some(y));
        }
    }
    assert(slots_set(t) =~= slots_set(s).insert(x));
}

/// A vector of `n` empty slots.
fn empty_slots(n: usize) -> (out: Vec<Option<rill_kv>>)
    ensures
        out@.len() == n,
        forall|i: int| 0 <= i < n ==> out@[i] is None,
{
    let mut out: Vec<Option<rill_kv>> = Vec::new();
    let mut i: usize = 0;
    while i < n
        invariant
            i <= n,
            out@.len() == i,
            forall|j: int| 0 <= j < i ==> out@[j] is None,
        decreases n - i,
    {
        out.push(None);
        i = i + 1;
    }
    out
}

/// Extending a slot prefix by one slot adds that slot's record, if any.
proof fn lemma_slots_set_take_step(s: Seq<Option<rill_kv>>, j: int)
    requires
        0 <= j < s.len(),
    ensures
        s[j] is Some ==> slots_set(s.take(j + 1)) == slots_set(s.take(j)).insert(s[j]->0),
        s[j] is None ==> slots_set(s.take(j + 1)) == slots_set(s.take(j)),
{
    let a = s.take(j);
    let b = s.take(j + 1);
    assert forall|y: rill_kv|
        slots_set(b).contains(y) <==> slots_set(a).contains(y) || s[j] == Some(y) by {
        if slots_set(b).contains(y) {
            let i = choose|i: int| 0 <= i < b.len() && b[i] == Some(y);
            if i < j {
                assert(a[i] == Some(y));
            }
        }
        if slots_set(a).contains(y) {
            let i = choose|i: int| 0 <= i < a.len() && a[i] == Some(y);
            assert(b[i] == Some(y));
        }
        if s[j] == Some(y) {
            assert(b[j] == Some(y));
        }
    }
    if s[j] is Some {
        assert(slots_set(b) =~= slots_set(a).insert(s[j]->0));
    } else {
        assert(slots_set(b) =~= slots_set(a));
    }
}

/// Rehashes every held record into a fresh table of `n2` slots.
fn rehash(src: &Vec<Option<rill_kv>>, seed: u64, n2: usize) -> (out: Vec<Option<rill_kv>>)
    requires
        table_inv(src@, seed),
        count_full(src@) + 1 < n2,
    ensures
        table_inv(out@, seed),
        out@.len() == n2,
        slots_set(out@) == slots_set(src@),
        count_full(out@) == count_full(src@),
{
    let mut out = empty_slots(n2);
    proof {
        lemma_count_all_none(out@);
        assert(slots_set(out@) =~= slots_set(src@.take(0)));
    }
    let m = src.len();
    for j in 0..m
        invariant
            m == src@.len(),
            out@.len() == n2,
            table_inv(out@, seed),
            table_inv(src@, seed),
            count_full(src@) + 1 < n2,
            count_full(out@) == count_full(src@.take(j as int)),
            slots_set(out@) == slots_set(src@.take(j as int)),
    {
        proof {
            lemma_count_take_step(src@, j as int);
            lemma_count_take_le(src@, j + 1);
            lemma_slots_set_take_step(src@, j as int);
        }
        match src[j] {
            None => {
            },
            Some(y) => {
                proof {
                    if slots_set(out@).contains(y) {
                        let i = choose|i: int|
                            0 <= i < src@.take(j as int).len() && src@.take(j as int)[i] == Some(
                                y,
                            );
                        assert(src@[i] == Some(y) && src@[j as int] == Some(y) && i != j);
                        assert(false);
                    }
                }
                let added = probe_insert(&mut out, seed, y);
                assert(added);
            },
        }
    }
    proof {
        assert(src@.take(m as int) =~= src@);
    }
    out
}

/// The backing slot count a capacity hint yields: at least eight, at most
/// half the address space, so that one doubling always stays representable.
pub open spec fn initial_slot_count(cap: usize) -> nat {
    if cap < 8 {
        8nat
    } else if cap > usize::MAX / 2 {
        (usize::MAX / 2) as nat
    } else {
        cap as nat
    }
}

impl AssocTable {
    /// The set of records the table holds.
    pub closed spec fn contents(&self) -> Set<rill_kv> {
        slots_set(self.slots@)
    }

    /// The number of backing slots.
    pub closed spec fn spec_slot_count(&self) -> nat {
        self.slots@.len()
    }

    /// The table is a well-formed open-addressing set with a spare slot.
    pub closed spec fn wf(&self) -> bool {
        &&& table_inv(self.slots@, self.seed)
        &&& self.used == count_full(self.slots@)
        &&& count_full(self.slots@) + 1 < self.slots@.len()
    }

    /// Creates an empty table sized by `cap` records, hashing with `seed`.
    /// The seed is an explicit construction parameter so that tests can be
    /// deterministic; callers wanting collision-flooding resistance pass a
    /// random one.
    pub fn new(cap: usize, seed: u64) -> (t: AssocTable)
        ensures
            t.wf(),
            t.contents() == Set::<rill_kv>::empty(),
            t.spec_slot_count() == initial_slot_count(cap),
            t.spec_slot_count() <= usize::MAX / 2,
    {
        let n = if cap < 8 {
            8
        } else if cap > usize::MAX / 2 {
            usize::MAX / 2
        } else {
            cap
        };
        let slots = empty_slots(n);
        proof {
            lemma_count_all_none(slots@);
            assert(slots_set(slots@) =~= Set::<rill_kv>::empty());
        }
        AssocTable { slots, used: 0, seed }
    }

    /// Inserts one record; inserting a present record is a no-op. Returns
    /// whether the record was newly added. Fails with `AllocationError` only
    /// when the doubled slot count cannot be represented; the table is then
    /// left unchanged.
    pub fn insert(&mut self, key: u64, val: u64) -> (r: Result<bool, rill_error>)
        requires
            old(self).wf(),
        ensures
            final(self).wf(),
            r is Ok ==> final(self).contents() == old(self).contents().insert(
                rill_kv { key, val },
            ),
            r is Ok ==> (r->Ok_0 <==> !old(self).contents().contains(rill_kv { key, val })),
            r is Err ==> r == Err::<bool, rill_error>(rill_error::AllocationError) && *final(self)
                == *old(self),
            old(self).spec_slot_count() <= usize::MAX / 2 ==> r is Ok,
            final(self).spec_slot_count() == old(self).spec_slot_count() || final(self).spec_slot_count() == 2 * old(self).spec_slot_count(),
    {
        let x = rill_kv { key, val };
        let n = self.slots.len();
        if (self.used as u128 + 2) * 4 > (n as u128) * 3 {
            if n > usize::MAX / 2 {
                return Err(rill_error::AllocationError);
            }
            let grown = rehash(&self.slots, self.seed, n * 2);
            self.slots = grown;
        }
        let added = probe_insert(&mut self.slots, self.seed, x);
        if added {
            self.used = self.used + 1;
        }
        Ok(added)
    }

    /// Copies all held records out, in slot order, without duplicates.
    pub(crate) fn to_vec(&self) -> (v: Vec<rill_kv>)
        requires
            self.wf(),
        ensures
            v@.no_duplicates(),
            v@.to_set() == self.contents(),
            v@.len() <= self.spec_slot_count(),
    {
        let mut v: Vec<rill_kv> = Vec::new();
        let m = self.slots.len();
        proof {
            assert(v@.to_set() =~= slots_set(self.slots@.take(0)));
        }
        for j in 0..m
            invariant
                m == self.slots@.len(),
                table_inv(self.slots@, self.seed),
                v@.no_duplicates(),
                v@.to_set() == slots_set(self.slots@.take(j as int)),
                v@.len() <= j,
        {
            proof {
                lemma_slots_set_take_step(self.slots@, j as int);
            }
            match self.slots[j] {
                None => {
                },
                Some(y) => {
                    proof {
                        if v@.to_set().contains(y) {
                            let i = choose|i: int|
                                0 <= i < j && self.slots@.take(j as int)[i] == Some(y);
                            assert(self.slots@[i] == Some(y) && self.slots@[j as int] == Some(y)
                                && i != j);
                            assert(false);
                        }
                        lemma_no_duplicates_push(v@, y);
                        v@.lemma_push_to_set_commute(y);
                    }
                    v.push(y);
                },
            }
        }
        proof {
            assert(self.slots@.take(m as int) =~= self.slots@);
        }
        v
    }

    /// Empties the table, keeping its backing storage size.
    pub fn clear(&mut self)
        requires
            old(self).wf(),
        ensures
            final(self).wf(),
            final(self).contents() == Set::<rill_kv>::empty(),
    {
        let n = self.slots.len();
        let fresh = empty_slots(n);
        proof {
            lemma_count_all_none(fresh@);
            assert(slots_set(fresh@) =~= Set::<rill_kv>::empty());
        }
        self.slots = fresh;
        self.used = 0;
    }

    /// Copies all entries into the pair set, unordered, and empties the
    /// table. On `AllocationError` from the pair set the table is left
    /// unchanged, though some entries may already have been appended.
    pub fn drain_into(&mut self, out: &mut Pairs) -> (r: Result<(), rill_error>)
        requires
            old(self).wf(),
            old(out).wf(),
        ensures
            final(self).wf(),
            final(out).wf(),
            old(out)@.is_prefix_of(final(out)@),
            r is Ok ==> {
                &&& final(self).contents() == Set::<rill_kv>::empty()
                &&& final(out)@.skip(old(out)@.len() as int).no_duplicates()
                &&& final(out)@.skip(old(out)@.len() as int).to_set() == old(self).contents()
            },
            r is Err ==> r == Err::<(), rill_error>(rill_error::AllocationError) && *final(self)
                == *old(self) && (forall|k: int|
                old(out)@.len() <= k < final(out)@.len() ==> old(self).contents().contains(
                    #[trigger] final(out)@[k],
                )),
            old(out)@.len() + old(self).spec_slot_count() <= usize::MAX / 2 ==> r is Ok,
    {
        let v = self.to_vec();
        let m = v.len();
        for i in 0..m
            invariant
                m == v@.len(),
                v@.no_duplicates(),
                v@.to_set() == self.contents(),
                v@.len() <= old(self).spec_slot_count(),
                self.wf(),
                *self == *old(self),
                out.wf(),
                out@ == old(out)@ + v@.take(i as int),
        {
            let kv = v[i];
            let r = out.push(kv.key, kv.val);
            if r.is_err() {
                proof {
                    if old(out)@.len() + old(self).spec_slot_count() <= usize::MAX / 2 {
                        assert(false);
                    }
                    assert forall|k: int|
                        old(out)@.len() <= k < out@.len() implies self.contents().contains(
                        out@[k],
                    ) by {
                        assert(out@[k] == v@.take(i as int)[k - old(out)@.len()]);
                        assert(v@.contains(out@[k]));
                    }
                }
                return Err(rill_error::AllocationError);
            }
            proof {
                assert(out@ =~= old(out)@ + v@.take(i + 1));
            }
        }
        proof {
            assert(v@.take(m as int) =~= v@);
            assert(out@.skip(old(out)@.len() as int) =~= v@);
        }
        self.clear();
        Ok(())
    }
}

/// Appending a fresh element keeps a sequence free of duplicates.
proof fn lemma_no_duplicates_push(s: Seq<rill_kv>, y: rill_kv)
    requires
        s.no_duplicates(),
        !s.to_set().contains(y),
    ensures
        s.push(y).no_duplicates(),
{
    let t = s.push(y);
    assert forall|i: int, j: int|
        0 <= i < t.len() && 0 <= j < t.len() && i != j implies t[i] != t[j] by {
        if i < s.len() && j < s.len() {
            assert(s[i] == t[i] && s[j] == t[j]);
        } else if i < s.len() {
            assert(t[j] == y);
            assert(s.contains(s[i]));
        } else {
            assert(t[i] == y);
            assert(s.contains(s[j]));
        }
    }
}

} // verus!
