//! The key/value record and its total order.

use vstd::prelude::*;

verus! {

/// One `(key, val)` association. Records are ordered primarily by `key` and
/// secondarily by `val`; two records are equal iff both fields match.
#[allow(non_camel_case_types)]
#[derive(Clone, Copy, Debug, PartialEq, Eq, Structural)]
pub struct rill_kv {
    pub key: u64,
    pub val: u64,
}

/// The strict KV order: primary by key, secondary by val.
pub open spec fn kv_lt(a: rill_kv, b: rill_kv) -> bool {
    a.key < b.key || (a.key == b.key && a.val < b.val)
}

/// A sequence of records in strictly increasing KV order; such a sequence is
/// sorted and holds no duplicates, the invariant of every sealed store.
pub open spec fn strictly_sorted(s: Seq<rill_kv>) -> bool {
    forall|i: int, j: int| 0 <= i < j < s.len() ==> kv_lt(s[i], s[j])
}

/// Decides the strict KV order.
pub fn kv_less(a: &rill_kv, b: &rill_kv) -> (r: bool)
    ensures
        r == kv_lt(*a, *b),
{
    a.key < b.key || (a.key == b.key && a.val < b.val)
}

/// A strictly sorted sequence never repeats a record.
pub proof fn lemma_sorted_no_duplicates(s: Seq<rill_kv>)
    requires
        strictly_sorted(s),
    ensures
        s.no_duplicates(),
{
    assert forall|i: int, j: int|
        0 <= i < s.len() && 0 <= j < s.len() && i != j implies s[i] != s[j] by {
        if i < j {
            assert(kv_lt(s[i], s[j]));
        } else {
            assert(kv_lt(s[j], s[i]));
        }
    }
}

/// A strictly sorted sequence has as many records as its set, and a set of
/// records drawn from a sequence is no larger than the sequence.
pub proof fn lemma_sorted_len_is_card(s: Seq<rill_kv>)
    requires
        strictly_sorted(s),
    ensures
        s.to_set().finite(),
        s.to_set().len() == s.len(),
{
    broadcast use vstd::seq_lib::seq_to_set_is_finite;

    lemma_sorted_no_duplicates(s);
    s.unique_seq_to_set();
}

/// A set of records all drawn from a sequence holds no more records than
/// the sequence does.
pub proof fn lemma_card_le_len(set: Set<rill_kv>, s: Seq<rill_kv>)
    requires
        forall|kv: rill_kv| set.contains(kv) ==> s.contains(kv),
    ensures
        set.finite(),
        set.len() <= s.len(),
{
    broadcast use vstd::seq_lib::seq_to_set_is_finite;

    assert(set.subset_of(s.to_set()));
    s.lemma_cardinality_of_set();
    vstd::set_lib::lemma_len_subset(set, s.to_set());
}

/// A set of records has exactly one strictly sorted arrangement: two strictly
/// sorted sequences with the same records are the same sequence. In
/// particular, compaction is idempotent: compacting an already compacted pair
/// set leaves it unchanged.
pub proof fn lemma_sorted_unique(a: Seq<rill_kv>, b: Seq<rill_kv>)
    requires
        strictly_sorted(a),
        strictly_sorted(b),
        a.to_set() == b.to_set(),
    ensures
        a == b,
    decreases a.len(),
{
    if a.len() == 0 {
        if b.len() > 0 {
            assert(a.to_set().contains(b[0]));
            assert(a.contains(b[0]));
        }
        assert(a =~= b);
    } else {
        assert(b.to_set().contains(a[0]));
        assert(b.contains(a[0]));
        let j = choose|j: int| 0 <= j < b.len() && b[j] == a[0];
        assert(a.to_set().contains(b[0]));
        assert(a.contains(b[0]));
        let i = choose|i: int| 0 <= i < a.len() && a[i] == b[0];
        if j > 0 {
            assert(kv_lt(b[0], b[j]));
            if i > 0 {
                assert(kv_lt(a[0], a[i]));
            }
            assert(false);
        }
        assert(a[0] == b[0]);
        let a1 = a.drop_first();
        let b1 = b.drop_first();
        assert forall|x: rill_kv| a1.to_set().contains(x) implies b1.to_set().contains(x) by {
            lemma_drop_first_set(a, x);
            lemma_drop_first_set_rev(b, x);
        }
        assert forall|x: rill_kv| b1.to_set().contains(x) implies a1.to_set().contains(x) by {
            lemma_drop_first_set(b, x);
            lemma_drop_first_set_rev(a, x);
        }
        assert(a1.to_set() =~= b1.to_set());
        lemma_sorted_unique(a1, b1);
        assert(a.len() == b.len());
        assert forall|k: int| 0 <= k < a.len() implies a[k] == b[k] by {
            if k > 0 {
                assert(a1[k - 1] == b1[k - 1]);
            }
        }
        assert(a =~= b);
    }
}

/// A record past the head of a strictly sorted sequence lies in its tail and
/// differs from the head.
proof fn lemma_drop_first_set(s: Seq<rill_kv>, x: rill_kv)
    requires
        strictly_sorted(s),
        s.len() > 0,
        s.drop_first().to_set().contains(x),
    ensures
        s.to_set().contains(x),
        x != s[0],
{
    assert(s.drop_first().contains(x));
    let k = choose|k: int| 0 <= k < s.drop_first().len() && s.drop_first()[k] == x;
    assert(s[k + 1] == x);
    assert(kv_lt(s[0], s[k + 1]));
}

/// A record of a strictly sorted sequence other than its head lies in its
/// tail.
proof fn lemma_drop_first_set_rev(s: Seq<rill_kv>, x: rill_kv)
    requires
        s.len() > 0,
        s.to_set().contains(x),
        x != s[0],
    ensures
        s.drop_first().to_set().contains(x),
{
    assert(s.contains(x));
    let k = choose|k: int| 0 <= k < s.len() && s[k] == x;
    assert(s.drop_first()[k - 1] == x);
    assert(s.drop_first().contains(x));
}

} // verus!
