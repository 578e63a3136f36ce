//! Epoch rotation: sealing the active accumulator into a new immutable
//! bucket.

use vstd::prelude::*;

use crate::acc::Acc;
use crate::dir::Dir;
use crate::error::rill_error;
use crate::dir::kept_pred;
use crate::dir::lemma_filter_agree;
use crate::dir::lemma_filter_push;
use crate::dir::lemma_filter_step;
use crate::dir::recent_pred;
use crate::dir::stale_pred;
use crate::kv::rill_kv;
use crate::kv::strictly_sorted;
use crate::pairs::compacted;
use crate::store::install_sorted;
use crate::store::merge_two;
use crate::store::stores_union;
use crate::store::Store;

verus! {

/// Seals the active accumulator into a new bucket file named and stamped
/// `now`, with a unit quantum, through the crash-safe write protocol, and
/// atomically starts a fresh, empty epoch so that ingestion never blocks on
/// the sealed data. If the write fails — the name `now` is already taken —
/// the rotation aborts with `WriteError`: the directory is untouched and
/// the accumulator keeps its contents, so ingestion continues
/// uninterrupted.
pub fn rotate(dir: &mut Dir, acc: &mut Acc, now: u64) -> (r: Result<(), rill_error>)
    requires
        old(dir).wf(),
        old(acc).wf(),
    ensures
        final(dir).wf(),
        final(acc).wf(),
        final(dir).temp_spec() is None,
        r is Ok <==> !old(dir).has_name(now),
        r is Ok ==> final(acc).contents() == Set::<crate::kv::rill_kv>::empty(),
        r is Ok ==> final(dir).files_seq().len() == old(dir).files_seq().len() + 1
            && final(dir).files_seq().drop_last() == old(dir).files_seq() && {
            let s = final(dir).files_seq().last();
            &&& s.spec_name() == now
            &&& s.spec_ts() == now
            &&& s.spec_quant() == 0
            &&& s.wf()
            &&& s@.to_set() == old(acc).contents()
        },
        r is Err ==> r == Err::<(), rill_error>(rill_error::WriteError)
            && final(dir).files_seq() == old(dir).files_seq() && final(acc).contents() == old(
            acc,
        ).contents(),
{
    let v = acc.snapshot();
    let recs = compacted(&v);
    let r = install_sorted(dir, now, now, 0, &recs);
    match r {
        Ok(()) => {
            acc.reset();
            Ok(())
        },
        Err(e) => Err(e),
    }
}

/// The beginning of the time span a bucket covers: its timestamp less its
/// quantum, at the epoch floor.
pub open spec fn bucket_start(s: Store) -> u64 {
    if s.spec_quant() > s.spec_ts() {
        0u64
    } else {
        (s.spec_ts() - s.spec_quant()) as u64
    }
}

/// The newest timestamp among the buckets.
pub open spec fn max_ts(ss: Seq<Store>) -> u64
    decreases ss.len(),
{
    if ss.len() == 0 {
        0u64
    } else {
        let m = max_ts(ss.drop_last());
        if ss.last().spec_ts() > m {
            ss.last().spec_ts()
        } else {
            m
        }
    }
}

/// The earliest covered time among the buckets.
pub open spec fn min_start(ss: Seq<Store>) -> u64
    decreases ss.len(),
{
    if ss.len() == 0 {
        u64::MAX
    } else {
        let m = min_start(ss.drop_last());
        if bucket_start(ss.last()) < m {
            bucket_start(ss.last())
        } else {
            m
        }
    }
}

/// One more bucket raises the newest timestamp and lowers the earliest
/// covered time exactly when it lies outside the old extent.
proof fn lemma_aggregates_push(ss: Seq<Store>, s: Store)
    ensures
        max_ts(ss.push(s)) == if s.spec_ts() > max_ts(ss) {
            s.spec_ts()
        } else {
            max_ts(ss)
        },
        min_start(ss.push(s)) == if bucket_start(s) < min_start(ss) {
            bucket_start(s)
        } else {
            min_start(ss)
        },
{
    assert(ss.push(s).drop_last() =~= ss);
    assert(ss.push(s).last() == s);
}

/// One more bucket unions in its records.
proof fn lemma_union_push(ss: Seq<Store>, s: Store)
    ensures
        stores_union(ss.push(s)) == stores_union(ss).union(s@.to_set()),
{
    let t = ss.push(s);
    assert forall|kv: rill_kv|
        stores_union(t).contains(kv) <==> stores_union(ss).contains(kv) || s@.contains(kv) by {
        if stores_union(t).contains(kv) {
            let k = choose|k: int| 0 <= k < t.len() && t[k]@.contains(kv);
            if k < ss.len() {
                assert(ss[k]@.contains(kv));
            }
        }
        if stores_union(ss).contains(kv) {
            let k = choose|k: int| 0 <= k < ss.len() && ss[k]@.contains(kv);
            assert(t[k]@.contains(kv));
        }
        if s@.contains(kv) {
            assert(t[ss.len() as int]@.contains(kv));
        }
    }
    assert(stores_union(t) =~= stores_union(ss).union(s@.to_set()));
}

/// The buckets older than the cutoff and the rest partition the records.
proof fn lemma_union_partition(ss: Seq<Store>, cutoff: u64)
    ensures
        stores_union(ss) == stores_union(ss.filter(recent_pred(cutoff))).union(
            stores_union(ss.filter(stale_pred(cutoff))),
        ),
    decreases ss.len(),
{
    reveal(Seq::filter);
    if ss.len() == 0 {
        assert(stores_union(ss) =~= stores_union(ss.filter(recent_pred(cutoff))).union(
            stores_union(ss.filter(stale_pred(cutoff))),
        ));
    } else {
        let t = ss.drop_last();
        let s = ss.last();
        lemma_union_partition(t, cutoff);
        assert(ss =~= t.push(s));
        lemma_union_push(t, s);
        if s.spec_ts() >= cutoff {
            lemma_union_push(t.filter(recent_pred(cutoff)), s);
        } else {
            lemma_union_push(t.filter(stale_pred(cutoff)), s);
        }
        assert(stores_union(ss) =~= stores_union(ss.filter(recent_pred(cutoff))).union(
            stores_union(ss.filter(stale_pred(cutoff))),
        ));
    }
}

/// The retention step of a rotation: when at least two buckets are older
/// than `cutoff` — the configurable age threshold of the retention policy —
/// they are collapsed into one bucket named `out_name`, stamped with their
/// newest timestamp and a quantum spanning their whole covered extent,
/// through the crash-safe write protocol; only then are the inputs removed,
/// so no record is ever lost. With fewer than two such buckets nothing
/// happens (`Ok(false)`); when `out_name` is already taken the merge fails
/// with `WriteError` and the directory keeps every bucket, to be retried on
/// a later rotation.
pub fn compact_stale(dir: &mut Dir, cutoff: u64, out_name: u64) -> (r: Result<bool, rill_error>)
    requires
        old(dir).wf(),
    ensures
        final(dir).wf(),
        r == Ok::<bool, rill_error>(false) <==> old(dir).files_seq().filter(
            stale_pred(cutoff),
        ).len() < 2,
        r == Ok::<bool, rill_error>(false) ==> *final(dir) == *old(dir),
        r is Err <==> old(dir).files_seq().filter(stale_pred(cutoff)).len() >= 2 && old(
            dir,
        ).has_name(out_name),
        r is Err ==> r == Err::<bool, rill_error>(rill_error::WriteError) && final(dir).files_seq()
            == old(dir).files_seq(),
        r == Ok::<bool, rill_error>(true) ==> ({
            let stale = old(dir).files_seq().filter(stale_pred(cutoff));
            let recent = old(dir).files_seq().filter(recent_pred(cutoff));
            &&& final(dir).files_seq().len() == recent.len() + 1
            &&& final(dir).files_seq().drop_last() == recent
            &&& final(dir).files_seq().last().spec_name() == out_name
            &&& final(dir).files_seq().last().spec_ts() == max_ts(stale)
            &&& final(dir).files_seq().last().spec_quant() == max_ts(stale) - min_start(stale)
            &&& final(dir).files_seq().last().wf()
            &&& final(dir).files_seq().last()@.to_set() == stores_union(stale)
        }),
        r == Ok::<bool, rill_error>(true) ==> stores_union(final(dir).files_seq()) == stores_union(
            old(dir).files_seq(),
        ),
{
    let n = dir.file_count();
    let mut merged: Vec<rill_kv> = Vec::new();
    let mut cnt: usize = 0;
    let mut mx: u64 = 0;
    let mut mn: u64 = 0;
    proof {
        reveal(Seq::filter);
        assert(dir.files_seq().take(0).filter(stale_pred(cutoff)) =~= Seq::<Store>::empty());
        assert(stores_union(Seq::<Store>::empty()) =~= Set::<rill_kv>::empty());
        assert(merged@.to_set() =~= Set::<rill_kv>::empty());
    }
    for i in 0..n
        invariant
            *dir == *old(dir),
            dir.wf(),
            n == dir.files_seq().len(),
            cnt <= i,
            cnt == dir.files_seq().take(i as int).filter(stale_pred(cutoff)).len(),
            strictly_sorted(merged@),
            merged@.to_set() == stores_union(
                dir.files_seq().take(i as int).filter(stale_pred(cutoff)),
            ),
            cnt > 0 ==> mn <= mx,
            cnt > 0 ==> mx == max_ts(dir.files_seq().take(i as int).filter(stale_pred(cutoff))),
            cnt > 0 ==> mn == min_start(
                dir.files_seq().take(i as int).filter(stale_pred(cutoff)),
            ),
    {
        let ghost stale_i = dir.files_seq().take(i as int).filter(stale_pred(cutoff));
        proof {
            lemma_filter_step(dir.files_seq(), stale_pred(cutoff), i as int);
        }
        let s = dir.file_ref(i);
        if s.ts() < cutoff {
            proof {
                assert((#[trigger] dir.files_seq()[i as int]).wf());
                lemma_union_push(stale_i, dir.files_seq()[i as int]);
                lemma_aggregates_push(stale_i, dir.files_seq()[i as int]);
            }
            let m2 = merge_two(&merged, s.recs_ref());
            merged = m2;
            let st = if s.quant() > s.ts() {
                0
            } else {
                s.ts() - s.quant()
            };
            proof {
                assert(st == bucket_start(dir.files_seq()[i as int]));
                assert(merged@.to_set() =~= stores_union(
                    dir.files_seq().take(i + 1).filter(stale_pred(cutoff)),
                ));
            }
            if cnt == 0 {
                mx = s.ts();
                mn = st;
            } else {
                if s.ts() > mx {
                    mx = s.ts();
                }
                if st < mn {
                    mn = st;
                }
            }
            cnt = cnt + 1;
        }
    }
    proof {
        assert(dir.files_seq().take(n as int) =~= dir.files_seq());
    }
    if cnt < 2 {
        return Ok(false);
    }
    let ghost stale = old(dir).files_seq().filter(stale_pred(cutoff));
    let ghost recent = old(dir).files_seq().filter(recent_pred(cutoff));
    let r = install_sorted(dir, out_name, mx, mx - mn, &merged);
    match r {
        Err(_) => Err(rill_error::WriteError),
        Ok(()) => {
            let ghost mid = dir.files_seq();
            let ghost m = mid.last();
            proof {
                assert(mid == old(dir).files_seq().push(m));
                lemma_filter_push(old(dir).files_seq(), kept_pred(cutoff, out_name), m);
                assert forall|k: int|
                    0 <= k < old(dir).files_seq().len() implies kept_pred(cutoff, out_name)(
                    #[trigger] old(dir).files_seq()[k],
                ) == recent_pred(cutoff)(old(dir).files_seq()[k]) by {
                    if old(dir).files_seq()[k].spec_name() == out_name {
                        assert(old(dir).has_name(out_name));
                    }
                }
                lemma_filter_agree(
                    old(dir).files_seq(),
                    kept_pred(cutoff, out_name),
                    recent_pred(cutoff),
                );
            }
            dir.retain_recent(cutoff, out_name);
            proof {
                assert(dir.files_seq() == mid.filter(kept_pred(cutoff, out_name)));
                assert(dir.files_seq() == recent.push(m));
                assert(dir.files_seq().drop_last() =~= recent);
                lemma_union_partition(old(dir).files_seq(), cutoff);
                lemma_union_push(recent, m);
                assert(stores_union(dir.files_seq()) =~= stores_union(old(dir).files_seq()));
            }
            Ok(true)
        },
    }
}

} // verus!
