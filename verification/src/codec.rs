//! The on-disk wire format of a bucket file: a fixed header `{ts, quant,
//! count}` of little-endian 64-bit words followed by `count` records of
//! `{key, val}`, sorted and deduplicated. It is the only wire format and
//! round-trips exactly.

use vstd::prelude::*;
use vstd::bytes::lemma_auto_spec_u64_to_from_le_bytes;
use vstd::bytes::spec_u64_to_le_bytes;
use vstd::bytes::u64_from_le_bytes;
use vstd::bytes::u64_to_le_bytes;
use vstd::slice::slice_subrange;

use crate::error::rill_error;
use crate::kv::rill_kv;
use crate::kv::strictly_sorted;
use crate::store::Store;

verus! {

/// The sixteen bytes of one record: its key, then its value.
pub open spec fn spec_record_bytes(kv: rill_kv) -> Seq<u8> {
    spec_u64_to_le_bytes(kv.key) + spec_u64_to_le_bytes(kv.val)
}

/// The bytes of a record array, record by record.
pub open spec fn spec_records_bytes(recs: Seq<rill_kv>) -> Seq<u8>
    decreases recs.len(),
{
    if recs.len() == 0 {
        Seq::<u8>::empty()
    } else {
        spec_record_bytes(recs[0]) + spec_records_bytes(recs.drop_first())
    }
}

/// The bytes of a whole bucket file: the header, then the records.
pub open spec fn spec_store_bytes(ts: u64, quant: u64, recs: Seq<rill_kv>) -> Seq<u8> {
    spec_u64_to_le_bytes(ts) + spec_u64_to_le_bytes(quant) + spec_u64_to_le_bytes(
        recs.len() as u64,
    ) + spec_records_bytes(recs)
}

/// A record array's bytes take sixteen bytes per record.
pub proof fn lemma_records_bytes_len(recs: Seq<rill_kv>)
    ensures
        spec_records_bytes(recs).len() == 16 * recs.len(),
    decreases recs.len(),
{
    lemma_auto_spec_u64_to_from_le_bytes();
    if recs.len() > 0 {
        lemma_records_bytes_len(recs.drop_first());
    }
}

/// Appending one record appends its sixteen bytes.
proof fn lemma_records_bytes_snoc(recs: Seq<rill_kv>, kv: rill_kv)
    ensures
        spec_records_bytes(recs.push(kv)) == spec_records_bytes(recs) + spec_record_bytes(kv),
    decreases recs.len(),
{
    let t = recs.push(kv);
    if recs.len() == 0 {
        assert(t[0] == kv);
        assert(t.drop_first() =~= Seq::<rill_kv>::empty());
        assert(spec_records_bytes(Seq::<rill_kv>::empty()) == Seq::<u8>::empty());
        assert(spec_record_bytes(kv) + Seq::<u8>::empty() =~= spec_record_bytes(kv));
        assert(spec_records_bytes(t) =~= spec_record_bytes(kv));
        assert(spec_records_bytes(recs) + spec_record_bytes(kv) =~= spec_record_bytes(kv));
    } else {
        assert(t[0] == recs[0]);
        assert(t.drop_first() =~= recs.drop_first().push(kv));
        lemma_records_bytes_snoc(recs.drop_first(), kv);
        assert(spec_records_bytes(t) == spec_record_bytes(recs[0]) + (spec_records_bytes(
            recs.drop_first(),
        ) + spec_record_bytes(kv)));
        assert(spec_record_bytes(recs[0]) + (spec_records_bytes(recs.drop_first())
            + spec_record_bytes(kv)) =~= (spec_record_bytes(recs[0]) + spec_records_bytes(
            recs.drop_first(),
        )) + spec_record_bytes(kv));
    }
}

/// A byte sequence made of sixteen-byte chunks, each the bytes of the
/// corresponding record, is the record array's bytes.
proof fn lemma_records_bytes_chunks(recs: Seq<rill_kv>, bytes: Seq<u8>)
    requires
        bytes.len() == 16 * recs.len(),
        forall|i: int|
            0 <= i < recs.len() ==> spec_record_bytes(#[trigger] recs[i]) == bytes.subrange(
                16 * i,
                16 * i + 16,
            ),
    ensures
        spec_records_bytes(recs) == bytes,
    decreases recs.len(),
{
    lemma_auto_spec_u64_to_from_le_bytes();
    if recs.len() == 0 {
        assert(spec_records_bytes(recs) =~= bytes);
    } else {
        let tail = recs.drop_first();
        let rest = bytes.skip(16);
        assert forall|i: int|
            0 <= i < tail.len() implies spec_record_bytes(#[trigger] tail[i]) == rest.subrange(
            16 * i,
            16 * i + 16,
        ) by {
            assert(tail[i] == recs[i + 1]);
            assert(spec_record_bytes(recs[i + 1]) == bytes.subrange(
                16 * (i + 1),
                16 * (i + 1) + 16,
            ));
            assert(rest.subrange(16 * i, 16 * i + 16) =~= bytes.subrange(
                16 * (i + 1),
                16 * (i + 1) + 16,
            ));
        }
        lemma_records_bytes_chunks(tail, rest);
        assert(spec_record_bytes(recs[0]) == bytes.subrange(0, 16));
        assert(spec_records_bytes(recs) =~= bytes.subrange(0, 16) + bytes.skip(16));
        assert(bytes.subrange(0, 16) + bytes.skip(16) =~= bytes);
    }
}

/// The wire format is injective: equal bytes decode to equal header fields
/// and equal records, so write-then-open round-trips exactly.
pub proof fn lemma_store_bytes_injective(
    ts1: u64,
    q1: u64,
    r1: Seq<rill_kv>,
    ts2: u64,
    q2: u64,
    r2: Seq<rill_kv>,
)
    requires
        spec_store_bytes(ts1, q1, r1) == spec_store_bytes(ts2, q2, r2),
    ensures
        ts1 == ts2,
        q1 == q2,
        r1 == r2,
{
    lemma_auto_spec_u64_to_from_le_bytes();
    lemma_records_bytes_len(r1);
    lemma_records_bytes_len(r2);
    let b1 = spec_store_bytes(ts1, q1, r1);
    let b2 = spec_store_bytes(ts2, q2, r2);
    assert(spec_u64_to_le_bytes(ts1) =~= b1.subrange(0, 8));
    assert(spec_u64_to_le_bytes(ts2) =~= b2.subrange(0, 8));
    assert(spec_u64_to_le_bytes(q1) =~= b1.subrange(8, 16));
    assert(spec_u64_to_le_bytes(q2) =~= b2.subrange(8, 16));
    assert(ts1 == ts2) by {
        assert(spec_u64_to_le_bytes(ts1) == spec_u64_to_le_bytes(ts2));
    }
    assert(q1 == q2) by {
        assert(spec_u64_to_le_bytes(q1) == spec_u64_to_le_bytes(q2));
    }
    assert(b1.len() == b2.len());
    assert(r1.len() == r2.len());
    assert(spec_records_bytes(r1) =~= b1.skip(24));
    assert(spec_records_bytes(r2) =~= b1.skip(24));
    lemma_records_equal(r1, r2, b1.skip(24));
    assert(r1 =~= r2);
}

/// Two record arrays of the same length with the same bytes are equal.
proof fn lemma_records_equal(r1: Seq<rill_kv>, r2: Seq<rill_kv>, bytes: Seq<u8>)
    requires
        r1.len() == r2.len(),
        spec_records_bytes(r1) == bytes,
        spec_records_bytes(r2) == bytes,
    ensures
        r1 =~= r2,
    decreases r1.len(),
{
    lemma_auto_spec_u64_to_from_le_bytes();
    if r1.len() > 0 {
        lemma_records_bytes_len(r1.drop_first());
        lemma_records_bytes_len(r2.drop_first());
        assert(spec_record_bytes(r1[0]) =~= bytes.subrange(0, 16));
        assert(spec_record_bytes(r2[0]) =~= bytes.subrange(0, 16));
        assert(spec_u64_to_le_bytes(r1[0].key) =~= spec_record_bytes(r1[0]).subrange(0, 8));
        assert(spec_u64_to_le_bytes(r2[0].key) =~= spec_record_bytes(r2[0]).subrange(0, 8));
        assert(spec_u64_to_le_bytes(r1[0].val) =~= spec_record_bytes(r1[0]).subrange(8, 16));
        assert(spec_u64_to_le_bytes(r2[0].val) =~= spec_record_bytes(r2[0]).subrange(8, 16));
        assert(r1[0].key == r2[0].key) by {
            assert(spec_u64_to_le_bytes(r1[0].key) == spec_u64_to_le_bytes(r2[0].key));
        }
        assert(r1[0].val == r2[0].val) by {
            assert(spec_u64_to_le_bytes(r1[0].val) == spec_u64_to_le_bytes(r2[0].val));
        }
        assert(spec_records_bytes(r1.drop_first()) =~= bytes.skip(16));
        assert(spec_records_bytes(r2.drop_first()) =~= bytes.skip(16));
        lemma_records_equal(r1.drop_first(), r2.drop_first(), bytes.skip(16));
        assert forall|i: int| 0 <= i < r1.len() implies r1[i] == r2[i] by {
            if i > 0 {
                assert(r1.drop_first()[i - 1] == r2.drop_first()[i - 1]);
            }
        }
    }
}

/// Serializes a bucket into its file bytes.
pub fn encode_store(s: &Store) -> (out: Vec<u8>)
    ensures
        out@ == spec_store_bytes(s.spec_ts(), s.spec_quant(), s@),
{
    let mut out: Vec<u8> = Vec::new();
    let mut ts_b = u64_to_le_bytes(s.ts());
    out.append(&mut ts_b);
    let mut quant_b = u64_to_le_bytes(s.quant());
    out.append(&mut quant_b);
    let n = s.len();
    let mut count_b = u64_to_le_bytes(n as u64);
    out.append(&mut count_b);
    let ghost header = out@;
    let recs = s.recs_ref();
    for i in 0..n
        invariant
            n == s@.len(),
            recs@ == s@,
            out@ == header + spec_records_bytes(s@.take(i as int)),
    {
        let kv = recs[i];
        let mut key_b = u64_to_le_bytes(kv.key);
        out.append(&mut key_b);
        let mut val_b = u64_to_le_bytes(kv.val);
        out.append(&mut val_b);
        proof {
            lemma_records_bytes_snoc(s@.take(i as int), kv);
            assert(s@.take(i + 1) =~= s@.take(i as int).push(kv));
            assert(out@ =~= header + spec_records_bytes(s@.take(i + 1)));
        }
    }
    proof {
        assert(s@.take(n as int) =~= s@);
        assert(out@ =~= spec_store_bytes(s.spec_ts(), s.spec_quant(), s@));
    }
    out
}

/// Parses and validates a bucket file's bytes into a bucket under `name`.
/// `CorruptFileError` exactly when the bytes are not the encoding of any
/// sorted, deduplicated bucket: a truncated or padded file, a count that
/// disagrees with the length, or records out of order.
pub fn decode_store(bytes: &[u8], name: u64) -> (r: Result<Store, rill_error>)
    ensures
        r is Ok ==> r->Ok_0.wf() && r->Ok_0.spec_name() == name && bytes@ == spec_store_bytes(
            r->Ok_0.spec_ts(),
            r->Ok_0.spec_quant(),
            r->Ok_0@,
        ),
        r is Err ==> r == Err::<Store, rill_error>(rill_error::CorruptFileError) && (forall|
            ts: u64,
            quant: u64,
            recs: Seq<rill_kv>,
        |
            strictly_sorted(recs) ==> bytes@ != spec_store_bytes(ts, quant, recs)),
{
    proof {
        lemma_auto_spec_u64_to_from_le_bytes();
    }
    let len = bytes.len();
    if len < 24 {
        proof {
            assert forall|ts: u64, quant: u64, recs: Seq<rill_kv>|
                strictly_sorted(recs) implies bytes@ != spec_store_bytes(ts, quant, recs) by {
                lemma_records_bytes_len(recs);
            }
        }
        return Err(rill_error::CorruptFileError);
    }
    let ts = u64_from_le_bytes(slice_subrange(bytes, 0, 8));
    let quant = u64_from_le_bytes(slice_subrange(bytes, 8, 16));
    let count = u64_from_le_bytes(slice_subrange(bytes, 16, 24));
    if count > ((len - 24) as u64) / 16 || (len as u64) - 24 != 16 * count {
        proof {
            assert forall|ts2: u64, quant2: u64, recs: Seq<rill_kv>|
                strictly_sorted(recs) implies bytes@ != spec_store_bytes(ts2, quant2, recs) by {
                if bytes@ == spec_store_bytes(ts2, quant2, recs) {
                    lemma_records_bytes_len(recs);
                    assert(spec_u64_to_le_bytes(recs.len() as u64) =~= bytes@.subrange(16, 24));
                    assert(count == recs.len() as u64);
                    assert(false);
                }
            }
        }
        return Err(rill_error::CorruptFileError);
    }
    proof {
        assert(count <= usize::MAX as u64);
    }
    let m = (count as usize);
    let mut s = Store::empty_store(name, ts, quant);
    for i in 0..m
        invariant
            m == count,
            len == bytes@.len(),
            bytes@.len() == 24 + 16 * count,
            s.spec_name() == name,
            s.spec_ts() == ts,
            s.spec_quant() == quant,
            s@.len() == i,
            forall|k: int|
                0 <= k < i ==> spec_record_bytes(#[trigger] s@[k]) == bytes@.subrange(
                    24 + 16 * k,
                    24 + 16 * k + 16,
                ),
    {
        let off = 24 + 16 * i;
        let key = u64_from_le_bytes(slice_subrange(bytes, off, off + 8));
        let val = u64_from_le_bytes(slice_subrange(bytes, off + 8, off + 16));
        let kv = rill_kv { key, val };
        proof {
            lemma_auto_spec_u64_to_from_le_bytes();
            assert(spec_u64_to_le_bytes(key) =~= bytes@.subrange(off as int, off + 8));
            assert(spec_u64_to_le_bytes(val) =~= bytes@.subrange(off + 8, off + 16));
            assert(spec_record_bytes(kv) =~= bytes@.subrange(off as int, off + 16));
        }
        s.push_rec(kv);
    }
    proof {
        lemma_records_bytes_len(s@);
        assert forall|k: int|
            0 <= k < s@.len() implies spec_record_bytes(#[trigger] s@[k]) == bytes@.skip(
            24,
        ).subrange(16 * k, 16 * k + 16) by {
            assert(bytes@.skip(24).subrange(16 * k, 16 * k + 16) =~= bytes@.subrange(
                24 + 16 * k,
                24 + 16 * k + 16,
            ));
        }
        lemma_records_bytes_chunks(s@, bytes@.skip(24));
        assert(spec_u64_to_le_bytes(ts) =~= bytes@.subrange(0, 8));
        assert(spec_u64_to_le_bytes(quant) =~= bytes@.subrange(8, 16));
        assert(spec_u64_to_le_bytes(count) =~= bytes@.subrange(16, 24));
        assert(bytes@ =~= spec_store_bytes(ts, quant, s@));
    }
    if !s.check_sorted() {
        proof {
            assert forall|ts2: u64, quant2: u64, recs: Seq<rill_kv>|
                strictly_sorted(recs) implies bytes@ != spec_store_bytes(ts2, quant2, recs) by {
                if bytes@ == spec_store_bytes(ts2, quant2, recs) {
                    lemma_store_bytes_injective(ts, quant, s@, ts2, quant2, recs);
                }
            }
        }
        return Err(rill_error::CorruptFileError);
    }
    Ok(s)
}

} // verus!
