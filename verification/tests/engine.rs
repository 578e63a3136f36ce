use rill::compact_stale;
use rill::rotate;
use rill::rill_error;
use rill::rill_kv;
use rill::Acc;
use rill::AssocTable;
use rill::Dir;
use rill::Pairs;
use rill::Query;
use rill::Store;

const SEED: u64 = 0x00c0_ffee_d00d_f00d;

#[test]
fn test_rotate_query() {
    let mut dir = Dir::new();
    let mut acc = Acc::new(2, SEED);

    acc.ingest(1, 10).unwrap();
    acc.write(&mut dir, 1, 1 * 60 * 60).unwrap();
    rotate(&mut dir, &mut acc, 1 * 60 * 60).unwrap();

    acc.ingest(2, 10).unwrap();
    acc.ingest(1, 10).unwrap();
    acc.write(&mut dir, 2, 2 * 60 * 60).unwrap();
    rotate(&mut dir, &mut acc, 2 * 60 * 60).unwrap();

    acc.ingest(2, 10).unwrap();
    acc.ingest(1, 20).unwrap();
    acc.write(&mut dir, 3, 3 * 60 * 60).unwrap();
    rotate(&mut dir, &mut acc, 3 * 60 * 60).unwrap();

    acc.ingest(1, 30).unwrap();

    let query = Query::new(&dir).unwrap();

    {
        let mut pairs = Pairs::with_capacity(1).unwrap();
        query.key(2, &mut pairs).unwrap();
        assert_eq!(pairs.len(), 1);
        assert_eq!(pairs.get(0).unwrap(), rill_kv { key: 2, val: 10 });
    }

    {
        let mut pairs = Pairs::with_capacity(1).unwrap();
        query.keys(&[1], &mut pairs).unwrap();
        assert_eq!(pairs.len(), 2);
        assert_eq!(pairs.get(0).unwrap(), rill_kv { key: 1, val: 10 });
        assert_eq!(pairs.get(1).unwrap(), rill_kv { key: 1, val: 20 });
    }

    {
        let mut pairs = Pairs::with_capacity(1).unwrap();
        query.keys(&[2, 3], &mut pairs).unwrap();
        assert_eq!(pairs.len(), 1);
        assert_eq!(pairs.get(0).unwrap(), rill_kv { key: 2, val: 10 });
    }

    {
        let mut pairs = Pairs::with_capacity(1).unwrap();
        query.vals(&[10], &mut pairs).unwrap();
        assert_eq!(pairs.len(), 2);
        assert_eq!(pairs.get(0).unwrap(), rill_kv { key: 1, val: 10 });
        assert_eq!(pairs.get(1).unwrap(), rill_kv { key: 2, val: 10 });
    }

    {
        let mut pairs = Pairs::with_capacity(1).unwrap();
        query.vals(&[20, 30], &mut pairs).unwrap();
        assert_eq!(pairs.len(), 1);
        assert_eq!(pairs.get(0).unwrap(), rill_kv { key: 1, val: 20 });
    }

    {
        let pairs = query.all().unwrap();
        assert_eq!(pairs.len(), 3);
        assert_eq!(pairs.get(0).unwrap(), rill_kv { key: 1, val: 10 });
        assert_eq!(pairs.get(1).unwrap(), rill_kv { key: 1, val: 20 });
        assert_eq!(pairs.get(2).unwrap(), rill_kv { key: 2, val: 10 });
    }
}

#[test]
fn test_store() {
    let mut dir = Dir::new();

    {
        let mut pairs = Pairs::with_capacity(10).unwrap();
        pairs.push(2, 10).unwrap();
        pairs.push(3, 30).unwrap();
        pairs.push(2, 30).unwrap();
        pairs.push(1, 10).unwrap();
        pairs.push(2, 20).unwrap();
        Store::write(&mut dir, 1, 100, 0, &pairs).unwrap();
    }

    {
        let mut pairs = Pairs::with_capacity(10).unwrap();
        pairs.push(2, 10).unwrap();
        pairs.push(3, 30).unwrap();
        pairs.push(4, 30).unwrap();
        pairs.push(2, 10).unwrap();
        pairs.push(3, 20).unwrap();
        Store::write(&mut dir, 2, 100, 0, &pairs).unwrap();
    }

    {
        let to_merge = vec![Store::open(&dir, 1).unwrap(), Store::open(&dir, 2).unwrap()];
        Store::merge(&mut dir, 3, 123, 60, to_merge.as_slice()).unwrap();
        to_merge[0].rm(&mut dir).unwrap();
        to_merge[1].rm(&mut dir).unwrap();
    }

    assert!(Store::open(&dir, 1).is_err());
    assert!(Store::open(&dir, 2).is_err());

    let store = Store::open(&dir, 3).unwrap();

    {
        let mut pairs = Pairs::with_capacity(1).unwrap();
        store.key(1, &mut pairs).unwrap();
        assert_eq!(pairs.len(), 1);
        assert_eq!(pairs.get(0).unwrap(), rill_kv { key: 1, val: 10 });

        pairs.clear();
        store.key(2, &mut pairs).unwrap();
        assert_eq!(pairs.len(), 3);
        assert_eq!(pairs.get(0).unwrap(), rill_kv { key: 2, val: 10 });
        assert_eq!(pairs.get(1).unwrap(), rill_kv { key: 2, val: 20 });
        assert_eq!(pairs.get(2).unwrap(), rill_kv { key: 2, val: 30 });

        pairs.clear();
        store.key(3, &mut pairs).unwrap();
        assert_eq!(pairs.len(), 2);
        assert_eq!(pairs.get(0).unwrap(), rill_kv { key: 3, val: 20 });
        assert_eq!(pairs.get(1).unwrap(), rill_kv { key: 3, val: 30 });

        pairs.clear();
        store.key(4, &mut pairs).unwrap();
        assert_eq!(pairs.len(), 1);
        assert_eq!(pairs.get(0).unwrap(), rill_kv { key: 4, val: 30 });
    }
}

#[test]
fn test_dedup_across_epochs() {
    let mut dir = Dir::new();
    let mut acc = Acc::new(4, SEED);

    acc.ingest(7, 70).unwrap();
    rotate(&mut dir, &mut acc, 1000).unwrap();
    acc.ingest(7, 70).unwrap();
    acc.ingest(8, 80).unwrap();
    rotate(&mut dir, &mut acc, 2000).unwrap();

    let to_merge = vec![Store::open(&dir, 1000).unwrap(), Store::open(&dir, 2000).unwrap()];
    Store::merge(&mut dir, 5000, 2000, 1000, to_merge.as_slice()).unwrap();

    let merged = Store::open(&dir, 5000).unwrap();
    assert_eq!(merged.len(), 2);
    assert_eq!(merged.get(0).unwrap(), rill_kv { key: 7, val: 70 });
    assert_eq!(merged.get(1).unwrap(), rill_kv { key: 8, val: 80 });
}

#[test]
fn test_visibility_boundary() {
    let mut dir = Dir::new();
    let mut acc = Acc::new(4, SEED);

    acc.ingest(1, 1).unwrap();
    rotate(&mut dir, &mut acc, 100).unwrap();

    acc.ingest(2, 2).unwrap();

    let before = Query::new(&dir).unwrap();
    let all = before.all().unwrap();
    assert_eq!(all.len(), 1);
    assert_eq!(all.get(0).unwrap(), rill_kv { key: 1, val: 1 });

    rotate(&mut dir, &mut acc, 200).unwrap();

    // the session opened before the rotation keeps its snapshot
    let all = before.all().unwrap();
    assert_eq!(all.len(), 1);

    let after = Query::new(&dir).unwrap();
    let all = after.all().unwrap();
    assert_eq!(all.len(), 2);
    assert_eq!(all.get(1).unwrap(), rill_kv { key: 2, val: 2 });
}

#[test]
fn test_crash_mid_write_leaves_no_partial_file() {
    let mut dir = Dir::new();
    let mut acc = Acc::new(4, SEED);
    acc.ingest(1, 1).unwrap();
    rotate(&mut dir, &mut acc, 100).unwrap();

    // a write stops partway: the temporary file never becomes visible
    dir.begin(200, 200, 0);
    dir.append(9, 9).unwrap();
    dir.abort();

    assert_eq!(dir.file_count(), 1);
    let q = Query::new(&dir).unwrap();
    let all = q.all().unwrap();
    assert_eq!(all.len(), 1);
    assert_eq!(all.get(0).unwrap(), rill_kv { key: 1, val: 1 });

    // committing with no write begun fails, changing nothing
    assert_eq!(dir.commit(), Err(rill_error::WriteError));
    assert_eq!(dir.file_count(), 1);
}

#[test]
fn test_failed_merge_keeps_inputs() {
    let mut dir = Dir::new();

    let mut pairs = Pairs::with_capacity(2).unwrap();
    pairs.push(1, 1).unwrap();
    Store::write(&mut dir, 1, 100, 0, &pairs).unwrap();
    pairs.clear();
    pairs.push(2, 2).unwrap();
    Store::write(&mut dir, 2, 200, 0, &pairs).unwrap();

    let inputs = vec![Store::open(&dir, 1).unwrap(), Store::open(&dir, 2).unwrap()];
    // the output name is already taken: the merge fails and nothing changes
    let r = Store::merge(&mut dir, 2, 300, 100, inputs.as_slice());
    assert_eq!(r, Err(rill_error::WriteError));
    assert_eq!(dir.file_count(), 2);
    assert!(Store::open(&dir, 1).is_ok());
    assert!(Store::open(&dir, 2).is_ok());

    // a write to a taken name fails the same way
    let r = Store::write(&mut dir, 1, 400, 0, &pairs);
    assert_eq!(r, Err(rill_error::WriteError));
    assert_eq!(dir.file_count(), 2);
}

#[test]
fn test_merge_overlapping_stores() {
    let mut dir = Dir::new();

    let mut pairs = Pairs::with_capacity(8).unwrap();
    pairs.push(2, 10).unwrap();
    pairs.push(2, 20).unwrap();
    pairs.push(2, 30).unwrap();
    pairs.push(1, 10).unwrap();
    pairs.push(3, 30).unwrap();
    Store::write(&mut dir, 1, 100, 0, &pairs).unwrap();

    pairs.clear();
    pairs.push(2, 10).unwrap();
    pairs.push(2, 30).unwrap();
    Store::write(&mut dir, 2, 200, 0, &pairs).unwrap();

    let inputs = vec![Store::open(&dir, 1).unwrap(), Store::open(&dir, 2).unwrap()];
    Store::merge(&mut dir, 3, 200, 100, inputs.as_slice()).unwrap();
    let merged = Store::open(&dir, 3).unwrap();

    let mut out = Pairs::with_capacity(1).unwrap();
    merged.key(2, &mut out).unwrap();
    assert_eq!(out.len(), 3);
    assert_eq!(out.get(0).unwrap(), rill_kv { key: 2, val: 10 });
    assert_eq!(out.get(1).unwrap(), rill_kv { key: 2, val: 20 });
    assert_eq!(out.get(2).unwrap(), rill_kv { key: 2, val: 30 });
}

#[test]
fn test_compact_stale_merges_old_buckets() {
    let mut dir = Dir::new();
    let mut acc = Acc::new(4, SEED);

    acc.ingest(1, 1).unwrap();
    rotate(&mut dir, &mut acc, 100).unwrap();
    acc.ingest(2, 2).unwrap();
    acc.ingest(1, 1).unwrap();
    rotate(&mut dir, &mut acc, 200).unwrap();
    acc.ingest(3, 3).unwrap();
    rotate(&mut dir, &mut acc, 5000).unwrap();

    // only two buckets are older than the cutoff
    let ran = compact_stale(&mut dir, 1000, 999).unwrap();
    assert!(ran);
    assert_eq!(dir.file_count(), 2);

    let merged = Store::open(&dir, 999).unwrap();
    assert_eq!(merged.ts(), 200);
    assert_eq!(merged.quant(), 100);
    assert_eq!(merged.len(), 2);
    assert_eq!(merged.get(0).unwrap(), rill_kv { key: 1, val: 1 });
    assert_eq!(merged.get(1).unwrap(), rill_kv { key: 2, val: 2 });

    // no record was lost
    let q = Query::new(&dir).unwrap();
    let all = q.all().unwrap();
    assert_eq!(all.len(), 3);

    // nothing left to compact below the cutoff but the merged bucket itself
    let ran = compact_stale(&mut dir, 1000, 998).unwrap();
    assert!(!ran);
    assert_eq!(dir.file_count(), 2);
}

#[test]
fn test_assoc_table_dedups() {
    let mut table = AssocTable::new(2, SEED);
    assert!(table.insert(1, 10).unwrap());
    assert!(!table.insert(1, 10).unwrap());
    for i in 0..100u64 {
        table.insert(i, i * 2).unwrap();
    }
    let mut pairs = Pairs::with_capacity(4).unwrap();
    table.drain_into(&mut pairs).unwrap();
    assert_eq!(pairs.len(), 101);
    pairs.compact();
    assert_eq!(pairs.len(), 101);
    assert_eq!(pairs.get(0).unwrap(), rill_kv { key: 0, val: 0 });
    assert_eq!(pairs.get(2).unwrap(), rill_kv { key: 1, val: 10 });
    assert_eq!(pairs.get(100).unwrap(), rill_kv { key: 99, val: 198 });

    // the table was drained
    let mut rest = Pairs::with_capacity(1).unwrap();
    table.drain_into(&mut rest).unwrap();
    assert_eq!(rest.len(), 0);
}

#[test]
fn test_keys_order_irrelevant() {
    let mut dir = Dir::new();
    let mut pairs = Pairs::with_capacity(4).unwrap();
    pairs.push(1, 10).unwrap();
    pairs.push(2, 20).unwrap();
    pairs.push(3, 30).unwrap();
    Store::write(&mut dir, 1, 100, 0, &pairs).unwrap();
    let s = Store::open(&dir, 1).unwrap();

    let mut fwd = Pairs::with_capacity(1).unwrap();
    s.keys(&[1, 3], &mut fwd).unwrap();
    let mut rev = Pairs::with_capacity(1).unwrap();
    s.keys(&[3, 1], &mut rev).unwrap();

    assert_eq!(fwd.len(), rev.len());
    for i in 0..fwd.len() {
        assert_eq!(fwd.get(i).unwrap(), rev.get(i).unwrap());
    }
    assert_eq!(fwd.len(), 2);
    assert_eq!(fwd.get(0).unwrap(), rill_kv { key: 1, val: 10 });
    assert_eq!(fwd.get(1).unwrap(), rill_kv { key: 3, val: 30 });
}

#[test]
fn test_store_open_not_found() {
    let dir = Dir::new();
    assert_eq!(Store::open(&dir, 42).err(), Some(rill_error::NotFoundError));
}

#[test]
fn test_store_rm_missing_file() {
    let mut dir = Dir::new();
    let mut pairs = Pairs::with_capacity(1).unwrap();
    pairs.push(1, 1).unwrap();
    Store::write(&mut dir, 7, 100, 0, &pairs).unwrap();
    let s = Store::open(&dir, 7).unwrap();
    s.rm(&mut dir).unwrap();
    assert_eq!(s.rm(&mut dir), Err(rill_error::NotFoundError));
}
