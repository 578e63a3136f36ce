use rill::rill_error;
use rill::rill_kv;
use rill::Pairs;

#[test]
fn test_pairs() {
    let mut pairs = Pairs::with_capacity(1).unwrap();

    pairs.push(10, 20).unwrap();
    pairs.push(20, 10).unwrap();
    pairs.push(10, 10).unwrap();

    pairs.compact();

    for i in 0..pairs.len() {
        let kv = pairs.get(i).unwrap();
        println!("kv[{}]: key={}, len={}", i, kv.key, kv.val);
    }
}

#[test]
fn test_pairs_compact_sorts_and_dedups() {
    let mut pairs = Pairs::with_capacity(2).unwrap();
    pairs.push(10, 20).unwrap();
    pairs.push(20, 10).unwrap();
    pairs.push(10, 10).unwrap();
    pairs.push(10, 20).unwrap();

    pairs.compact();

    assert_eq!(pairs.len(), 3);
    assert_eq!(pairs.get(0).unwrap(), rill_kv { key: 10, val: 10 });
    assert_eq!(pairs.get(1).unwrap(), rill_kv { key: 10, val: 20 });
    assert_eq!(pairs.get(2).unwrap(), rill_kv { key: 20, val: 10 });
}

#[test]
fn test_pairs_compact_idempotent() {
    let mut pairs = Pairs::with_capacity(4).unwrap();
    pairs.push(3, 1).unwrap();
    pairs.push(1, 2).unwrap();
    pairs.push(3, 1).unwrap();
    pairs.push(2, 9).unwrap();

    pairs.compact();
    let mut once = Vec::new();
    for i in 0..pairs.len() {
        once.push(pairs.get(i).unwrap());
    }

    pairs.compact();
    assert_eq!(pairs.len(), once.len());
    for i in 0..pairs.len() {
        assert_eq!(pairs.get(i).unwrap(), once[i]);
    }
}

#[test]
fn test_pairs_get_out_of_range() {
    let mut pairs = Pairs::with_capacity(1).unwrap();
    pairs.push(1, 1).unwrap();
    assert_eq!(pairs.get(1), Err(rill_error::OutOfRangeError));
    assert_eq!(pairs.get(7), Err(rill_error::OutOfRangeError));
}

#[test]
fn test_pairs_clear_keeps_capacity() {
    let mut pairs = Pairs::with_capacity(1).unwrap();
    pairs.push(1, 1).unwrap();
    pairs.push(2, 2).unwrap();
    pairs.push(3, 3).unwrap();
    let cap = pairs.capacity();
    assert!(cap >= 3);
    pairs.clear();
    assert_eq!(pairs.len(), 0);
    assert_eq!(pairs.capacity(), cap);
}

#[test]
fn test_error_messages() {
    assert_eq!(rill_error::AllocationError.message(), "out of memory");
    assert!(rill_error::OutOfRangeError.message().contains("index"));
    assert!(rill_error::NotFoundError.message().contains("no such"));
    assert!(rill_error::CorruptFileError.message().contains("validation"));
    assert!(rill_error::WriteError.message().contains("crash-safe"));
    assert!(rill_error::IOError.message().contains("file system"));
}
