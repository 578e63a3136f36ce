use rill::decode_store;
use rill::encode_store;
use rill::rill_error;
use rill::rill_kv;
use rill::Dir;
use rill::Pairs;
use rill::Store;

fn sample_store() -> Store {
    let mut dir = Dir::new();
    let mut pairs = Pairs::with_capacity(4).unwrap();
    pairs.push(2, 20).unwrap();
    pairs.push(1, 10).unwrap();
    pairs.push(2, 20).unwrap();
    pairs.push(3, 30).unwrap();
    Store::write(&mut dir, 5, 1234, 60, &pairs).unwrap();
    Store::open(&dir, 5).unwrap()
}

#[test]
fn test_store_bytes_round_trip() {
    let store = sample_store();
    let bytes = encode_store(&store);
    assert_eq!(bytes.len(), 24 + 16 * 3);

    let back = decode_store(bytes.as_slice(), 9).unwrap();
    assert_eq!(back.ts(), 1234);
    assert_eq!(back.quant(), 60);
    assert_eq!(back.len(), store.len());
    for i in 0..store.len() {
        assert_eq!(back.get(i).unwrap(), store.get(i).unwrap());
    }
}

#[test]
fn test_store_bytes_layout() {
    let store = sample_store();
    let bytes = encode_store(&store);
    // header: ts, quant, count, little endian
    assert_eq!(&bytes[0..8], &1234u64.to_le_bytes());
    assert_eq!(&bytes[8..16], &60u64.to_le_bytes());
    assert_eq!(&bytes[16..24], &3u64.to_le_bytes());
    // first record: (1, 10)
    assert_eq!(&bytes[24..32], &1u64.to_le_bytes());
    assert_eq!(&bytes[32..40], &10u64.to_le_bytes());
}

#[test]
fn test_decode_truncated_file() {
    let store = sample_store();
    let bytes = encode_store(&store);
    assert_eq!(
        decode_store(&bytes[0..23], 1).err(),
        Some(rill_error::CorruptFileError)
    );
    assert_eq!(
        decode_store(&bytes[0..bytes.len() - 1], 1).err(),
        Some(rill_error::CorruptFileError)
    );
}

#[test]
fn test_decode_count_mismatch() {
    let store = sample_store();
    let mut bytes = encode_store(&store);
    // claim one record more than the file holds
    bytes[16] = 4;
    assert_eq!(decode_store(bytes.as_slice(), 1).err(), Some(rill_error::CorruptFileError));
}

#[test]
fn test_decode_unsorted_records() {
    let mut bytes = Vec::new();
    bytes.extend_from_slice(&7u64.to_le_bytes()); // ts
    bytes.extend_from_slice(&0u64.to_le_bytes()); // quant
    bytes.extend_from_slice(&2u64.to_le_bytes()); // count
    bytes.extend_from_slice(&2u64.to_le_bytes()); // key
    bytes.extend_from_slice(&5u64.to_le_bytes()); // val
    bytes.extend_from_slice(&1u64.to_le_bytes()); // key out of order
    bytes.extend_from_slice(&5u64.to_le_bytes()); // val
    assert_eq!(decode_store(bytes.as_slice(), 1).err(), Some(rill_error::CorruptFileError));

    let mut dup = Vec::new();
    dup.extend_from_slice(&7u64.to_le_bytes());
    dup.extend_from_slice(&0u64.to_le_bytes());
    dup.extend_from_slice(&2u64.to_le_bytes());
    dup.extend_from_slice(&1u64.to_le_bytes());
    dup.extend_from_slice(&5u64.to_le_bytes());
    dup.extend_from_slice(&1u64.to_le_bytes()); // duplicate record
    dup.extend_from_slice(&5u64.to_le_bytes());
    assert_eq!(decode_store(dup.as_slice(), 1).err(), Some(rill_error::CorruptFileError));
}

#[test]
fn test_decode_hand_built_file() {
    let mut bytes = Vec::new();
    bytes.extend_from_slice(&3600u64.to_le_bytes());
    bytes.extend_from_slice(&0u64.to_le_bytes());
    bytes.extend_from_slice(&2u64.to_le_bytes());
    bytes.extend_from_slice(&1u64.to_le_bytes());
    bytes.extend_from_slice(&10u64.to_le_bytes());
    bytes.extend_from_slice(&2u64.to_le_bytes());
    bytes.extend_from_slice(&10u64.to_le_bytes());

    let s = decode_store(bytes.as_slice(), 3600).unwrap();
    assert_eq!(s.ts(), 3600);
    assert_eq!(s.quant(), 0);
    assert_eq!(s.len(), 2);
    assert_eq!(s.get(0).unwrap(), rill_kv { key: 1, val: 10 });
    assert_eq!(s.get(1).unwrap(), rill_kv { key: 2, val: 10 });
}
