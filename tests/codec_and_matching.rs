use plotgen::codec::{decode_stream, decode_table, encode_stream, encode_table};
use plotgen::matching::compute_matching_function;
use plotgen::record::{compare_hashes, Record};
use std::cmp::Ordering;

fn sample(i: u8) -> Record {
    let mut hash = [0u8; 32];
    for (j, b) in hash.iter_mut().enumerate() {
        *b = i.wrapping_mul(31).wrapping_add(j as u8);
    }
    Record::new([i, 1, 2, 3], hash, 1000 + i as u64, u64::MAX - i as u64)
}

fn same(a: &Record, b: &Record) -> bool {
    a.nonce == b.nonce && a.hash == b.hash && a.position == b.position && a.offset == b.offset
}

#[test]
fn matching_function_is_repeatable() {
    for x in [0u32, 1, 2, 255, 256, 65535, u32::MAX] {
        let n = x.to_le_bytes();
        let a = compute_matching_function(&n);
        let b = compute_matching_function(&n);
        assert_eq!(a, b);
        assert_eq!(a.len(), 32);
    }
}

#[test]
fn matching_function_is_double_blake3() {
    let n = 7u32.to_le_bytes();
    let first: [u8; 32] = blake3::hash(&n).into();
    let second: [u8; 32] = blake3::hash(&first).into();
    assert_eq!(compute_matching_function(&n), second);
    assert_ne!(compute_matching_function(&n), first);
}

#[test]
fn matching_function_diffuses() {
    let a = compute_matching_function(&[0, 0, 0, 0]);
    let b = compute_matching_function(&[1, 0, 0, 0]);
    let differing_bits: u32 = a.iter().zip(b.iter()).map(|(x, y)| (x ^ y).count_ones()).sum();
    assert!(differing_bits > 64, "only {} bits differ", differing_bits);
}

#[test]
fn table_encoding_layout() {
    let r = Record::new([1, 2, 3, 4], [9u8; 32], 0x0102030405060708, 5);
    let bytes = encode_table(&vec![r]);
    assert_eq!(bytes.len(), 52);
    assert_eq!(&bytes[0..4], &[1, 2, 3, 4]);
    assert_eq!(&bytes[4..36], &[9u8; 32]);
    assert_eq!(&bytes[36..44], &[8, 7, 6, 5, 4, 3, 2, 1]);
    assert_eq!(&bytes[44..52], &[5, 0, 0, 0, 0, 0, 0, 0]);
}

#[test]
fn table_round_trip() {
    let records: Vec<Record> = (0..20u8).map(sample).collect();
    let decoded = decode_table(&encode_table(&records));
    assert_eq!(decoded.len(), records.len());
    for (a, b) in records.iter().zip(decoded.iter()) {
        assert!(same(a, b));
    }
    assert_eq!(encode_table(&decoded), encode_table(&records));
}

#[test]
fn stream_round_trip_keeps_nonce_and_hash() {
    let records: Vec<Record> = (0..5u8).map(sample).collect();
    let bytes = encode_stream(&records);
    assert_eq!(bytes.len(), 5 * 36);
    assert_eq!(&bytes[0..4], &records[0].nonce);
    assert_eq!(&bytes[4..36], &records[0].hash);
    let decoded = decode_stream(&bytes);
    assert_eq!(decoded.len(), 5);
    for (i, (a, b)) in records.iter().zip(decoded.iter()).enumerate() {
        assert_eq!(a.nonce, b.nonce);
        assert_eq!(a.hash, b.hash);
        assert_eq!(b.position, i as u64);
        assert_eq!(b.offset, i as u64);
    }
}

#[test]
fn partial_trailing_unit_is_dropped() {
    let records: Vec<Record> = (0..3u8).map(sample).collect();
    let mut table = encode_table(&records);
    table.extend_from_slice(&[1, 2, 3]);
    assert_eq!(decode_table(&table).len(), 3);
    let mut stream = encode_stream(&records);
    stream.extend_from_slice(&[0u8; 35]);
    assert_eq!(decode_stream(&stream).len(), 3);
    assert!(decode_table(&[]).is_empty());
    assert!(decode_stream(&[0u8; 35]).is_empty());
}

#[test]
fn records_compare_by_hash_alone() {
    let a = Record::new([1, 0, 0, 0], [5u8; 32], 1, 2);
    let b = Record::new([2, 0, 0, 0], [5u8; 32], 3, 4);
    assert!(a == b);
    assert_eq!(a.partial_cmp(&b), Some(Ordering::Equal));
    let mut h = [5u8; 32];
    h[31] = 6;
    let c = Record::new([1, 0, 0, 0], h, 1, 2);
    assert!(a != c);
    assert!(a < c);
    assert_eq!(c.partial_cmp(&a), Some(Ordering::Greater));
    let mut low = [9u8; 32];
    low[0] = 4;
    assert!(Record::new([0; 4], low, 0, 0) < a);
    assert_eq!(compare_hashes(&[0u8; 32], &[0u8; 32]), Ordering::Equal);
}
