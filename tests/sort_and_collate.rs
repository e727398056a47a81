use plotgen::codec::{decode_table, encode_stream, encode_table};
use plotgen::collate::{build_lookup, collate_tables, collation_match, nonce_key_of};
use plotgen::forward::forward_propagation;
use plotgen::plan::plan_batches;
use plotgen::record::Record;
use plotgen::sort_stage::{collect_delivered, sort_table};

fn rec(nonce: u32, first: u8, position: u64, offset: u64) -> Record {
    let mut hash = [first; 32];
    hash[31] = nonce as u8;
    Record::new(nonce.to_le_bytes(), hash, position, offset)
}

fn tmp() -> String {
    String::from("/tmp")
}

#[test]
fn collation_predicate_worked_example() {
    let parent = rec(1, 0xAB, 3, 3);
    let near = rec(1, 0xAB, 5, 5);
    let far = rec(1, 0xAB, 20, 20);
    assert!(collation_match(&near, &parent));
    assert!(!collation_match(&far, &parent));
}

#[test]
fn collation_predicate_child_below_parent() {
    let parent = rec(1, 0xAB, 20, 20);
    assert!(collation_match(&rec(1, 0xAB, 15, 11), &parent));
    assert!(!collation_match(&rec(1, 0xAB, 5, 20), &parent));
    assert!(!collation_match(&rec(1, 0xAB, 20, 10), &parent));
    assert!(collation_match(&rec(1, 0xAB, 0, 29), &rec(1, 0xAB, 9, 20)));
}

#[test]
fn collation_predicate_hash_prefix() {
    let parent = rec(1, 0xAB, 3, 3);
    let mut child = rec(1, 0xAB, 3, 3);
    child.hash[8] = 0;
    assert!(collation_match(&child, &parent));
    child.hash[7] = 0;
    assert!(!collation_match(&child, &parent));
}

#[test]
fn nonce_key_is_little_endian() {
    assert_eq!(nonce_key_of(&[1, 2, 3, 4]), 0x04030201);
    assert_eq!(nonce_key_of(&[255, 255, 255, 255]), u32::MAX);
}

#[test]
fn lookup_keeps_last_record_of_a_nonce() {
    let prev = vec![rec(4, 1, 0, 0), rec(4, 2, 1, 1), rec(5, 3, 2, 2)];
    let m = build_lookup(&prev);
    assert_eq!(m.len(), 2);
    assert_eq!(m[&4].position, 1);
    assert_eq!(m[&5].position, 2);
}

#[test]
fn collation_prunes_rewrites_and_orders() {
    let prev = vec![rec(1, 7, 3, 4), rec(2, 7, 50, 50), rec(3, 7, 8, 9)];
    let curr = vec![
        rec(3, 7, 10, 12),  // kept: deltas 2 and 3
        rec(9, 7, 0, 0),    // no parent
        rec(2, 7, 10, 10),  // too far
        rec(1, 7, 5, 6),    // kept
    ];
    let out = collate_tables(&prev, &curr);
    assert_eq!(out.len(), 2);
    assert_eq!(out[0].nonce, 1u32.to_le_bytes());
    assert_eq!(out[0].position, 5);
    assert_eq!(out[0].offset, 4);
    assert_eq!(out[0].hash, prev[0].hash);
    assert_eq!(out[1].nonce, 3u32.to_le_bytes());
    assert_eq!(out[1].position, 10);
    assert_eq!(out[1].offset, 9);
    assert_eq!(out[1].hash, prev[2].hash);
}

#[test]
fn collation_output_is_ascending_and_no_larger() {
    let prev: Vec<Record> = (0..30u32).map(|i| rec(i, 1, i as u64, i as u64)).collect();
    let curr: Vec<Record> = (0..30u32).rev().map(|i| rec(i, 1, i as u64, i as u64 + (i % 12) as u64)).collect();
    let out = collate_tables(&prev, &curr);
    assert!(out.len() <= curr.len());
    // offsets 10 and 11 apart (i = 10, 11, 22, 23) are dropped
    assert_eq!(out.len(), 26);
    for w in out.windows(2) {
        assert!(w[0].position < w[1].position);
    }
    assert!(collate_tables(&prev, &Vec::new()).is_empty());
    assert!(collate_tables(&Vec::new(), &curr).is_empty());
}

#[test]
fn delivered_records_and_failures() {
    let merged = vec![Some(rec(1, 1, 0, 0)), None, Some(rec(2, 2, 1, 1)), None];
    let t = collect_delivered(merged);
    assert_eq!(t.records.len(), 2);
    assert_eq!(t.skipped, 2);
    assert_eq!(t.records[1].nonce, 2u32.to_le_bytes());
}

#[test]
fn sort_stage_sorts_by_hash() {
    let records = vec![rec(0, 9, 0, 0), rec(1, 3, 0, 0), rec(2, 7, 0, 0), rec(3, 3, 0, 0), rec(4, 1, 0, 0)];
    let stream = encode_stream(&records);
    let sorted = sort_table(&stream, 1 << 20, &tmp()).unwrap();
    assert_eq!(sorted.skipped, 0);
    let order: Vec<(u8, u64)> = sorted.records.iter().map(|r| (r.nonce[0], r.position)).collect();
    assert_eq!(order, vec![(4, 4), (1, 1), (3, 3), (2, 2), (0, 0)]);
    for r in &sorted.records {
        assert_eq!(r.position, r.offset);
    }
}

#[test]
fn sort_stage_small_memory_many_runs() {
    let records: Vec<Record> = (0..200u32).map(|i| rec(i, (i * 37 % 11) as u8, 0, 0)).collect();
    let stream = encode_stream(&records);
    let a = sort_table(&stream, 256, &tmp()).unwrap();
    let b = sort_table(&stream, 1 << 20, &tmp()).unwrap();
    assert_eq!(a.skipped, 0);
    assert_eq!(a.records.len(), 200);
    for w in a.records.windows(2) {
        assert!(w[0].hash <= w[1].hash);
    }
    let mut seen: Vec<u32> = a.records.iter().map(|r| u32::from_le_bytes(r.nonce)).collect();
    seen.sort();
    assert_eq!(seen, (0..200u32).collect::<Vec<_>>());
    assert_eq!(encode_table(&a.records), encode_table(&b.records));
}

#[test]
fn sort_stage_empty_stream() {
    let sorted = sort_table(&[], 1024, &tmp()).unwrap();
    assert!(sorted.records.is_empty());
    assert_eq!(sorted.skipped, 0);
}

#[test]
fn end_to_end_sixteen_nonces_two_tables() {
    let plan = plan_batches(4, 1 << 20, 2).unwrap();
    assert_eq!((plan.total_iterations, plan.num_entries), (1, 16));
    let tables = forward_propagation(2, 0, plan.num_entries);
    assert_eq!(tables[0].len(), 16);
    for (i, r) in tables[0].iter().enumerate() {
        assert_eq!((r.position, r.offset), (i as u64, i as u64));
    }
    assert_eq!(tables[1].len(), 16);
    for (a, b) in tables[0].iter().zip(tables[1].iter()) {
        assert_eq!(a.nonce, b.nonce);
        assert_eq!(a.hash, b.hash);
    }
    let sorted0 = sort_table(&encode_stream(&tables[0]), 1 << 20, &tmp()).unwrap();
    let sorted1 = sort_table(&encode_stream(&tables[1]), 1 << 20, &tmp()).unwrap();
    for t in [&sorted0, &sorted1] {
        assert_eq!(t.records.len(), 16);
        assert_eq!(t.skipped, 0);
        for w in t.records.windows(2) {
            assert!(w[0].hash <= w[1].hash);
        }
    }
    let table0 = decode_table(&encode_table(&sorted0.records));
    let table1 = decode_table(&encode_table(&sorted1.records));
    let collated = collate_tables(&table0, &table1);
    assert_eq!(collated.len(), 16);
    for (i, r) in collated.iter().enumerate() {
        assert_eq!(r.position, i as u64);
    }
}
