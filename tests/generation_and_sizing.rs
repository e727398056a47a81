use plotgen::forward::{derive_table, forward_propagation, generate_first_table, nonce_of};
use plotgen::matching::compute_matching_function;
use plotgen::plan::{plan_batches, BatchPlan, ConfigError};
use plotgen::record::Record;

#[test]
fn nonce_is_little_endian() {
    assert_eq!(nonce_of(0x01020304), [4, 3, 2, 1]);
    assert_eq!(nonce_of(16), [16, 0, 0, 0]);
}

#[test]
fn first_table_of_a_batch() {
    let t = generate_first_table(0, 16);
    assert_eq!(t.len(), 16);
    for (i, r) in t.iter().enumerate() {
        assert_eq!(r.nonce, (i as u32).to_le_bytes());
        assert_eq!(r.hash, compute_matching_function(&r.nonce));
        assert_eq!(r.position, i as u64);
        assert_eq!(r.offset, i as u64);
    }
}

#[test]
fn later_batches_continue_the_nonce_space() {
    let tables = forward_propagation(3, 2, 8);
    assert_eq!(tables.len(), 3);
    for table in &tables {
        assert_eq!(table.len(), 8);
        for (j, r) in table.iter().enumerate() {
            assert_eq!(r.nonce, (16 + j as u32).to_le_bytes());
            assert_eq!(r.position, j as u64);
        }
    }
}

#[test]
fn derived_table_rehashes_the_same_nonce() {
    let parent = vec![
        Record::new([5, 0, 0, 0], [1u8; 32], 40, 41),
        Record::new([9, 0, 0, 0], [2u8; 32], 7, 3),
    ];
    let child = derive_table(&parent);
    assert_eq!(child.len(), 2);
    assert_eq!(child[0].nonce, [5, 0, 0, 0]);
    assert_eq!(child[0].hash, compute_matching_function(&[5, 0, 0, 0]));
    assert_eq!((child[0].position, child[0].offset), (0, 0));
    assert_eq!(child[1].hash, compute_matching_function(&[9, 0, 0, 0]));
    assert_eq!((child[1].position, child[1].offset), (1, 1));
}

#[test]
fn zero_tables_or_empty_batch() {
    assert!(forward_propagation(0, 0, 16).is_empty());
    let tables = forward_propagation(2, 0, 0);
    assert_eq!(tables.len(), 2);
    assert!(tables[0].is_empty() && tables[1].is_empty());
}

#[test]
fn sizing_worked_example() {
    let plan = plan_batches(10, 1_048_576, 7).unwrap();
    assert_eq!(plan, BatchPlan { total_iterations: 1, num_entries: 1024 });
}

#[test]
fn sizing_splits_into_batches() {
    // 2^20 * 36 bytes over 2 tables sharing 1 MiB: 37748736 / 524288 = 72 batches.
    let plan = plan_batches(20, 1_048_576, 2).unwrap();
    assert_eq!(plan.total_iterations, 72);
    assert_eq!(plan.num_entries, (1u64 << 20) / 72);
}

#[test]
fn sizing_largest_k() {
    let plan = plan_batches(32, u64::MAX, 2).unwrap();
    assert_eq!(plan, BatchPlan { total_iterations: 1, num_entries: 1u64 << 32 });
}

#[test]
fn sizing_rejects_bad_configurations() {
    assert_eq!(plan_batches(0, 1_048_576, 7), Err(ConfigError::KOutOfRange));
    assert_eq!(plan_batches(33, 1_048_576, 7), Err(ConfigError::KOutOfRange));
    assert_eq!(plan_batches(10, 1_048_576, 1), Err(ConfigError::TooFewTables));
    assert_eq!(plan_batches(10, 0, 7), Err(ConfigError::MemoryTooSmall));
    assert_eq!(plan_batches(10, 6, 7), Err(ConfigError::MemoryTooSmall));
}
