use key_value_store::compactor::{find_sstables_to_merge, get_bucket, merge_sstable_contents};
use key_value_store::functions::{insertion_sort_by_key, write_data_at_offset, FindResult};
use key_value_store::serialization::{serialize, KVMemoryRepr};
use key_value_store::sstables::{index_to_range, log_file_to_sstable, SSTable};

fn log_image(entries: &[(u64, Option<u64>)]) -> Vec<u8> {
    let mut bytes = Vec::new();
    for (k, v) in entries {
        bytes.extend_from_slice(&serialize(&KVMemoryRepr::new(*k, *v)).unwrap());
    }
    bytes.resize(16384, 0);
    bytes
}

fn run_from(entries: &[(u64, Option<u64>)]) -> SSTable {
    log_file_to_sstable(&log_image(entries)).unwrap()
}

#[test]
fn sstable_find_present_absent_tombstone() {
    let table = run_from(&[(3, Some(30)), (1, Some(10)), (2, None)]);
    assert!(matches!(table.find(&1).unwrap(), FindResult::Found(10)));
    assert!(matches!(table.find(&3).unwrap(), FindResult::Found(30)));
    assert!(matches!(table.find(&2).unwrap(), FindResult::Tombstone));
    // The bloom filter and index must not invent entries for absent keys.
    assert!(matches!(table.find(&4).unwrap(), FindResult::NotFound));
    assert!(matches!(table.find(&0).unwrap(), FindResult::NotFound));
    assert!(matches!(
        table.find(&u64::MAX).unwrap(),
        FindResult::NotFound
    ));
}

#[test]
fn sstable_deduplicates_newest_wins() {
    // Later writes appear later in the log; the rotation keeps the newest.
    let table = run_from(&[(5, Some(1)), (5, Some(2)), (5, Some(3))]);
    assert!(matches!(table.find(&5).unwrap(), FindResult::Found(3)));
}

#[test]
fn sstable_find_with_populated_index() {
    // More than 128 records gives the run a non-empty sparse index.
    let mut entries = Vec::new();
    for k in 0..700u64 {
        entries.push((k, Some(k * 2)));
    }
    let table = run_from(&entries);
    for k in [0u64, 1, 127, 128, 399, 698, 699] {
        assert!(matches!(table.find(&k).unwrap(), FindResult::Found(v) if v == k * 2));
    }
    assert!(matches!(table.find(&700).unwrap(), FindResult::NotFound));
}

#[test]
fn index_to_range_windows() {
    // Index entries: (key, byte offset), strictly ascending in both.
    let index: Vec<(u64, u64)> = vec![(10, 0), (20, 210), (30, 420)];
    // Exact hit: window starts at the entry, ends at the next.
    assert_eq!(index_to_range(&20, &index), (210, Some(420)));
    // Miss inside: window spans from the last smaller entry.
    assert_eq!(index_to_range(&25, &index), (210, Some(420)));
    // Before the first entry: empty prefix window.
    assert_eq!(index_to_range(&5, &index), (0, Some(0)));
    // Past the last entry: open-ended window.
    assert_eq!(index_to_range(&99, &index), (420, None));
    // Empty index: the whole file.
    assert_eq!(index_to_range(&7, &Vec::new()), (0, None));
}

fn rec(k: u64, v: Option<u64>) -> KVMemoryRepr {
    KVMemoryRepr::new(k, v)
}

#[test]
fn merge_newest_list_wins() {
    let newest = vec![rec(1, Some(100)), rec(3, Some(300))];
    let older = vec![rec(1, Some(1)), rec(2, Some(2))];
    let merged = merge_sstable_contents(vec![newest, older], true);
    let kv: Vec<(u64, Option<u64>)> = merged.iter().map(|r| (*r.key(), *r.value())).collect();
    assert_eq!(kv, vec![(1, Some(100)), (2, Some(2)), (3, Some(300))]);
}

#[test]
fn merge_single_table_is_identity() {
    // Idempotence of compaction: merging one run changes nothing.
    let table = vec![rec(1, Some(10)), rec(2, None), rec(3, Some(30))];
    let merged = merge_sstable_contents(vec![table.clone()], true);
    let a: Vec<(u64, Option<u64>)> = table.iter().map(|r| (*r.key(), *r.value())).collect();
    let b: Vec<(u64, Option<u64>)> = merged.iter().map(|r| (*r.key(), *r.value())).collect();
    assert_eq!(a, b);
}

#[test]
fn merge_drops_tombstones_at_tail() {
    // Tombstone erasure: a merge that reaches the oldest runs keeps no
    // absent-value record.
    let newest = vec![rec(1, None), rec(2, Some(20))];
    let older = vec![rec(1, Some(10)), rec(3, None)];
    let merged = merge_sstable_contents(vec![newest, older], false);
    let kv: Vec<(u64, Option<u64>)> = merged.iter().map(|r| (*r.key(), *r.value())).collect();
    assert_eq!(kv, vec![(2, Some(20))]);
    assert!(merged.iter().all(|r| r.value().is_some()));
}

#[test]
fn merge_keeps_tombstones_elsewhere() {
    let newest = vec![rec(1, None)];
    let older = vec![rec(1, Some(10))];
    let merged = merge_sstable_contents(vec![newest, older], true);
    let kv: Vec<(u64, Option<u64>)> = merged.iter().map(|r| (*r.key(), *r.value())).collect();
    assert_eq!(kv, vec![(1, None)]);
}

#[test]
fn bucket_boundaries() {
    assert_eq!(get_bucket(0), 0);
    assert_eq!(get_bucket(16384), 0);
    assert_eq!(get_bucket(9_999_999), 0);
    assert_eq!(get_bucket(10_000_000), 1);
    assert_eq!(get_bucket(99_999_999), 1);
    assert_eq!(get_bucket(100_000_000), 2);
    assert_eq!(get_bucket(999_999_999), 2);
    assert_eq!(get_bucket(1_000_000_000), 3);
    assert_eq!(get_bucket(10_000_000_000), 4);
}

#[test]
fn plan_groups_same_bucket_runs() {
    // Six equally small runs: one group of six, spanning the whole list.
    let runs: Vec<SSTable> = (0..6).map(|k| run_from(&[(k, Some(k))])).collect();
    let plan = find_sstables_to_merge(&runs);
    assert_eq!(plan, vec![(0, 6)]);
}

#[test]
fn plan_requires_minimum_group() {
    // Three runs in the smallest bucket are not enough to merge.
    let runs: Vec<SSTable> = (0..3).map(|k| run_from(&[(k, Some(k))])).collect();
    let plan = find_sstables_to_merge(&runs);
    assert!(plan.is_empty());
}

#[test]
fn insertion_sort_orders_by_offset() {
    let mut v = vec![
        (42u64, rec(1, Some(1))),
        (0u64, rec(2, Some(2))),
        (21u64, rec(3, Some(3))),
    ];
    insertion_sort_by_key(&mut v);
    let offsets: Vec<u64> = v.iter().map(|p| p.0).collect();
    assert_eq!(offsets, vec![0, 21, 42]);
    assert_eq!(*v[0].1.key(), 2);
    assert_eq!(*v[2].1.key(), 1);
}

#[test]
fn write_at_offset_replaces_window() {
    let mut file = vec![9u8; 10];
    write_data_at_offset(&mut file, &[1, 2, 3], 4).unwrap();
    assert_eq!(file, vec![9, 9, 9, 9, 1, 2, 3, 9, 9, 9]);
}
