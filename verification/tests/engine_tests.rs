use std::collections::HashMap;

use key_value_store::serialization::deserialize_entries_from_bytes;
use key_value_store::KVStorage;

#[test]
fn test_everything() {
    let mut kv = KVStorage::new().unwrap();
    kv.write(1, Some(10)).unwrap();
    assert_eq!(kv.read(&1).unwrap(), Some(10));
    kv.write(1, Some(20)).unwrap();
    assert_eq!(kv.read(&1).unwrap(), Some(20));
    kv.write(2, None).unwrap();
    assert_eq!(kv.read(&2).unwrap(), None);
    assert_eq!(kv.read(&99).unwrap(), None);
}

/// Writes enough distinct keys to retire at least `n` log files.
fn force_rotations(kv: &mut KVStorage, n: u64, key_base: u64) {
    // A log file of 16 KiB holds 780 serialized records of 21 bytes.
    for k in 0..(n * 800) {
        kv.write(key_base + k, Some(key_base + k)).unwrap();
    }
}

#[test]
fn log_image_matches_written_records() {
    // The active log image is the serialized records followed by a zero
    // tail, sized to one full log file.
    let mut kv = KVStorage::new().unwrap();
    kv.write(5, Some(50)).unwrap();
    kv.write(6, None).unwrap();
    let image = kv.log_data();
    assert_eq!(image.len(), 16384);
    let entries = deserialize_entries_from_bytes(&image).unwrap();
    assert_eq!(entries.len(), 2);
    assert_eq!(*entries[0].key(), 5);
    assert_eq!(*entries[0].value(), Some(50));
    assert_eq!(*entries[1].key(), 6);
    assert_eq!(*entries[1].value(), None);
}

#[test]
fn rotation_preserves_reads() {
    // Force rotation: more entries than one log file can hold.
    let mut kv = KVStorage::new().unwrap();
    let count: u64 = 1000;
    for k in 0..count {
        kv.write(k, Some(k * 7)).unwrap();
    }
    assert!(kv.sstable_count() >= 1);
    for k in 0..count {
        assert_eq!(kv.read(&k).unwrap(), Some(k * 7));
    }
    assert_eq!(kv.read(&count).unwrap(), None);
}

#[test]
fn compaction_shrinks_run_list() {
    // Keep rotating until the smallest bucket fills up; the compactor must
    // then replace a group of runs by one, without growing the total size
    // and without losing a single key.
    let mut kv = KVStorage::new().unwrap();
    let mut saw_merge = false;
    let mut prev_count = 0;
    let mut prev_bytes = 0u64;
    let count: u64 = 5 * 800;
    for k in 0..count {
        kv.write(k, Some(k + 1)).unwrap();
        let c = kv.sstable_count();
        let b = kv.sstable_total_bytes();
        if c < prev_count {
            saw_merge = true;
            // The write that triggered this merge first rotated one more log
            // file (16384 bytes) into the list; the merge itself must not
            // grow the store beyond that.
            assert!(b <= prev_bytes + 16384, "merge must not grow the store");
        }
        prev_count = c;
        prev_bytes = b;
    }
    assert!(saw_merge);
    for k in 0..count {
        assert_eq!(kv.read(&k).unwrap(), Some(k + 1));
    }
}

#[test]
fn tombstone_reads_absent_across_rotations() {
    // Tombstone coverage: write, rotate, delete, rotate; the delete wins.
    let mut kv = KVStorage::new().unwrap();
    kv.write(1, Some(10)).unwrap();
    force_rotations(&mut kv, 1, 1_000_000);
    kv.write(1, None).unwrap();
    force_rotations(&mut kv, 1, 2_000_000);
    assert_eq!(kv.read(&1).unwrap(), None);
}

#[test]
fn tail_merge_erases_tombstones() {
    // After a merge that reaches the oldest end of the run list, no record
    // for the deleted key remains in any run, and no tombstone survives.
    let mut kv = KVStorage::new().unwrap();
    kv.write(1, Some(10)).unwrap();
    force_rotations(&mut kv, 1, 1_000_000);
    kv.write(1, None).unwrap();
    // Three more rotations reach the merge threshold of four runs.
    force_rotations(&mut kv, 3, 2_000_000);
    assert_eq!(kv.read(&1).unwrap(), None);
    assert!(kv.sstable_count() < 4, "the runs should have been merged");
    for i in 0..kv.sstable_count() {
        let data = kv.sstable_data(i);
        let entries = deserialize_entries_from_bytes(&data).unwrap();
        for e in &entries {
            assert_ne!(*e.key(), 1, "no record for the deleted key may remain");
            assert!(e.value().is_some(), "no tombstone may survive a tail merge");
        }
    }
}

#[test]
fn random_writes_match_mirror() {
    // A long random workload with 10% tombstones, checked against an
    // in-test mirror map over a fixed set of known keys.
    let known: u64 = 100;
    let mut kv = KVStorage::new().unwrap();
    let mut mirror: HashMap<u64, Option<u64>> = HashMap::new();
    for k in 0..known {
        kv.write(k, Some(k * 100)).unwrap();
        mirror.insert(k, Some(k * 100));
    }
    for i in 0..20_000u64 {
        let k = rand::random::<u64>() % (known * 4);
        let v = if rand::random::<u64>() % 10 == 0 {
            None
        } else {
            Some(i)
        };
        kv.write(k, v).unwrap();
        if k < known {
            mirror.insert(k, v);
        }
        if i % 500 == 0 {
            for kk in 0..known {
                assert_eq!(kv.read(&kk).unwrap(), *mirror.get(&kk).unwrap());
            }
        }
    }
    for kk in 0..known {
        assert_eq!(kv.read(&kk).unwrap(), *mirror.get(&kk).unwrap());
    }
}

#[test]
fn disjoint_key_sets_do_not_interfere() {
    // Several writers owning disjoint key ranges, interleaved round-robin:
    // each range always reads back its own latest values.
    let owners: u64 = 4;
    let per_owner: u64 = 100;
    let mut kv = KVStorage::new().unwrap();
    let mut mirrors: Vec<HashMap<u64, Option<u64>>> = (0..owners)
        .map(|o| {
            (0..per_owner)
                .map(|k| (o * per_owner + k, Some(o * per_owner + k)))
                .collect()
        })
        .collect();
    for o in 0..owners {
        for k in 0..per_owner {
            kv.write(o * per_owner + k, Some(o * per_owner + k)).unwrap();
        }
    }
    for round in 0..2_000u64 {
        let o = (round % owners) as usize;
        let k = (o as u64) * per_owner + rand::random::<u64>() % per_owner;
        let v = if rand::random::<u64>() % 10 == 0 {
            None
        } else {
            Some(round)
        };
        kv.write(k, v).unwrap();
        mirrors[o].insert(k, v);
        if round % 100 == 0 {
            for (kk, vv) in &mirrors[o] {
                assert_eq!(kv.read(kk).unwrap(), *vv);
            }
        }
    }
    for o in 0..owners as usize {
        for (kk, vv) in &mirrors[o] {
            assert_eq!(kv.read(kk).unwrap(), *vv);
        }
    }
}
