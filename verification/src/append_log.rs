use vstd::prelude::*;

use crate::errors::Error;
use crate::functions::{
    find_newest, find_result_describes, insertion_sort_by_key, lemma_find_newest_absent,
    lemma_find_newest_last_match, lemma_find_newest_push, sorted_by_offset, write_data_at_offset,
    FindResult,
};
use crate::serialization::{
    lemma_records_bytes_len, lemma_records_bytes_push, records_bytes, serialize, spec_scan,
    KVMemoryRepr, SERIALIZED_RECORD_LEN,
};
use crate::sstables::{log_file_to_sstable, runs_find, SSTable};
use crate::FILE_SIZE_BYTES;

verus! {

/// A sequence of `n` zero bytes: the unwritten tail of a preallocated log
/// file.
pub open spec fn zero_seq(n: int) -> Seq<u8> {
    Seq::new(n as nat, |i: int| 0u8)
}

/// The records held by the in-memory mirror, in write (offset) order.
pub open spec fn mirror_records(m: Seq<(u64, KVMemoryRepr)>) -> Seq<KVMemoryRepr> {
    m.map_values(|p: (u64, KVMemoryRepr)| p.1)
}

/// The bounded append log: a fixed-size in-memory image of the log file, the
/// offset at which the next record will be placed, and the mirror of the
/// records already written, kept sorted by offset.
pub struct AppendLog {
    /// Image of the log file: serialized records followed by a zero tail.
    pub file: Vec<u8>,
    /// The next write position; grows by one record per write.
    pub write_offset: u64,
    /// (offset, record) pairs mirroring the file's records.
    pub in_memory: Vec<(u64, KVMemoryRepr)>,
}

impl AppendLog {
    /// Well-formedness: the file is exactly the serialized mirror records
    /// followed by zeros, and the mirror's offsets are the records' byte
    /// positions in write order.
    pub open spec fn wf(self) -> bool {
        &&& self.file@.len() == FILE_SIZE_BYTES
        &&& self.write_offset == SERIALIZED_RECORD_LEN * self.in_memory@.len()
        &&& self.write_offset <= FILE_SIZE_BYTES
        &&& forall|i: int|
            0 <= i < self.in_memory@.len() ==> (#[trigger] self.in_memory@[i]).0
                == SERIALIZED_RECORD_LEN * i
        &&& forall|i: int|
            0 <= i < self.in_memory@.len() ==> (#[trigger] self.in_memory@[i]).1.valid
        &&& self.file@ == records_bytes(mirror_records(self.in_memory@)) + zero_seq(
            FILE_SIZE_BYTES - self.write_offset,
        )
    }

    /// The newest entry for `key` in the log, if the log holds one.
    pub open spec fn log_find(self, key: u64) -> Option<Option<u64>> {
        find_newest(mirror_records(self.in_memory@), key)
    }

    /// A fresh, empty append log.
    pub fn new() -> (r: Self)
        ensures
            r.wf(),
            r.in_memory@.len() == 0,
            forall|k: u64| r.log_find(k) is None,
    {
        let file = vec![0u8; FILE_SIZE_BYTES as usize];
        let r = AppendLog { file, write_offset: 0, in_memory: Vec::new() };
        proof {
            assert(mirror_records(r.in_memory@) =~= Seq::<KVMemoryRepr>::empty());
            assert(r.file@ =~= records_bytes(mirror_records(r.in_memory@)) + zero_seq(
                FILE_SIZE_BYTES as int,
            ));
        }
        r
    }

    /// Searches the mirror from the end (newest first) for `key`.
    pub fn find_key(&self, key: &u64) -> (r: FindResult)
        requires
            self.wf(),
        ensures
            find_result_describes(r, self.log_find(*key)),
    {
        let ghost recs = mirror_records(self.in_memory@);
        let n = self.in_memory.len();
        let mut i: usize = n;
        while i > 0
            invariant
                i <= n,
                n == self.in_memory@.len(),
                recs == mirror_records(self.in_memory@),
                forall|j: int|
                    i <= j < n ==> (#[trigger] self.in_memory@[j]).1.key != *key,
            decreases i,
        {
            i = i - 1;
            let entry_key = self.in_memory[i].1.key;
            if entry_key == *key {
                proof {
                    assert(recs[i as int] == self.in_memory@[i as int].1);
                    assert(forall|j: int|
                        i < j < recs.len() ==> (#[trigger] recs[j]) == self.in_memory@[j].1);
                    lemma_find_newest_last_match(recs, i as int, *key);
                }
                return match self.in_memory[i].1.value {
                    Some(v) => FindResult::Found(v),
                    None => FindResult::Tombstone,
                };
            }
        }
        proof {
            assert(forall|j: int|
                0 <= j < recs.len() ==> (#[trigger] recs[j]) == self.in_memory@[j].1);
            lemma_find_newest_absent(recs, *key);
        }
        FindResult::NotFound
    }

    /// Checks whether the current file can fit a new entry and, if so,
    /// advances the write pointer.
    fn calculate_log_slot(requested_size: u64, offset: &mut u64) -> (r: Option<u64>)
        requires
            *old(offset) <= FILE_SIZE_BYTES,
        ensures
            match r {
                Some(slot) => {
                    &&& slot == *old(offset)
                    &&& *final(offset) == *old(offset) + requested_size
                    &&& *final(offset) <= FILE_SIZE_BYTES
                },
                None => {
                    &&& *final(offset) == *old(offset)
                    &&& requested_size > FILE_SIZE_BYTES - *old(offset)
                },
            },
    {
        let current_write_offset = *offset;
        let remaining_space = FILE_SIZE_BYTES - current_write_offset;
        if requested_size > remaining_space {
            None
        } else {
            *offset = current_write_offset + requested_size;
            Some(current_write_offset)
        }
    }

    /// Reserves a slot of `size` bytes at the current write offset, or
    /// reports that the file is full.
    fn try_acquire_slot(&mut self, size: u64) -> (r: Option<u64>)
        requires
            old(self).write_offset <= FILE_SIZE_BYTES,
        ensures
            final(self).file == old(self).file,
            final(self).in_memory == old(self).in_memory,
            match r {
                Some(slot) => {
                    &&& slot == old(self).write_offset
                    &&& final(self).write_offset == old(self).write_offset + size
                    &&& final(self).write_offset <= FILE_SIZE_BYTES
                },
                None => {
                    &&& final(self).write_offset == old(self).write_offset
                    &&& size > FILE_SIZE_BYTES - old(self).write_offset
                },
            },
    {
        Self::calculate_log_slot(size, &mut self.write_offset)
    }

    /// Retires the current log file into a fresh sorted run and resets the
    /// log to empty. The new run answers every lookup exactly as the old
    /// log did.
    fn rotate(&mut self) -> (r: Result<SSTable, Error>)
        requires
            old(self).wf(),
        ensures
            r matches Ok(t) && {
                &&& final(self).wf()
                &&& final(self).in_memory@.len() == 0
                &&& (forall|k: u64| final(self).log_find(k) is None)
                &&& t.wf()
                &&& (forall|k: u64| find_newest(t.contents@, k) == old(self).log_find(k))
            },
    {
        let ghost recs = mirror_records(self.in_memory@);
        proof {
            crate::serialization::lemma_scan_records(
                recs,
                zero_seq(FILE_SIZE_BYTES - self.write_offset),
            );
            assert(spec_scan(self.file@) == Some(recs));
        }
        let run = match log_file_to_sstable(self.file.as_slice()) {
            Ok(t) => t,
            Err(e) => {
                proof {
                    assert(false);
                }
                return Err(e);
            },
        };
        self.file = vec![0u8; FILE_SIZE_BYTES as usize];
        self.write_offset = 0;
        self.in_memory = Vec::new();
        proof {
            assert(mirror_records(self.in_memory@) =~= Seq::<KVMemoryRepr>::empty());
            assert(self.file@ =~= records_bytes(mirror_records(self.in_memory@)) + zero_seq(
                FILE_SIZE_BYTES as int,
            ));
        }
        Ok(run)
    }

    /// Writes one record: reserve a slot (rotating the full file into a new
    /// sorted run if needed), place the serialized record at that slot, and
    /// append it to the mirror. Returns whether a rotation happened: exactly
    /// when the record (one fixed-width slot) did not fit the current file.
    /// On rotation the retired log becomes a fresh run at the front of the
    /// run list, answering every lookup as the old log did, and the log
    /// restarts holding only the new record; otherwise the write offset
    /// advances by one record and the record is appended to the mirror.
    pub fn write_key(&mut self, key: u64, value: Option<u64>, sstables: &mut Vec<SSTable>) -> (r:
        Result<bool, Error>)
        requires
            old(self).wf(),
            forall|i: int|
                0 <= i < old(sstables)@.len() ==> (#[trigger] old(sstables)@[i]).wf(),
        ensures
            r == Ok::<bool, Error>(
                old(self).write_offset + SERIALIZED_RECORD_LEN as u64 > FILE_SIZE_BYTES,
            ),
            final(self).wf(),
            forall|i: int|
                0 <= i < final(sstables)@.len() ==> (#[trigger] final(sstables)@[i]).wf(),
            old(self).write_offset + SERIALIZED_RECORD_LEN as u64 > FILE_SIZE_BYTES ==> {
                &&& final(sstables)@.len() == old(sstables)@.len() + 1
                &&& final(sstables)@.skip(1) == old(sstables)@
                &&& (forall|k2: u64|
                    find_newest(final(sstables)@[0].contents@, k2) == old(self).log_find(k2))
                &&& final(self).in_memory@ == seq![
                    (0u64, (KVMemoryRepr { key, value, valid: true })),
                ]
                &&& final(self).write_offset == SERIALIZED_RECORD_LEN as u64
            },
            old(self).write_offset + SERIALIZED_RECORD_LEN as u64 <= FILE_SIZE_BYTES ==> {
                &&& final(sstables)@ == old(sstables)@
                &&& final(self).write_offset == old(self).write_offset
                    + SERIALIZED_RECORD_LEN as u64
                &&& final(self).in_memory@ == old(self).in_memory@.push(
                    (old(self).write_offset, (KVMemoryRepr { key, value, valid: true })),
                )
            },
            forall|k2: u64|
                store_find(*final(self), final(sstables)@, k2) == if k2 == key {
                    Some(value)
                } else {
                    store_find(*old(self), old(sstables)@, k2)
                },
    {
        let data = KVMemoryRepr::new(key, value);
        let serialized_data = match serialize(&data) {
            Ok(v) => v,
            Err(e) => {
                proof {
                    assert(false);
                }
                return Err(e);
            },
        };
        let serialized_data_len = serialized_data.len() as u64;
        let mut rotated = false;
        let slot = match self.try_acquire_slot(serialized_data_len) {
            Some(slot) => slot,
            None => {
                let run = match self.rotate() {
                    Ok(t) => t,
                    Err(e) => {
                        proof {
                            assert(false);
                        }
                        return Err(e);
                    },
                };
                proof {
                    assert forall|k2: u64|
                        store_find(*self, sstables@.insert(0, run), k2) == store_find(
                            *old(self),
                            old(sstables)@,
                            k2,
                        ) by {
                        lemma_runs_find_insert_front(sstables@, run, k2);
                    }
                }
                sstables.insert(0, run);
                rotated = true;
                match self.try_acquire_slot(serialized_data_len) {
                    Some(slot) => slot,
                    None => {
                        proof {
                            assert(false);
                        }
                        0
                    },
                }
            },
        };
        let ghost mid_self = *self;
        let ghost mid_runs = sstables@;
        let ghost old_recs = mirror_records(self.in_memory@);
        proof {
            lemma_records_bytes_len(old_recs);
        }
        match write_data_at_offset(&mut self.file, serialized_data.as_slice(), slot) {
            Ok(_) => (),
            Err(e) => {
                proof {
                    assert(false);
                }
                return Err(e);
            },
        }
        self.in_memory.push((slot, data));
        proof {
            assert forall|a: int, b: int|
                0 <= a < b < self.in_memory@.len() implies (#[trigger] self.in_memory@[a]).0 <= (
            #[trigger] self.in_memory@[b]).0 by {
                if b < self.in_memory@.len() - 1 {
                    assert(self.in_memory@[a].0 == SERIALIZED_RECORD_LEN * a);
                    assert(self.in_memory@[b].0 == SERIALIZED_RECORD_LEN * b);
                } else {
                    assert(self.in_memory@[a].0 == SERIALIZED_RECORD_LEN * a);
                }
            }
            assert(sorted_by_offset(self.in_memory@));
        }
        insertion_sort_by_key(&mut self.in_memory);
        proof {
            assert(data == (KVMemoryRepr { key, value, valid: true }));
            assert(self.in_memory@ == mid_self.in_memory@.push((slot, data)));
            if rotated {
                assert(self.in_memory@ =~= seq![(0u64, data)]);
            }
            let new_recs = mirror_records(self.in_memory@);
            assert(new_recs =~= old_recs.push(data));
            lemma_records_bytes_push(old_recs, data);
            assert(self.file@ =~= records_bytes(new_recs) + zero_seq(
                FILE_SIZE_BYTES - self.write_offset,
            )) by {
                assert(mid_self.file@.subrange(0, slot as int) =~= records_bytes(old_recs));
                assert(mid_self.file@.skip(slot + SERIALIZED_RECORD_LEN) =~= zero_seq(
                    FILE_SIZE_BYTES - self.write_offset,
                ));
            }
            assert(self.wf());
            assert forall|k2: u64|
                store_find(*self, sstables@, k2) == (if k2 == key {
                    Some(value)
                } else {
                    store_find(mid_self, mid_runs, k2)
                }) by {
                lemma_find_newest_push(old_recs, data, k2);
            }
        }
        Ok(rotated)
    }
}

/// The lookup outcome of the whole store: the log first, then the runs in
/// recency order.
pub open spec fn store_find(log: AppendLog, runs: Seq<SSTable>, key: u64) -> Option<Option<u64>> {
    match log.log_find(key) {
        Some(v) => Some(v),
        None => runs_find(runs, key),
    }
}

/// Prepending a run that answers exactly like the old log preserves every
/// lookup through an emptied log.
proof fn lemma_runs_find_insert_front(runs: Seq<SSTable>, run: SSTable, k: u64)
    ensures
        runs_find(runs.insert(0, run), k) == match find_newest(run.contents@, k) {
            Some(v) => Some(v),
            None => runs_find(runs, k),
        },
{
    let rs = runs.insert(0, run);
    assert(crate::sstables::runs_contents(rs)[0] == run.contents@);
    assert(crate::sstables::runs_contents(rs).skip(1) =~= crate::sstables::runs_contents(runs));
}

} // verus!
