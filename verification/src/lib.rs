use vstd::prelude::*;

pub mod append_log;
pub mod cleanup;
pub mod compactor;
pub mod errors;
pub mod functions;
pub mod serialization;
pub mod sstables;

use crate::append_log::{store_find, AppendLog};
use crate::compactor::{runs_sizes, spec_plan_from, CompactorManager};
use crate::errors::Error;
use crate::functions::FindResult;
use crate::sstables::{lists_find, runs_contents, SSTable};

verus! {

/// Size of every append-log file, in bytes.
pub const FILE_SIZE_BYTES: u64 = 16384;

/// The key-value storage engine: a bounded append log absorbing writes, and
/// an ordered list of immutable sorted runs (newest first) produced by log
/// rotation and compacted in the background.
pub struct KVStorage {
    /// The append log and the current write offset.
    append_log: AppendLog,
    /// Sorted list (newer at the beginning) of sorted runs.
    sstables: Vec<SSTable>,
    compaction_manager: CompactorManager,
}

impl KVStorage {
    /// Well-formedness: the log and every run are well formed, no
    /// background pass is marked as running, and the run list is fully
    /// compacted — the compactor's plan over it is empty, so every write
    /// leaves nothing behind for the compactor to merge.
    pub closed spec fn wf(self) -> bool {
        &&& self.append_log.wf()
        &&& forall|i: int|
            0 <= i < self.sstables@.len() ==> (#[trigger] self.sstables@[i]).wf()
        &&& !self.compaction_manager.currently_compacting
        &&& spec_plan_from(runs_sizes(self.sstables@), self.sstables@.len() as int).len() == 0
    }

    /// What a read of `key` returns: the log's newest entry if it has one,
    /// else the newest run entry; a tombstone and a never-written key both
    /// read as `None`.
    pub closed spec fn spec_read(self, key: u64) -> Option<u64> {
        match store_find(self.append_log, self.sstables@, key) {
            Some(v) => v,
            None => None,
        }
    }

    /// The whole store as a total map from key to what a read returns.
    pub closed spec fn view_map(self) -> Map<u64, Option<u64>> {
        Map::new(|k: u64| true, |k: u64| self.spec_read(k))
    }

    /// How many sorted runs the store currently holds.
    pub closed spec fn spec_sstable_count(self) -> nat {
        self.sstables@.len()
    }

    /// The records of the run at position `i`, newest run first.
    pub closed spec fn spec_sstable_records(self, i: int) -> Seq<crate::serialization::KVMemoryRepr> {
        self.sstables@[i].contents@
    }

    /// The total size of the run files, clamped at the integer limit.
    pub closed spec fn spec_sstable_total_bytes(self) -> u64 {
        crate::sstables::clamped_size_sum(self.sstables@)
    }

    /// How many records the append log's in-memory mirror currently holds.
    pub closed spec fn spec_log_record_count(self) -> nat {
        self.append_log.in_memory@.len()
    }

    /// The byte image of the active log file: the serialized mirror records
    /// followed by a zero tail, 16384 bytes in all.
    pub closed spec fn spec_log_image(self) -> Seq<u8> {
        self.append_log.file@
    }

    /// Creates a new, empty KV store: no sorted runs, an empty append log,
    /// and every key reading as absent.
    pub fn new() -> (r: Result<Self, Error>)
        ensures
            r matches Ok(kv) && {
                &&& kv.wf()
                &&& kv.spec_sstable_count() == 0
                &&& kv.spec_log_record_count() == 0
                &&& kv.view_map() == Map::new(|k: u64| true, |k: u64| None::<u64>)
            },
    {
        let kv = KVStorage {
            append_log: AppendLog::new(),
            sstables: Vec::new(),
            compaction_manager: CompactorManager::new(),
        };
        proof {
            assert(runs_contents(kv.sstables@).len() == 0);
            assert(kv.view_map() =~= Map::new(|k: u64| true, |k: u64| None::<u64>));
        }
        Ok(kv)
    }

    /// Writes a value (or a tombstone, `None`) for a key. After the call the
    /// store maps `key` to `value` and no other key changed.
    pub fn write(&mut self, key: u64, value: Option<u64>) -> (r: Result<(), Error>)
        requires
            old(self).wf(),
        ensures
            r is Ok,
            final(self).wf(),
            final(self).view_map() == old(self).view_map().insert(key, value),
    {
        let rotated = match self.append_log.write_key(key, value, &mut self.sstables) {
            Ok(b) => b,
            Err(e) => {
                proof {
                    assert(false);
                }
                return Err(e);
            },
        };
        let ghost mid = *self;
        if rotated {
            self.compaction_manager.signal_sstable_inserted(&mut self.sstables);
        }
        proof {
            assert forall|k2: u64| #[trigger] self.spec_read(k2) == mid.spec_read(k2) by {
                assert(crate::sstables::runs_read(self.sstables@, k2) == crate::sstables::runs_read(
                    mid.sstables@,
                    k2,
                ));
            }
            assert forall|k2: u64| #[trigger] self.spec_read(k2) == (if k2 == key {
                value
            } else {
                old(self).spec_read(k2)
            }) by {
                assert(store_find(mid.append_log, mid.sstables@, k2) == (if k2 == key {
                    Some(value)
                } else {
                    store_find(old(self).append_log, old(self).sstables@, k2)
                }));
            }
            assert(self.view_map() =~= old(self).view_map().insert(key, value));
        }
        Ok(())
    }

    /// Reads the current value for a key: the log first, then each sorted
    /// run in recency order; `None` covers both a tombstone and a key never
    /// written.
    pub fn read(&self, key: &u64) -> (r: Result<Option<u64>, Error>)
        requires
            self.wf(),
        ensures
            r == Ok::<Option<u64>, Error>(self.view_map()[*key]),
    {
        let append_log_result = self.append_log.find_key(key);
        match append_log_result {
            FindResult::Found(value) => {
                return Ok(Some(value));
            },
            FindResult::Tombstone => {
                return Ok(None);
            },
            FindResult::NotFound => {},
        }
        let ghost cls = runs_contents(self.sstables@);
        let mut i: usize = 0;
        proof {
            assert(cls.skip(0) =~= cls);
        }
        while i < self.sstables.len()
            invariant
                i <= self.sstables@.len(),
                self.wf(),
                cls == runs_contents(self.sstables@),
                self.append_log.log_find(*key) is None,
                lists_find(cls, *key) == lists_find(cls.skip(i as int), *key),
            decreases self.sstables@.len() - i,
        {
            let res = match self.sstables[i].find(key) {
                Ok(fr) => fr,
                Err(e) => {
                    proof {
                        assert(false);
                    }
                    return Err(e);
                },
            };
            proof {
                assert(cls.skip(i as int)[0] == cls[i as int]);
                assert(cls[i as int] == self.sstables@[i as int].contents@);
                assert(cls.skip(i as int).skip(1) =~= cls.skip(i + 1));
            }
            match res {
                FindResult::Found(value) => {
                    return Ok(Some(value));
                },
                FindResult::Tombstone => {
                    return Ok(None);
                },
                FindResult::NotFound => {},
            }
            i = i + 1;
        }
        proof {
            assert(cls.skip(i as int).len() == 0);
        }
        Ok(None)
    }

    /// Number of sorted runs currently in the run list.
    pub fn sstable_count(&self) -> (r: usize)
        ensures
            r == self.spec_sstable_count(),
    {
        self.sstables.len()
    }

    /// Total size in bytes of all run files, saturating at the integer
    /// limit.
    pub fn sstable_total_bytes(&self) -> (r: u64)
        ensures
            r == self.spec_sstable_total_bytes(),
    {
        let mut total: u64 = 0;
        let mut i: usize = 0;
        proof {
            assert(self.sstables@.take(0) =~= Seq::<SSTable>::empty());
        }
        while i < self.sstables.len()
            invariant
                i <= self.sstables@.len(),
                total == crate::sstables::clamped_size_sum(self.sstables@.take(i as int)),
            decreases self.sstables@.len() - i,
        {
            let sz = self.sstables[i].file_size;
            proof {
                assert(self.sstables@.take(i + 1).drop_last() =~= self.sstables@.take(i as int));
                assert(self.sstables@.take(i + 1).last() == self.sstables@[i as int]);
            }
            if sz <= u64::MAX - total {
                total = total + sz;
            }
            i = i + 1;
        }
        proof {
            assert(self.sstables@.take(self.sstables@.len() as int) =~= self.sstables@);
        }
        total
    }

    /// A copy of the active log file's byte image, exactly what the log
    /// file holds on disk.
    pub fn log_data(&self) -> (r: Vec<u8>)
        ensures
            r@ == self.spec_log_image(),
    {
        let mut out: Vec<u8> = Vec::new();
        let mut j: usize = 0;
        while j < self.append_log.file.len()
            invariant
                j <= self.append_log.file@.len(),
                out@ == self.append_log.file@.take(j as int),
            decreases self.append_log.file@.len() - j,
        {
            out.push(self.append_log.file[j]);
            proof {
                assert(out@ =~= self.append_log.file@.take(j + 1));
            }
            j = j + 1;
        }
        proof {
            assert(out@ =~= self.append_log.file@);
        }
        out
    }

    /// A copy of the byte image of the run at position `i` (newest first),
    /// exactly what the run's file holds on disk.
    pub fn sstable_data(&self, i: usize) -> (r: Vec<u8>)
        requires
            self.wf(),
            i < self.spec_sstable_count(),
        ensures
            r@ == crate::serialization::records_bytes(self.spec_sstable_records(i as int)),
    {
        let mut out: Vec<u8> = Vec::new();
        let mut j: usize = 0;
        while j < self.sstables[i].data.len()
            invariant
                self.wf(),
                i < self.sstables@.len(),
                j <= self.sstables@[i as int].data@.len(),
                out@ == self.sstables@[i as int].data@.take(j as int),
            decreases self.sstables@[i as int].data@.len() - j,
        {
            out.push(self.sstables[i].data[j]);
            proof {
                assert(out@ =~= self.sstables@[i as int].data@.take(j + 1));
            }
            j = j + 1;
        }
        proof {
            assert(out@ =~= self.sstables@[i as int].data@);
        }
        out
    }
}

/// The store after a sequence of writes, applied oldest first.
pub open spec fn apply_writes(
    m: Map<u64, Option<u64>>,
    ws: Seq<(u64, Option<u64>)>,
) -> Map<u64, Option<u64>>
    decreases ws.len(),
{
    if ws.len() == 0 {
        m
    } else {
        apply_writes(m.insert(ws[0].0, ws[0].1), ws.skip(1))
    }
}

/// The value of the last write to `k` in the sequence, if any.
pub open spec fn last_write(ws: Seq<(u64, Option<u64>)>, k: u64) -> Option<Option<u64>>
    decreases ws.len(),
{
    if ws.len() == 0 {
        None
    } else {
        match last_write(ws.skip(1), k) {
            Some(v) => Some(v),
            None => if ws[0].0 == k {
                Some(ws[0].1)
            } else {
                None
            },
        }
    }
}

/// Reads are never stale: after any sequence of writes, a key reads as the
/// value of the last write to it, or as it read before if no write touched
/// it. Together with `KVStorage::write`'s postcondition (each write turns
/// the store's map `m` into `m.insert(key, value)`) and `KVStorage::read`'s
/// postcondition (a read returns the map's value), this pins down every
/// read after every write history, whatever rotations and merges happened
/// in between.
pub proof fn lemma_reads_follow_writes(
    m: Map<u64, Option<u64>>,
    ws: Seq<(u64, Option<u64>)>,
    k: u64,
)
    requires
        m.dom() =~= Set::new(|x: u64| true),
    ensures
        apply_writes(m, ws)[k] == match last_write(ws, k) {
            Some(v) => v,
            None => m[k],
        },
    decreases ws.len(),
{
    if ws.len() > 0 {
        let m2 = m.insert(ws[0].0, ws[0].1);
        assert(m2.dom() =~= Set::new(|x: u64| true));
        lemma_reads_follow_writes(m2, ws.skip(1), k);
    }
}

/// Last write wins: writing a single key repeatedly and then reading it
/// yields exactly the last written value (`None` after a final tombstone).
pub proof fn lemma_last_write_wins(m: Map<u64, Option<u64>>, ws: Seq<(u64, Option<u64>)>, k: u64)
    requires
        m.dom() =~= Set::new(|x: u64| true),
        ws.len() > 0,
        forall|i: int| 0 <= i < ws.len() ==> (#[trigger] ws[i]).0 == k,
    ensures
        apply_writes(m, ws)[k] == ws.last().1,
{
    lemma_reads_follow_writes(m, ws, k);
    lemma_last_write_of_constant_key(ws, k);
}

proof fn lemma_last_write_of_constant_key(ws: Seq<(u64, Option<u64>)>, k: u64)
    requires
        ws.len() > 0,
        forall|i: int| 0 <= i < ws.len() ==> (#[trigger] ws[i]).0 == k,
    ensures
        last_write(ws, k) == Some(ws.last().1),
    decreases ws.len(),
{
    if ws.len() > 1 {
        assert(forall|i: int| 0 <= i < ws.skip(1).len() ==> ws.skip(1)[i] == #[trigger] ws[i + 1]);
        lemma_last_write_of_constant_key(ws.skip(1), k);
        assert(ws.skip(1).last() == ws.last());
    } else {
        reveal_with_fuel(last_write, 2);
        assert(ws[0].0 == k);
        assert(ws.last() == ws[0]);
    }
}

/// Writes to other keys leave a key's read untouched: writers of disjoint
/// key sets cannot disturb each other's values.
pub proof fn lemma_disjoint_writes_preserved(
    m: Map<u64, Option<u64>>,
    ws: Seq<(u64, Option<u64>)>,
    k: u64,
)
    requires
        m.dom() =~= Set::new(|x: u64| true),
        forall|i: int| 0 <= i < ws.len() ==> (#[trigger] ws[i]).0 != k,
    ensures
        apply_writes(m, ws)[k] == m[k],
{
    lemma_reads_follow_writes(m, ws, k);
    lemma_last_write_none(ws, k);
}

proof fn lemma_last_write_none(ws: Seq<(u64, Option<u64>)>, k: u64)
    requires
        forall|i: int| 0 <= i < ws.len() ==> (#[trigger] ws[i]).0 != k,
    ensures
        last_write(ws, k) is None,
    decreases ws.len(),
{
    if ws.len() > 0 {
        assert(forall|i: int| 0 <= i < ws.skip(1).len() ==> ws.skip(1)[i] == #[trigger] ws[i + 1]);
        lemma_last_write_none(ws.skip(1), k);
    }
}

} // verus!
