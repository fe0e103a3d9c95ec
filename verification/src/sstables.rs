use vstd::prelude::*;

use vstd::arithmetic::div_mod::{lemma_fundamental_div_mod, lemma_fundamental_div_mod_converse};
use vstd::slice::slice_subrange;

use crate::errors::Error;
use crate::functions::{
    all_valid, find_newest, find_result_describes, lemma_find_newest_absent, lemma_find_newest_at,
    lemma_find_newest_push, sorted_by_key, sorted_strict_by_key, FindResult,
};
use crate::serialization::{
    lemma_records_bytes_len, lemma_records_bytes_push, lemma_records_bytes_split,
    lemma_scan_records, records_bytes, serialize, spec_scan, KVMemoryRepr,
    SERIALIZED_RECORD_LEN,
};
use crate::FILE_SIZE_BYTES;

verus! {

/// Target number of sparse-index entries per sorted run.
pub const TABLE_TO_INDEX_RATIO: u64 = 128;

#[verifier::external_type_specification]
#[verifier::external_body]
#[verifier::reject_recursive_types(T)]
pub struct ExBloom<T: ?Sized>(bloomfilter::Bloom<T>);

/// The set of keys that have been recorded in a bloom filter.
pub uninterp spec fn bloom_elements(b: bloomfilter::Bloom<u64>) -> Set<u64>;

pub assume_specification<T>[ rand::random::<T> ]() -> (r: T)
    where
        rand::distributions::Standard: rand::distributions::Distribution<T>,
;

/// Relies on bloomfilter::Bloom::new_with_seed: a filter built over a fresh
/// all-zero bitmap has recorded no key; the call returns `Ok` for any
/// positive sizes whose bit count fits in a u64.
#[verifier::external_body]
fn bloom_new(bitmap_size: usize, items_count: usize, s0: u64, s1: u64, s2: u64, s3: u64) -> (r:
    bloomfilter::Bloom<u64>)
    requires
        1 <= bitmap_size < 0x1000000000000000,
        1 <= items_count,
    ensures
        bloom_elements(r) == Set::<u64>::empty(),
{
    let mut seed = [0u8; 32];
    seed[0..8].copy_from_slice(&s0.to_le_bytes());
    seed[8..16].copy_from_slice(&s1.to_le_bytes());
    seed[16..24].copy_from_slice(&s2.to_le_bytes());
    seed[24..32].copy_from_slice(&s3.to_le_bytes());
    bloomfilter::Bloom::new_with_seed(bitmap_size, items_count, &seed).unwrap()
}

/// Relies on bloomfilter::Bloom::set: records the presence of a key by
/// setting bits; bits are never cleared, so previously recorded keys stay
/// recorded. Setting one key's bits may complete the bit pattern of other
/// keys (a bloom false positive), so only containment is promised, not
/// equality.
#[verifier::external_body]
fn bloom_set(b: &mut bloomfilter::Bloom<u64>, key: u64)
    ensures
        bloom_elements(*final(b)).contains(key),
        forall|k2: u64|
            bloom_elements(*old(b)).contains(k2) ==> bloom_elements(*final(b)).contains(k2),
{
    b.set(&key)
}

/// Relies on bloomfilter::Bloom::check: a bloom filter can report false
/// positives but never false negatives, so a recorded key always checks
/// true.
#[verifier::external_body]
fn bloom_check(b: &bloomfilter::Bloom<u64>, key: u64) -> (r: bool)
    ensures
        bloom_elements(*b).contains(key) ==> r,
{
    b.check(&key)
}

/// The sparse-index sampling interval for `n` records: one index entry per
/// `n / 128` records, or none at all for small runs.
pub open spec fn spec_index_interval(n: int) -> int {
    n / (TABLE_TO_INDEX_RATIO as int)
}

/// The sparse index of a run: every `interval`-th record's key, paired with
/// the byte offset at which that record starts.
pub open spec fn spec_sparse_index(rs: Seq<KVMemoryRepr>) -> Seq<(u64, u64)> {
    let iv = spec_index_interval(rs.len() as int);
    if iv <= 0 {
        Seq::empty()
    } else {
        Seq::new(
            (((rs.len() - 1) as int) / iv + 1) as nat,
            |j: int| (rs[j * iv].key, (SERIALIZED_RECORD_LEN * j * iv) as u64),
        )
    }
}

/// An immutable sorted run: the serialized bytes of its records, a sparse
/// index over them, and a bloom filter over their keys. The ghost `contents`
/// field carries the records the byte image encodes.
pub struct SSTable {
    pub id: u64,
    /// Sorted list of (key, byte offset) samples.
    pub index: Vec<(u64, u64)>,
    /// The serialized sorted records (what the run's file holds on disk).
    pub data: Vec<u8>,
    /// Size of `data` in bytes.
    pub file_size: u64,
    pub bloom_filter: bloomfilter::Bloom<u64>,
    /// The records this run holds, sorted strictly by key.
    pub contents: Ghost<Seq<KVMemoryRepr>>,
}

impl SSTable {
    /// Well-formedness: the byte image, the sparse index and the bloom
    /// filter all describe `contents`, which is strictly sorted and holds
    /// only valid records.
    pub open spec fn wf(self) -> bool {
        &&& sorted_strict_by_key(self.contents@)
        &&& all_valid(self.contents@)
        &&& self.data@ == records_bytes(self.contents@)
        &&& self.file_size == self.data@.len()
        &&& SERIALIZED_RECORD_LEN * self.contents@.len() <= u64::MAX
        &&& self.index@ == spec_sparse_index(self.contents@)
        &&& forall|i: int|
            0 <= i < self.contents@.len() ==> bloom_elements(self.bloom_filter).contains(
                (#[trigger] self.contents@[i]).key,
            )
    }

    /// Point lookup: bloom filter first, then a sparse-index bounded window
    /// of the byte image, scanned and searched by key.
    pub fn find(&self, key: &u64) -> (r: Result<FindResult, Error>)
        requires
            self.wf(),
        ensures
            r matches Ok(fr) && find_result_describes(fr, find_newest(self.contents@, *key)),
    {
        let ghost cont = self.contents@;
        if !bloom_check(&self.bloom_filter, *key) {
            proof {
                lemma_find_newest_absent(cont, *key);
            }
            return Ok(FindResult::NotFound);
        }
        proof {
            lemma_sparse_index_props(cont);
            lemma_records_bytes_len(cont);
        }
        let (range_start, range_end_opt) = index_to_range(key, &self.index);
        let range_end = match range_end_opt {
            Some(e) => e,
            None => self.file_size,
        };
        proof {
            lemma_last_le_props(self.index@, *key);
        }
        let ghost w = lemma_window_covers(cont, self.index@, *key, range_start, range_end);
        let data_len = self.data.len();
        proof {
            assert(range_start <= range_end <= data_len);
        }
        proof {
            lemma_records_bytes_len(cont);
            lemma_records_bytes_split(cont, w.0);
            lemma_records_bytes_split(cont.skip(w.0), w.1 - w.0);
            assert(cont.skip(w.0).take(w.1 - w.0) =~= cont.subrange(w.0, w.1));
            lemma_records_bytes_len(cont.take(w.0));
            lemma_records_bytes_len(cont.subrange(w.0, w.1));
            lemma_records_bytes_len(cont.skip(w.0));
            assert(records_bytes(cont).subrange(
                SERIALIZED_RECORD_LEN * w.0,
                SERIALIZED_RECORD_LEN * w.1,
            ) =~= records_bytes(cont.subrange(w.0, w.1)));
        }
        let buffer = slice_subrange(self.data.as_slice(), range_start as usize, range_end as usize);
        let ghost window = cont.subrange(w.0, w.1);
        proof {
            assert(buffer@ == records_bytes(window));
            assert(records_bytes(window) + Seq::<u8>::empty() =~= records_bytes(window));
            assert(forall|i: int| 0 <= i < window.len() ==> (#[trigger] window[i]).valid);
            lemma_scan_records(window, Seq::<u8>::empty());
            assert(spec_scan(buffer@) == Some(window));
        }
        let entries = match crate::serialization::deserialize_entries_from_bytes(buffer) {
            Ok(v) => v,
            Err(e) => {
                proof {
                    assert(false);
                }
                return Err(e);
            },
        };
        proof {
            assert(entries@ == window);
            assert(forall|a: int, b: int|
                0 <= a < b < window.len() ==> (#[trigger] window[a]).key < (
                #[trigger] window[b]).key);
        }
        let found = record_binary_search(&entries, key);
        match found {
            Some(i) => {
                proof {
                    lemma_find_newest_at(cont, w.0 + i, *key);
                }
                match entries[i].value {
                    Some(v) => Ok(FindResult::Found(v)),
                    None => Ok(FindResult::Tombstone),
                }
            },
            None => {
                proof {
                    assert forall|i: int| 0 <= i < cont.len() implies (#[trigger] cont[i]).key
                        != *key by {
                        if cont[i].key == *key {
                            assert(w.0 <= i < w.1);
                            assert(window[i - w.0] == cont[i]);
                        }
                    }
                    lemma_find_newest_absent(cont, *key);
                }
                Ok(FindResult::NotFound)
            },
        }
    }
}

/// Lookup through a stack of record lists, newest first: the first list
/// holding the key decides.
pub open spec fn lists_find(ls: Seq<Seq<KVMemoryRepr>>, key: u64) -> Option<Option<u64>>
    decreases ls.len(),
{
    if ls.len() == 0 {
        None
    } else {
        match find_newest(ls[0], key) {
            Some(v) => Some(v),
            None => lists_find(ls.skip(1), key),
        }
    }
}

/// The record sequences held by a list of runs, newest first.
pub open spec fn runs_contents(rs: Seq<SSTable>) -> Seq<Seq<KVMemoryRepr>> {
    rs.map_values(|t: SSTable| t.contents@)
}

/// Lookup through the run list, newest first.
pub open spec fn runs_find(rs: Seq<SSTable>, key: u64) -> Option<Option<u64>> {
    lists_find(runs_contents(rs), key)
}

/// The summed sizes of the run files, clamped so the sum never exceeds the
/// integer limit (a run whose size would overflow the total is skipped).
pub open spec fn clamped_size_sum(rs: Seq<SSTable>) -> u64
    decreases rs.len(),
{
    if rs.len() == 0 {
        0
    } else {
        let t = clamped_size_sum(rs.drop_last());
        if rs.last().file_size <= u64::MAX - t {
            (t + rs.last().file_size) as u64
        } else {
            t
        }
    }
}

/// What a reader learns from the run list alone: a present value, or
/// nothing (covering both a tombstone and an unknown key).
pub open spec fn runs_read(rs: Seq<SSTable>, key: u64) -> Option<u64> {
    match runs_find(rs, key) {
        Some(v) => v,
        None => None,
    }
}

/// The largest index position whose key is at most `key`, or -1 when every
/// index key is larger.
pub open spec fn spec_last_le(ks: Seq<(u64, u64)>, key: u64) -> int
    decreases ks.len(),
{
    if ks.len() == 0 {
        -1
    } else if ks.last().0 <= key {
        ks.len() - 1
    } else {
        spec_last_le(ks.drop_last(), key)
    }
}

pub proof fn lemma_last_le_props(ks: Seq<(u64, u64)>, key: u64)
    ensures
        -1 <= spec_last_le(ks, key) < ks.len(),
        spec_last_le(ks, key) >= 0 ==> ks[spec_last_le(ks, key)].0 <= key,
        forall|j: int| spec_last_le(ks, key) < j < ks.len() ==> (#[trigger] ks[j]).0 > key,
    decreases ks.len(),
{
    if ks.len() > 0 && ks.last().0 > key {
        lemma_last_le_props(ks.drop_last(), key);
        assert(forall|j: int| 0 <= j < ks.len() - 1 ==> ks.drop_last()[j] == #[trigger] ks[j]);
    }
}

/// Characterizes the cut point computed by binary search as `spec_last_le`.
proof fn lemma_last_le_from_cut(ks: Seq<(u64, u64)>, key: u64, c: int)
    requires
        0 <= c <= ks.len(),
        forall|j: int| 0 <= j < c ==> (#[trigger] ks[j]).0 <= key,
        forall|j: int| c <= j < ks.len() ==> (#[trigger] ks[j]).0 > key,
    ensures
        spec_last_le(ks, key) == c - 1,
    decreases ks.len(),
{
    if ks.len() == 0 {
    } else if ks.last().0 <= key {
        assert(c == ks.len());
    } else {
        assert(c <= ks.len() - 1);
        assert(forall|j: int| 0 <= j < ks.len() - 1 ==> ks.drop_last()[j] == #[trigger] ks[j]);
        lemma_last_le_from_cut(ks.drop_last(), key, c);
    }
}

/// Turns the sparse index into the byte window that must hold `key`: the
/// window starts at the offset of the last index entry with key at most
/// `key` (or 0), and ends at the next index entry's offset (or the end of
/// the file).
pub fn index_to_range(key: &u64, index: &Vec<(u64, u64)>) -> (r: (u64, Option<u64>))
    requires
        forall|i: int, j: int|
            0 <= i < j < index@.len() ==> (#[trigger] index@[i]).0 < (#[trigger] index@[j]).0,
    ensures
        ({
            let a = spec_last_le(index@, *key);
            &&& r.0 == if a >= 0 {
                index@[a].1
            } else {
                0u64
            }
            &&& r.1 == if a + 1 < index@.len() {
                Some(index@[a + 1].1)
            } else {
                None::<u64>
            }
        }),
{
    let mut lo: usize = 0;
    let mut hi: usize = index.len();
    while lo < hi
        invariant
            0 <= lo <= hi <= index@.len(),
            forall|i: int, j: int|
                0 <= i < j < index@.len() ==> (#[trigger] index@[i]).0 < (#[trigger] index@[j]).0,
            forall|j: int| 0 <= j < lo ==> (#[trigger] index@[j]).0 <= *key,
            forall|j: int| hi <= j < index@.len() ==> (#[trigger] index@[j]).0 > *key,
        decreases hi - lo,
    {
        let mid = lo + (hi - lo) / 2;
        if index[mid].0 <= *key {
            lo = mid + 1;
        } else {
            hi = mid;
        }
    }
    proof {
        lemma_last_le_from_cut(index@, *key, lo as int);
    }
    let start_offset = if lo == 0 {
        0
    } else {
        index[lo - 1].1
    };
    let end_offset = if lo < index.len() {
        Some(index[lo].1)
    } else {
        None
    };
    (start_offset, end_offset)
}

/// Pointwise facts about the sparse index of a strictly sorted record
/// sequence: each entry samples the record at position `j * interval`, the
/// sampled offsets grow strictly, and the index keys are strictly sorted.
pub proof fn lemma_sparse_index_props(rs: Seq<KVMemoryRepr>)
    requires
        sorted_strict_by_key(rs),
        SERIALIZED_RECORD_LEN * rs.len() <= u64::MAX,
    ensures
        forall|i: int, j: int|
            0 <= i < j < spec_sparse_index(rs).len() ==> (#[trigger] spec_sparse_index(
                rs,
            )[i]).0 < (#[trigger] spec_sparse_index(rs)[j]).0,
        forall|i: int, j: int|
            0 <= i < j < spec_sparse_index(rs).len() ==> (#[trigger] spec_sparse_index(
                rs,
            )[i]).1 < (#[trigger] spec_sparse_index(rs)[j]).1,
        spec_index_interval(rs.len() as int) > 0 && rs.len() > 0 ==> spec_sparse_index(rs).len()
            == (rs.len() - 1) as int / spec_index_interval(rs.len() as int) + 1,
{
    let iv = spec_index_interval(rs.len() as int);
    let idx = spec_sparse_index(rs);
    assert forall|i: int, j: int|
        0 <= i < j < spec_sparse_index(rs).len() implies (#[trigger] spec_sparse_index(
        rs,
    )[i]).1 < (#[trigger] spec_sparse_index(rs)[j]).1 && (spec_sparse_index(rs)[i]).0 < (
    spec_sparse_index(rs)[j]).0 by {
        lemma_sparse_index_entry(rs, i);
        lemma_sparse_index_entry(rs, j);
        assert(i * iv < j * iv) by (nonlinear_arith)
            requires
                iv > 0,
                0 <= i < j,
        ;
        assert(rs[i * iv].key < rs[j * iv].key);
        assert(SERIALIZED_RECORD_LEN * (i * iv) < SERIALIZED_RECORD_LEN * (j * iv))
            by (nonlinear_arith)
            requires
                0 <= i * iv < j * iv,
        ;
    }
    if iv > 0 && rs.len() > 0 {
        assert((rs.len() - 1) as int / iv >= 0) by (nonlinear_arith)
            requires
                iv > 0,
                rs.len() > 0,
        ;
        assert(idx.len() == (rs.len() - 1) as int / iv + 1);
    }
}

/// One entry of the sparse index: position, key, offset, and the fact that
/// the offset arithmetic stays within a u64.
proof fn lemma_sparse_index_entry(rs: Seq<KVMemoryRepr>, j: int)
    requires
        SERIALIZED_RECORD_LEN * rs.len() <= u64::MAX,
        spec_index_interval(rs.len() as int) > 0,
        0 <= j < spec_sparse_index(rs).len(),
    ensures
        ({
            let iv = spec_index_interval(rs.len() as int);
            let idx = spec_sparse_index(rs);
            &&& 0 <= j * iv < rs.len()
            &&& SERIALIZED_RECORD_LEN * j * iv == SERIALIZED_RECORD_LEN * (j * iv)
            &&& SERIALIZED_RECORD_LEN * (j * iv) <= SERIALIZED_RECORD_LEN * (rs.len() - 1)
            &&& idx[j] == (rs[j * iv].key, (SERIALIZED_RECORD_LEN * (j * iv)) as u64)
        }),
{
    let iv = spec_index_interval(rs.len() as int);
    let n = rs.len() as int;
    assert(n > 0);
    assert(j <= (n - 1) / iv);
    assert(j * iv <= ((n - 1) / iv) * iv) by (nonlinear_arith)
        requires
            iv > 0,
            0 <= j <= (n - 1) / iv,
    ;
    assert(((n - 1) / iv) * iv <= n - 1) by (nonlinear_arith)
        requires
            iv > 0,
            n > 0,
    ;
    assert(0 <= j * iv) by (nonlinear_arith)
        requires
            j >= 0,
            iv > 0,
    ;
    assert(SERIALIZED_RECORD_LEN * j * iv == SERIALIZED_RECORD_LEN * (j * iv)) by (nonlinear_arith);
    assert(SERIALIZED_RECORD_LEN * (j * iv) <= SERIALIZED_RECORD_LEN * (n - 1)) by (nonlinear_arith)
        requires
            0 <= j * iv <= n - 1,
    ;
}

/// Derives the in-record window `[w.0, w.1)` that the byte range
/// `[range_start, range_end)` spans, and shows every record with the sought
/// key lies inside it.
proof fn lemma_window_covers(
    rs: Seq<KVMemoryRepr>,
    idx: Seq<(u64, u64)>,
    key: u64,
    range_start: u64,
    range_end: u64,
) -> (w: (int, int))
    requires
        sorted_strict_by_key(rs),
        SERIALIZED_RECORD_LEN * rs.len() <= u64::MAX,
        idx == spec_sparse_index(rs),
        range_start == if spec_last_le(idx, key) >= 0 {
            idx[spec_last_le(idx, key)].1
        } else {
            0u64
        },
        range_end == if spec_last_le(idx, key) + 1 < idx.len() {
            idx[spec_last_le(idx, key) + 1].1
        } else {
            (SERIALIZED_RECORD_LEN * rs.len()) as u64
        },
    ensures
        0 <= w.0 <= w.1 <= rs.len(),
        range_start == SERIALIZED_RECORD_LEN * w.0,
        range_end == SERIALIZED_RECORD_LEN * w.1,
        forall|i: int| 0 <= i < rs.len() && (#[trigger] rs[i]).key == key ==> w.0 <= i < w.1,
{
    let iv = spec_index_interval(rs.len() as int);
    lemma_sparse_index_props(rs);
    lemma_last_le_props(idx, key);
    let a = spec_last_le(idx, key);
    let lo = if a >= 0 {
        a * iv
    } else {
        0
    };
    let hi = if a + 1 < idx.len() {
        (a + 1) * iv
    } else {
        rs.len() as int
    };
    if a >= 0 {
        lemma_sparse_index_entry(rs, a);
        assert(rs[lo].key <= key);
    }
    if a + 1 < idx.len() {
        lemma_sparse_index_entry(rs, a + 1);
        assert(rs[hi].key > key);
    }
    assert(lo <= hi) by {
        if a >= 0 && a + 1 < idx.len() {
            assert(a * iv < (a + 1) * iv) by (nonlinear_arith)
                requires
                    iv > 0,
            ;
        }
    }
    assert(range_start == SERIALIZED_RECORD_LEN * lo);
    assert(range_end == SERIALIZED_RECORD_LEN * hi);
    assert forall|i: int| 0 <= i < rs.len() && (#[trigger] rs[i]).key == key implies lo <= i
        < hi by {
        if i < lo {
            assert(rs[i].key < rs[lo].key);
        }
        if i >= hi && hi < rs.len() {
            assert(rs[i].key >= rs[hi].key);
        }
    }
    (lo, hi)
}

/// Swapping two adjacent records with different keys changes no key's
/// newest entry.
proof fn lemma_adjacent_swap_find_newest(s: Seq<KVMemoryRepr>, j: int, k: u64)
    requires
        1 <= j < s.len(),
        s[j - 1].key != s[j].key,
    ensures
        find_newest(s.update(j - 1, s[j]).update(j, s[j - 1]), k) == find_newest(s, k),
    decreases s.len(),
{
    let t = s.update(j - 1, s[j]).update(j, s[j - 1]);
    if j == s.len() - 1 {
        assert(t.last() == s[j - 1]);
        assert(t.drop_last().last() == s[j]);
        assert(s.drop_last().last() == s[j - 1]);
        assert(t.drop_last().drop_last() =~= s.drop_last().drop_last());
        if s[j].key == k {
            assert(find_newest(t, k) == find_newest(t.drop_last(), k));
            assert(find_newest(t.drop_last(), k) == Some(s[j].value));
        } else if s[j - 1].key == k {
            assert(find_newest(s, k) == find_newest(s.drop_last(), k));
            assert(find_newest(s.drop_last(), k) == Some(s[j - 1].value));
        } else {
            assert(find_newest(t, k) == find_newest(t.drop_last().drop_last(), k));
            assert(find_newest(s, k) == find_newest(s.drop_last().drop_last(), k));
        }
    } else {
        assert(t.last() == s.last());
        assert(t.drop_last() =~= s.drop_last().update(j - 1, s[j]).update(j, s[j - 1]));
        assert(s.drop_last()[j - 1] == s[j - 1] && s.drop_last()[j] == s[j]);
        lemma_adjacent_swap_find_newest(s.drop_last(), j, k);
        if s.last().key != k {
            assert(find_newest(t, k) == find_newest(t.drop_last(), k));
            assert(find_newest(s, k) == find_newest(s.drop_last(), k));
        }
    }
}

/// Stable insertion sort of records by key: ascending order, with records of
/// equal key kept in their original relative order, so the newest entry for
/// every key is preserved.
fn sort_records_stable(records: &mut Vec<KVMemoryRepr>)
    ensures
        sorted_by_key(final(records)@),
        final(records)@.len() == old(records)@.len(),
        final(records)@.to_multiset() == old(records)@.to_multiset(),
        forall|k: u64| find_newest(final(records)@, k) == find_newest(old(records)@, k),
        all_valid(old(records)@) ==> all_valid(final(records)@),
{
    let n = records.len();
    if n == 0 {
        return ;
    }
    let mut i: usize = 1;
    while i < n
        invariant
            1 <= i <= n,
            n == records@.len(),
            forall|a: int, b: int|
                0 <= a < b < i ==> (#[trigger] records@[a]).key <= (#[trigger] records@[b]).key,
            records@.to_multiset() == old(records)@.to_multiset(),
            forall|k: u64| find_newest(records@, k) == find_newest(old(records)@, k),
            all_valid(old(records)@) ==> all_valid(records@),
        decreases n - i,
    {
        let mut j: usize = i;
        while j > 0 && records[j - 1].key > records[j].key
            invariant
                0 <= j <= i < n,
                n == records@.len(),
                forall|a: int, b: int|
                    0 <= a < b <= i && a != j && b != j ==> (#[trigger] records@[a]).key
                        <= (#[trigger] records@[b]).key,
                forall|b: int|
                    j < b <= i ==> (#[trigger] records@[b]).key >= records@[j as int].key,
                records@.to_multiset() == old(records)@.to_multiset(),
                forall|k: u64| find_newest(records@, k) == find_newest(old(records)@, k),
                all_valid(old(records)@) ==> all_valid(records@),
            decreases j,
    {
            let prev = records[j - 1];
            let cur = records[j];
            proof {
                crate::functions::lemma_swap_preserves_multiset(records@, j - 1, j as int);
                assert forall|k: u64|
                    find_newest(
                        records@.update(j - 1, cur).update(j as int, prev),
                        k,
                    ) == find_newest(old(records)@, k) by {
                    lemma_adjacent_swap_find_newest(records@, j as int, k);
                }
            }
            records[j - 1] = cur;
            records[j] = prev;
            j = j - 1;
        }
        i = i + 1;
    }
}

/// Collapses adjacent records with equal keys, keeping the last (newest)
/// occurrence, so a sorted sequence becomes strictly sorted without changing
/// any key's newest entry.
fn dedup_keep_last(entries: Vec<KVMemoryRepr>) -> (out: Vec<KVMemoryRepr>)
    requires
        sorted_by_key(entries@),
    ensures
        sorted_strict_by_key(out@),
        forall|k: u64| find_newest(out@, k) == find_newest(entries@, k),
        all_valid(entries@) ==> all_valid(out@),
{
    let mut out: Vec<KVMemoryRepr> = Vec::new();
    let n = entries.len();
    let mut i: usize = 0;
    proof {
        assert(entries@.take(0) =~= Seq::<KVMemoryRepr>::empty());
    }
    while i < n
        invariant
            0 <= i <= n,
            n == entries@.len(),
            sorted_by_key(entries@),
            sorted_strict_by_key(out@),
            i == 0 ==> out@.len() == 0,
            i > 0 ==> out@.len() > 0 && out@.last().key == entries@[i - 1].key,
            forall|k: u64| find_newest(out@, k) == find_newest(entries@.take(i as int), k),
            all_valid(entries@) ==> all_valid(out@),
        decreases n - i,
    {
        let entry = entries[i];
        let ghost old_out = out@;
        proof {
            assert(entries@.take(i + 1) =~= entries@.take(i as int).push(entry));
            assert forall|k: u64|
                find_newest(entries@.take(i + 1), k) == if entry.key == k {
                    Some(entry.value)
                } else {
                    find_newest(entries@.take(i as int), k)
                } by {
                lemma_find_newest_push(entries@.take(i as int), entry, k);
            }
        }
        if out.len() > 0 && out[out.len() - 1].key == entry.key {
            let last_pos = out.len() - 1;
            out[last_pos] = entry;
            proof {
                assert(out@ == old_out.update(last_pos as int, entry));
                assert(out@.last() == entry);
                assert(out@.drop_last() =~= old_out.drop_last());
                assert forall|k: u64|
                    find_newest(out@, k) == find_newest(entries@.take(i + 1), k) by {
                    if entry.key == k {
                        assert(find_newest(out@, k) == Some(entry.value));
                    } else {
                        assert(find_newest(out@, k) == find_newest(out@.drop_last(), k));
                        assert(find_newest(old_out, k) == find_newest(old_out.drop_last(), k));
                    }
                }
                assert(forall|a: int|
                    0 <= a < out@.len() - 1 ==> (#[trigger] out@[a]) == old_out[a]);
            }
        } else {
            proof {
                if out.len() > 0 {
                    assert(out@.last().key == entries@[i - 1].key);
                    assert(entries@[i - 1].key <= entry.key);
                    assert(out@.last().key < entry.key);
                }
                assert forall|k: u64|
                    find_newest(old_out.push(entry), k) == if entry.key == k {
                        Some(entry.value)
                    } else {
                        find_newest(old_out, k)
                    } by {
                    lemma_find_newest_push(old_out, entry, k);
                }
            }
            out.push(entry);
            proof {
                assert forall|a: int, b: int| 0 <= a < b < out@.len() implies (
                #[trigger] out@[a]).key < (#[trigger] out@[b]).key by {
                    if b == out@.len() - 1 {
                        if a < out@.len() - 2 {
                            assert(old_out[a].key < old_out[old_out.len() - 1].key);
                        }
                    }
                }
            }
        }
        i = i + 1;
    }
    proof {
        assert(entries@.take(n as int) =~= entries@);
    }
    out
}

/// Count of sparse-index samples taken while walking the first `i` records
/// with sampling interval `iv`.
spec fn sample_count(i: int, iv: int) -> int {
    if iv <= 0 || i <= 0 {
        0
    } else {
        (i - 1) / iv + 1
    }
}

/// The sparse index accumulated after walking the first `i` records.
spec fn sample_prefix(rs: Seq<KVMemoryRepr>, i: int, iv: int) -> Seq<(u64, u64)> {
    Seq::new(
        sample_count(i, iv) as nat,
        |j: int| (rs[j * iv].key, (SERIALIZED_RECORD_LEN * j * iv) as u64),
    )
}

/// How the sample count evolves from record `i` to record `i + 1`.
proof fn lemma_sample_count_step(i: int, iv: int)
    requires
        iv > 0,
        i >= 0,
    ensures
        i % iv == 0 ==> sample_count(i + 1, iv) == sample_count(i, iv) + 1 && sample_count(i, iv)
            == i / iv && (i / iv) * iv == i,
        i % iv != 0 ==> sample_count(i + 1, iv) == sample_count(i, iv),
{
    lemma_fundamental_div_mod(i, iv);
    let q = i / iv;
    if i % iv == 0 {
        assert(i == iv * q);
        assert((i / iv) * iv == iv * q) by (nonlinear_arith)
            requires
                q == i / iv,
        ;
        if i > 0 {
            assert(q >= 1) by (nonlinear_arith)
                requires
                    i == iv * q,
                    i > 0,
                    iv > 0,
            ;
            assert((q - 1) * iv + (iv - 1) == iv * q - 1) by (nonlinear_arith);
            lemma_fundamental_div_mod_converse(i - 1, iv, q - 1, iv - 1);
        }
    } else {
        let r = i % iv;
        assert(0 < r < iv);
        assert(i == iv * q + r);
        assert(q * iv + (r - 1) == iv * q + r - 1) by (nonlinear_arith);
        lemma_fundamental_div_mod_converse(i - 1, iv, q, r - 1);
    }
}

/// Builds the byte image, sparse index and bloom filter of a run from its
/// record sequence; encoding a record never fails, so neither does this.
pub fn entries_to_index_and_data(entries: &Vec<KVMemoryRepr>) -> (r: Result<
    (Vec<(u64, u64)>, Vec<u8>, bloomfilter::Bloom<u64>),
    Error,
>)
    ensures
        r matches Ok(t) && ({
            &&& t.0@ == spec_sparse_index(entries@)
            &&& t.1@ == records_bytes(entries@)
            &&& t.1@.len() == SERIALIZED_RECORD_LEN * entries@.len()
            &&& forall|j: int|
                0 <= j < entries@.len() ==> bloom_elements(t.2).contains(
                    (#[trigger] entries@[j]).key,
                )
        }),
{
    let n = entries.len();
    let index_size: u64 = if FILE_SIZE_BYTES / TABLE_TO_INDEX_RATIO >= 1 {
        FILE_SIZE_BYTES / TABLE_TO_INDEX_RATIO
    } else {
        1
    };
    let interval: usize = n / (index_size as usize);
    // The bloom filter is sized for the record count (with a little headroom
    // for the false-positive target); the size is clamped only to keep the
    // arithmetic in bounds for absurdly large runs.
    let items: usize = if n == 0 {
        1
    } else if n > 0x0FFF_FFFF {
        0x0FFF_FFFF
    } else {
        n
    };
    let bitmap_bytes: usize = 2 * items + 2;
    let mut bloom_filter = bloom_new(
        bitmap_bytes,
        items,
        rand::random(),
        rand::random(),
        rand::random(),
        rand::random(),
    );
    let mut index: Vec<(u64, u64)> = Vec::new();
    let mut sstable_data: Vec<u8> = Vec::new();
    let mut i: usize = 0;
    proof {
        assert(entries@.take(0) =~= Seq::<KVMemoryRepr>::empty());
    }
    while i < n
        invariant
            0 <= i <= n,
            n == entries@.len(),
            interval == spec_index_interval(n as int),
            sstable_data@ == records_bytes(entries@.take(i as int)),
            sstable_data@.len() == SERIALIZED_RECORD_LEN * i,
            index@ == sample_prefix(entries@, i as int, interval as int),
            forall|j: int|
                0 <= j < i ==> bloom_elements(bloom_filter).contains((#[trigger] entries@[j]).key),
        decreases n - i,
    {
        let entry = entries[i];
        let serialized = match serialize(&entry) {
            Ok(v) => v,
            Err(e) => {
                proof {
                    assert(false);
                }
                return Err(e);
            },
        };
        proof {
            if interval > 0 {
                lemma_sample_count_step(i as int, interval as int);
            }
        }
        let ghost old_index = index@;
        if interval > 0 && i % interval == 0 {
            index.push((entry.key, sstable_data.len() as u64));
            proof {
                let iv = interval as int;
                let jn = old_index.len() as int;
                assert(jn == sample_count(i as int, iv));
                assert(jn == i as int / iv);
                assert(jn * iv == i);
                assert(SERIALIZED_RECORD_LEN * jn * iv == SERIALIZED_RECORD_LEN * i)
                    by (nonlinear_arith)
                    requires
                        jn * iv == i,
                ;
                assert forall|j: int|
                    0 <= j < index@.len() implies index@[j] == sample_prefix(
                    entries@,
                    i + 1,
                    iv,
                )[j] by {
                    if j < jn {
                        assert(index@[j] == old_index[j]);
                        assert(old_index[j] == sample_prefix(entries@, i as int, iv)[j]);
                    } else {
                        assert(j == jn);
                        assert(index@[jn] == (entry.key, (SERIALIZED_RECORD_LEN * i) as u64));
                        assert(sample_prefix(entries@, i + 1, iv)[jn] == (
                            entries@[jn * iv].key,
                            (SERIALIZED_RECORD_LEN * jn * iv) as u64,
                        ));
                    }
                }
                assert(index@ =~= sample_prefix(entries@, i + 1, iv));
            }
        } else {
            proof {
                let iv = interval as int;
                if interval > 0 {
                    assert(sample_count(i + 1, iv) == sample_count(i as int, iv));
                }
                assert forall|j: int|
                    0 <= j < index@.len() implies index@[j] == sample_prefix(
                    entries@,
                    i + 1,
                    iv,
                )[j] by {
                    assert(index@[j] == sample_prefix(entries@, i as int, iv)[j]);
                }
                assert(index@ =~= sample_prefix(entries@, i + 1, iv));
            }
        }
        sstable_data.extend_from_slice(serialized.as_slice());
        bloom_set(&mut bloom_filter, entry.key);
        proof {
            assert(entries@.take(i + 1) =~= entries@.take(i as int).push(entry));
            lemma_records_bytes_push(entries@.take(i as int), entry);
            crate::serialization::lemma_serialized_record_len(entry);
        }
        i = i + 1;
    }
    proof {
        assert(entries@.take(n as int) =~= entries@);
        if interval > 0 && n > 0 {
            assert((n - 1) as int / (interval as int) >= 0) by (nonlinear_arith)
                requires
                    interval > 0,
                    n > 0,
            ;
        }
        assert(index@ =~= spec_sparse_index(entries@));
    }
    Ok((index, sstable_data, bloom_filter))
}

/// Converts the byte image of a retired log file into a fresh sorted run:
/// scan the records, stable-sort them by key, collapse duplicates keeping
/// the newest, and build the run's index, bloom filter and byte image.
pub fn log_file_to_sstable(log_file_content: &[u8]) -> (r: Result<SSTable, Error>)
    ensures
        r is Ok <==> spec_scan(log_file_content@) is Some,
        r matches Ok(t) ==> t.wf() && forall|k: u64|
            find_newest(t.contents@, k) == find_newest(
                spec_scan(log_file_content@)->Some_0,
                k,
            ),
        r matches Err(e) ==> e matches Error::Serialization(_),
{
    let mut log_file_entries = match crate::serialization::deserialize_entries_from_bytes(
        log_file_content,
    ) {
        Ok(v) => v,
        Err(e) => {
            return Err(e);
        },
    };
    proof {
        crate::serialization::lemma_scan_all_valid(log_file_content@);
    }
    sort_records_stable(&mut log_file_entries);
    let entries = dedup_keep_last(log_file_entries);
    let (index, sstable_data, bloom_filter) = match entries_to_index_and_data(&entries) {
        Ok(t) => t,
        Err(e) => {
            proof {
                assert(false);
            }
            return Err(e);
        },
    };
    let id: u64 = rand::random();
    let file_size = sstable_data.len() as u64;
    let table = SSTable {
        id,
        index,
        data: sstable_data,
        file_size,
        bloom_filter,
        contents: Ghost(entries@),
    };
    proof {
        assert forall|i: int| 0 <= i < table.contents@.len() implies bloom_elements(
            table.bloom_filter,
        ).contains((#[trigger] table.contents@[i]).key) by {
            assert(bloom_elements(table.bloom_filter).contains(entries@[i].key));
        }
        assert(table.wf());
    }
    Ok(table)
}

/// Sparse-index bound on point lookups: the byte window `find` reads is at
/// most one sampling interval of records when the run carries an index, and
/// the whole file — fewer than 128 records — otherwise.
pub proof fn lemma_lookup_window_bound(t: SSTable, key: u64)
    requires
        t.wf(),
    ensures
        ({
            let idx = spec_sparse_index(t.contents@);
            let iv = spec_index_interval(t.contents@.len() as int);
            let a = spec_last_le(idx, key);
            let start: int = if a >= 0 {
                idx[a].1 as int
            } else {
                0
            };
            let end: int = if a + 1 < idx.len() {
                idx[a + 1].1 as int
            } else {
                t.file_size as int
            };
            &&& start <= end
            &&& (iv > 0 ==> end - start <= SERIALIZED_RECORD_LEN * iv)
            &&& (iv <= 0 ==> end - start <= SERIALIZED_RECORD_LEN * 127)
        }),
{
    let rs = t.contents@;
    let n = rs.len() as int;
    let idx = spec_sparse_index(rs);
    let iv = spec_index_interval(n);
    let a = spec_last_le(idx, key);
    lemma_last_le_props(idx, key);
    lemma_records_bytes_len(rs);
    if iv > 0 {
        assert(n >= TABLE_TO_INDEX_RATIO) by {
            assert(n / (TABLE_TO_INDEX_RATIO as int) > 0);
            lemma_fundamental_div_mod(n, TABLE_TO_INDEX_RATIO as int);
            assert(n == (TABLE_TO_INDEX_RATIO as int) * (n / (TABLE_TO_INDEX_RATIO as int)) + n % (
            TABLE_TO_INDEX_RATIO as int));
            assert((TABLE_TO_INDEX_RATIO as int) * (n / (TABLE_TO_INDEX_RATIO as int)) >= (
            TABLE_TO_INDEX_RATIO as int)) by (nonlinear_arith)
                requires
                    n / (TABLE_TO_INDEX_RATIO as int) >= 1,
            ;
        }
        if a >= 0 {
            lemma_sparse_index_entry(rs, a);
            if a + 1 < idx.len() {
                lemma_sparse_index_entry(rs, a + 1);
                assert(SERIALIZED_RECORD_LEN * ((a + 1) * iv) - SERIALIZED_RECORD_LEN * (a * iv)
                    == SERIALIZED_RECORD_LEN * iv) by (nonlinear_arith);
            } else {
                // The window runs from the last sample to the end of the
                // file; the last sample is within one interval of the end.
                assert(a == (n - 1) / iv);
                lemma_fundamental_div_mod(n - 1, iv);
                assert(n - 1 == iv * ((n - 1) / iv) + (n - 1) % iv);
                assert((n - 1) % iv < iv);
                assert(a * iv >= n - iv) by (nonlinear_arith)
                    requires
                        n - 1 == iv * a + (n - 1) % iv,
                        (n - 1) % iv < iv,
                ;
                assert(SERIALIZED_RECORD_LEN * n - SERIALIZED_RECORD_LEN * (a * iv)
                    <= SERIALIZED_RECORD_LEN * iv) by (nonlinear_arith)
                    requires
                        a * iv >= n - iv,
                ;
            }
        } else {
            assert(idx.len() > 0) by {
                assert((n - 1) / iv >= 0) by (nonlinear_arith)
                    requires
                        n > 0,
                        iv > 0,
                ;
            }
            lemma_sparse_index_entry(rs, 0);
            assert(idx[0].1 == 0);
        }
    } else {
        assert(idx.len() == 0);
        assert(n < TABLE_TO_INDEX_RATIO) by {
            if n >= TABLE_TO_INDEX_RATIO {
                assert(n / (TABLE_TO_INDEX_RATIO as int) >= 1) by (nonlinear_arith)
                    requires
                        n >= TABLE_TO_INDEX_RATIO as int,
                ;
            }
        }
        assert(SERIALIZED_RECORD_LEN * n <= SERIALIZED_RECORD_LEN * 127) by (nonlinear_arith)
            requires
                n <= 127,
        ;
    }
}

/// Binary search for `key` in a strictly sorted record vector.
fn record_binary_search(entries: &Vec<KVMemoryRepr>, key: &u64) -> (r: Option<usize>)
    requires
        sorted_strict_by_key(entries@),
    ensures
        match r {
            Some(i) => i < entries@.len() && entries@[i as int].key == *key,
            None => forall|i: int|
                0 <= i < entries@.len() ==> (#[trigger] entries@[i]).key != *key,
        },
{
    let mut lo: usize = 0;
    let mut hi: usize = entries.len();
    while lo < hi
        invariant
            0 <= lo <= hi <= entries@.len(),
            sorted_strict_by_key(entries@),
            forall|j: int| 0 <= j < lo ==> (#[trigger] entries@[j]).key < *key,
            forall|j: int| hi <= j < entries@.len() ==> (#[trigger] entries@[j]).key > *key,
        decreases hi - lo,
    {
        let mid = lo + (hi - lo) / 2;
        let mid_key = entries[mid].key;
        if mid_key == *key {
            return Some(mid);
        } else if mid_key < *key {
            lo = mid + 1;
        } else {
            hi = mid;
        }
    }
    None
}

} // verus!
