use vstd::prelude::*;

use crate::errors::Error;
use crate::functions::{
    all_valid, find_newest, lemma_find_newest_absent, lemma_find_newest_at,
    lemma_find_newest_push, sorted_strict_by_key,
};
use crate::serialization::{spec_scan, KVMemoryRepr};
use crate::sstables::{entries_to_index_and_data, lists_find, runs_contents, runs_read, SSTable};

verus! {

/// A group of runs is merged only when it has at least this many members.
pub const MIN_TABLES_IN_MERGE: usize = 4;

/// A merge group never takes more than this many runs at once.
pub const MAX_TABLES_IN_MERGE: usize = 30;

/// The record sequences of a vector of record vectors.
pub open spec fn lists_views(ls: Seq<Vec<KVMemoryRepr>>) -> Seq<Seq<KVMemoryRepr>> {
    ls.map_values(|v: Vec<KVMemoryRepr>| v@)
}

/// The outcome of merging a stack of record lists: the newest entry for the
/// key decides, and with `save_tombstones` false a winning tombstone is
/// dropped from the output entirely.
pub open spec fn merged_find(
    ls: Seq<Seq<KVMemoryRepr>>,
    key: u64,
    save_tombstones: bool,
) -> Option<Option<u64>> {
    match lists_find(ls, key) {
        Some(v) => if save_tombstones || v is Some {
            Some(v)
        } else {
            None
        },
        None => None,
    }
}

/// A key held by none of the lists is found by none of them.
proof fn lemma_lists_find_absent(ls: Seq<Seq<KVMemoryRepr>>, key: u64)
    requires
        forall|i: int, j: int|
            0 <= i < ls.len() && 0 <= j < ls[i].len() ==> (#[trigger] ls[i][j]).key != key,
    ensures
        lists_find(ls, key) is None,
    decreases ls.len(),
{
    if ls.len() > 0 {
        lemma_find_newest_absent(ls[0], key);
        assert(forall|i: int, j: int|
            0 <= i < ls.skip(1).len() && 0 <= j < ls.skip(1)[i].len() ==> (#[trigger] ls.skip(
                1,
            )[i][j]).key != key);
        lemma_lists_find_absent(ls.skip(1), key);
    }
}

/// The first list that holds the key decides the stack's lookup.
proof fn lemma_lists_find_first(ls: Seq<Seq<KVMemoryRepr>>, c: int, key: u64, v: Option<u64>)
    requires
        0 <= c < ls.len(),
        forall|i: int| 0 <= i < c ==> find_newest(#[trigger] ls[i], key) is None,
        find_newest(ls[c], key) == Some(v),
    ensures
        lists_find(ls, key) == Some(v),
    decreases c,
{
    if c == 0 {
    } else {
        assert(find_newest(ls[0], key) is None);
        assert(forall|i: int| 0 <= i < c - 1 ==> ls.skip(1)[i] == #[trigger] ls[(i + 1) as int]);
        lemma_lists_find_first(ls.skip(1), c - 1, key, v);
    }
}

/// Total number of records not yet consumed across all lists.
spec fn remaining(ls: Seq<Seq<KVMemoryRepr>>, ps: Seq<usize>) -> int
    decreases ls.len(),
{
    if ls.len() == 0 || ps.len() != ls.len() {
        0
    } else {
        (ls[0].len() - ps[0]) + remaining(ls.skip(1), ps.skip(1))
    }
}

proof fn lemma_remaining_decreases(ls: Seq<Seq<KVMemoryRepr>>, ps1: Seq<usize>, ps2: Seq<usize>)
    requires
        ps1.len() == ls.len(),
        ps2.len() == ls.len(),
        forall|i: int| 0 <= i < ls.len() ==> #[trigger] ps1[i] <= ps2[i] && ps2[i] <= ls[i].len(),
        exists|i: int| 0 <= i < ls.len() && #[trigger] ps2[i] > ps1[i],
    ensures
        remaining(ls, ps2) < remaining(ls, ps1),
    decreases ls.len(),
{
    let wit = choose|i: int| 0 <= i < ls.len() && #[trigger] ps2[i] > ps1[i];
    if wit == 0 {
        lemma_remaining_monotone(ls.skip(1), ps1.skip(1), ps2.skip(1));
    } else {
        assert(ps1[0] <= ps2[0]);
        assert(ps2.skip(1)[wit - 1] > ps1.skip(1)[wit - 1]);
        lemma_remaining_decreases(ls.skip(1), ps1.skip(1), ps2.skip(1));
    }
}

proof fn lemma_remaining_monotone(ls: Seq<Seq<KVMemoryRepr>>, ps1: Seq<usize>, ps2: Seq<usize>)
    requires
        ps1.len() == ls.len(),
        ps2.len() == ls.len(),
        forall|i: int| 0 <= i < ls.len() ==> #[trigger] ps1[i] <= ps2[i] && ps2[i] <= ls[i].len(),
    ensures
        remaining(ls, ps2) <= remaining(ls, ps1),
    decreases ls.len(),
{
    if ls.len() > 0 {
        lemma_remaining_monotone(ls.skip(1), ps1.skip(1), ps2.skip(1));
    }
}

/// Total number of records across all lists.
pub open spec fn lists_total_len(ls: Seq<Seq<KVMemoryRepr>>) -> int
    decreases ls.len(),
{
    if ls.len() == 0 {
        0
    } else {
        ls[0].len() + lists_total_len(ls.skip(1))
    }
}

proof fn lemma_remaining_zeros(ls: Seq<Seq<KVMemoryRepr>>, ps: Seq<usize>)
    requires
        ps.len() == ls.len(),
        forall|i: int| 0 <= i < ls.len() ==> #[trigger] ps[i] == 0,
    ensures
        remaining(ls, ps) == lists_total_len(ls),
    decreases ls.len(),
{
    if ls.len() > 0 {
        lemma_remaining_zeros(ls.skip(1), ps.skip(1));
    }
}

proof fn lemma_remaining_nonneg(ls: Seq<Seq<KVMemoryRepr>>, ps: Seq<usize>)
    requires
        ps.len() == ls.len(),
        forall|i: int| 0 <= i < ls.len() ==> #[trigger] ps[i] <= ls[i].len(),
    ensures
        remaining(ls, ps) >= 0,
    decreases ls.len(),
{
    if ls.len() > 0 {
        lemma_remaining_nonneg(ls.skip(1), ps.skip(1));
    }
}

/// K-way merge of record lists, newest list first; per key the newest list's
/// record wins, and with `save_tombstones` false winning tombstones are
/// dropped. Lists must be strictly sorted by key.
pub fn merge_sstable_contents(lists: Vec<Vec<KVMemoryRepr>>, save_tombstones: bool) -> (r: Vec<
    KVMemoryRepr,
>)
    requires
        forall|i: int|
            0 <= i < lists@.len() ==> sorted_strict_by_key((#[trigger] lists@[i])@),
        forall|i: int| 0 <= i < lists@.len() ==> all_valid((#[trigger] lists@[i])@),
    ensures
        sorted_strict_by_key(r@),
        all_valid(r@),
        forall|k: u64| find_newest(r@, k) == merged_find(lists_views(lists@), k, save_tombstones),
        !save_tombstones ==> forall|i: int|
            0 <= i < r@.len() ==> (#[trigger] r@[i]).value is Some,
        r@.len() <= lists_total_len(lists_views(lists@)),
{
    let ghost ls = lists_views(lists@);
    let n = lists.len();
    let mut result: Vec<KVMemoryRepr> = Vec::new();
    let mut pos: Vec<usize> = Vec::new();
    let mut t: usize = 0;
    while t < n
        invariant
            t <= n,
            pos@.len() == t,
            forall|i: int| 0 <= i < t ==> #[trigger] pos@[i] == 0,
        decreases n - t,
    {
        pos.push(0);
        t = t + 1;
    }
    let ghost mut last_key: Option<u64> = None;
    proof {
        assert(forall|i: int| 0 <= i < ls.len() ==> #[trigger] ls[i] == lists@[i]@);
        lemma_remaining_zeros(ls, pos@);
    }
    loop
        invariant
            n == lists@.len(),
            ls == lists_views(lists@),
            result@.len() + remaining(ls, pos@) <= lists_total_len(ls),
            pos@.len() == n,
            forall|i: int| 0 <= i < n ==> #[trigger] pos@[i] <= ls[i].len(),
            forall|i: int|
                0 <= i < ls.len() ==> sorted_strict_by_key(#[trigger] ls[i]),
            forall|i: int| 0 <= i < ls.len() ==> all_valid(#[trigger] ls[i]),
            sorted_strict_by_key(result@),
            all_valid(result@),
            !save_tombstones ==> forall|i: int|
                0 <= i < result@.len() ==> (#[trigger] result@[i]).value is Some,
            last_key is None ==> result@.len() == 0 && forall|i: int|
                0 <= i < n ==> #[trigger] pos@[i] == 0,
            last_key matches Some(lk) ==> {
                &&& forall|i: int, j: int|
                    0 <= i < n && 0 <= j < pos@[i] ==> (#[trigger] ls[i][j]).key <= lk
                &&& forall|i: int|
                    0 <= i < n && pos@[i] < ls[i].len() ==> (#[trigger] ls[i][pos@[i] as int]).key
                        > lk
                &&& forall|idx: int| 0 <= idx < result@.len() ==> (#[trigger] result@[idx]).key <= lk
                &&& forall|k: u64|
                    k <= lk ==> #[trigger] find_newest(result@, k) == merged_find(
                        ls,
                        k,
                        save_tombstones,
                    )
            },
        ensures
            sorted_strict_by_key(result@),
            all_valid(result@),
            !save_tombstones ==> forall|i: int|
                0 <= i < result@.len() ==> (#[trigger] result@[i]).value is Some,
            forall|k: u64|
                #[trigger] find_newest(result@, k) == merged_find(ls, k, save_tombstones),
        decreases remaining(ls, pos@),
    {
        // First pass: the minimum key among the lists' heads, and the head
        // record of the first (newest) list attaining it.
        let mut min_key: Option<u64> = None;
        let mut chosen: Option<KVMemoryRepr> = None;
        let ghost mut cix: int = 0;
        let mut i: usize = 0;
        while i < n
            invariant
                i <= n,
                n == lists@.len(),
                ls == lists_views(lists@),
                pos@.len() == n,
                forall|ii: int| 0 <= ii < n ==> #[trigger] pos@[ii] <= ls[ii].len(),
                min_key is None ==> chosen is None && forall|ii: int|
                    0 <= ii < i ==> #[trigger] pos@[ii] == ls[ii].len(),
                min_key matches Some(m) ==> {
                    &&& 0 <= cix < i
                    &&& pos@[cix] < ls[cix].len()
                    &&& chosen == Some(ls[cix][pos@[cix] as int])
                    &&& ls[cix][pos@[cix] as int].key == m
                    &&& forall|ii: int|
                        0 <= ii < i && pos@[ii] < ls[ii].len() ==> (
                        #[trigger] ls[ii][pos@[ii] as int]).key >= m
                    &&& forall|ii: int|
                        0 <= ii < cix && pos@[ii] < ls[ii].len() ==> (
                        #[trigger] ls[ii][pos@[ii] as int]).key > m
                },
            decreases n - i,
        {
            if pos[i] < lists[i].len() {
                let head = lists[i][pos[i]];
                proof {
                    assert(head == ls[i as int][pos@[i as int] as int]);
                }
                match min_key {
                    None => {
                        min_key = Some(head.key);
                        chosen = Some(head);
                        proof {
                            cix = i as int;
                        }
                    },
                    Some(m) => {
                        if head.key < m {
                            min_key = Some(head.key);
                            chosen = Some(head);
                            proof {
                                cix = i as int;
                            }
                        }
                    },
                }
            }
            i = i + 1;
        }
        let m = match min_key {
            None => {
                // Every list is exhausted: keys beyond the frontier occur
                // nowhere, so the accumulated result answers every lookup.
                proof {
                    assert forall|k: u64| #[trigger] find_newest(result@, k) == merged_find(
                        ls,
                        k,
                        save_tombstones,
                    ) by {
                        if last_key is None {
                            assert forall|ii: int, j: int|
                                0 <= ii < ls.len() && 0 <= j
                                    < ls[ii].len() implies (#[trigger] ls[ii][j]).key != k by {
                                assert(pos@[ii] == 0 && pos@[ii] == ls[ii].len());
                            }
                            lemma_lists_find_absent(ls, k);
                        } else {
                            let lk = last_key->Some_0;
                            if k > lk {
                                assert forall|ii: int, j: int|
                                    0 <= ii < ls.len() && 0 <= j
                                        < ls[ii].len() implies (#[trigger] ls[ii][j]).key != k by {
                                    assert(pos@[ii] == ls[ii].len());
                                    assert(ls[ii][j].key <= lk);
                                }
                                lemma_lists_find_absent(ls, k);
                                assert forall|idx: int|
                                    0 <= idx < result@.len() implies (#[trigger] result@[idx]).key
                                    != k by {}
                                lemma_find_newest_absent(result@, k);
                            }
                        }
                    }
                }
                break ;
            },
            Some(m) => m,
        };
        let kv = match chosen {
            None => {
                proof {
                    assert(false);
                }
                break ;
            },
            Some(kv) => kv,
        };
        proof {
            if last_key is Some {
                let lk = last_key->Some_0;
                assert(ls[cix][pos@[cix] as int].key > lk);
            }
        }
        // Second pass: consume the head of every list whose head carries the
        // minimum key.
        let ghost old_pos = pos@;
        let mut i2: usize = 0;
        while i2 < n
            invariant
                i2 <= n,
                n == lists@.len(),
                ls == lists_views(lists@),
                pos@.len() == n,
                forall|ii: int| i2 <= ii < n ==> #[trigger] pos@[ii] == old_pos[ii],
                forall|ii: int|
                    0 <= ii < i2 ==> #[trigger] pos@[ii] == (if old_pos[ii] < ls[ii].len()
                        && ls[ii][old_pos[ii] as int].key == m {
                        old_pos[ii] + 1
                    } else {
                        old_pos[ii] as int
                    }),
                forall|ii: int| 0 <= ii < n ==> #[trigger] old_pos[ii] <= ls[ii].len(),
            decreases n - i2,
        {
            if pos[i2] < lists[i2].len() {
                let head_key = lists[i2][pos[i2]].key;
                proof {
                    assert(head_key == ls[i2 as int][pos@[i2 as int] as int].key);
                }
                if head_key == m {
                    let np = pos[i2] + 1;
                    pos[i2] = np;
                }
            }
            i2 = i2 + 1;
        }
        // Emit the chosen record unless it is a tombstone that may be
        // dropped.
        let ghost old_result = result@;
        if save_tombstones || kv.value.is_some() {
            result.push(kv);
        }
        proof {
            // The winning record is the stack's lookup result for key m.
            assert forall|ii: int| 0 <= ii < cix implies find_newest(
                #[trigger] ls[ii],
                m,
            ) is None by {
                assert forall|j: int| 0 <= j < ls[ii].len() implies (#[trigger] ls[ii][j]).key
                    != m by {
                    if j < old_pos[ii] {
                        assert(last_key matches Some(lk) && ls[ii][j].key <= lk && lk < m);
                    } else {
                        assert(ls[ii][j].key >= ls[ii][old_pos[ii] as int].key);
                    }
                }
                lemma_find_newest_absent(ls[ii], m);
            }
            lemma_find_newest_at(ls[cix], old_pos[cix] as int, m);
            lemma_lists_find_first(ls, cix, m, kv.value);
            assert(lists_find(ls, m) == Some(kv.value));
            // No key strictly between the old frontier and m occurs anywhere.
            assert forall|k: u64|
                (last_key is None || (last_key matches Some(lk) && k > lk)) && k
                    < m implies #[trigger] lists_find(ls, k) is None by {
                assert forall|ii: int, j: int|
                    0 <= ii < ls.len() && 0 <= j < ls[ii].len() implies (#[trigger] ls[ii][j]).key
                    != k by {
                    if j < old_pos[ii] {
                        assert(last_key matches Some(lk) && ls[ii][j].key <= lk);
                    } else {
                        assert(ls[ii][j].key >= ls[ii][old_pos[ii] as int].key);
                        assert(ls[ii][old_pos[ii] as int].key >= m);
                    }
                }
                lemma_lists_find_absent(ls, k);
            }
            // Lookup results up to the new frontier m.
            assert forall|k: u64| k <= m implies #[trigger] find_newest(result@, k) == merged_find(
                ls,
                k,
                save_tombstones,
            ) by {
                if save_tombstones || kv.value is Some {
                    lemma_find_newest_push(old_result, kv, k);
                    if k == m {
                    } else {
                        if last_key is None || (last_key matches Some(lk) && k > lk) {
                            lemma_find_newest_absent(old_result, k);
                        }
                    }
                } else {
                    if k == m {
                        lemma_find_newest_absent(result@, m);
                    } else {
                        if last_key is None || (last_key matches Some(lk) && k > lk) {
                            lemma_find_newest_absent(result@, k);
                        }
                    }
                }
            }
            // Termination: at least the chosen list advanced.
            assert(pos@[cix] == old_pos[cix] + 1);
            assert forall|ii: int|
                0 <= ii < ls.len() implies #[trigger] old_pos[ii] <= pos@[ii] && pos@[ii]
                <= ls[ii].len() by {}
            lemma_remaining_decreases(ls, old_pos, pos@);
            lemma_remaining_nonneg(ls, pos@);
            last_key = Some(m);
        }
    }
    proof {
        lemma_remaining_nonneg(ls, pos@);
    }
    result
}

/// Merging a stack of one list, keeping tombstones, answers lookups exactly
/// as the list itself does.
pub proof fn lemma_merged_single_list(l: Seq<KVMemoryRepr>, k: u64)
    ensures
        merged_find(seq![l], k, true) == find_newest(l, k),
{
    let ls = seq![l];
    reveal_with_fuel(lists_find, 2);
    assert(ls[0] == l);
    assert(ls.skip(1) =~= Seq::<Seq<KVMemoryRepr>>::empty());
}

/// Compaction is idempotent: a merge of a single run that keeps tombstones
/// produces exactly the run's own records.
pub proof fn lemma_merge_single_table_identity(l: Seq<KVMemoryRepr>, out: Seq<KVMemoryRepr>)
    requires
        sorted_strict_by_key(l),
        all_valid(l),
        sorted_strict_by_key(out),
        all_valid(out),
        forall|k: u64| #[trigger] find_newest(out, k) == merged_find(seq![l], k, true),
    ensures
        out == l,
{
    assert forall|k: u64| #[trigger] find_newest(out, k) == find_newest(l, k) by {
        lemma_merged_single_list(l, k);
    }
    crate::functions::lemma_equal_lookups_equal_runs(out, l);
}

/// The coarse size class of a run file, used to group runs of similar size.
pub open spec fn spec_bucket(size: u64) -> u32 {
    if size == 0 {
        0
    } else {
        let size_in_mb = size / 1000000;
        if size_in_mb < 10 {
            0
        } else if size_in_mb < 100 {
            1
        } else if size_in_mb < 1000 {
            2
        } else if size_in_mb < 10000 {
            3
        } else {
            4
        }
    }
}

/// Determines the size bucket of a run file.
pub fn get_bucket(size: u64) -> (r: u32)
    ensures
        r == spec_bucket(size),
{
    if size == 0 {
        return 0;
    }
    // Bucket boundaries: 0-10MB, 10-100MB, 100-1000MB, and so on.
    let size_in_mb = size / 1_000_000;
    if size_in_mb < 10 {
        0
    } else if size_in_mb < 100 {
        1
    } else if size_in_mb < 1000 {
        2
    } else if size_in_mb < 10000 {
        3
    } else {
        4
    }
}

/// The sizes of a list of runs.
pub open spec fn runs_sizes(rs: Seq<SSTable>) -> Seq<u64> {
    rs.map_values(|t: SSTable| t.file_size)
}

/// Where the group ending at `end` starts: walk backwards from `gs` while
/// the previous run shares the bucket of the group's oldest member and the
/// group stays under the size cap.
pub open spec fn spec_group_start(sizes: Seq<u64>, end: int, gs: int) -> int
    decreases gs,
{
    if gs > 0 && end - gs < MAX_TABLES_IN_MERGE && spec_bucket(sizes[gs - 1]) == spec_bucket(
        sizes[end - 1],
    ) {
        spec_group_start(sizes, end, gs - 1)
    } else {
        gs
    }
}

pub proof fn lemma_group_start_bounds(sizes: Seq<u64>, end: int, gs: int)
    requires
        gs >= 0,
    ensures
        0 <= spec_group_start(sizes, end, gs) <= gs,
    decreases gs,
{
    if gs > 0 && end - gs < MAX_TABLES_IN_MERGE && spec_bucket(sizes[gs - 1]) == spec_bucket(
        sizes[end - 1],
    ) {
        lemma_group_start_bounds(sizes, end, gs - 1);
    }
}

/// The disjoint merge groups chosen from the `i` oldest runs, oldest group
/// first, as half-open ranges over run positions.
pub open spec fn spec_plan_from(sizes: Seq<u64>, i: int) -> Seq<(int, int)>
    decreases i,
    via spec_plan_from_decreases
{
    if i <= 0 {
        Seq::empty()
    } else {
        let gs = spec_group_start(sizes, i, i - 1);
        let rest = spec_plan_from(sizes, gs);
        if i - gs >= MIN_TABLES_IN_MERGE {
            seq![(gs, i)] + rest
        } else {
            rest
        }
    }
}

#[via_fn]
proof fn spec_plan_from_decreases(sizes: Seq<u64>, i: int) {
    if i > 0 {
        lemma_group_start_bounds(sizes, i, i - 1);
    }
}

/// Structural facts about the plan: every group is within bounds, large
/// enough to merge, and the groups are disjoint, ordered oldest (highest
/// positions) first.
pub proof fn lemma_plan_props(sizes: Seq<u64>, i: int)
    ensures
        forall|g: int|
            0 <= g < spec_plan_from(sizes, i).len() ==> {
                &&& 0 <= (#[trigger] spec_plan_from(sizes, i)[g]).0
                &&& spec_plan_from(sizes, i)[g].0 < spec_plan_from(sizes, i)[g].1
                &&& spec_plan_from(sizes, i)[g].1 <= i
                &&& spec_plan_from(sizes, i)[g].1 - spec_plan_from(sizes, i)[g].0
                    >= MIN_TABLES_IN_MERGE
            },
        forall|g1: int, g2: int|
            0 <= g1 < g2 < spec_plan_from(sizes, i).len() ==> (#[trigger] spec_plan_from(
                sizes,
                i,
            )[g2]).1 <= (#[trigger] spec_plan_from(sizes, i)[g1]).0,
    decreases i,
{
    if i > 0 {
        let gs = spec_group_start(sizes, i, i - 1);
        lemma_group_start_bounds(sizes, i, i - 1);
        lemma_plan_props(sizes, gs);
        let rest = spec_plan_from(sizes, gs);
        if i - gs >= MIN_TABLES_IN_MERGE {
            assert(forall|g: int|
                0 <= g < rest.len() ==> (seq![(gs, i)] + rest)[g + 1] == #[trigger] rest[g]);
        }
    }
}

/// Plans the merge groups over the current run list: maximal stretches of
/// consecutive runs in the same size bucket, capped in length, kept only
/// when large enough; returned as disjoint `[start, end)` ranges, oldest
/// first.
pub fn find_sstables_to_merge(sstables: &Vec<SSTable>) -> (r: Vec<(usize, usize)>)
    ensures
        r@.map_values(|p: (usize, usize)| (p.0 as int, p.1 as int)) == spec_plan_from(
            runs_sizes(sstables@),
            sstables@.len() as int,
        ),
{
    let ghost sizes = runs_sizes(sstables@);
    let mut result: Vec<(usize, usize)> = Vec::new();
    let mut i: usize = sstables.len();
    proof {
        assert(result@.map_values(|p: (usize, usize)| (p.0 as int, p.1 as int))
            =~= Seq::<(int, int)>::empty());
    }
    while i > 0
        invariant
            i <= sstables@.len(),
            sizes == runs_sizes(sstables@),
            spec_plan_from(sizes, sstables@.len() as int) == result@.map_values(
                |p: (usize, usize)| (p.0 as int, p.1 as int),
            ) + spec_plan_from(sizes, i as int),
        decreases i,
    {
        let group_end = i;
        let current_bucket = get_bucket(sstables[i - 1].file_size);
        let mut group_start = i - 1;
        proof {
            assert(sizes[i - 1] == sstables@[i - 1].file_size);
        }
        while group_start > 0 && (group_end - group_start) < MAX_TABLES_IN_MERGE && get_bucket(
            sstables[group_start - 1].file_size,
        ) == current_bucket
            invariant
                0 <= group_start <= group_end - 1,
                group_end == i,
                i <= sstables@.len(),
                sizes == runs_sizes(sstables@),
                current_bucket == spec_bucket(sizes[group_end - 1]),
                spec_group_start(sizes, group_end as int, group_end - 1) == spec_group_start(
                    sizes,
                    group_end as int,
                    group_start as int,
                ),
            decreases group_start,
        {
            proof {
                assert(sizes[group_start - 1] == sstables@[group_start - 1].file_size);
            }
            group_start = group_start - 1;
        }
        proof {
            if group_start > 0 {
                assert(sizes[group_start - 1] == sstables@[group_start - 1].file_size);
            }
            assert(spec_group_start(sizes, group_end as int, group_start as int)
                == group_start as int);
        }
        let group_size = group_end - group_start;
        let ghost pre = result@.map_values(|p: (usize, usize)| (p.0 as int, p.1 as int));
        if group_size >= MIN_TABLES_IN_MERGE {
            result.push((group_start, group_end));
            proof {
                assert(result@.map_values(|p: (usize, usize)| (p.0 as int, p.1 as int)) =~= pre
                    + seq![(group_start as int, group_end as int)]);
                assert(pre + (seq![(group_start as int, group_end as int)] + spec_plan_from(
                    sizes,
                    group_start as int,
                )) =~= (pre + seq![(group_start as int, group_end as int)]) + spec_plan_from(
                    sizes,
                    group_start as int,
                ));
            }
        }
        i = group_start;
    }
    proof {
        assert(result@.map_values(|p: (usize, usize)| (p.0 as int, p.1 as int)) + spec_plan_from(
            sizes,
            0,
        ) =~= result@.map_values(|p: (usize, usize)| (p.0 as int, p.1 as int)));
    }
    result
}

/// The summed byte sizes of the run files, as an unbounded integer.
pub open spec fn runs_size_sum(rs: Seq<SSTable>) -> int
    decreases rs.len(),
{
    if rs.len() == 0 {
        0
    } else {
        rs[0].file_size + runs_size_sum(rs.skip(1))
    }
}

proof fn lemma_size_sum_concat(a: Seq<SSTable>, b: Seq<SSTable>)
    ensures
        runs_size_sum(a + b) == runs_size_sum(a) + runs_size_sum(b),
    decreases a.len(),
{
    if a.len() == 0 {
        assert(a + b =~= b);
    } else {
        assert((a + b)[0] == a[0]);
        assert((a + b).skip(1) =~= a.skip(1) + b);
        lemma_size_sum_concat(a.skip(1), b);
    }
}

/// For well-formed runs, the file sizes are exactly the serialized record
/// counts.
proof fn lemma_size_sum_of_contents(rs: Seq<SSTable>)
    requires
        forall|i: int| 0 <= i < rs.len() ==> (#[trigger] rs[i]).wf(),
    ensures
        runs_size_sum(rs) == crate::serialization::SERIALIZED_RECORD_LEN as int * lists_total_len(
            runs_contents(rs),
        ),
    decreases rs.len(),
{
    if rs.len() > 0 {
        crate::serialization::lemma_records_bytes_len(rs[0].contents@);
        assert(runs_contents(rs)[0] == rs[0].contents@);
        assert(runs_contents(rs).skip(1) =~= runs_contents(rs.skip(1)));
        assert(forall|i: int| 0 <= i < rs.skip(1).len() ==> rs.skip(1)[i] == #[trigger] rs[i + 1]);
        lemma_size_sum_of_contents(rs.skip(1));
    }
}

/// Reads and merges the runs `[start, end)` of the list (newest first) into
/// one fresh sorted run; with `save_tombstones` false the merged run keeps
/// no tombstones, and its file is never larger than its inputs together.
fn merge_sstables(sstables: &Vec<SSTable>, start: usize, end: usize, save_tombstones: bool) -> (r:
    Result<SSTable, Error>)
    requires
        start < end <= sstables@.len(),
        forall|i: int| 0 <= i < sstables@.len() ==> (#[trigger] sstables@[i]).wf(),
    ensures
        r matches Ok(t) && {
            &&& t.wf()
            &&& (!save_tombstones ==> forall|i: int|
                0 <= i < t.contents@.len() ==> (#[trigger] t.contents@[i]).value is Some)
            &&& t.file_size as int <= runs_size_sum(
                sstables@.subrange(start as int, end as int),
            )
            &&& forall|k: u64|
                find_newest(t.contents@, k) == merged_find(
                    runs_contents(sstables@.subrange(start as int, end as int)),
                    k,
                    save_tombstones,
                )
        },
{
    let ghost seg = runs_contents(sstables@.subrange(start as int, end as int));
    let mut contents: Vec<Vec<KVMemoryRepr>> = Vec::new();
    let mut ti: usize = start;
    proof {
        assert(lists_views(contents@) =~= runs_contents(
            sstables@.subrange(start as int, start as int),
        ));
    }
    while ti < end
        invariant
            start <= ti <= end,
            end <= sstables@.len(),
            forall|i: int| 0 <= i < sstables@.len() ==> (#[trigger] sstables@[i]).wf(),
            lists_views(contents@) == runs_contents(sstables@.subrange(start as int, ti as int)),
            forall|i: int|
                0 <= i < contents@.len() ==> sorted_strict_by_key((#[trigger] contents@[i])@),
            forall|i: int| 0 <= i < contents@.len() ==> all_valid((#[trigger] contents@[i])@),
        decreases end - ti,
    {
        let ghost table_contents = sstables@[ti as int].contents@;
        proof {
            assert(crate::serialization::records_bytes(table_contents) + Seq::<u8>::empty()
                =~= crate::serialization::records_bytes(table_contents));
            crate::serialization::lemma_scan_records(table_contents, Seq::<u8>::empty());
            assert(spec_scan(sstables@[ti as int].data@) == Some(table_contents));
        }
        let file_entries = match crate::serialization::deserialize_entries_from_bytes(
            sstables[ti].data.as_slice(),
        ) {
            Ok(v) => v,
            Err(e) => {
                proof {
                    assert(false);
                }
                return Err(e);
            },
        };
        let ghost old_contents = contents@;
        contents.push(file_entries);
        proof {
            assert(file_entries@ == table_contents);
            assert(lists_views(old_contents).len() == old_contents.len());
            assert(runs_contents(sstables@.subrange(start as int, ti as int)).len() == ti - start);
            assert(old_contents.len() == ti - start);
            assert(contents@.len() == ti + 1 - start);
            assert forall|j: int|
                0 <= j < contents@.len() implies lists_views(contents@)[j] == runs_contents(
                sstables@.subrange(start as int, ti + 1),
            )[j] by {
                assert(sstables@.subrange(start as int, ti + 1)[j] == sstables@[start + j]);
                assert(runs_contents(sstables@.subrange(start as int, ti + 1))[j]
                    == sstables@.subrange(start as int, ti + 1)[j].contents@);
                assert(lists_views(contents@)[j] == contents@[j]@);
                if j < old_contents.len() {
                    assert(contents@[j] == old_contents[j]);
                    assert(lists_views(old_contents)[j] == runs_contents(
                        sstables@.subrange(start as int, ti as int),
                    )[j]);
                    assert(sstables@.subrange(start as int, ti as int)[j] == sstables@[start
                        + j]);
                    assert(runs_contents(sstables@.subrange(start as int, ti as int))[j]
                        == sstables@.subrange(start as int, ti as int)[j].contents@);
                } else {
                    assert(contents@[j] == file_entries);
                }
            }
            assert(lists_views(contents@) =~= runs_contents(
                sstables@.subrange(start as int, ti + 1),
            ));
        }
        ti = ti + 1;
    }
    let merged = merge_sstable_contents(contents, save_tombstones);
    let (index, sstable_data, bloom_filter) = match entries_to_index_and_data(&merged) {
        Ok(t) => t,
        Err(e) => {
            proof {
                assert(false);
            }
            return Err(e);
        },
    };
    let id: u64 = rand::random();
    let file_size = sstable_data.len() as u64;
    let table = SSTable {
        id,
        index,
        data: sstable_data,
        file_size,
        bloom_filter,
        contents: Ghost(merged@),
    };
    proof {
        assert forall|i: int| 0 <= i < table.contents@.len() implies crate::sstables::bloom_elements(
            table.bloom_filter,
        ).contains((#[trigger] table.contents@[i]).key) by {
            assert(crate::sstables::bloom_elements(table.bloom_filter).contains(merged@[i].key));
        }
        assert(table.wf());
        assert forall|i: int| 0 <= i < seg.len() implies (#[trigger] sstables@.subrange(
            start as int,
            end as int,
        )[i]).wf() by {
            assert(sstables@.subrange(start as int, end as int)[i] == sstables@[start + i]);
        }
        lemma_size_sum_of_contents(sstables@.subrange(start as int, end as int));
        assert(runs_contents(sstables@.subrange(start as int, end as int)) == seg);
        assert(table.file_size as int <= runs_size_sum(
            sstables@.subrange(start as int, end as int),
        ));
    }
    Ok(table)
}

/// Concatenation splits a stack lookup: the front answers first.
proof fn lemma_lists_find_concat(a: Seq<Seq<KVMemoryRepr>>, b: Seq<Seq<KVMemoryRepr>>, k: u64)
    ensures
        lists_find(a + b, k) == match lists_find(a, k) {
            Some(v) => Some(v),
            None => lists_find(b, k),
        },
    decreases a.len(),
{
    if a.len() == 0 {
        assert(a + b =~= b);
    } else {
        assert((a + b)[0] == a[0]);
        assert((a + b).skip(1) =~= a.skip(1) + b);
        lemma_lists_find_concat(a.skip(1), b, k);
    }
}

/// Replacing a consecutive group of runs by one run that merges them (with
/// tombstones kept unless the group reaches the oldest end) leaves every
/// read unchanged.
proof fn lemma_splice_preserves_read(
    pre: Seq<SSTable>,
    s: int,
    e: int,
    t: SSTable,
    save: bool,
    k: u64,
)
    requires
        0 <= s < e <= pre.len(),
        save == (e != pre.len()),
        find_newest(t.contents@, k) == merged_find(runs_contents(pre.subrange(s, e)), k, save),
    ensures
        runs_read(pre.subrange(0, s) + seq![t] + pre.skip(e), k) == runs_read(pre, k),
{
    let a = runs_contents(pre.subrange(0, s));
    let g = runs_contents(pre.subrange(s, e));
    let b = runs_contents(pre.skip(e));
    assert(runs_contents(pre) =~= a + (g + b)) by {
        assert(pre =~= pre.subrange(0, s) + pre.subrange(s, e) + pre.skip(e));
        assert(runs_contents(
            pre.subrange(0, s) + pre.subrange(s, e) + pre.skip(e),
        ) =~= a + (g + b));
    }
    lemma_lists_find_concat(a, g + b, k);
    lemma_lists_find_concat(g, b, k);
    let post = pre.subrange(0, s) + seq![t] + pre.skip(e);
    let tb = runs_contents(seq![t] + pre.skip(e));
    assert(runs_contents(post) =~= a + tb) by {
        assert(runs_contents(post) =~= a + runs_contents(seq![t] + pre.skip(e)));
    }
    lemma_lists_find_concat(a, tb, k);
    assert(tb[0] == t.contents@);
    assert(tb.skip(1) =~= b);
    if e == pre.len() {
        assert(pre.skip(e) =~= Seq::<SSTable>::empty());
        assert(b =~= Seq::<Seq<KVMemoryRepr>>::empty());
    }
}

/// The planned group ranges applied in order, each replaced in place by
/// the corresponding merged run. Earlier groups sit at strictly higher
/// positions, so each later range still addresses the same runs in the
/// partly spliced list.
pub open spec fn spec_apply_plan(
    rs: Seq<SSTable>,
    plan: Seq<(int, int)>,
    ts: Seq<SSTable>,
) -> Seq<SSTable>
    decreases plan.len(),
{
    if plan.len() == 0 || ts.len() != plan.len() {
        rs
    } else {
        spec_apply_plan(
            rs.subrange(0, plan[0].0) + seq![ts[0]] + rs.skip(plan[0].1),
            plan.skip(1),
            ts.skip(1),
        )
    }
}

proof fn lemma_apply_plan_snoc(
    rs: Seq<SSTable>,
    plan: Seq<(int, int)>,
    ts: Seq<SSTable>,
    g: (int, int),
    t: SSTable,
)
    requires
        ts.len() == plan.len(),
    ensures
        spec_apply_plan(rs, plan.push(g), ts.push(t)) == ({
            let mid = spec_apply_plan(rs, plan, ts);
            mid.subrange(0, g.0) + seq![t] + mid.skip(g.1)
        }),
    decreases plan.len(),
{
    reveal_with_fuel(spec_apply_plan, 3);
    if plan.len() == 0 {
        assert(plan.push(g)[0] == g);
        assert(ts.push(t)[0] == t);
        assert(plan.push(g).skip(1) =~= Seq::<(int, int)>::empty());
        assert(ts.push(t).skip(1) =~= Seq::<SSTable>::empty());
    } else {
        assert(plan.push(g)[0] == plan[0]);
        assert(ts.push(t)[0] == ts[0]);
        assert(plan.push(g).skip(1) =~= plan.skip(1).push(g));
        assert(ts.push(t).skip(1) =~= ts.skip(1).push(t));
        lemma_apply_plan_snoc(
            rs.subrange(0, plan[0].0) + seq![ts[0]] + rs.skip(plan[0].1),
            plan.skip(1),
            ts.skip(1),
            g,
            t,
        );
    }
}

/// `ts` witnesses one compaction pass from `rs` to `post`: one merged run
/// per planned group, each holding exactly the merge of its group's
/// records (tombstones dropped only for the group that reaches the oldest
/// end), and `post` is `rs` with every planned group replaced in place by
/// its merged run, all other runs kept in order.
pub open spec fn compaction_pass_result(
    rs: Seq<SSTable>,
    ts: Seq<SSTable>,
    post: Seq<SSTable>,
) -> bool {
    let plan = spec_plan_from(runs_sizes(rs), rs.len() as int);
    &&& ts.len() == plan.len()
    &&& post == spec_apply_plan(rs, plan, ts)
    &&& forall|g: int|
        0 <= g < plan.len() ==> {
            &&& (#[trigger] ts[g]).wf()
            &&& (forall|k: u64|
                find_newest(ts[g].contents@, k) == merged_find(
                    runs_contents(rs.subrange(plan[g].0, plan[g].1)),
                    k,
                    plan[g].1 != rs.len(),
                ))
            &&& (plan[g].1 == rs.len() ==> forall|q: int|
                0 <= q < ts[g].contents@.len() ==> (#[trigger] ts[g].contents@[q]).value is Some)
        }
}

/// One compaction pass: plan the merge groups over the current run list,
/// merge each planned group into one run and install it in the group's
/// place. In this sequential core nothing can move a group between planning
/// and applying, so each group is spliced at its planned position. Returns
/// whether the plan held any group, in which case the list shrank.
pub fn handle_compaction_check(sstables: &mut Vec<SSTable>) -> (r: Result<bool, Error>)
    requires
        forall|i: int|
            0 <= i < old(sstables)@.len() ==> (#[trigger] old(sstables)@[i]).wf(),
    ensures
        r == Ok::<bool, Error>(
            spec_plan_from(runs_sizes(old(sstables)@), old(sstables)@.len() as int).len() > 0,
        ),
        forall|i: int|
            0 <= i < final(sstables)@.len() ==> (#[trigger] final(sstables)@[i]).wf(),
        forall|k: u64|
            #[trigger] runs_read(final(sstables)@, k) == runs_read(old(sstables)@, k),
        exists|ts: Seq<SSTable>| compaction_pass_result(old(sstables)@, ts, final(sstables)@),
        runs_size_sum(final(sstables)@) <= runs_size_sum(old(sstables)@),
        r == Ok::<bool, Error>(true) ==> final(sstables)@.len() < old(sstables)@.len(),
        r == Ok::<bool, Error>(false) ==> final(sstables)@ == old(sstables)@,
{
    let ghost snapshot = sstables@;
    let ghost sizes = runs_sizes(snapshot);
    let ghost plan = spec_plan_from(sizes, snapshot.len() as int);
    let snap_len = sstables.len();
    let to_merge = find_sstables_to_merge(sstables);
    proof {
        lemma_plan_props(sizes, snapshot.len() as int);
        assert(plan.take(0) =~= Seq::<(int, int)>::empty());
    }
    let ghost mut ts_acc: Seq<SSTable> = Seq::empty();
    let mut gi: usize = 0;
    while gi < to_merge.len()
        invariant
            snap_len == snapshot.len(),
            to_merge@.map_values(|p: (usize, usize)| (p.0 as int, p.1 as int)) == plan,
            plan == spec_plan_from(sizes, snapshot.len() as int),
            sizes == runs_sizes(snapshot),
            gi <= to_merge@.len(),
            forall|i: int| 0 <= i < sstables@.len() ==> (#[trigger] sstables@[i]).wf(),
            forall|k: u64| #[trigger] runs_read(sstables@, k) == runs_read(snapshot, k),
            ts_acc.len() == gi,
            sstables@ == spec_apply_plan(snapshot, plan.take(gi as int), ts_acc),
            forall|g: int|
                0 <= g < gi ==> {
                    &&& (#[trigger] ts_acc[g]).wf()
                    &&& (forall|k: u64|
                        find_newest(ts_acc[g].contents@, k) == merged_find(
                            runs_contents(snapshot.subrange(plan[g].0, plan[g].1)),
                            k,
                            plan[g].1 != snapshot.len(),
                        ))
                    &&& (plan[g].1 == snapshot.len() ==> forall|q: int|
                        0 <= q < ts_acc[g].contents@.len() ==> (
                        #[trigger] ts_acc[g].contents@[q]).value is Some)
                },
            runs_size_sum(sstables@) <= runs_size_sum(snapshot),
            gi > 0 ==> sstables@.len() < snapshot.len(),
            gi == 0 ==> sstables@ == snapshot,
            ({
                let bound = if gi == 0 {
                    snapshot.len() as int
                } else {
                    to_merge@[gi - 1].0 as int
                };
                &&& bound <= snapshot.len()
                &&& bound <= sstables@.len()
                &&& (gi > 0 ==> bound < sstables@.len())
                &&& sstables@.subrange(0, bound) == snapshot.subrange(0, bound)
            }),
        decreases to_merge@.len() - gi,
    {
        let (start, end) = to_merge[gi];
        proof {
            lemma_plan_props(sizes, snapshot.len() as int);
            assert(plan[gi as int] == (start as int, end as int));
            assert(0 <= start < end <= snapshot.len());
            if gi > 0 {
                assert(plan[gi - 1] == (to_merge@[gi - 1].0 as int, to_merge@[gi - 1].1 as int));
                assert(end <= to_merge@[gi - 1].0);
            }
            assert forall|p: int| start <= p < end implies #[trigger] sstables@[p]
                == snapshot[p] by {
                let bound = if gi == 0 {
                    snapshot.len() as int
                } else {
                    to_merge@[gi - 1].0 as int
                };
                assert(sstables@.subrange(0, bound)[p] == snapshot.subrange(0, bound)[p]);
            }
            assert(sstables@.subrange(start as int, end as int) =~= snapshot.subrange(
                start as int,
                end as int,
            ));
            // The tombstone rule was decided against the plan's snapshot;
            // the group reaches the current tail exactly when it reached
            // the snapshot's tail.
            if gi > 0 {
                assert(end < sstables@.len());
                assert(end < snap_len) by {
                    assert(to_merge@[gi - 1].0 < to_merge@[gi - 1].1 <= snap_len);
                }
            }
        }
        let save_tombstones = end != snap_len;
        let merged_table = match merge_sstables(sstables, start, end, save_tombstones) {
            Ok(t) => t,
            Err(e) => {
                proof {
                    assert(false);
                }
                return Err(e);
            },
        };
        // Replace the group, in place, by the merged run.
        let glen = end - start;
        let ghost pre = sstables@;
        let mut removed: usize = 0;
        while removed < glen
            invariant
                removed <= glen,
                glen == end - start,
                start + glen <= pre.len(),
                sstables@ =~= pre.subrange(0, start as int) + pre.subrange(
                    start + removed,
                    pre.len() as int,
                ),
            decreases glen - removed,
        {
            proof {
                assert(sstables@.len() == pre.len() - removed);
            }
            let _ = sstables.remove(start);
            proof {
                assert(sstables@ =~= pre.subrange(0, start as int) + pre.subrange(
                    start + removed + 1,
                    pre.len() as int,
                ));
            }
            removed = removed + 1;
        }
        sstables.insert(start, merged_table);
        proof {
            assert(sstables@ =~= pre.subrange(0, start as int) + seq![merged_table] + pre.skip(
                end as int,
            ));
            assert forall|k: u64| #[trigger] runs_read(sstables@, k) == runs_read(pre, k) by {
                assert(pre.subrange(start as int, end as int) =~= snapshot.subrange(
                    start as int,
                    end as int,
                ));
                lemma_splice_preserves_read(
                    pre,
                    start as int,
                    end as int,
                    merged_table,
                    save_tombstones,
                    k,
                );
            }
            assert forall|i: int|
                0 <= i < sstables@.len() implies (#[trigger] sstables@[i]).wf() by {
                if i < start {
                    assert(sstables@[i] == pre[i]);
                } else if i == start {
                } else {
                    assert(sstables@[i] == pre[i + glen - 1]);
                }
            }
            // The merged run's file is no larger than the group it
            // replaces, so the total never grows.
            assert(pre =~= (pre.subrange(0, start as int) + pre.subrange(start as int, end as int))
                + pre.skip(end as int));
            lemma_size_sum_concat(
                pre.subrange(0, start as int) + pre.subrange(start as int, end as int),
                pre.skip(end as int),
            );
            lemma_size_sum_concat(
                pre.subrange(0, start as int),
                pre.subrange(start as int, end as int),
            );
            assert(sstables@ =~= (pre.subrange(0, start as int) + seq![merged_table]) + pre.skip(
                end as int,
            ));
            lemma_size_sum_concat(
                pre.subrange(0, start as int) + seq![merged_table],
                pre.skip(end as int),
            );
            lemma_size_sum_concat(pre.subrange(0, start as int), seq![merged_table]);
            assert(seq![merged_table].skip(1) =~= Seq::<SSTable>::empty());
            assert(runs_size_sum(Seq::<SSTable>::empty()) == 0);
            assert(runs_size_sum(seq![merged_table]) == merged_table.file_size);
            assert(runs_size_sum(sstables@) <= runs_size_sum(pre));
            lemma_apply_plan_snoc(
                snapshot,
                plan.take(gi as int),
                ts_acc,
                plan[gi as int],
                merged_table,
            );
            assert(plan.take(gi + 1) =~= plan.take(gi as int).push(plan[gi as int]));
            ts_acc = ts_acc.push(merged_table);
            assert(sstables@ == spec_apply_plan(snapshot, plan.take(gi + 1), ts_acc));
            let bound_next = to_merge@[gi as int].0 as int;
            assert(sstables@.subrange(0, bound_next) =~= snapshot.subrange(0, bound_next));
        }
        gi = gi + 1;
    }
    proof {
        assert(plan.take(plan.len() as int) =~= plan);
        assert(compaction_pass_result(snapshot, ts_acc, sstables@));
    }
    Ok(!to_merge.is_empty())
}

/// Runs compaction passes until one finds nothing left to merge: on
/// return, the plan over the remaining runs is empty.
pub fn handle_compaction_check_rec(sstables: &mut Vec<SSTable>) -> (r: Result<(), Error>)
    requires
        forall|i: int|
            0 <= i < old(sstables)@.len() ==> (#[trigger] old(sstables)@[i]).wf(),
    ensures
        r is Ok,
        forall|i: int|
            0 <= i < final(sstables)@.len() ==> (#[trigger] final(sstables)@[i]).wf(),
        forall|k: u64|
            #[trigger] runs_read(final(sstables)@, k) == runs_read(old(sstables)@, k),
        runs_size_sum(final(sstables)@) <= runs_size_sum(old(sstables)@),
        spec_plan_from(runs_sizes(final(sstables)@), final(sstables)@.len() as int).len() == 0,
{
    let mut go = true;
    while go
        invariant
            forall|i: int|
                0 <= i < sstables@.len() ==> (#[trigger] sstables@[i]).wf(),
            forall|k: u64| #[trigger] runs_read(sstables@, k) == runs_read(old(sstables)@, k),
            runs_size_sum(sstables@) <= runs_size_sum(old(sstables)@),
            !go ==> spec_plan_from(runs_sizes(sstables@), sstables@.len() as int).len() == 0,
        decreases sstables@.len() + (if go {
            1int
        } else {
            0int
        }),
    {
        let merged = match handle_compaction_check(sstables) {
            Ok(m) => m,
            Err(e) => {
                proof {
                    assert(false);
                }
                return Err(e);
            },
        };
        if !merged {
            go = false;
        }
    }
    Ok(())
}

/// Owns the "a compaction pass is running" flag and drives compaction when
/// a new run enters the list.
pub struct CompactorManager {
    pub currently_compacting: bool,
}

impl CompactorManager {
    pub fn new() -> (r: Self)
        ensures
            !r.currently_compacting,
    {
        CompactorManager { currently_compacting: false }
    }

    /// Reacts to a freshly inserted run: unless a pass is already running,
    /// marks itself busy and compacts until nothing is left to merge — a
    /// free signal leaves no plannable group behind.
    pub fn signal_sstable_inserted(&mut self, sstables: &mut Vec<SSTable>)
        requires
            forall|i: int|
                0 <= i < old(sstables)@.len() ==> (#[trigger] old(sstables)@[i]).wf(),
        ensures
            forall|i: int|
                0 <= i < final(sstables)@.len() ==> (#[trigger] final(sstables)@[i]).wf(),
            forall|k: u64|
                #[trigger] runs_read(final(sstables)@, k) == runs_read(old(sstables)@, k),
            final(self).currently_compacting == old(self).currently_compacting,
            old(self).currently_compacting ==> final(sstables)@ == old(sstables)@,
            runs_size_sum(final(sstables)@) <= runs_size_sum(old(sstables)@),
            !old(self).currently_compacting ==> spec_plan_from(
                runs_sizes(final(sstables)@),
                final(sstables)@.len() as int,
            ).len() == 0,
    {
        if self.currently_compacting {
            return ;
        }
        self.currently_compacting = true;
        match handle_compaction_check_rec(sstables) {
            Ok(_) => (),
            Err(_) => (),
        }
        self.currently_compacting = false;
    }
}

} // verus!
