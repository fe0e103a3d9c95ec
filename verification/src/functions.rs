use vstd::prelude::*;

use vstd::seq_lib::lemma_multiset_commutative;

use crate::errors::Error;
use crate::serialization::KVMemoryRepr;

verus! {

/// Outcome of a point lookup against one layer of the store: a present
/// value, an explicit deletion, or no entry for the key at all.
pub enum FindResult {
    Found(u64),
    Tombstone,
    NotFound,
}

/// The newest entry for `key` among `rs`, read from the end (newest last):
/// `None` when no entry carries the key, otherwise the value of the last
/// entry with that key (`Some(None)` is a tombstone).
pub open spec fn find_newest(rs: Seq<KVMemoryRepr>, key: u64) -> Option<Option<u64>>
    decreases rs.len(),
{
    if rs.len() == 0 {
        None
    } else if rs.last().key == key {
        Some(rs.last().value)
    } else {
        find_newest(rs.drop_last(), key)
    }
}

/// Relates an exec `FindResult` to the spec-level lookup outcome.
pub open spec fn find_result_describes(r: FindResult, o: Option<Option<u64>>) -> bool {
    match r {
        FindResult::Found(v) => o == Some(Some(v)),
        FindResult::Tombstone => o == Some(None::<u64>),
        FindResult::NotFound => o is None,
    }
}

pub proof fn lemma_find_newest_push(rs: Seq<KVMemoryRepr>, r: KVMemoryRepr, key: u64)
    ensures
        find_newest(rs.push(r), key) == if r.key == key {
            Some(r.value)
        } else {
            find_newest(rs, key)
        },
{
    assert(rs.push(r).last() == r);
    assert(rs.push(r).drop_last() =~= rs);
}

/// A key is missing from a record sequence exactly when no entry carries it.
pub proof fn lemma_find_newest_absent(rs: Seq<KVMemoryRepr>, key: u64)
    ensures
        (find_newest(rs, key) is None) <==> (forall|i: int|
            0 <= i < rs.len() ==> (#[trigger] rs[i]).key != key),
    decreases rs.len(),
{
    if rs.len() > 0 {
        lemma_find_newest_absent(rs.drop_last(), key);
        if rs.last().key != key {
            assert(forall|i: int|
                0 <= i < rs.len() - 1 ==> rs.drop_last()[i] == #[trigger] rs[i]);
        }
    }
}

/// Records ordered by key, duplicates allowed.
pub open spec fn sorted_by_key(rs: Seq<KVMemoryRepr>) -> bool {
    forall|i: int, j: int|
        0 <= i < j < rs.len() ==> (#[trigger] rs[i]).key <= (#[trigger] rs[j]).key
}

/// Records strictly ordered by key: sorted with no duplicate keys.
pub open spec fn sorted_strict_by_key(rs: Seq<KVMemoryRepr>) -> bool {
    forall|i: int, j: int|
        0 <= i < j < rs.len() ==> (#[trigger] rs[i]).key < (#[trigger] rs[j]).key
}

/// Every record in the sequence has its valid flag set.
pub open spec fn all_valid(rs: Seq<KVMemoryRepr>) -> bool {
    forall|i: int| 0 <= i < rs.len() ==> (#[trigger] rs[i]).valid
}

/// The set of keys carried by a record sequence.
pub open spec fn key_set(rs: Seq<KVMemoryRepr>) -> Set<u64> {
    Set::new(|k: u64| exists|i: int| 0 <= i < rs.len() && (#[trigger] rs[i]).key == k)
}

/// In a strictly sorted sequence, an entry for a key is the newest (and only)
/// entry for it.
pub proof fn lemma_find_newest_at(rs: Seq<KVMemoryRepr>, i: int, key: u64)
    requires
        sorted_strict_by_key(rs),
        0 <= i < rs.len(),
        rs[i].key == key,
    ensures
        find_newest(rs, key) == Some(rs[i].value),
    decreases rs.len(),
{
    if i == rs.len() - 1 {
    } else {
        assert(rs.last().key > key);
        assert(rs.drop_last()[i] == rs[i]);
        assert(sorted_strict_by_key(rs.drop_last())) by {
            assert(forall|a: int|
                0 <= a < rs.len() - 1 ==> rs.drop_last()[a] == #[trigger] rs[a]);
        }
        lemma_find_newest_at(rs.drop_last(), i, key);
    }
}

/// An entry whose key matches, with no later entry for the same key, is the
/// newest entry for that key.
pub proof fn lemma_find_newest_last_match(rs: Seq<KVMemoryRepr>, i: int, key: u64)
    requires
        0 <= i < rs.len(),
        rs[i].key == key,
        forall|j: int| i < j < rs.len() ==> (#[trigger] rs[j]).key != key,
    ensures
        find_newest(rs, key) == Some(rs[i].value),
    decreases rs.len(),
{
    if i == rs.len() - 1 {
    } else {
        assert(rs.last().key != key);
        assert(rs.drop_last()[i] == rs[i]);
        assert(forall|j: int| 0 <= j < rs.len() - 1 ==> rs.drop_last()[j] == #[trigger] rs[j]);
        lemma_find_newest_last_match(rs.drop_last(), i, key);
    }
}

/// Two strictly sorted runs of valid records that answer every lookup alike
/// hold exactly the same records.
pub proof fn lemma_equal_lookups_equal_runs(a: Seq<KVMemoryRepr>, b: Seq<KVMemoryRepr>)
    requires
        sorted_strict_by_key(a),
        sorted_strict_by_key(b),
        all_valid(a),
        all_valid(b),
        forall|k: u64| #[trigger] find_newest(a, k) == find_newest(b, k),
    ensures
        a == b,
    decreases a.len(),
{
    if a.len() == 0 {
        if b.len() > 0 {
            lemma_find_newest_absent(a, b.last().key);
            assert(find_newest(b, b.last().key) == Some(b.last().value));
        }
        assert(a =~= b);
    } else if b.len() == 0 {
        lemma_find_newest_absent(b, a.last().key);
        assert(find_newest(a, a.last().key) == Some(a.last().value));
    } else {
        assert(a.last().key == b.last().key) by {
            if a.last().key < b.last().key {
                assert(find_newest(b, b.last().key) == Some(b.last().value));
                assert forall|i: int| 0 <= i < a.len() implies (#[trigger] a[i]).key
                    != b.last().key by {
                    if i < a.len() - 1 {
                        assert(a[i].key < a.last().key);
                    }
                }
                lemma_find_newest_absent(a, b.last().key);
            }
            if b.last().key < a.last().key {
                assert(find_newest(a, a.last().key) == Some(a.last().value));
                assert forall|i: int| 0 <= i < b.len() implies (#[trigger] b[i]).key
                    != a.last().key by {
                    if i < b.len() - 1 {
                        assert(b[i].key < b.last().key);
                    }
                }
                lemma_find_newest_absent(b, a.last().key);
            }
        }
        let kk = a.last().key;
        assert(find_newest(a, kk) == Some(a.last().value));
        assert(find_newest(b, kk) == Some(b.last().value));
        assert(a.last().valid && b.last().valid);
        assert(a.last() == b.last());
        let ad = a.drop_last();
        let bd = b.drop_last();
        assert(forall|i: int| 0 <= i < ad.len() ==> #[trigger] ad[i] == a[i]);
        assert(forall|i: int| 0 <= i < bd.len() ==> #[trigger] bd[i] == b[i]);
        assert forall|k: u64| #[trigger] find_newest(ad, k) == find_newest(bd, k) by {
            if k == kk {
                assert forall|i: int| 0 <= i < ad.len() implies (#[trigger] ad[i]).key != k by {
                    assert(a[i].key < a.last().key);
                }
                assert forall|i: int| 0 <= i < bd.len() implies (#[trigger] bd[i]).key != k by {
                    assert(b[i].key < b.last().key);
                }
                lemma_find_newest_absent(ad, k);
                lemma_find_newest_absent(bd, k);
            } else {
                assert(find_newest(a, k) == find_newest(ad, k));
                assert(find_newest(b, k) == find_newest(bd, k));
            }
        }
        lemma_equal_lookups_equal_runs(ad, bd);
        assert forall|i: int| 0 <= i < a.len() implies a[i] == b[i] by {
            if i < a.len() - 1 {
                assert(ad[i] == a[i]);
                assert(bd[i] == b[i]);
                assert(ad[i] == bd[i]);
            }
        }
        assert(a =~= b);
    }
}

/// Entries ordered by their first component (the byte offset in the log).
pub open spec fn sorted_by_offset(s: Seq<(u64, KVMemoryRepr)>) -> bool {
    forall|i: int, j: int| 0 <= i < j < s.len() ==> (#[trigger] s[i]).0 <= (#[trigger] s[j]).0
}

/// The predicate selecting mirror entries that sit at byte offset `v`.
pub open spec fn offset_is(v: u64) -> spec_fn((u64, KVMemoryRepr)) -> bool {
    |p: (u64, KVMemoryRepr)| p.0 == v
}

proof fn lemma_filter_singleton(
    x: (u64, KVMemoryRepr),
    pred: spec_fn((u64, KVMemoryRepr)) -> bool,
)
    ensures
        seq![x].filter(pred) == if pred(x) {
            seq![x]
        } else {
            Seq::<(u64, KVMemoryRepr)>::empty()
        },
{
    reveal_with_fuel(Seq::filter, 2);
    assert(seq![x].drop_last() =~= Seq::<(u64, KVMemoryRepr)>::empty());
    if pred(x) {
        assert(seq![x].filter(pred) =~= seq![x]);
    } else {
        assert(seq![x].filter(pred) =~= Seq::<(u64, KVMemoryRepr)>::empty());
    }
}

/// Swapping two adjacent entries, at most one of which the predicate
/// selects, leaves the selected subsequence unchanged.
proof fn lemma_swap_adjacent_preserves_filter(
    s: Seq<(u64, KVMemoryRepr)>,
    j: int,
    pred: spec_fn((u64, KVMemoryRepr)) -> bool,
)
    requires
        1 <= j < s.len(),
        !(pred(s[j - 1]) && pred(s[j])),
    ensures
        s.update(j - 1, s[j]).update(j, s[j - 1]).filter(pred) == s.filter(pred),
{
    let t = s.update(j - 1, s[j]).update(j, s[j - 1]);
    let u = s.take(j - 1);
    let w = s.skip(j + 1);
    let ab = seq![s[j - 1], s[j]];
    let ba = seq![s[j], s[j - 1]];
    assert(s =~= u + (ab + w));
    assert(t =~= u + (ba + w));
    Seq::filter_distributes_over_add(u, ab + w, pred);
    Seq::filter_distributes_over_add(ab, w, pred);
    Seq::filter_distributes_over_add(u, ba + w, pred);
    Seq::filter_distributes_over_add(ba, w, pred);
    assert(ab =~= seq![s[j - 1]] + seq![s[j]]);
    assert(ba =~= seq![s[j]] + seq![s[j - 1]]);
    Seq::filter_distributes_over_add(seq![s[j - 1]], seq![s[j]], pred);
    Seq::filter_distributes_over_add(seq![s[j]], seq![s[j - 1]], pred);
    lemma_filter_singleton(s[j - 1], pred);
    lemma_filter_singleton(s[j], pred);
    assert(ab.filter(pred) =~= ba.filter(pred));
    assert(t.filter(pred) =~= s.filter(pred));
}

/// Swapping two positions of a sequence leaves its multiset of elements
/// unchanged.
pub proof fn lemma_swap_preserves_multiset<T>(s: Seq<T>, a: int, b: int)
    requires
        0 <= a < b < s.len(),
    ensures
        s.update(a, s[b]).update(b, s[a]).to_multiset() == s.to_multiset(),
{
    let t = s.update(a, s[b]).update(b, s[a]);
    let l = s.take(a);
    let m = s.subrange(a + 1, b);
    let r = s.skip(b + 1);
    let sa = seq![s[a]];
    let sb = seq![s[b]];
    assert(s =~= l + sa + m + sb + r);
    assert(t =~= l + sb + m + sa + r);
    lemma_multiset_commutative(l + sa + m + sb, r);
    lemma_multiset_commutative(l + sa + m, sb);
    lemma_multiset_commutative(l + sa, m);
    lemma_multiset_commutative(l, sa);
    lemma_multiset_commutative(l + sb + m + sa, r);
    lemma_multiset_commutative(l + sb + m, sa);
    lemma_multiset_commutative(l + sb, m);
    lemma_multiset_commutative(l, sb);
    assert(t.to_multiset() =~= s.to_multiset());
}

/// Sorts the entries in place by their first component (ascending) using
/// insertion sort. The sort is stable: entries sharing an offset keep
/// their original relative order (their selected subsequence is unchanged),
/// and an already sorted input, the common case for the log mirror, is left
/// exactly as it was.
pub fn insertion_sort_by_key(to_sort: &mut Vec<(u64, KVMemoryRepr)>)
    ensures
        sorted_by_offset(final(to_sort)@),
        final(to_sort)@.to_multiset() == old(to_sort)@.to_multiset(),
        final(to_sort)@.len() == old(to_sort)@.len(),
        forall|v: u64| #[trigger] final(to_sort)@.filter(offset_is(v)) == old(to_sort)@.filter(
            offset_is(v),
        ),
        sorted_by_offset(old(to_sort)@) ==> final(to_sort)@ == old(to_sort)@,
{
    let n = to_sort.len();
    if n == 0 {
        return ;
    }
    let mut i: usize = 1;
    while i < n
        invariant
            1 <= i <= n,
            n == to_sort@.len(),
            forall|a: int, b: int|
                0 <= a < b < i ==> (#[trigger] to_sort@[a]).0 <= (#[trigger] to_sort@[b]).0,
            to_sort@.to_multiset() == old(to_sort)@.to_multiset(),
            forall|v: u64| #[trigger] to_sort@.filter(offset_is(v)) == old(to_sort)@.filter(
                offset_is(v),
            ),
            sorted_by_offset(old(to_sort)@) ==> to_sort@ == old(to_sort)@,
        decreases n - i,
    {
        let mut j: usize = i;
        while j > 0 && to_sort[j - 1].0 > to_sort[j].0
            invariant
                0 <= j <= i < n,
                n == to_sort@.len(),
                forall|a: int, b: int|
                    0 <= a < b <= i && a != j && b != j ==> (#[trigger] to_sort@[a]).0
                        <= (#[trigger] to_sort@[b]).0,
                forall|b: int|
                    j < b <= i ==> (#[trigger] to_sort@[b]).0 >= to_sort@[j as int].0,
                to_sort@.to_multiset() == old(to_sort)@.to_multiset(),
                forall|v: u64| #[trigger] to_sort@.filter(offset_is(v)) == old(to_sort)@.filter(
                    offset_is(v),
                ),
                sorted_by_offset(old(to_sort)@) ==> to_sort@ == old(to_sort)@,
            decreases j,
    {
            let prev = to_sort[j - 1];
            let cur = to_sort[j];
            proof {
                if sorted_by_offset(old(to_sort)@) {
                    assert(to_sort@[j - 1].0 <= to_sort@[j as int].0);
                    assert(false);
                }
                lemma_swap_preserves_multiset(to_sort@, j - 1, j as int);
                assert forall|v: u64|
                    #[trigger] to_sort@.update(j - 1, cur).update(j as int, prev).filter(
                        offset_is(v),
                    ) == old(to_sort)@.filter(offset_is(v)) by {
                    assert(!(offset_is(v)(prev) && offset_is(v)(cur)));
                    lemma_swap_adjacent_preserves_filter(to_sort@, j as int, offset_is(v));
                }
            }
            to_sort[j - 1] = cur;
            to_sort[j] = prev;
            j = j - 1;
        }
        i = i + 1;
    }
}

/// Overwrites the bytes of `file` starting at `offset` with `data`, leaving
/// every byte outside that window unchanged.
pub fn write_data_at_offset(file: &mut Vec<u8>, data: &[u8], offset: u64) -> (r: Result<(), Error>)
    requires
        offset + data@.len() <= old(file)@.len(),
    ensures
        r is Ok,
        final(file)@ =~= old(file)@.subrange(0, offset as int) + data@ + old(file)@.skip(
            offset as int + data@.len(),
        ),
{
    let flen: usize = file.len();
    let off = offset as usize;
    let mut i: usize = 0;
    while i < data.len()
        invariant
            i <= data@.len(),
            off == offset,
            flen == file@.len(),
            off + data@.len() <= file@.len(),
            offset + data@.len() <= file@.len(),
            file@.len() == old(file)@.len(),
            forall|j: int| 0 <= j < i ==> file@[off + j] == data@[j],
            forall|j: int| 0 <= j < file@.len() && !(off <= j < off + i) ==> file@[j] == old(
                file,
            )@[j],
        decreases data@.len() - i,
    {
        file[off + i] = data[i];
        i = i + 1;
    }
    Ok(())
}

} // verus!
