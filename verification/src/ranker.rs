//! Ranked entries, the minimum-rank cutoff and the descending stable order.

use vstd::prelude::*;
use crate::rank_value::{exceeds, is_nan, is_number, key_of, order_key, rank_exceeds};

verus! {

/// The rank that entries must exceed when mirrors were probed: the pattern
/// of one half.
pub const DEFAULT_MIN_RANK: u64 = 0x3FE0_0000_0000_0000u64;

/// One scored record of the output.
#[derive(Debug)]
pub struct RankedEntry {
    /// The line that stands for the mirror in the output.
    pub rendered_url: String,
    /// The rank, as the pattern of a real number; higher is preferred.
    pub rank: u64,
}

impl RankedEntry {
    /// A copy of the entry, field for field.
    pub fn duplicate(&self) -> (e: RankedEntry)
        ensures
            e == *self,
    {
        RankedEntry { rendered_url: self.rendered_url.clone(), rank: self.rank }
    }
}

/// The ordering key of an entry's rank.
pub open spec fn key(e: RankedEntry) -> int {
    order_key(e.rank)
}

/// Every rank is a number.
pub open spec fn all_numbers(entries: Seq<RankedEntry>) -> bool {
    forall|i: int| 0 <= i < entries.len() ==> !is_nan(#[trigger] entries[i].rank)
}

/// The entries whose rank exceeds `min_rank`, in their order. An entry at
/// the threshold itself is left out, and so is one whose rank is no number.
pub open spec fn above(entries: Seq<RankedEntry>, min_rank: u64) -> Seq<RankedEntry> {
    entries.filter(|e: RankedEntry| exceeds(e.rank, min_rank))
}

/// How many entries at the front of `sorted` have a rank of at least `rank`:
/// the place that an entry of that rank takes behind its equals.
pub open spec fn insertion_point(sorted: Seq<RankedEntry>, rank: u64) -> int
    decreases sorted.len(),
{
    if sorted.len() == 0 || key(sorted[0]) < order_key(rank) {
        0
    } else {
        1 + insertion_point(sorted.skip(1), rank)
    }
}

/// The entries in descending order of rank, entries of equal rank in the
/// order in which they came.
pub open spec fn sorted_by_rank(entries: Seq<RankedEntry>) -> Seq<RankedEntry>
    decreases entries.len(),
{
    if entries.len() == 0 {
        entries
    } else {
        let front = sorted_by_rank(entries.drop_last());
        front.insert(insertion_point(front, entries.last().rank), entries.last())
    }
}

/// No entry is followed by one of a higher rank.
pub open spec fn is_descending(entries: Seq<RankedEntry>) -> bool {
    forall|i: int, j: int|
        0 <= i < j < entries.len() ==> key(#[trigger] entries[i]) >= key(#[trigger] entries[j])
}

/// Every entry is followed by entries of lower rank only.
pub open spec fn is_strictly_descending(entries: Seq<RankedEntry>) -> bool {
    forall|i: int, j: int|
        0 <= i < j < entries.len() ==> key(#[trigger] entries[i]) > key(#[trigger] entries[j])
}

/// No two entries have the same rank.
pub open spec fn distinct_ranks(entries: Seq<RankedEntry>) -> bool {
    forall|i: int, j: int|
        0 <= i < j < entries.len() ==> key(#[trigger] entries[i]) != key(#[trigger] entries[j])
}

/// The entries whose ordering key is `k`, in their order.
pub open spec fn with_key(entries: Seq<RankedEntry>, k: int) -> Seq<RankedEntry> {
    entries.filter(|e: RankedEntry| key(e) == k)
}

/// What `rank` returns: the entries above the threshold, where there is
/// one, in descending stable order.
pub open spec fn ranked_of(entries: Seq<RankedEntry>, min_rank: Option<u64>) -> Seq<RankedEntry> {
    match min_rank {
        Some(m) => sorted_by_rank(above(entries, m)),
        None => sorted_by_rank(entries),
    }
}

/// The insertion point lies inside the sequence, behind entries of at least
/// the given rank and in front of an entry of a lower one.
pub proof fn lemma_insertion_point(sorted: Seq<RankedEntry>, rank: u64)
    ensures
        0 <= insertion_point(sorted, rank) <= sorted.len(),
        forall|t: int|
            0 <= t < insertion_point(sorted, rank) ==> key(#[trigger] sorted[t]) >= order_key(rank),
        insertion_point(sorted, rank) < sorted.len() ==> key(
            sorted[insertion_point(sorted, rank)],
        ) < order_key(rank),
    decreases sorted.len(),
{
    if sorted.len() == 0 || key(sorted[0]) < order_key(rank) {
    } else {
        let rest = sorted.skip(1);
        lemma_insertion_point(rest, rank);
        let p = insertion_point(rest, rank);
        assert forall|t: int| 0 <= t < p + 1 implies key(#[trigger] sorted[t]) >= order_key(
            rank,
        ) by {
            if t > 0 {
                assert(sorted[t] == rest[t - 1]);
            }
        }
        if p < rest.len() {
            assert(sorted[p + 1] == rest[p]);
        }
    }
}

/// A place behind entries of at least the given rank and in front of an
/// entry of a lower one is the insertion point.
pub proof fn lemma_insertion_point_is(sorted: Seq<RankedEntry>, rank: u64, j: int)
    requires
        0 <= j <= sorted.len(),
        forall|t: int| 0 <= t < j ==> key(#[trigger] sorted[t]) >= order_key(rank),
        j < sorted.len() ==> key(sorted[j]) < order_key(rank),
    ensures
        insertion_point(sorted, rank) == j,
{
    lemma_insertion_point(sorted, rank);
}

/// Tells whether every rank is a number.
pub fn all_ranks_are_numbers(entries: &Vec<RankedEntry>) -> (r: bool)
    ensures
        r == all_numbers(entries@),
{
    let mut i: usize = 0;
    while i < entries.len()
        invariant
            i <= entries.len(),
            forall|t: int| 0 <= t < i ==> !is_nan(#[trigger] entries@[t].rank),
        decreases entries.len() - i,
    {
        if !is_number(entries[i].rank) {
            return false;
        }
        i += 1;
    }
    true
}

/// Keeps the entries whose rank exceeds `min_rank`, in their order.
pub fn retain_above(entries: &Vec<RankedEntry>, min_rank: u64) -> (kept: Vec<RankedEntry>)
    ensures
        kept@ == above(entries@, min_rank),
{
    let mut kept: Vec<RankedEntry> = Vec::new();
    let mut i: usize = 0;
    while i < entries.len()
        invariant
            i <= entries.len(),
            kept@ == above(entries@.take(i as int), min_rank),
        decreases entries.len() - i,
    {
        proof {
            assert(entries@.take(i as int + 1) == entries@.take(i as int).push(entries@[i as int]));
            entries@.take(i as int).lemma_filter_push(
                entries@[i as int],
                |e: RankedEntry| exceeds(e.rank, min_rank),
            );
        }
        if rank_exceeds(entries[i].rank, min_rank) {
            kept.push(entries[i].duplicate());
        }
        i += 1;
    }
    proof {
        assert(entries@.take(entries.len() as int) == entries@);
    }
    kept
}

/// Puts the entries in descending order of rank. Entries of equal rank keep
/// the order in which they came.
pub fn sort_descending(entries: &Vec<RankedEntry>) -> (sorted: Vec<RankedEntry>)
    requires
        all_numbers(entries@),
    ensures
        sorted@ == sorted_by_rank(entries@),
        sorted@.len() == entries@.len(),
        is_descending(sorted@),
        forall|k: int| #[trigger] with_key(sorted@, k) == with_key(entries@, k),
        sorted@.to_multiset() == entries@.to_multiset(),
{
    let mut sorted: Vec<RankedEntry> = Vec::new();
    let mut i: usize = 0;
    while i < entries.len()
        invariant
            i <= entries.len(),
            sorted@ == sorted_by_rank(entries@.take(i as int)),
            sorted@.len() == i,
        decreases entries.len() - i,
    {
        let k: i64 = key_of(entries[i].rank);
        let mut j: usize = 0;
        while j < sorted.len() && key_of(sorted[j].rank) >= k
            invariant
                j <= sorted.len(),
                k == order_key(entries@[i as int].rank),
                forall|t: int| 0 <= t < j ==> key(#[trigger] sorted@[t]) >= k,
            decreases sorted.len() - j,
        {
            j += 1;
        }
        proof {
            lemma_insertion_point_is(sorted@, entries@[i as int].rank, j as int);
            assert(entries@.take(i as int + 1).drop_last() == entries@.take(i as int));
        }
        sorted.insert(j, entries[i].duplicate());
        i += 1;
    }
    proof {
        assert(entries@.take(entries.len() as int) == entries@);
        lemma_sorted_is_descending(entries@);
        lemma_sorted_is_permutation(entries@);
        assert forall|k: int| #[trigger]
            with_key(sorted_by_rank(entries@), k) == with_key(entries@, k) by {
            lemma_sorted_keeps_rank_groups(entries@, k);
        }
    }
    sorted
}

/// Applies the minimum-rank cutoff, where one is given, and puts what is
/// left in descending stable order.
pub fn rank(entries: &Vec<RankedEntry>, min_rank: Option<u64>) -> (ranked: Vec<RankedEntry>)
    requires
        min_rank is None ==> all_numbers(entries@),
    ensures
        ranked@ == ranked_of(entries@, min_rank),
        is_descending(ranked@),
{
    match min_rank {
        Some(m) => {
            let kept = retain_above(entries, m);
            proof {
                assert forall|i: int| 0 <= i < kept@.len() implies !is_nan(
                    #[trigger] kept@[i].rank,
                ) by {
                    entries@.lemma_filter_pred(|e: RankedEntry| exceeds(e.rank, m), i);
                }
            }
            sort_descending(&kept)
        },
        None => sort_descending(entries),
    }
}

/// The sorted entries are in descending order.
pub proof fn lemma_sorted_is_descending(entries: Seq<RankedEntry>)
    ensures
        is_descending(sorted_by_rank(entries)),
        sorted_by_rank(entries).len() == entries.len(),
    decreases entries.len(),
{
    if entries.len() > 0 {
        let front = sorted_by_rank(entries.drop_last());
        let e = entries.last();
        let p = insertion_point(front, e.rank);
        lemma_sorted_is_descending(entries.drop_last());
        lemma_insertion_point(front, e.rank);
        let out = front.insert(p, e);
        assert forall|i: int, j: int| 0 <= i < j < out.len() implies key(#[trigger] out[i]) >= key(
            #[trigger] out[j],
        ) by {
            if j < p {
                assert(out[i] == front[i] && out[j] == front[j]);
            } else if j == p {
                assert(out[i] == front[i]);
            } else if i < p {
                assert(out[i] == front[i] && out[j] == front[j - 1]);
                assert(key(front[p]) >= key(front[j - 1]) || p == j - 1);
            } else if i == p {
                assert(out[j] == front[j - 1]);
                assert(key(front[p]) >= key(front[j - 1]) || p == j - 1);
            } else {
                assert(out[i] == front[i - 1] && out[j] == front[j - 1]);
            }
        }
    }
}

/// Sorting keeps, for every rank, the entries of that rank in the order in
/// which they came: the sort is stable, and it neither drops nor invents an
/// entry of any rank.
pub proof fn lemma_sorted_keeps_rank_groups(entries: Seq<RankedEntry>, k: int)
    ensures
        with_key(sorted_by_rank(entries), k) == with_key(entries, k),
    decreases entries.len(),
{
    if entries.len() > 0 {
        let rest = entries.drop_last();
        let front = sorted_by_rank(rest);
        let e = entries.last();
        let p = insertion_point(front, e.rank);
        let pred = |x: RankedEntry| key(x) == k;
        lemma_sorted_keeps_rank_groups(rest, k);
        lemma_sorted_is_descending(rest);
        lemma_insertion_point(front, e.rank);
        let head = front.subrange(0, p);
        let tail = front.subrange(p, front.len() as int);
        assert(front == head + tail);
        Seq::filter_distributes_over_add(head, tail, pred);
        Seq::filter_distributes_over_add(head.push(e), tail, pred);
        head.lemma_filter_push(e, pred);
        assert(entries == rest.push(e));
        rest.lemma_filter_push(e, pred);
        if key(e) == k {
            assert forall|t: int| 0 <= t < tail.len() implies !pred(#[trigger] tail[t]) by {
                assert(tail[t] == front[p + t]);
                assert(key(front[p]) >= key(front[p + t]) || t == 0);
            }
            assert(tail.all(|x: RankedEntry| !pred(x)));
            tail.lemma_all_neg_filter_empty(pred);
            assert(tail.filter(pred) == Seq::<RankedEntry>::empty());
            assert(head.filter(pred) + tail.filter(pred) == head.filter(pred));
            assert(head.filter(pred).push(e) + tail.filter(pred) == head.filter(pred).push(e));
        }
    }
}

/// Sorting rearranges: the sorted entries are the given entries, each as
/// often as it was given.
pub proof fn lemma_sorted_is_permutation(entries: Seq<RankedEntry>)
    ensures
        sorted_by_rank(entries).to_multiset() == entries.to_multiset(),
    decreases entries.len(),
{
    broadcast use vstd::seq_lib::group_to_multiset_ensures;

    if entries.len() > 0 {
        let rest = entries.drop_last();
        let front = sorted_by_rank(rest);
        let e = entries.last();
        let p = insertion_point(front, e.rank);
        lemma_sorted_is_permutation(rest);
        lemma_insertion_point(front, e.rank);
        let out = front.insert(p, e);
        assert(out[p] == e);
        assert(out.remove(p) == front);
        assert(out.to_multiset().remove(e) == front.to_multiset());
        assert(out.contains(e));
        assert(out.to_multiset() == front.to_multiset().insert(e));
        assert(entries == rest.push(e));
        assert(entries.to_multiset() == rest.to_multiset().insert(e));
    }
}

/// Every sorted entry is one of the given entries.
pub proof fn lemma_sorted_entries_are_given(entries: Seq<RankedEntry>, i: int)
    requires
        0 <= i < sorted_by_rank(entries).len(),
    ensures
        entries.contains(sorted_by_rank(entries)[i]),
{
    broadcast use vstd::seq_lib::group_to_multiset_ensures;

    lemma_sorted_is_permutation(entries);
    let out = sorted_by_rank(entries);
    assert(out.contains(out[i]));
    assert(out.to_multiset().count(out[i]) > 0);
}

/// Entries of pairwise different ranks come out strictly descending.
pub proof fn lemma_distinct_ranks_sort_strictly(entries: Seq<RankedEntry>)
    requires
        distinct_ranks(entries),
    ensures
        is_strictly_descending(sorted_by_rank(entries)),
{
    let out = sorted_by_rank(entries);
    lemma_sorted_is_descending(entries);
    assert forall|i: int, j: int| 0 <= i < j < out.len() implies key(#[trigger] out[i]) > key(
        #[trigger] out[j],
    ) by {
        if key(out[i]) == key(out[j]) {
            let k = key(out[i]);
            lemma_sorted_keeps_rank_groups(entries, k);
            lemma_two_in_group(out, k, i, j);
            lemma_group_of_distinct(entries, k);
        }
    }
}

/// Two entries of one rank make a group of at least two.
proof fn lemma_two_in_group(entries: Seq<RankedEntry>, k: int, i: int, j: int)
    requires
        0 <= i < j < entries.len(),
        key(entries[i]) == k,
        key(entries[j]) == k,
    ensures
        with_key(entries, k).len() >= 2,
    decreases entries.len(),
{
    let pred = |x: RankedEntry| key(x) == k;
    let rest = entries.drop_last();
    assert(entries == rest.push(entries.last()));
    rest.lemma_filter_push(entries.last(), pred);
    if j == entries.len() - 1 {
        assert(rest[i] == entries[i]);
        rest.lemma_filter_contains(pred, i);
        assert(rest.filter(pred).len() >= 1);
    } else {
        assert(rest[i] == entries[i] && rest[j] == entries[j]);
        lemma_two_in_group(rest, k, i, j);
    }
}

/// Among entries of pairwise different ranks no rank has two entries.
proof fn lemma_group_of_distinct(entries: Seq<RankedEntry>, k: int)
    requires
        distinct_ranks(entries),
    ensures
        with_key(entries, k).len() <= 1,
    decreases entries.len(),
{
    let pred = |x: RankedEntry| key(x) == k;
    if entries.len() == 0 {
        entries.lemma_filter_len(pred);
    } else {
        let rest = entries.drop_last();
        let e = entries.last();
        assert(entries == rest.push(e));
        rest.lemma_filter_push(e, pred);
        assert forall|i: int, j: int| 0 <= i < j < rest.len() implies key(#[trigger] rest[i])
            != key(#[trigger] rest[j]) by {
            assert(rest[i] == entries[i] && rest[j] == entries[j]);
        }
        lemma_group_of_distinct(rest, k);
        if key(e) == k {
            assert forall|t: int| 0 <= t < rest.len() implies !pred(#[trigger] rest[t]) by {
                assert(rest[t] == entries[t]);
                assert(key(entries[t]) != key(entries[entries.len() - 1]));
            }
            assert(rest.all(|x: RankedEntry| !pred(x)));
            rest.lemma_all_neg_filter_empty(pred);
        }
    }
}

/// The cutoff keeps ranks pairwise different where they were so.
pub proof fn lemma_cutoff_keeps_distinct(entries: Seq<RankedEntry>, min_rank: u64)
    requires
        distinct_ranks(entries),
    ensures
        distinct_ranks(above(entries, min_rank)),
    decreases entries.len(),
{
    let pred = |e: RankedEntry| exceeds(e.rank, min_rank);
    if entries.len() == 0 {
        entries.lemma_filter_len(pred);
    } else {
        let rest = entries.drop_last();
        let e = entries.last();
        assert(entries == rest.push(e));
        rest.lemma_filter_push(e, pred);
        assert forall|i: int, j: int| 0 <= i < j < rest.len() implies key(#[trigger] rest[i])
            != key(#[trigger] rest[j]) by {
            assert(rest[i] == entries[i] && rest[j] == entries[j]);
        }
        lemma_cutoff_keeps_distinct(rest, min_rank);
        let kept = rest.filter(pred);
        if pred(e) {
            let out = kept.push(e);
            assert forall|i: int, j: int| 0 <= i < j < out.len() implies key(#[trigger] out[i])
                != key(#[trigger] out[j]) by {
                if j == out.len() - 1 {
                    assert(kept.contains(kept[i]));
                    rest.lemma_filter_contains_rev(pred, kept[i]);
                    let w = choose|w: int| 0 <= w < rest.len() && rest[w] == kept[i];
                    assert(entries[w] == rest[w]);
                    assert(key(entries[w]) != key(entries[entries.len() - 1]));
                } else {
                    assert(out[i] == kept[i] && out[j] == kept[j]);
                }
            }
        }
    }
}

/// Entries of pairwise different ranks are ranked strictly descending, with
/// or without a threshold.
pub proof fn lemma_distinct_ranks_ranked_strictly(entries: Seq<RankedEntry>, min_rank: Option<u64>)
    requires
        distinct_ranks(entries),
    ensures
        is_strictly_descending(ranked_of(entries, min_rank)),
{
    match min_rank {
        Some(m) => {
            lemma_cutoff_keeps_distinct(entries, m);
            lemma_distinct_ranks_sort_strictly(above(entries, m));
        },
        None => {
            lemma_distinct_ranks_sort_strictly(entries);
        },
    }
}

/// Every ranked entry exceeds the threshold, where there is one.
pub proof fn lemma_ranked_exceed_threshold(entries: Seq<RankedEntry>, min_rank: u64, i: int)
    requires
        0 <= i < ranked_of(entries, Some(min_rank)).len(),
    ensures
        exceeds(ranked_of(entries, Some(min_rank))[i].rank, min_rank),
        entries.contains(ranked_of(entries, Some(min_rank))[i]),
{
    let pred = |e: RankedEntry| exceeds(e.rank, min_rank);
    let kept = above(entries, min_rank);
    let e = sorted_by_rank(kept)[i];
    lemma_sorted_entries_are_given(kept, i);
    let w = choose|w: int| 0 <= w < kept.len() && kept[w] == e;
    entries.lemma_filter_pred(pred, w);
    entries.lemma_filter_contains_rev(pred, e);
}

/// The descending stable order is the only one: entries in descending
/// order that hold, for every rank, the same entries of that rank in the same
/// order as `sorted` does, where `sorted` is descending too, are `sorted`.
pub proof fn lemma_stable_descending_is_unique(sorted: Seq<RankedEntry>, other: Seq<RankedEntry>)
    requires
        is_descending(sorted),
        is_descending(other),
        forall|k: int| #[trigger] with_key(sorted, k) == with_key(other, k),
    ensures
        sorted == other,
    decreases sorted.len(),
{
    if sorted.len() == 0 {
        if other.len() > 0 {
            let k = key(other[0]);
            other.lemma_filter_contains(|x: RankedEntry| key(x) == k, 0);
            assert(with_key(sorted, k) == with_key(other, k));
            sorted.lemma_filter_len(|x: RankedEntry| key(x) == k);
        }
        assert(sorted =~= other);
    } else {
        let x = sorted.last();
        let k = key(x);
        let pred = |e: RankedEntry| key(e) == k;
        let front = sorted.drop_last();
        assert(sorted == front.push(x));
        front.lemma_filter_push(x, pred);
        assert(with_key(sorted, k) == with_key(other, k));
        assert(with_key(other, k).len() > 0);
        other.lemma_filter_len(pred);
        let y = other.last();
        let back = other.drop_last();
        assert(other == back.push(y));
        let ky = key(y);
        let pred_y = |e: RankedEntry| key(e) == ky;
        back.lemma_filter_push(y, pred_y);
        assert(with_key(sorted, ky) == with_key(other, ky));
        // the last of `other` has a rank that occurs in `sorted`, so none below `k`
        let gy = with_key(sorted, ky);
        assert(gy.contains(gy[gy.len() - 1]));
        sorted.lemma_filter_contains_rev(pred_y, gy[gy.len() - 1]);
        sorted.lemma_filter_pred(pred_y, gy.len() - 1);
        let ws = choose|w: int| 0 <= w < sorted.len() && sorted[w] == gy[gy.len() - 1];
        assert(key(sorted[ws]) >= key(sorted[sorted.len() - 1]) || ws == sorted.len() - 1);
        // and `k` occurs in `other`, so the last of `other` is not above `k`
        let gx = with_key(other, k);
        assert(gx.contains(gx[gx.len() - 1]));
        other.lemma_filter_contains_rev(pred, gx[gx.len() - 1]);
        other.lemma_filter_pred(pred, gx.len() - 1);
        let wo = choose|w: int| 0 <= w < other.len() && other[w] == gx[gx.len() - 1];
        assert(key(other[wo]) >= key(other[other.len() - 1]) || wo == other.len() - 1);
        assert(ky == k);
        back.lemma_filter_push(y, pred);
        assert(with_key(sorted, k).last() == x);
        assert(with_key(other, k).last() == y);
        assert(x == y);
        assert forall|q: int| #[trigger] with_key(front, q) == with_key(back, q) by {
            let pred_q = |e: RankedEntry| key(e) == q;
            front.lemma_filter_push(x, pred_q);
            back.lemma_filter_push(y, pred_q);
            assert(with_key(sorted, q) == with_key(other, q));
            if q == k {
                assert(with_key(front, q) == with_key(sorted, q).drop_last());
                assert(with_key(back, q) == with_key(other, q).drop_last());
            }
        }
        assert forall|i: int, j: int| 0 <= i < j < front.len() implies key(#[trigger] front[i])
            >= key(#[trigger] front[j]) by {
            assert(front[i] == sorted[i] && front[j] == sorted[j]);
        }
        assert forall|i: int, j: int| 0 <= i < j < back.len() implies key(#[trigger] back[i])
            >= key(#[trigger] back[j]) by {
            assert(back[i] == other[i] && back[j] == other[j]);
        }
        lemma_stable_descending_is_unique(front, back);
    }
}

/// What `sort_descending` returns is told apart from every other
/// arrangement by two facts: it is descending, and it keeps the entries of
/// each rank in the order in which they came.
pub proof fn lemma_sorted_is_the_stable_descending(
    entries: Seq<RankedEntry>,
    other: Seq<RankedEntry>,
)
    requires
        is_descending(other),
        forall|k: int| #[trigger] with_key(other, k) == with_key(entries, k),
    ensures
        other == sorted_by_rank(entries),
{
    lemma_sorted_is_descending(entries);
    assert forall|k: int| #[trigger] with_key(sorted_by_rank(entries), k) == with_key(
        other,
        k,
    ) by {
        lemma_sorted_keeps_rank_groups(entries, k);
    }
    lemma_stable_descending_is_unique(sorted_by_rank(entries), other);
}

} // verus!
