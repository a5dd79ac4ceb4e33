//! The whole way from candidates to lines of output, for both modes.

use vstd::prelude::*;
use crate::candidate::{
    eligible, eligible_of, eligible_positions, filter, lemma_filter_keeps_order, Candidate,
};
use crate::probe::ProbeOutcome;
use crate::rank_value::{exceeds, is_zero};
use crate::ranker::{
    all_numbers, all_ranks_are_numbers, lemma_ranked_exceed_threshold,
    lemma_sorted_entries_are_given, rank, ranked_of, sorted_by_rank, RankedEntry,
};
use crate::render::{lines_of, render};
use crate::scoring::{
    fast_scored_all, fast_scored_from, scorable, score_fast, score_outcomes, scored_all,
    scored_from, successes,
};

verus! {

/// The mirror list after probing: the probes that succeeded are scored, the
/// entries whose rank exceeds `min_rank` are kept, and their lines are given
/// in descending stable order of rank. A probe that failed leaves no line.
pub fn probed_lines<F: Fn(u64, u128) -> u64>(
    outcomes: &Vec<ProbeOutcome>,
    score: F,
    min_rank: u64,
) -> (lines: Vec<String>)
    requires
        scorable(outcomes@, score),
    ensures
        exists|entries: Seq<RankedEntry>|
            #[trigger] scored_all(entries, outcomes@, score) && lines@ == lines_of(
                ranked_of(entries, Some(min_rank)),
            ),
{
    let entries = score_outcomes(outcomes, score);
    let ranked = rank(&entries, Some(min_rank));
    render(&ranked)
}

/// The mirror list without probing: the eligible candidates of the catalog
/// are scored by their prior score alone, and their addresses are given in
/// descending stable order of rank, with no threshold. A prior score of zero
/// has no rank and must not be handed in. There is no list where a rank came
/// out as no number.
pub fn fast_lines<F: Fn(u64) -> u64>(catalog: &Vec<Candidate>, score: F) -> (lines: Option<
    Vec<String>,
>)
    requires
        forall|i: int|
            0 <= i < catalog@.len() && eligible(#[trigger] catalog@[i]) ==> {
                &&& !is_zero(catalog@[i].prior_score->0)
                &&& call_requires(score, (catalog@[i].prior_score->0,))
            },
    ensures
        exists|entries: Seq<RankedEntry>|
            {
                &&& #[trigger] fast_scored_all(entries, eligible_of(catalog@), score)
                &&& lines is Some <==> all_numbers(entries)
                &&& lines is Some ==> lines->0@ == lines_of(sorted_by_rank(entries))
            },
{
    let candidates = filter(catalog);
    proof {
        lemma_filter_keeps_order(catalog@);
        assert forall|i: int| 0 <= i < candidates@.len() implies {
            &&& (#[trigger] candidates@[i]).prior_score is Some
            &&& !is_zero(candidates@[i].prior_score->0)
            &&& call_requires(score, (candidates@[i].prior_score->0,))
        } by {
            catalog@.lemma_filter_pred(|c: Candidate| eligible(c), i);
            let p = eligible_positions(catalog@)[i];
            assert(candidates@[i] == catalog@[p]);
        }
    }
    let entries = score_fast(&candidates, score);
    if all_ranks_are_numbers(&entries) {
        let ranked = rank(&entries, None);
        Some(render(&ranked))
    } else {
        None
    }
}

/// A probe that failed leaves no line: every ranked entry was scored from
/// an outcome that succeeded, and its rank exceeds the threshold.
pub proof fn lemma_ranked_come_from_successes<F: Fn(u64, u128) -> u64>(
    entries: Seq<RankedEntry>,
    outcomes: Seq<ProbeOutcome>,
    score: F,
    min_rank: u64,
    i: int,
)
    requires
        scored_all(entries, outcomes, score),
        0 <= i < ranked_of(entries, Some(min_rank)).len(),
    ensures
        exceeds(ranked_of(entries, Some(min_rank))[i].rank, min_rank),
        exists|t: int|
            0 <= t < outcomes.len() && outcomes[t].succeeded() && #[trigger] scored_from(
                ranked_of(entries, Some(min_rank))[i],
                outcomes[t],
                score,
            ),
{
    let r = ranked_of(entries, Some(min_rank))[i];
    lemma_ranked_exceed_threshold(entries, min_rank, i);
    let w = choose|w: int| 0 <= w < entries.len() && entries[w] == r;
    let ok = successes(outcomes);
    let pred = |o: ProbeOutcome| o.succeeded();
    assert(scored_from(entries[w], ok[w], score));
    outcomes.lemma_filter_pred(pred, w);
    assert(ok.contains(ok[w]));
    outcomes.lemma_filter_contains_rev(pred, ok[w]);
    let t = choose|t: int| 0 <= t < outcomes.len() && outcomes[t] == ok[w];
    assert(scored_from(r, outcomes[t], score));
}

/// Only eligible candidates reach the output of the fast mode: every ranked
/// entry was scored from an eligible candidate of the catalog.
pub proof fn lemma_fast_ranked_come_from_eligible<F: Fn(u64) -> u64>(
    entries: Seq<RankedEntry>,
    catalog: Seq<Candidate>,
    score: F,
    i: int,
)
    requires
        fast_scored_all(entries, eligible_of(catalog), score),
        0 <= i < sorted_by_rank(entries).len(),
    ensures
        exists|t: int|
            0 <= t < catalog.len() && eligible(catalog[t]) && #[trigger] fast_scored_from(
                sorted_by_rank(entries)[i],
                catalog[t],
                score,
            ),
{
    let r = sorted_by_rank(entries)[i];
    lemma_sorted_entries_are_given(entries, i);
    let w = choose|w: int| 0 <= w < entries.len() && entries[w] == r;
    let kept = eligible_of(catalog);
    let pred = |c: Candidate| eligible(c);
    assert(fast_scored_from(entries[w], kept[w], score));
    catalog.lemma_filter_pred(pred, w);
    assert(kept.contains(kept[w]));
    catalog.lemma_filter_contains_rev(pred, kept[w]);
    let t = choose|t: int| 0 <= t < catalog.len() && catalog[t] == kept[w];
    assert(fast_scored_from(r, catalog[t], score));
}

} // verus!
