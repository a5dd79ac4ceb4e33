//! From candidates and probe outcomes to ranked entries.
//!
//! The rank itself is a formula on real numbers, which the caller supplies as
//! a function on their patterns. This module decides which candidates are
//! scored, what is handed to the formula, and what line each entry carries.

use vstd::prelude::*;
use vstd::string::StringExecFns;
use crate::candidate::Candidate;
use crate::probe::ProbeOutcome;
use crate::rank_value::is_zero;
use crate::ranker::RankedEntry;

verus! {

/// The line for the mirror at `base_url` in a mirror list.
pub open spec fn line_of(base_url: Seq<char>) -> Seq<char> {
    "Server = "@ + base_url + "$repo/os/$arch"@
}

/// The outcomes of the probes that succeeded, in their order.
pub open spec fn successes(outcomes: Seq<ProbeOutcome>) -> Seq<ProbeOutcome> {
    outcomes.filter(|o: ProbeOutcome| o.succeeded())
}

/// Every probed candidate that is to be scored has a prior score, and the
/// scoring function accepts it with its measurement.
pub open spec fn scorable<F: Fn(u64, u128) -> u64>(outcomes: Seq<ProbeOutcome>, score: F) -> bool {
    forall|i: int|
        0 <= i < outcomes.len() && (#[trigger] outcomes[i]).succeeded() ==> {
            &&& outcomes[i].candidate.prior_score is Some
            &&& call_requires(
                score,
                (outcomes[i].candidate.prior_score->0, outcomes[i].elapsed_millis->0),
            )
        }
}

/// `entry` is what scoring makes of the successful outcome `o`: the
/// candidate's line, with a rank that the scoring function gave for its
/// prior score and its measurement.
pub open spec fn scored_from<F: Fn(u64, u128) -> u64>(
    entry: RankedEntry,
    o: ProbeOutcome,
    score: F,
) -> bool {
    &&& entry.rendered_url@ == line_of(o.candidate.base_url@)
    &&& call_ensures(score, (o.candidate.prior_score->0, o.elapsed_millis->0), entry.rank)
}

/// `entry` is what fast scoring makes of the candidate `c`: its bare
/// address, with a rank that the scoring function gave for its prior score.
pub open spec fn fast_scored_from<F: Fn(u64) -> u64>(
    entry: RankedEntry,
    c: Candidate,
    score: F,
) -> bool {
    &&& entry.rendered_url@ == c.base_url@
    &&& call_ensures(score, (c.prior_score->0,), entry.rank)
}

/// `entries` are what scoring makes of `outcomes`: one entry for each probe
/// that succeeded, in the outcomes' order, and none for a probe that failed.
pub open spec fn scored_all<F: Fn(u64, u128) -> u64>(
    entries: Seq<RankedEntry>,
    outcomes: Seq<ProbeOutcome>,
    score: F,
) -> bool {
    &&& entries.len() == successes(outcomes).len()
    &&& forall|t: int|
        0 <= t < entries.len() ==> scored_from(#[trigger] entries[t], successes(outcomes)[t], score)
}

/// `entries` are what fast scoring makes of `candidates`: one entry for each
/// candidate, in the candidates' order.
pub open spec fn fast_scored_all<F: Fn(u64) -> u64>(
    entries: Seq<RankedEntry>,
    candidates: Seq<Candidate>,
    score: F,
) -> bool {
    &&& entries.len() == candidates.len()
    &&& forall|i: int|
        0 <= i < entries.len() ==> fast_scored_from(#[trigger] entries[i], candidates[i], score)
}

/// Every candidate has a prior score other than zero, and the scoring
/// function accepts it.
pub open spec fn fast_scorable<F: Fn(u64) -> u64>(candidates: Seq<Candidate>, score: F) -> bool {
    forall|i: int|
        0 <= i < candidates.len() ==> {
            &&& (#[trigger] candidates[i]).prior_score is Some
            &&& !is_zero(candidates[i].prior_score->0)
            &&& call_requires(score, (candidates[i].prior_score->0,))
        }
}

/// Builds the line for the mirror at `base_url`.
pub fn rendered_line(base_url: &String) -> (line: String)
    ensures
        line@ == line_of(base_url@),
{
    let mut line = String::from_str("Server = ");
    line.append(base_url.as_str());
    line.append("$repo/os/$arch");
    line
}

/// Scores the probes that succeeded: one entry for each of them, in the
/// outcomes' order, and none for a probe that failed. `score` is called once
/// for each entry, with the candidate's prior score and the measurement.
pub fn score_outcomes<F: Fn(u64, u128) -> u64>(outcomes: &Vec<ProbeOutcome>, score: F) -> (entries:
    Vec<RankedEntry>)
    requires
        scorable(outcomes@, score),
    ensures
        scored_all(entries@, outcomes@, score),
{
    let mut entries: Vec<RankedEntry> = Vec::new();
    let mut i: usize = 0;
    while i < outcomes.len()
        invariant
            i <= outcomes.len(),
            scorable(outcomes@, score),
            scored_all(entries@, outcomes@.take(i as int), score),
        decreases outcomes.len() - i,
    {
        proof {
            assert(outcomes@.take(i as int + 1) == outcomes@.take(i as int).push(
                outcomes@[i as int],
            ));
            outcomes@.take(i as int).lemma_filter_push(
                outcomes@[i as int],
                |o: ProbeOutcome| o.succeeded(),
            );
        }
        let o = &outcomes[i];
        match (o.elapsed_millis, o.candidate.prior_score) {
            (Some(millis), Some(prior)) => {
                let rank: u64 = score(prior, millis);
                entries.push(
                    RankedEntry { rendered_url: rendered_line(&o.candidate.base_url), rank },
                );
            },
            _ => {},
        }
        i += 1;
    }
    proof {
        assert(outcomes@.take(outcomes.len() as int) == outcomes@);
    }
    entries
}

/// Scores every candidate without probing: one entry for each of them, in
/// their order. `score` is called once for each, with the prior score.
pub fn score_fast<F: Fn(u64) -> u64>(candidates: &Vec<Candidate>, score: F) -> (entries: Vec<
    RankedEntry,
>)
    requires
        fast_scorable(candidates@, score),
    ensures
        fast_scored_all(entries@, candidates@, score),
{
    let mut entries: Vec<RankedEntry> = Vec::new();
    let mut i: usize = 0;
    while i < candidates.len()
        invariant
            i <= candidates.len(),
            entries@.len() == i,
            fast_scorable(candidates@, score),
            forall|t: int|
                0 <= t < i ==> fast_scored_from(#[trigger] entries@[t], candidates@[t], score),
        decreases candidates.len() - i,
    {
        let c = &candidates[i];
        match c.prior_score {
            Some(prior) => {
                let rank: u64 = score(prior);
                entries.push(RankedEntry { rendered_url: c.base_url.clone(), rank });
            },
            None => {},
        }
        i += 1;
    }
    entries
}

} // verus!
