//! What is probed, and how the measurements are matched to the candidates.

use vstd::prelude::*;
use vstd::string::StringExecFns;
use crate::candidate::Candidate;

verus! {

/// Seconds that a probe may take to establish its connection, by default.
pub const DEFAULT_CONNECT_TIMEOUT_SECS: u64 = 15;

/// The small file that every healthy mirror serves, relative to its base.
pub open spec fn probe_path() -> Seq<char> {
    "core/os/x86_64/core.db.tar.gz"@
}

/// The address that is fetched to probe the mirror at `base_url`.
pub open spec fn target_of(base_url: Seq<char>) -> Seq<char> {
    base_url + probe_path()
}

/// The result of one latency measurement.
#[derive(Debug)]
pub struct ProbeOutcome {
    /// The candidate that was probed.
    pub candidate: Candidate,
    /// Milliseconds from the start of the request to the whole response;
    /// absent where the probe failed or timed out.
    pub elapsed_millis: Option<u128>,
}

impl ProbeOutcome {
    /// A probe succeeded if and only if it has a measurement.
    pub open spec fn succeeded(self) -> bool {
        self.elapsed_millis is Some
    }

    /// Tells whether the probe succeeded.
    pub fn has_succeeded(&self) -> (r: bool)
        ensures
            r == self.succeeded(),
    {
        self.elapsed_millis.is_some()
    }

    /// A copy of the outcome, field for field.
    pub fn duplicate(&self) -> (o: ProbeOutcome)
        ensures
            o == *self,
    {
        ProbeOutcome { candidate: self.candidate.duplicate(), elapsed_millis: self.elapsed_millis }
    }
}

/// Builds the address to fetch for the mirror at `base_url`.
pub fn probe_target(base_url: &String) -> (target: String)
    ensures
        target@ == target_of(base_url@),
{
    let mut target = base_url.clone();
    target.append("core/os/x86_64/core.db.tar.gz");
    target
}

/// Builds the addresses to fetch, one for each candidate and in the
/// candidates' order.
pub fn probe_targets(candidates: &Vec<Candidate>) -> (targets: Vec<String>)
    ensures
        targets@.len() == candidates@.len(),
        forall|i: int|
            0 <= i < candidates@.len() ==> (#[trigger] targets@[i])@ == target_of(
                candidates@[i].base_url@,
            ),
{
    let mut targets: Vec<String> = Vec::new();
    let mut i: usize = 0;
    while i < candidates.len()
        invariant
            i <= candidates.len(),
            targets@.len() == i,
            forall|t: int|
                0 <= t < i ==> (#[trigger] targets@[t])@ == target_of(candidates@[t].base_url@),
        decreases candidates.len() - i,
    {
        targets.push(probe_target(&candidates[i].base_url));
        i += 1;
    }
    targets
}

/// Matches the measurements to the candidates they were taken of, place by
/// place: the outcome at a place describes the candidate at that place,
/// whichever probe finished first. There is an outcome for every candidate,
/// or none at all where the two lengths differ.
pub fn collect_outcomes(candidates: &Vec<Candidate>, elapsed: &Vec<Option<u128>>) -> (outcomes:
    Option<Vec<ProbeOutcome>>)
    ensures
        outcomes is Some <==> candidates@.len() == elapsed@.len(),
        outcomes is Some ==> {
            &&& outcomes->0@.len() == candidates@.len()
            &&& forall|i: int|
                0 <= i < candidates@.len() ==> {
                    &&& (#[trigger] outcomes->0@[i]).candidate == candidates@[i]
                    &&& outcomes->0@[i].elapsed_millis == elapsed@[i]
                }
        },
{
    if candidates.len() != elapsed.len() {
        return None;
    }
    let mut outcomes: Vec<ProbeOutcome> = Vec::new();
    let mut i: usize = 0;
    while i < candidates.len()
        invariant
            i <= candidates.len(),
            candidates@.len() == elapsed@.len(),
            outcomes@.len() == i,
            forall|t: int|
                0 <= t < i ==> {
                    &&& (#[trigger] outcomes@[t]).candidate == candidates@[t]
                    &&& outcomes@[t].elapsed_millis == elapsed@[t]
                },
        decreases candidates.len() - i,
    {
        outcomes.push(
            ProbeOutcome { candidate: candidates[i].duplicate(), elapsed_millis: elapsed[i] },
        );
        i += 1;
    }
    Some(outcomes)
}

} // verus!
