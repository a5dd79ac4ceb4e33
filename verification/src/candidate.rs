//! Candidates of the catalog and the choice of the eligible ones.

use vstd::prelude::*;
use vstd::string::StringExecFns;

verus! {

/// One entry of the source catalog.
#[derive(Debug)]
pub struct Candidate {
    /// Where the mirror is reached.
    pub base_url: String,
    /// The transport it is served over, such as `https`.
    pub transport_protocol: String,
    /// The published quality score, as the pattern of a real number; lower
    /// is better. Absent where the provider published none.
    pub prior_score: Option<u64>,
    /// Whether the mirror is reachable over IPv4.
    pub supports_ipv4: bool,
    /// Whether the provider lists the mirror as active.
    pub is_active: bool,
}

/// A candidate may be ranked only if it is served over https, reachable over
/// IPv4, active, and has a published score.
pub open spec fn eligible(c: Candidate) -> bool {
    &&& c.transport_protocol@ == "https"@
    &&& c.supports_ipv4
    &&& c.is_active
    &&& c.prior_score is Some
}

/// The eligible candidates of a catalog, in the catalog's order.
pub open spec fn eligible_of(catalog: Seq<Candidate>) -> Seq<Candidate> {
    catalog.filter(|c: Candidate| eligible(c))
}

impl Candidate {
    /// Tells whether the candidate may be ranked.
    pub fn is_eligible(&self) -> (r: bool)
        ensures
            r == eligible(*self),
    {
        let https = String::from_str("https");
        self.transport_protocol == https && self.supports_ipv4 && self.is_active
            && self.prior_score.is_some()
    }

    /// A copy of the candidate, field for field.
    pub fn duplicate(&self) -> (c: Candidate)
        ensures
            c == *self,
    {
        Candidate {
            base_url: self.base_url.clone(),
            transport_protocol: self.transport_protocol.clone(),
            prior_score: self.prior_score,
            supports_ipv4: self.supports_ipv4,
            is_active: self.is_active,
        }
    }
}

/// Keeps the eligible candidates of `catalog`, in the order of the catalog.
/// An empty result is a valid one.
pub fn filter(catalog: &Vec<Candidate>) -> (kept: Vec<Candidate>)
    ensures
        kept@ == eligible_of(catalog@),
{
    let mut kept: Vec<Candidate> = Vec::new();
    let mut i: usize = 0;
    while i < catalog.len()
        invariant
            i <= catalog.len(),
            kept@ == eligible_of(catalog@.take(i as int)),
        decreases catalog.len() - i,
    {
        proof {
            assert(catalog@.take(i as int + 1) == catalog@.take(i as int).push(catalog@[i as int]));
            catalog@.take(i as int).lemma_filter_push(catalog@[i as int], |c: Candidate| eligible(c));
        }
        if catalog[i].is_eligible() {
            kept.push(catalog[i].duplicate());
        }
        i += 1;
    }
    proof {
        assert(catalog@.take(catalog.len() as int) == catalog@);
    }
    kept
}

/// The positions of the eligible candidates in a catalog, in rising order.
pub open spec fn eligible_positions(catalog: Seq<Candidate>) -> Seq<int>
    decreases catalog.len(),
{
    if catalog.len() == 0 {
        Seq::empty()
    } else {
        let before = eligible_positions(catalog.drop_last());
        if eligible(catalog.last()) {
            before.push(catalog.len() - 1)
        } else {
            before
        }
    }
}

/// What `filter` keeps is a part of the catalog in the catalog's order: its
/// items are the catalog's items at strictly rising positions, and these are
/// the positions of all eligible candidates.
pub proof fn lemma_filter_keeps_order(catalog: Seq<Candidate>)
    ensures
        eligible_of(catalog).len() == eligible_positions(catalog).len(),
        forall|i: int|
            0 <= i < eligible_positions(catalog).len() ==> {
                &&& 0 <= #[trigger] eligible_positions(catalog)[i] < catalog.len()
                &&& eligible_of(catalog)[i] == catalog[eligible_positions(catalog)[i]]
            },
        forall|i: int, j: int|
            0 <= i < j < eligible_positions(catalog).len() ==> #[trigger] eligible_positions(
                catalog,
            )[i] < #[trigger] eligible_positions(catalog)[j],
        forall|p: int|
            0 <= p < catalog.len() && eligible(catalog[p]) ==> eligible_positions(
                catalog,
            ).contains(p),
    decreases catalog.len(),
{
    if catalog.len() == 0 {
        reveal(Seq::filter);
    } else {
        let front = catalog.drop_last();
        lemma_filter_keeps_order(front);
        assert(catalog == front.push(catalog.last()));
        front.lemma_filter_push(catalog.last(), |c: Candidate| eligible(c));
        let at = eligible_positions(catalog);
        let before = eligible_positions(front);
        assert forall|p: int| 0 <= p < catalog.len() && eligible(catalog[p]) implies at.contains(
            p,
        ) by {
            if p < front.len() {
                assert(front[p] == catalog[p]);
                assert(before.contains(p));
                let w = choose|w: int| 0 <= w < before.len() && before[w] == p;
                assert(at[w] == p);
            } else {
                assert(at[at.len() - 1] == p);
            }
        }
    }
}

/// Every candidate that `filter` keeps is eligible.
pub proof fn lemma_filter_keeps_eligible(catalog: Seq<Candidate>, i: int)
    requires
        0 <= i < eligible_of(catalog).len(),
    ensures
        eligible(eligible_of(catalog)[i]),
{
    catalog.lemma_filter_pred(|c: Candidate| eligible(c), i);
}

/// A catalog of eligible candidates only is kept whole.
pub proof fn lemma_filter_keeps_all_eligible(catalog: Seq<Candidate>)
    requires
        forall|i: int| 0 <= i < catalog.len() ==> eligible(#[trigger] catalog[i]),
    ensures
        eligible_of(catalog) == catalog,
    decreases catalog.len(),
{
    if catalog.len() == 0 {
        reveal(Seq::filter);
    } else {
        let front = catalog.drop_last();
        lemma_filter_keeps_all_eligible(front);
        assert(catalog == front.push(catalog.last()));
        front.lemma_filter_push(catalog.last(), |c: Candidate| eligible(c));
    }
}

/// Filtering twice keeps what filtering once keeps.
pub proof fn lemma_filter_idempotent(catalog: Seq<Candidate>)
    ensures
        eligible_of(eligible_of(catalog)) == eligible_of(catalog),
{
    let kept = eligible_of(catalog);
    assert forall|i: int| 0 <= i < kept.len() implies eligible(#[trigger] kept[i]) by {
        lemma_filter_keeps_eligible(catalog, i);
    }
    lemma_filter_keeps_all_eligible(kept);
}

} // verus!
