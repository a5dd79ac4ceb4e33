//! The ranked entries as lines of output.

use vstd::prelude::*;
use crate::ranker::RankedEntry;

verus! {

/// The rendered addresses of the entries, in the entries' order.
pub open spec fn lines_of(entries: Seq<RankedEntry>) -> Seq<String> {
    entries.map_values(|e: RankedEntry| e.rendered_url)
}

/// One line for each entry, in the entries' order: the entry's rendered
/// address as it stands. Nothing is reordered and nothing is left out.
pub fn render(entries: &Vec<RankedEntry>) -> (lines: Vec<String>)
    ensures
        lines@ == lines_of(entries@),
{
    let mut lines: Vec<String> = Vec::new();
    let mut i: usize = 0;
    while i < entries.len()
        invariant
            i <= entries.len(),
            lines@.len() == i,
            forall|t: int| 0 <= t < i ==> #[trigger] lines@[t] == entries@[t].rendered_url,
        decreases entries.len() - i,
    {
        lines.push(entries[i].rendered_url.clone());
        i += 1;
    }
    proof {
        assert(lines@ =~= lines_of(entries@));
    }
    lines
}

} // verus!
