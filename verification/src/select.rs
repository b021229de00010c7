//! The extremum selector: the summary with the smallest cost. Ties are
//! resolved to the earliest summary in the given order, so the result is
//! deterministic; the aggregator emits summaries in order of first
//! appearance, which makes the tie-break "earliest first-seen date".

use vstd::prelude::*;
use crate::errors::Error;
use crate::record::DailySummary;
use crate::record::SummaryV;
use crate::record::sums_view;

verus! {

/// `m` is the first summary of minimum cost in `sv`: it occurs at an index
/// before which every cost is strictly larger, and no cost anywhere in `sv`
/// is smaller than its own.
pub open spec fn is_first_minimum(sv: Seq<SummaryV>, m: SummaryV) -> bool {
    &&& exists|i: int|
        0 <= i < sv.len() && #[trigger] sv[i] == m && (forall|k: int|
            0 <= k < i ==> (#[trigger] sv[k]).cost > m.cost)
    &&& forall|k: int| 0 <= k < sv.len() ==> m.cost <= (#[trigger] sv[k]).cost
}

/// Returns the summary with the strictly smallest cost, the earliest on a
/// tie; selecting from no summaries at all fails with `EmptyInput`.
pub fn select_minimum_cost(summaries: &Vec<DailySummary>) -> (r: Result<DailySummary, Error>)
    ensures
        r is Ok <==> summaries@.len() > 0,
        r matches Ok(m) ==> is_first_minimum(sums_view(summaries@), m@),
        r matches Err(e) ==> e is EmptyInput,
{
    if summaries.len() == 0 {
        return Err(Error::EmptyInput);
    }
    let ghost sv = sums_view(summaries@);
    let mut best: usize = 0;
    let mut i: usize = 1;
    while i < summaries.len()
        invariant
            sv == sums_view(summaries@),
            sv.len() == summaries@.len(),
            0 < i <= summaries@.len(),
            best < i,
            forall|k: int| 0 <= k < i ==> sv[best as int].cost <= (#[trigger] sv[k]).cost,
            forall|k: int| 0 <= k < best ==> (#[trigger] sv[k]).cost > sv[best as int].cost,
        decreases summaries@.len() - i,
    {
        if summaries[i].cost < summaries[best].cost {
            best = i;
        }
        i = i + 1;
    }
    let m = summaries[best].duplicate();
    proof {
        assert(sv[best as int] == m@);
        assert(0 <= best < sv.len() && sv[best as int] == m@ && (forall|k: int|
            0 <= k < best ==> (#[trigger] sv[k]).cost > m@.cost));
    }
    Ok(m)
}

} // verus!
