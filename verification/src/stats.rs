//! Summary figures derived from the totals of a sampling run.

use vstd::prelude::*;
use crate::sampling::Totals;

verus! {

/// Why no summary can be given.
#[derive(Debug, PartialEq, Eq, Structural, Clone, Copy)]
pub enum StatsError {
    /// No pair was tried, so there is nothing to take a share of.
    NoIterations,
}

/// A fraction of two whole numbers, kept exact. The denominator of a
/// fraction in a summary is never 0.
#[derive(Debug, PartialEq, Eq, Structural, Clone, Copy)]
pub struct Ratio {
    pub numerator: u128,
    pub denominator: u128,
}

/// The summary of a sampling run.
#[derive(Debug, PartialEq, Eq, Structural, Clone, Copy)]
pub struct Summary {
    /// The pairs whose target could be reached.
    pub pairs_found: u32,
    /// The share of such pairs among all pairs tried, in percent.
    pub percent_connected: Ratio,
    /// The mean of the distances found; `None` where no pair was found.
    pub average_distance: Option<Ratio>,
    /// The greatest distance found.
    pub longest_distance: usize,
}

/// The summary that belongs to totals with at least one pair tried.
pub open spec fn summary_of(totals: Totals) -> Summary {
    Summary {
        pairs_found: totals.pairs_found,
        percent_connected: Ratio {
            numerator: (100 * totals.pairs_found) as u128,
            denominator: totals.attempted as u128,
        },
        average_distance: if totals.pairs_found == 0 {
            None
        } else {
            Some(Ratio { numerator: totals.distance_sum, denominator: totals.pairs_found as u128 })
        },
        longest_distance: totals.longest,
    }
}

/// The value of a fraction lies between `low` and `high`, both included.
pub open spec fn ratio_within(r: Ratio, low: int, high: int) -> bool {
    &&& r.denominator > 0
    &&& low * r.denominator <= r.numerator
    &&& r.numerator <= high * r.denominator
}

/// The summary of a run: the share of connected pairs in percent, the mean
/// distance and the greatest distance. Totals with no pair tried are
/// rejected; with no pair found the mean is left out.
pub fn summarize(totals: &Totals) -> (result: Result<Summary, StatsError>)
    requires
        totals.wf(),
    ensures
        result == if totals.attempted == 0 {
            Err::<Summary, StatsError>(StatsError::NoIterations)
        } else {
            Ok::<Summary, StatsError>(summary_of(*totals))
        },
        result is Ok ==> ratio_within(result->Ok_0.percent_connected, 0, 100),
        result is Ok && result->Ok_0.average_distance is Some ==> ratio_within(
            result->Ok_0.average_distance->0,
            0,
            totals.longest as int,
        ),
{
    if totals.attempted == 0 {
        return Err(StatsError::NoIterations);
    }
    let found: u128 = totals.pairs_found as u128;
    assert(totals.pairs_found * totals.longest == totals.longest * totals.pairs_found)
        by (nonlinear_arith);
    let percent_connected = Ratio { numerator: 100 * found, denominator: totals.attempted as u128 };
    let average_distance = if totals.pairs_found == 0 {
        None
    } else {
        Some(Ratio { numerator: totals.distance_sum, denominator: found })
    };
    Ok(
        Summary {
            pairs_found: totals.pairs_found,
            percent_connected,
            average_distance,
            longest_distance: totals.longest,
        },
    )
}

} // verus!
