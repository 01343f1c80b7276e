//! Connectivity statistics from sampled pairs of nodes: the running totals
//! and the loop that draws the pairs.

use vstd::prelude::*;
use rand::rngs::ThreadRng;
use rand::Rng;
use crate::bfs::bfs_shortest;
use crate::graph::{Adjacency, BFSError, Graph, Label};
use crate::label::{decimal, node_label};
use crate::paths::outcome_of;

verus! {

/// Running totals as contracts see them.
pub struct Tally {
    /// The pairs tried.
    pub attempted: nat,
    /// The pairs whose target could be reached.
    pub pairs_found: nat,
    /// The sum of the distances found.
    pub distance_sum: nat,
    /// The greatest distance found, 0 where none was.
    pub longest: nat,
}

/// The totals before any pair was tried.
pub open spec fn empty_tally() -> Tally {
    Tally { attempted: 0, pairs_found: 0, distance_sum: 0, longest: 0 }
}

/// The totals after one more pair. A distance found is counted, added to
/// the sum and held against the greatest so far; a pair without a walk
/// only counts as tried.
pub open spec fn counted(t: Tally, outcome: Option<int>) -> Tally {
    match outcome {
        Some(d) => Tally {
            attempted: t.attempted + 1,
            pairs_found: t.pairs_found + 1,
            distance_sum: t.distance_sum + d as nat,
            longest: if d > t.longest {
                d as nat
            } else {
                t.longest
            },
        },
        None => Tally { attempted: t.attempted + 1, ..t },
    }
}

/// The totals of a list of outcomes, counted from the first to the last.
pub open spec fn tally_of(outcomes: Seq<Option<int>>) -> Tally
    decreases outcomes.len(),
{
    if outcomes.len() == 0 {
        empty_tally()
    } else {
        counted(tally_of(outcomes.drop_last()), outcomes.last())
    }
}

/// The labels of a pair of node numbers.
pub open spec fn pair_labels(pair: (u32, u32)) -> (Label, Label) {
    (decimal(pair.0 as nat), decimal(pair.1 as nat))
}

/// What the distance queries for a list of numbered pairs find, in order.
pub open spec fn outcomes_of(adj: Adjacency, pairs: Seq<(u32, u32)>) -> Seq<Option<int>> {
    Seq::new(
        pairs.len(),
        |i: int| outcome_of(adj, pair_labels(pairs[i]).0, pair_labels(pairs[i]).1),
    )
}

/// The totals of a list of numbered pairs in a graph.
pub open spec fn tally(adj: Adjacency, pairs: Seq<(u32, u32)>) -> Tally {
    tally_of(outcomes_of(adj, pairs))
}

/// What the result of a distance query stands for in the totals.
pub open spec fn found(result: Result<usize, BFSError>) -> Option<int> {
    match result {
        Ok(d) => Some(d as int),
        Err(_) => None,
    }
}

/// Running totals of a sampling run.
#[derive(Debug, Clone, Copy, PartialEq, Eq)]
pub struct Totals {
    /// The pairs tried.
    pub attempted: u32,
    /// The pairs whose target could be reached.
    pub pairs_found: u32,
    /// The sum of the distances found.
    pub distance_sum: u128,
    /// The greatest distance found, 0 where none was.
    pub longest: usize,
}

impl View for Totals {
    type V = Tally;

    open spec fn view(&self) -> Tally {
        Tally {
            attempted: self.attempted as nat,
            pairs_found: self.pairs_found as nat,
            distance_sum: self.distance_sum as nat,
            longest: self.longest as nat,
        }
    }
}

/// Totals that can have come from counting outcomes: no more pairs found
/// than tried, and no distance counted that exceeds the greatest.
pub open spec fn consistent(t: Tally) -> bool {
    &&& t.pairs_found <= t.attempted
    &&& t.distance_sum <= t.pairs_found * t.longest
}

/// Counting one more outcome keeps totals consistent.
pub proof fn lemma_counted_consistent(t: Tally, outcome: Option<int>)
    requires
        consistent(t),
        outcome is Some ==> outcome->0 >= 0,
    ensures
        consistent(counted(t, outcome)),
{
    match outcome {
        Some(d) => {
            let next = counted(t, outcome);
            assert(t.pairs_found * t.longest <= t.pairs_found * next.longest) by (nonlinear_arith)
                requires
                    t.longest <= next.longest,
            ;
            assert((t.pairs_found + 1) * next.longest == t.pairs_found * next.longest
                + next.longest) by (nonlinear_arith);
        },
        None => {},
    }
}

impl Totals {
    /// Well-formedness: the totals are consistent.
    pub open spec fn wf(&self) -> bool {
        consistent(self@)
    }

    /// The totals before any pair was tried.
    pub fn new() -> (t: Self)
        ensures
            t.wf(),
            t@ == empty_tally(),
    {
        Totals { attempted: 0, pairs_found: 0, distance_sum: 0, longest: 0 }
    }

    /// Counts the result of one distance query.
    pub fn record(&mut self, result: Result<usize, BFSError>)
        requires
            old(self).wf(),
            old(self).attempted < u32::MAX,
        ensures
            final(self).wf(),
            final(self)@ == counted(old(self)@, found(result)),
    {
        proof {
            lemma_counted_consistent(self@, found(result));
            assert(self.pairs_found * self.longest <= 0xffff_ffff * 0xffff_ffff_ffff_ffff)
                by (nonlinear_arith)
                requires
                    self.pairs_found <= 0xffff_ffff,
                    self.longest <= 0xffff_ffff_ffff_ffff,
            ;
        }
        self.attempted = self.attempted + 1;
        match result {
            Ok(d) => {
                self.pairs_found = self.pairs_found + 1;
                self.distance_sum = self.distance_sum + d as u128;
                if d > self.longest {
                    self.longest = d;
                }
            },
            Err(_) => {},
        }
    }
}

/// The generator of `rand` that belongs to the running thread. Nothing is
/// known of its state.
#[verifier::external_type_specification]
#[verifier::external_body]
pub struct ExThreadRng(ThreadRng);

/// Draws a number from `low` to `high`, both included, with
/// `rand::Rng::gen_range` on the inclusive range. Believed of it: the
/// number lies in the range. Which number it is depends on chance, and
/// nothing else is said of it. The call panics on an empty range, which
/// `low <= high` rules out.
#[verifier::external_body]
fn draw_in_range(rng: &mut ThreadRng, low: u32, high: u32) -> (n: u32)
    requires
        low <= high,
    ensures
        low <= n <= high,
{
    rng.gen_range(low..=high)
}

/// One sampled pair with what the distance query for it found.
#[derive(Debug, Clone, Copy, PartialEq, Eq)]
pub struct Sample {
    pub start: u32,
    pub target: u32,
    pub result: Result<usize, BFSError>,
}

/// What a sampling run gives: the totals, and the samples one by one where
/// the caller asked for them.
#[derive(Debug, PartialEq, Eq)]
pub struct SampleRun {
    pub totals: Totals,
    pub trace: Vec<Sample>,
}

/// The distance query for the pair of nodes numbered `start` and `target`.
pub fn sample_pair(graph: &Graph, start: u32, target: u32) -> (result: Result<usize, BFSError>)
    requires
        graph.wf(),
    ensures
        found(result) == outcome_of(graph@, decimal(start as nat), decimal(target as nat)),
        result is Err ==> result == Err::<usize, BFSError>(BFSError::NodeNotFound),
{
    let start_node = node_label(start);
    let target_node = node_label(target);
    bfs_shortest(graph.get_map(), start_node.as_str(), target_node.as_str())
}

/// The totals of the distance queries for the given pairs, in order.
pub fn run_pairs(graph: &Graph, pairs: &Vec<(u32, u32)>) -> (totals: Totals)
    requires
        graph.wf(),
        pairs.len() <= u32::MAX,
    ensures
        totals.wf(),
        totals@ == tally(graph@, pairs@),
{
    let mut totals = Totals::new();
    let mut i: usize = 0;
    assert(outcomes_of(graph@, pairs@.take(0)) =~= Seq::<Option<int>>::empty());
    while i < pairs.len()
        invariant
            graph.wf(),
            pairs.len() <= u32::MAX,
            i <= pairs.len(),
            totals.wf(),
            totals.attempted == i,
            totals@ == tally(graph@, pairs@.take(i as int)),
        decreases pairs.len() - i,
    {
        let pair = pairs[i];
        let result = sample_pair(graph, pair.0, pair.1);
        proof {
            lemma_tally_step(graph@, pairs@.take(i as int), pair);
            assert(pairs@.take(i as int).push(pair) =~= pairs@.take(i + 1));
        }
        totals.record(result);
        i += 1;
    }
    assert(pairs@.take(i as int) =~= pairs@);
    totals
}

/// The totals after one more pair are the totals before it with the
/// outcome of that pair counted.
pub proof fn lemma_tally_step(adj: Adjacency, pairs: Seq<(u32, u32)>, pair: (u32, u32))
    ensures
        tally(adj, pairs.push(pair)) == counted(
            tally(adj, pairs),
            outcome_of(adj, pair_labels(pair).0, pair_labels(pair).1),
        ),
{
    let all = outcomes_of(adj, pairs.push(pair));
    assert(all.drop_last() =~= outcomes_of(adj, pairs));
}

/// The pairs that a trace records, in order.
pub open spec fn pairs_of(trace: Seq<Sample>) -> Seq<(u32, u32)> {
    Seq::new(trace.len(), |i: int| (trace[i].start, trace[i].target))
}

/// `run` is what sampling the pairs `pairs` gives: as many pairs as
/// iterations, each node number within the bound, the totals those of the
/// pairs, and the trace, where it was asked for, the pairs with what was
/// found for each. Without a trace the list is empty.
pub open spec fn is_run_over(
    adj: Adjacency,
    max_node_bound: u32,
    iteration_count: u32,
    track_nodes: bool,
    pairs: Seq<(u32, u32)>,
    run: SampleRun,
) -> bool {
    &&& pairs.len() == iteration_count
    &&& forall|i: int|
        0 <= i < pairs.len() ==> (#[trigger] pairs[i]).0 <= max_node_bound && pairs[i].1
            <= max_node_bound
    &&& run.totals@ == tally(adj, pairs)
    &&& if track_nodes {
        &&& pairs_of(run.trace@) == pairs
        &&& forall|i: int|
            0 <= i < run.trace@.len() ==> found((#[trigger] run.trace@[i]).result)
                == outcomes_of(adj, pairs)[i]
    } else {
        run.trace@.len() == 0
    }
}

/// Samples `iteration_count` pairs of nodes and gathers the totals of the
/// distance queries for them. Both nodes of a pair are drawn from `rng`,
/// independently, among the numbers from 0 to `max_node_bound`; a pair may
/// come more than once and counts each time. With `track_nodes` the samples
/// are also handed back one by one, which changes nothing in the totals.
pub fn run_samples(
    graph: &Graph,
    max_node_bound: u32,
    iteration_count: u32,
    track_nodes: bool,
    rng: &mut ThreadRng,
) -> (run: SampleRun)
    requires
        graph.wf(),
    ensures
        run.totals.wf(),
        run.totals.attempted == iteration_count,
        exists|pairs: Seq<(u32, u32)>|
            is_run_over(graph@, max_node_bound, iteration_count, track_nodes, pairs, run),
{
    let mut totals = Totals::new();
    let mut trace: Vec<Sample> = Vec::new();
    let ghost mut pairs: Seq<(u32, u32)> = Seq::empty();
    let mut i: u32 = 0;
    assert(outcomes_of(graph@, pairs) =~= Seq::<Option<int>>::empty());
    assert(pairs_of(trace@) =~= pairs);
    while i < iteration_count
        invariant
            graph.wf(),
            i <= iteration_count,
            totals.wf(),
            totals.attempted == i,
            is_run_over(
                graph@,
                max_node_bound,
                i,
                track_nodes,
                pairs,
                SampleRun { totals, trace },
            ),
        decreases iteration_count - i,
    {
        let start = draw_in_range(rng, 0, max_node_bound);
        let target = draw_in_range(rng, 0, max_node_bound);
        let result = sample_pair(graph, start, target);
        let ghost before = pairs;
        let ghost traced = trace@;
        proof {
            lemma_tally_step(graph@, pairs, (start, target));
            pairs = pairs.push((start, target));
            assert(outcomes_of(graph@, pairs)[i as int] == found(result));
            assert forall|k: int| 0 <= k < before.len() implies outcomes_of(graph@, pairs)[k]
                == outcomes_of(graph@, before)[k] by {
                assert(pairs[k] == before[k]);
            }
        }
        totals.record(result);
        if track_nodes {
            trace.push(Sample { start, target, result });
            assert(pairs_of(trace@) =~= pairs_of(traced).push((start, target)));
        }
        i += 1;
    }
    SampleRun { totals, trace }
}

/// The totals of any list of outcomes, none of them negative, are
/// consistent; every outcome was counted as tried; and the greatest
/// distance is one of the distances found, or 0 where none was found.
pub proof fn lemma_tally_of_outcomes(outcomes: Seq<Option<int>>)
    requires
        forall|i: int| 0 <= i < outcomes.len() && outcomes[i] is Some ==> outcomes[i]->0 >= 0,
    ensures
        consistent(tally_of(outcomes)),
        tally_of(outcomes).attempted == outcomes.len(),
        tally_of(outcomes).pairs_found == 0 ==> tally_of(outcomes).longest == 0,
        tally_of(outcomes).pairs_found > 0 ==> exists|i: int|
            0 <= i < outcomes.len() && #[trigger] outcomes[i] == Some(
                tally_of(outcomes).longest as int,
            ),
        forall|i: int|
            0 <= i < outcomes.len() && outcomes[i] is Some ==> (#[trigger] outcomes[i])->0
                <= tally_of(outcomes).longest,
    decreases outcomes.len(),
{
    if outcomes.len() > 0 {
        let before = outcomes.drop_last();
        let last = outcomes.last();
        lemma_tally_of_outcomes(before);
        lemma_counted_consistent(tally_of(before), last);
        let t = tally_of(outcomes);
        if t.pairs_found > 0 {
            if last is Some && last->0 >= tally_of(before).longest {
                assert(outcomes[outcomes.len() - 1] == Some(t.longest as int));
            } else {
                let i = choose|i: int|
                    0 <= i < before.len() && #[trigger] before[i] == Some(
                        tally_of(before).longest as int,
                    );
                assert(outcomes[i] == before[i]);
            }
        }
        assert forall|i: int| 0 <= i < outcomes.len() && outcomes[i] is Some implies (
        #[trigger] outcomes[i])->0 <= t.longest by {
            if i < before.len() {
                assert(outcomes[i] == before[i]);
            }
        }
    }
}

/// Whatever pairs are sampled in a graph, the totals are consistent, and
/// the greatest distance reported is the distance between the two nodes of
/// one of the pairs, so it never exceeds the greatest distance that the
/// graph holds between any two of its nodes.
pub proof fn lemma_tally_in_graph(adj: Adjacency, pairs: Seq<(u32, u32)>)
    ensures
        consistent(tally(adj, pairs)),
        tally(adj, pairs).attempted == pairs.len(),
        tally(adj, pairs).pairs_found <= pairs.len(),
        tally(adj, pairs).pairs_found == 0 ==> tally(adj, pairs).longest == 0,
        tally(adj, pairs).pairs_found > 0 ==> exists|i: int|
            0 <= i < pairs.len() && crate::paths::is_distance(
                adj,
                pair_labels(#[trigger] pairs[i]).0,
                pair_labels(pairs[i]).1,
                tally(adj, pairs).longest as int,
            ),
{
    let outcomes = outcomes_of(adj, pairs);
    assert forall|i: int| 0 <= i < outcomes.len() && outcomes[i] is Some implies outcomes[i]->0
        >= 0 by {
        let (a, b) = pair_labels(pairs[i]);
        crate::paths::lemma_reachable_has_distance(adj, a, b);
        crate::paths::lemma_distance_is_outcome(adj, a, b, crate::paths::distance(adj, a, b));
    }
    lemma_tally_of_outcomes(outcomes);
    if tally(adj, pairs).pairs_found > 0 {
        let i = choose|i: int|
            0 <= i < outcomes.len() && #[trigger] outcomes[i] == Some(
                tally_of(outcomes).longest as int,
            );
        let (a, b) = pair_labels(pairs[i]);
        crate::paths::lemma_reachable_has_distance(adj, a, b);
    }
}

} // verus!
