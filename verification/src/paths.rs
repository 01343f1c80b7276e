//! Walks in a graph, and what it means for a number to be the distance
//! between two nodes.

use vstd::prelude::*;
use crate::graph::{successors, Adjacency, Label};

verus! {

/// There is an edge `a -> b`.
pub open spec fn has_edge(adj: Adjacency, a: Label, b: Label) -> bool {
    successors(adj, a).contains(b)
}

/// `p` is a walk: a non-empty sequence of nodes, each joined to the next by
/// an edge. A single node is a walk with no edge.
pub open spec fn is_walk(adj: Adjacency, p: Seq<Label>) -> bool {
    &&& p.len() > 0
    &&& forall|i: int| 0 <= i < p.len() - 1 ==> has_edge(adj, #[trigger] p[i], p[i + 1])
}

/// `p` is a walk that starts at `a` and ends at `b`.
pub open spec fn walk_from_to(adj: Adjacency, p: Seq<Label>, a: Label, b: Label) -> bool {
    &&& is_walk(adj, p)
    &&& p[0] == a
    &&& p[p.len() - 1] == b
}

/// The number of edges on a walk.
pub open spec fn edges_on(p: Seq<Label>) -> int {
    p.len() - 1
}

/// Some walk leads from `a` to `b`.
pub open spec fn reachable(adj: Adjacency, a: Label, b: Label) -> bool {
    exists|p: Seq<Label>| walk_from_to(adj, p, a, b)
}

/// `d` is the distance from `a` to `b`: some walk from `a` to `b` has `d`
/// edges, and none has fewer.
pub open spec fn is_distance(adj: Adjacency, a: Label, b: Label, d: int) -> bool {
    &&& exists|p: Seq<Label>| walk_from_to(adj, p, a, b) && edges_on(p) == d
    &&& forall|p: Seq<Label>| walk_from_to(adj, p, a, b) ==> edges_on(p) >= d
}

/// Every node that the graph mentions, as a source or as a neighbour.
pub open spec fn nodes_of(adj: Adjacency) -> Set<Label> {
    Set::new(
        |n: Label|
            adj.contains_key(n) || exists|k: Label| adj.contains_key(k) && adj[k].contains(n),
    )
}

/// A graph with finitely many sources mentions finitely many nodes.
pub proof fn lemma_nodes_finite(adj: Adjacency)
    requires
        adj.dom().finite(),
    ensures
        nodes_of(adj).finite(),
    decreases adj.dom().len(),
{
    if adj.dom().len() == 0 {
        assert(adj.dom() =~= Set::<Label>::empty()) by {
            if exists|k: Label| adj.dom().contains(k) {
                let k = choose|k: Label| adj.dom().contains(k);
                assert(adj.dom().remove(k).len() + 1 == adj.dom().len());
            }
        }
        assert(nodes_of(adj) =~= Set::<Label>::empty());
    } else {
        let k = adj.dom().choose();
        let rest = adj.remove(k);
        assert(rest.dom() =~= adj.dom().remove(k));
        lemma_nodes_finite(rest);
        let bigger = nodes_of(rest).insert(k).union(adj[k].to_set());
        vstd::seq_lib::seq_to_set_is_finite(adj[k]);
        assert(nodes_of(adj).subset_of(bigger)) by {
            assert forall|n: Label| nodes_of(adj).contains(n) implies bigger.contains(n) by {
                if adj.contains_key(n) {
                    if n != k {
                        assert(rest.contains_key(n));
                    }
                } else {
                    let s = choose|s: Label| adj.contains_key(s) && adj[s].contains(n);
                    if s != k {
                        assert(rest.contains_key(s) && rest[s].contains(n));
                    }
                }
            }
        }
        vstd::set_lib::lemma_len_subset(nodes_of(adj), bigger);
    }
}

/// A walk stays a walk when one more edge is added at its end.
pub proof fn lemma_walk_extend(adj: Adjacency, p: Seq<Label>, a: Label, b: Label, c: Label)
    requires
        walk_from_to(adj, p, a, b),
        has_edge(adj, b, c),
    ensures
        walk_from_to(adj, p.push(c), a, c),
        edges_on(p.push(c)) == edges_on(p) + 1,
{
    let q = p.push(c);
    assert forall|i: int| 0 <= i < q.len() - 1 implies has_edge(adj, #[trigger] q[i], q[i + 1]) by {
        if i < p.len() - 1 {
            assert(q[i] == p[i]);
            assert(q[i + 1] == p[i + 1]);
        }
    }
}

/// The distance from `a` to `b` where `b` can be reached from `a`.
pub open spec fn distance(adj: Adjacency, a: Label, b: Label) -> int {
    choose|d: int| is_distance(adj, a, b, d)
}

/// What a distance query finds: the distance, or nothing where the target
/// cannot be reached.
pub open spec fn outcome_of(adj: Adjacency, a: Label, b: Label) -> Option<int> {
    if reachable(adj, a, b) {
        Some(distance(adj, a, b))
    } else {
        None
    }
}

/// Every edge has a matching reverse edge.
pub open spec fn is_symmetric(adj: Adjacency) -> bool {
    forall|a: Label, b: Label| has_edge(adj, a, b) ==> has_edge(adj, b, a)
}

/// Two nodes have at most one distance.
pub proof fn lemma_distance_unique(adj: Adjacency, a: Label, b: Label, d1: int, d2: int)
    requires
        is_distance(adj, a, b, d1),
        is_distance(adj, a, b, d2),
    ensures
        d1 == d2,
{
    let first = choose|p: Seq<Label>| walk_from_to(adj, p, a, b) && edges_on(p) == d1;
    let second = choose|p: Seq<Label>| walk_from_to(adj, p, a, b) && edges_on(p) == d2;
    assert(edges_on(first) >= d2);
    assert(edges_on(second) >= d1);
}

/// A number that is the distance between two nodes is what a query for
/// them finds, and it is not negative.
pub proof fn lemma_distance_is_outcome(adj: Adjacency, a: Label, b: Label, d: int)
    requires
        is_distance(adj, a, b, d),
    ensures
        outcome_of(adj, a, b) == Some(d),
        d >= 0,
{
    let p = choose|p: Seq<Label>| walk_from_to(adj, p, a, b) && edges_on(p) == d;
    assert(walk_from_to(adj, p, a, b));
    lemma_distance_unique(adj, a, b, d, distance(adj, a, b));
}

/// Where some walk from `a` to `b` has at most `n` edges, the two nodes
/// have a distance, and it is at most `n`.
pub proof fn lemma_short_walk_gives_distance(adj: Adjacency, a: Label, b: Label, n: int)
    requires
        exists|p: Seq<Label>| walk_from_to(adj, p, a, b) && edges_on(p) <= n,
    ensures
        is_distance(adj, a, b, distance(adj, a, b)),
        0 <= distance(adj, a, b) <= n,
    decreases n,
{
    let p = choose|p: Seq<Label>| walk_from_to(adj, p, a, b) && edges_on(p) <= n;
    if exists|q: Seq<Label>| walk_from_to(adj, q, a, b) && edges_on(q) <= n - 1 {
        lemma_short_walk_gives_distance(adj, a, b, n - 1);
    } else {
        assert(edges_on(p) == n);
        assert forall|q: Seq<Label>| walk_from_to(adj, q, a, b) implies edges_on(q) >= n by {
            if edges_on(q) < n {
                assert(walk_from_to(adj, q, a, b) && edges_on(q) <= n - 1);
            }
        }
        assert(is_distance(adj, a, b, n));
    }
}

/// Two nodes joined by a walk have a distance.
pub proof fn lemma_reachable_has_distance(adj: Adjacency, a: Label, b: Label)
    requires
        reachable(adj, a, b),
    ensures
        is_distance(adj, a, b, distance(adj, a, b)),
        outcome_of(adj, a, b) == Some(distance(adj, a, b)),
{
    let p = choose|p: Seq<Label>| walk_from_to(adj, p, a, b);
    assert(walk_from_to(adj, p, a, b) && edges_on(p) <= edges_on(p));
    lemma_short_walk_gives_distance(adj, a, b, edges_on(p));
}

/// Every node is at distance 0 from itself, in every graph, whether or not
/// the graph mentions it.
pub proof fn lemma_distance_to_self(adj: Adjacency, n: Label)
    ensures
        is_distance(adj, n, n, 0),
        outcome_of(adj, n, n) == Some(0int),
{
    let p = seq![n];
    assert(walk_from_to(adj, p, n, n) && edges_on(p) == 0);
    lemma_distance_is_outcome(adj, n, n, 0);
}

/// In a graph where every edge has a matching reverse edge, a walk read
/// backwards is a walk.
pub proof fn lemma_walk_reverse(adj: Adjacency, p: Seq<Label>, a: Label, b: Label)
    requires
        is_symmetric(adj),
        walk_from_to(adj, p, a, b),
    ensures
        walk_from_to(adj, p.reverse(), b, a),
        edges_on(p.reverse()) == edges_on(p),
{
    let q = p.reverse();
    assert forall|i: int| 0 <= i < q.len() - 1 implies has_edge(adj, #[trigger] q[i], q[i + 1]) by {
        let k = p.len() - 2 - i;
        assert(q[i] == p[k + 1]);
        assert(q[i + 1] == p[k]);
        assert(has_edge(adj, p[k], p[k + 1]));
    }
}

/// In a graph where every edge has a matching reverse edge, distances are
/// symmetric: the distance from `a` to `b` is the distance from `b` to `a`,
/// and one is reachable exactly when the other is.
pub proof fn lemma_symmetric_distance(adj: Adjacency, a: Label, b: Label)
    requires
        is_symmetric(adj),
    ensures
        reachable(adj, a, b) == reachable(adj, b, a),
        forall|d: int| is_distance(adj, a, b, d) == is_distance(adj, b, a, d),
        outcome_of(adj, a, b) == outcome_of(adj, b, a),
{
    assert forall|x: Label, y: Label, d: int| is_distance(adj, x, y, d) implies is_distance(
        adj,
        y,
        x,
        d,
    ) by {
        let p = choose|p: Seq<Label>| walk_from_to(adj, p, x, y) && edges_on(p) == d;
        lemma_walk_reverse(adj, p, x, y);
        assert(walk_from_to(adj, p.reverse(), y, x) && edges_on(p.reverse()) == d);
        assert forall|q: Seq<Label>| walk_from_to(adj, q, y, x) implies edges_on(q) >= d by {
            lemma_walk_reverse(adj, q, y, x);
            assert(walk_from_to(adj, q.reverse(), x, y));
        }
    }
    assert forall|x: Label, y: Label| reachable(adj, x, y) implies reachable(adj, y, x) by {
        let p = choose|p: Seq<Label>| walk_from_to(adj, p, x, y);
        lemma_walk_reverse(adj, p, x, y);
    }
    assert(forall|d: int| is_distance(adj, a, b, d) == is_distance(adj, b, a, d));
    if reachable(adj, a, b) {
        lemma_reachable_has_distance(adj, a, b);
        lemma_reachable_has_distance(adj, b, a);
        lemma_distance_unique(adj, a, b, distance(adj, a, b), distance(adj, b, a));
    }
}

} // verus!
