//! Shortest distances by breadth-first search.

use vstd::prelude::*;
use vstd::hash_map::StringHashMap;
use vstd::hash_set::StringHashSet;
use std::collections::VecDeque;
use crate::graph::{adjacency_of, labels_of, successors, Adjacency, BFSError, Label};
use crate::paths::{
    edges_on, has_edge, is_distance, is_walk, lemma_distance_is_outcome, lemma_distance_to_self,
    lemma_walk_extend, nodes_of, outcome_of, reachable, walk_from_to,
};

verus! {

/// What holds of a search in progress. `order` lists the discovered nodes
/// in the order of their discovery; those before `head` have had all their
/// neighbours examined; `dist` holds the distance recorded for each.
spec fn search_inv(
    adj: Adjacency,
    start: Label,
    target: Label,
    order: Seq<Label>,
    head: int,
    dist: Map<Label, usize>,
) -> bool {
    &&& order.len() > 0
    &&& order[0] == start
    &&& order.no_duplicates()
    &&& 0 <= head <= order.len()
    &&& forall|k: Label| dist.contains_key(k) <==> order.contains(k)
    &&& forall|j: int| 0 <= j < order.len() ==> dist[#[trigger] order[j]] <= j
    &&& forall|i: int, j: int|
        0 <= i <= j < order.len() ==> dist[#[trigger] order[i]] <= dist[#[trigger] order[j]]
    &&& head < order.len() ==> forall|j: int|
        0 <= j < order.len() ==> dist[#[trigger] order[j]] <= dist[order[head]] + 1
    &&& forall|j: int|
        0 <= j < order.len() ==> exists|p: Seq<Label>|
            walk_from_to(adj, p, start, #[trigger] order[j]) && edges_on(p) == dist[order[j]]
    &&& forall|i: int, n: Label|
        #![trigger has_edge(adj, order[i], n)]
        0 <= i < head && has_edge(adj, order[i], n) ==> dist.contains_key(n) && dist[n] <= dist[order[i]]
            + 1
    &&& forall|i: int| 0 <= i < head ==> #[trigger] order[i] != target
    &&& forall|j: int|
        0 <= j < order.len() ==> (#[trigger] order[j] == start || nodes_of(adj).contains(
            order[j],
        ))
}

/// The first `upto` neighbours of the node at `head` have been examined.
spec fn expanded(
    adj: Adjacency,
    order: Seq<Label>,
    head: int,
    dist: Map<Label, usize>,
    upto: int,
) -> bool {
    forall|k: int|
        0 <= k < upto ==> dist.contains_key(#[trigger] successors(adj, order[head])[k]) && dist[
            successors(adj, order[head])[k]
        ] <= dist[order[head]] + 1
}

/// A search that has discovered only its start node.
proof fn lemma_search_begin(adj: Adjacency, start: Label, target: Label)
    ensures
        search_inv(adj, start, target, seq![start], 0, map![start => 0usize]),
{
    let order = seq![start];
    let dist = map![start => 0usize];
    assert forall|k: Label| dist.contains_key(k) <==> order.contains(k) by {
        if k == start {
            assert(order[0] == start);
        }
    }
    let p = seq![start];
    assert(walk_from_to(adj, p, start, start) && edges_on(p) == 0);
}

/// Discovering a new neighbour `n` of the node at `head` keeps the search
/// in order.
proof fn lemma_discover(
    adj: Adjacency,
    start: Label,
    target: Label,
    order: Seq<Label>,
    head: int,
    dist: Map<Label, usize>,
    n: Label,
    upto: int,
)
    requires
        search_inv(adj, start, target, order, head, dist),
        expanded(adj, order, head, dist, upto),
        head < order.len(),
        has_edge(adj, order[head], n),
        !dist.contains_key(n),
        dist[order[head]] + 1 <= usize::MAX,
    ensures
        search_inv(
            adj,
            start,
            target,
            order.push(n),
            head,
            dist.insert(n, (dist[order[head]] + 1) as usize),
        ),
        expanded(
            adj,
            order.push(n),
            head,
            dist.insert(n, (dist[order[head]] + 1) as usize),
            upto,
        ),
{
    let u = order[head];
    let d = (dist[u] + 1) as usize;
    let order2 = order.push(n);
    let dist2 = dist.insert(n, d);
    assert(!order.contains(n));
    assert forall|j: int| 0 <= j < order.len() implies order2[j] == order[j] && order[j] != n
        && dist2[order2[j]] == dist[order[j]] by {
        assert(order.contains(order[j]));
    }
    assert(order2[order.len() as int] == n);
    assert(order2.no_duplicates());
    assert forall|k: Label| dist2.contains_key(k) <==> order2.contains(k) by {
        if k == n {
            assert(order2[order.len() as int] == n);
        } else if order.contains(k) {
            let j = choose|j: int| 0 <= j < order.len() && order[j] == k;
            assert(order2[j] == k);
        } else if order2.contains(k) {
            let j = choose|j: int| 0 <= j < order2.len() && order2[j] == k;
            assert(j < order.len());
        }
    }
    assert forall|j: int| 0 <= j < order2.len() implies dist2[#[trigger] order2[j]] <= j by {
        if j < order.len() {
            assert(dist[order[j]] <= j);
        } else {
            assert(dist[order[head]] <= head);
        }
    }
    assert forall|i: int, j: int| 0 <= i <= j < order2.len() implies dist2[#[trigger] order2[i]]
        <= dist2[#[trigger] order2[j]] by {
        if j < order.len() {
            assert(dist[order[i]] <= dist[order[j]]);
        } else if i < order.len() {
            assert(dist[order[i]] <= dist[order[head]] + 1);
        }
    }
    assert forall|j: int| 0 <= j < order2.len() implies dist2[#[trigger] order2[j]] <= dist2[order2[head]]
        + 1 by {
        if j < order.len() {
            assert(dist[order[j]] <= dist[order[head]] + 1);
        }
    }
    assert forall|j: int| 0 <= j < order2.len() implies exists|p: Seq<Label>|
        walk_from_to(adj, p, start, #[trigger] order2[j]) && edges_on(p) == dist2[order2[j]] by {
        if j < order.len() {
            let p = choose|p: Seq<Label>|
                walk_from_to(adj, p, start, order[j]) && edges_on(p) == dist[order[j]];
            assert(walk_from_to(adj, p, start, order2[j]) && edges_on(p) == dist2[order2[j]]);
        } else {
            let p = choose|p: Seq<Label>|
                walk_from_to(adj, p, start, order[head]) && edges_on(p) == dist[order[head]];
            lemma_walk_extend(adj, p, start, u, n);
            assert(walk_from_to(adj, p.push(n), start, order2[j]) && edges_on(p.push(n))
                == dist2[order2[j]]);
        }
    }
    assert forall|i: int, m: Label|
        #![trigger has_edge(adj, order2[i], m)]
        0 <= i < head && has_edge(adj, order2[i], m) implies dist2.contains_key(m) && dist2[m]
            <= dist2[order2[i]] + 1 by {
        assert(has_edge(adj, order[i], m));
        assert(dist.contains_key(m) && dist[m] <= dist[order[i]] + 1);
    }
    assert forall|i: int| 0 <= i < head implies #[trigger] order2[i] != target by {
        assert(order[i] != target);
    }
    assert forall|j: int| 0 <= j < order2.len() implies (#[trigger] order2[j] == start || nodes_of(
        adj,
    ).contains(order2[j])) by {
        if j < order.len() {
            assert(order[j] == start || nodes_of(adj).contains(order[j]));
        } else {
            assert(adj.contains_key(u) && adj[u].contains(n));
        }
    }
    assert forall|k: int| 0 <= k < upto implies dist2.contains_key(
        #[trigger] successors(adj, order2[head])[k],
    ) && dist2[successors(adj, order2[head])[k]] <= dist2[order2[head]] + 1 by {
        let m = successors(adj, order[head])[k];
        assert(dist.contains_key(m) && dist[m] <= dist[order[head]] + 1);
    }
}

/// A neighbour of the node at `head` that was discovered before lies at
/// most one step further than that node.
proof fn lemma_seen(
    adj: Adjacency,
    start: Label,
    target: Label,
    order: Seq<Label>,
    head: int,
    dist: Map<Label, usize>,
    upto: int,
)
    requires
        search_inv(adj, start, target, order, head, dist),
        expanded(adj, order, head, dist, upto),
        head < order.len(),
        0 <= upto < successors(adj, order[head]).len(),
        dist.contains_key(successors(adj, order[head])[upto]),
    ensures
        expanded(adj, order, head, dist, upto + 1),
{
    let n = successors(adj, order[head])[upto];
    assert(order.contains(n));
    let j = choose|j: int| 0 <= j < order.len() && order[j] == n;
    assert(dist[order[j]] <= dist[order[head]] + 1);
}

/// Once every neighbour of the node at `head` has been examined, and that
/// node is not the target, the search moves on to the next node.
proof fn lemma_advance(
    adj: Adjacency,
    start: Label,
    target: Label,
    order: Seq<Label>,
    head: int,
    dist: Map<Label, usize>,
)
    requires
        search_inv(adj, start, target, order, head, dist),
        head < order.len(),
        expanded(adj, order, head, dist, successors(adj, order[head]).len() as int),
        order[head] != target,
    ensures
        search_inv(adj, start, target, order, head + 1, dist),
{
    let u = order[head];
    assert forall|i: int, n: Label|
        #![trigger has_edge(adj, order[i], n)]
        0 <= i < head + 1 && has_edge(adj, order[i], n) implies dist.contains_key(n) && dist[n]
            <= dist[order[i]] + 1 by {
        if i == head {
            let k = choose|k: int| 0 <= k < successors(adj, u).len() && successors(adj, u)[k] == n;
            assert(dist.contains_key(successors(adj, order[head])[k]));
        }
    }
    if head + 1 < order.len() {
        assert forall|j: int| 0 <= j < order.len() implies dist[#[trigger] order[j]] <= dist[order[head
            + 1]] + 1 by {
            assert(dist[order[j]] <= dist[order[head]] + 1);
            assert(dist[order[head]] <= dist[order[head + 1]]);
        }
    }
}

/// The discovered nodes are no more than the graph's nodes and the start.
proof fn lemma_order_bounded(
    adj: Adjacency,
    start: Label,
    target: Label,
    order: Seq<Label>,
    head: int,
    dist: Map<Label, usize>,
)
    requires
        search_inv(adj, start, target, order, head, dist),
        adj.dom().finite(),
    ensures
        order.len() <= nodes_of(adj).len() + 1,
        dist.dom().finite(),
        dist.dom().len() == order.len(),
{
    crate::paths::lemma_nodes_finite(adj);
    let all = nodes_of(adj).insert(start);
    order.unique_seq_to_set();
    assert(order.to_set().subset_of(all)) by {
        assert forall|n: Label| order.to_set().contains(n) implies all.contains(n) by {
            let j = choose|j: int| 0 <= j < order.len() && order[j] == n;
            assert(order[j] == start || nodes_of(adj).contains(order[j]));
        }
    }
    vstd::set_lib::lemma_len_subset(order.to_set(), all);
    assert(dist.dom() =~= order.to_set());
}

/// Along any walk from the start, up to position `i`, a node is met that
/// was discovered no further than its position on the walk, and that node
/// is either the one at `i` or one not yet passed by the search.
proof fn lemma_walk_meets(
    adj: Adjacency,
    start: Label,
    target: Label,
    order: Seq<Label>,
    head: int,
    dist: Map<Label, usize>,
    p: Seq<Label>,
    i: int,
) -> (j: int)
    requires
        search_inv(adj, start, target, order, head, dist),
        is_walk(adj, p),
        p[0] == start,
        0 <= i < p.len(),
    ensures
        0 <= j <= i,
        dist.contains_key(p[j]),
        dist[p[j]] <= j,
        j == i || exists|k: int| head <= k < order.len() && order[k] == p[j],
    decreases i,
{
    if i == 0 {
        assert(order.contains(order[0]));
        assert(dist[order[0]] <= 0);
        0
    } else {
        let j = lemma_walk_meets(adj, start, target, order, head, dist, p, i - 1);
        if j < i - 1 {
            j
        } else {
            let a = p[i - 1];
            assert(order.contains(a));
            let k = choose|k: int| 0 <= k < order.len() && order[k] == a;
            if k >= head {
                j
            } else {
                assert(has_edge(adj, p[i - 1], p[i - 1 + 1]));
                assert(has_edge(adj, order[k], p[i]));
                i
            }
        }
    }
}

/// When the node at `head` is the target, its recorded distance is the
/// distance from the start.
proof fn lemma_found(
    adj: Adjacency,
    start: Label,
    target: Label,
    order: Seq<Label>,
    head: int,
    dist: Map<Label, usize>,
)
    requires
        search_inv(adj, start, target, order, head, dist),
        head < order.len(),
        order[head] == target,
    ensures
        is_distance(adj, start, target, dist[target] as int),
{
    let d = dist[target] as int;
    assert(exists|p: Seq<Label>| walk_from_to(adj, p, start, order[head]) && edges_on(p) == dist[order[head]]);
    assert forall|p: Seq<Label>| walk_from_to(adj, p, start, target) implies edges_on(p) >= d by {
        let j = lemma_walk_meets(adj, start, target, order, head, dist, p, p.len() - 1);
        if j != p.len() - 1 {
            let k = choose|k: int| head <= k < order.len() && order[k] == p[j];
            assert(dist[order[head]] <= dist[order[k]]);
        }
    }
}

/// When every discovered node has been passed, the target cannot be
/// reached from the start.
proof fn lemma_exhausted(
    adj: Adjacency,
    start: Label,
    target: Label,
    order: Seq<Label>,
    head: int,
    dist: Map<Label, usize>,
)
    requires
        search_inv(adj, start, target, order, head, dist),
        head == order.len(),
    ensures
        !reachable(adj, start, target),
{
    assert forall|p: Seq<Label>| !walk_from_to(adj, p, start, target) by {
        if walk_from_to(adj, p, start, target) {
            let j = lemma_walk_meets(adj, start, target, order, head, dist, p, p.len() - 1);
            assert(j == p.len() - 1);
            assert(order.contains(target));
            let k = choose|k: int| 0 <= k < order.len() && order[k] == target;
            assert(order[k] != target);
        }
    }
}

/// The distance from `start_node` to `target_node`: the number of edges on
/// a shortest walk between them, found by breadth-first search. A node is
/// at distance 0 from itself, whether or not the graph mentions it. Where
/// no walk leads to the target the search fails with `NodeNotFound`.
pub fn bfs_shortest(
    graph: &StringHashMap<Vec<String>>,
    start_node: &str,
    target_node: &str,
) -> (result: Result<usize, BFSError>)
    requires
        graph@.dom().finite(),
    ensures
        match result {
            Ok(d) => is_distance(adjacency_of(graph@), start_node@, target_node@, d as int),
            Err(e) => e == BFSError::NodeNotFound && !reachable(
                adjacency_of(graph@),
                start_node@,
                target_node@,
            ),
        },
        outcome_of(adjacency_of(graph@), start_node@, target_node@) == match result {
            Ok(d) => Some(d as int),
            Err(_) => None,
        },
        start_node@ == target_node@ ==> result == Ok::<usize, BFSError>(0),
{
    let ghost adj = adjacency_of(graph@);
    assert(adj.dom() =~= graph@.dom());
    let target: String = target_node.to_owned();
    let mut visited = StringHashSet::new();
    let mut queue: VecDeque<String> = VecDeque::new();
    let mut distance: StringHashMap<usize> = StringHashMap::new();

    visited.insert(start_node.to_owned());
    queue.push_back(start_node.to_owned());
    distance.insert(start_node.to_owned(), 0);

    let ghost mut order: Seq<Label> = seq![start_node@];
    let ghost mut head: int = 0;
    proof {
        lemma_search_begin(adj, start_node@, target_node@);
        assert(distance@ =~= map![start_node@ => 0usize]);
        assert(visited@ =~= distance@.dom());
    }

    loop
        invariant
            adj.dom().finite(),
            adj == adjacency_of(graph@),
            target@ == target_node@,
            search_inv(adj, start_node@, target_node@, order, head, distance@),
            visited@ == distance@.dom(),
            queue@.len() == order.len() - head,
            forall|i: int| 0 <= i < queue@.len() ==> (#[trigger] queue@[i])@ == order[head + i],
        decreases nodes_of(adj).len() + 1 - head,
    {
        proof {
            lemma_order_bounded(adj, start_node@, target_node@, order, head, distance@);
        }
        let node = match queue.pop_front() {
            Some(node) => node,
            None => {
                proof {
                    lemma_exhausted(adj, start_node@, target_node@, order, head, distance@);
                    if start_node@ == target_node@ {
                        lemma_distance_to_self(adj, start_node@);
                    }
                }
                return Err(BFSError::NodeNotFound);
            },
        };
        assert(node@ == order[head]);
        assert(order.contains(order[head]));
        let reached: usize = *distance.get(node.as_str()).unwrap();
        if node == target {
            proof {
                lemma_found(adj, start_node@, target_node@, order, head, distance@);
                lemma_distance_is_outcome(adj, start_node@, target_node@, reached as int);
                if start_node@ == target_node@ {
                    lemma_distance_to_self(adj, start_node@);
                }
            }
            return Ok(reached);
        }
        match graph.get(node.as_str()) {
            Some(neighbors) => {
                assert(successors(adj, order[head]) == labels_of(neighbors@));
                let mut i: usize = 0;
                while i < neighbors.len()
                    invariant
                        0 <= i <= neighbors.len(),
                        0 <= head < order.len(),
                        successors(adj, order[head]) == labels_of(neighbors@),
                        distance@.contains_key(order[head]),
                        reached == distance@[order[head]],
                        search_inv(adj, start_node@, target_node@, order, head, distance@),
                        expanded(adj, order, head, distance@, i as int),
                        visited@ == distance@.dom(),
                        adj == adjacency_of(graph@),
                        adj.dom().finite(),
                        order[head] != target_node@,
                        queue@.len() == order.len() - head - 1,
                        forall|j: int|
                            0 <= j < queue@.len() ==> (#[trigger] queue@[j])@ == order[head + 1 + j],
                    decreases neighbors.len() - i,
                {
                    let neighbor = &neighbors[i];
                    assert(successors(adj, order[head])[i as int] == neighbor@);
                    if !visited.contains(neighbor.as_str()) {
                        proof {
                            lemma_order_bounded(
                                adj,
                                start_node@,
                                target_node@,
                                order,
                                head,
                                distance@,
                            );
                            vstd::hash_map::axiom_string_hash_map_spec_len(&distance);
                            assert(has_edge(adj, order[head], neighbor@));
                            lemma_discover(
                                adj,
                                start_node@,
                                target_node@,
                                order,
                                head,
                                distance@,
                                neighbor@,
                                i as int,
                            );
                        }
                        visited.insert(neighbor.clone());
                        queue.push_back(neighbor.clone());
                        distance.insert(neighbor.clone(), reached + 1);
                        proof {
                            order = order.push(neighbor@);
                            assert(visited@ =~= distance@.dom());
                            assert(expanded(adj, order, head, distance@, i as int + 1)) by {
                                lemma_seen(
                                    adj,
                                    start_node@,
                                    target_node@,
                                    order,
                                    head,
                                    distance@,
                                    i as int,
                                );
                            }
                        }
                    } else {
                        proof {
                            lemma_seen(
                                adj,
                                start_node@,
                                target_node@,
                                order,
                                head,
                                distance@,
                                i as int,
                            );
                        }
                    }
                    i += 1;
                }
            },
            None => {
                assert(successors(adj, order[head]).len() == 0);
                assert(expanded(adj, order, head, distance@, 0));
            },
        }
        proof {
            lemma_advance(adj, start_node@, target_node@, order, head, distance@);
            head = head + 1;
        }
    }
}

} // verus!
