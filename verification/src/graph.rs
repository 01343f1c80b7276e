//! The adjacency-list store.

use vstd::prelude::*;
use vstd::hash_map::StringHashMap;

verus! {

/// The one way a distance query can fail: the target cannot be reached.
#[derive(Debug, PartialEq, Eq, Structural, Clone, Copy)]
pub enum BFSError {
    NodeNotFound,
}

/// A node label as contracts see it.
pub type Label = Seq<char>;

/// An adjacency structure as contracts see it: each source label with its
/// neighbours in stored order.
pub type Adjacency = Map<Seq<char>, Seq<Seq<char>>>;

/// What a list of labels stands for in contracts: the labels as character
/// sequences, in the order in which they are stored.
pub open spec fn labels_of(list: Seq<String>) -> Seq<Label> {
    Seq::new(list.len(), |i: int| list[i]@)
}

/// The adjacency structure that a map from source label to neighbour list
/// stands for.
pub open spec fn adjacency_of(m: Map<Seq<char>, Vec<String>>) -> Adjacency {
    Map::new(|k: Seq<char>| m.contains_key(k), |k: Seq<char>| labels_of(m[k]@))
}

/// The neighbours recorded for `node`, empty where it has none.
pub open spec fn successors(adj: Adjacency, node: Label) -> Seq<Label> {
    if adj.contains_key(node) {
        adj[node]
    } else {
        Seq::empty()
    }
}

/// The adjacency structure after one more edge: `to` is appended to the
/// neighbours of `from`, whose entry is created if it was missing.
pub open spec fn with_edge(adj: Adjacency, from: Label, to: Label) -> Adjacency {
    adj.insert(from, successors(adj, from).push(to))
}

/// The source labels after one more edge from `from`: it joins the end of
/// the list unless it is there already.
pub open spec fn with_source(sources: Seq<Label>, from: Label) -> Seq<Label> {
    if sources.contains(from) {
        sources
    } else {
        sources.push(from)
    }
}

/// A directed graph: each node that has outgoing edges is mapped to its
/// neighbours, in the order in which the edges were added. The sources are
/// also kept in the order in which they first appeared.
pub struct Graph {
    map: StringHashMap<Vec<String>>,
    sources: Vec<String>,
}

impl View for Graph {
    type V = Adjacency;

    /// The adjacency structure: source label to neighbour labels.
    closed spec fn view(&self) -> Adjacency {
        adjacency_of(self.map@)
    }
}

/// A copy of a list of labels.
fn copy_labels(list: &Vec<String>) -> (out: Vec<String>)
    ensures
        labels_of(out@) == labels_of(list@),
{
    let mut out: Vec<String> = Vec::new();
    let mut i: usize = 0;
    while i < list.len()
        invariant
            i <= list.len(),
            out.len() == i,
            forall|j: int| 0 <= j < i ==> out[j]@ == list[j]@,
        decreases list.len() - i,
    {
        out.push(list[i].clone());
        i += 1;
    }
    assert(labels_of(out@) =~= labels_of(list@));
    out
}

impl Graph {
    /// The source labels in the order of their first appearance.
    pub closed spec fn sources(&self) -> Seq<Label> {
        labels_of(self.sources@)
    }

    /// Well-formedness: every source is listed once, and only sources are
    /// listed. Every graph built by `new` and `add_edge` is well formed.
    pub closed spec fn wf(&self) -> bool {
        &&& self.sources().no_duplicates()
        &&& forall|k: Label| self.map@.contains_key(k) <==> self.sources().contains(k)
    }

    /// In a well-formed graph the listed sources are the keys of the
    /// adjacency structure, which are therefore finitely many.
    pub proof fn lemma_sources(&self)
        requires
            self.wf(),
        ensures
            self.sources().no_duplicates(),
            self@.dom() == self.sources().to_set(),
            self@.dom().finite(),
            self@.dom().len() == self.sources().len(),
    {
        assert(self@.dom() =~= self.sources().to_set());
        vstd::seq_lib::seq_to_set_is_finite(self.sources());
        self.sources().unique_seq_to_set();
    }

    /// An empty graph.
    pub fn new() -> (g: Self)
        ensures
            g.wf(),
            g@ == Map::<Seq<char>, Seq<Seq<char>>>::empty(),
            g.sources() == Seq::<Label>::empty(),
    {
        let g = Graph { map: StringHashMap::new(), sources: Vec::new() };
        assert(g@ =~= Map::<Seq<char>, Seq<Seq<char>>>::empty());
        assert(g.sources() =~= Seq::<Label>::empty());
        g
    }

    /// Adds the edge `from_node -> to_node`. Duplicates and self-loops are
    /// kept like any other edge.
    pub fn add_edge(&mut self, from_node: String, to_node: String)
        requires
            old(self).wf(),
        ensures
            final(self).wf(),
            final(self)@ == with_edge(old(self)@, from_node@, to_node@),
            final(self).sources() == with_source(old(self).sources(), from_node@),
    {
        let ghost listed = self.sources();
        let mut list: Vec<String> = match self.map.get(from_node.as_str()) {
            Some(existing) => copy_labels(existing),
            None => {
                self.sources.push(from_node.clone());
                assert(self.sources() =~= listed.push(from_node@));
                Vec::new()
            },
        };
        let ghost before = labels_of(list@);
        assert(before == successors(old(self)@, from_node@));
        list.push(to_node);
        assert(labels_of(list@) =~= before.push(to_node@));
        self.map.insert(from_node, list);
        assert(self@ =~= with_edge(old(self)@, from_node@, to_node@));
        proof {
            let now = self.sources();
            assert(now == with_source(listed, from_node@));
            assert forall|k: Label| self.map@.contains_key(k) <==> now.contains(k) by {
                if now == listed {
                    if now.contains(k) {
                        assert(listed.contains(k));
                    }
                } else {
                    if k == from_node@ {
                        assert(now[listed.len() as int] == k);
                    } else if listed.contains(k) {
                        let j = choose|j: int| 0 <= j < listed.len() && listed[j] == k;
                        assert(now[j] == k);
                    } else if now.contains(k) {
                        let j = choose|j: int| 0 <= j < now.len() && now[j] == k;
                        assert(listed[j] == k);
                    }
                }
            }
        }
    }

    /// The underlying map from source label to neighbour list.
    pub fn get_map(&self) -> (m: &StringHashMap<Vec<String>>)
        requires
            self.wf(),
        ensures
            m@.dom().finite(),
            adjacency_of(m@) == self@,
    {
        proof {
            self.lemma_sources();
            assert(self@.dom() =~= self.map@.dom());
        }
        &self.map
    }

    /// The neighbours of `node` in the order in which its edges were added;
    /// empty where no edge leaves it.
    pub fn neighbors_of(&self, node: &str) -> (out: Vec<String>)
        ensures
            labels_of(out@) == successors(self@, node@),
    {
        match self.map.get(node) {
            Some(list) => copy_labels(list),
            None => {
                let out: Vec<String> = Vec::new();
                assert(labels_of(out@) =~= successors(self@, node@));
                out
            },
        }
    }

    /// The number of distinct nodes that are the source of some edge.
    pub fn node_count(&self) -> (n: usize)
        requires
            self.wf(),
        ensures
            n == self@.dom().len(),
    {
        proof {
            self.lemma_sources();
        }
        self.sources.len()
    }

    /// The whole adjacency structure as a list: each source, in the order
    /// of its first appearance, with its neighbours.
    pub fn adjacency_list(&self) -> (out: Vec<(String, Vec<String>)>)
        requires
            self.wf(),
        ensures
            out@.len() == self.sources().len(),
            forall|i: int|
                0 <= i < out@.len() ==> (#[trigger] out@[i]).0@ == self.sources()[i] && labels_of(
                    out@[i].1@,
                ) == self@[self.sources()[i]],
    {
        let mut out: Vec<(String, Vec<String>)> = Vec::new();
        let mut i: usize = 0;
        while i < self.sources.len()
            invariant
                self.wf(),
                i <= self.sources.len(),
                out@.len() == i,
                forall|j: int|
                    0 <= j < i ==> (#[trigger] out@[j]).0@ == self.sources()[j] && labels_of(
                        out@[j].1@,
                    ) == self@[self.sources()[j]],
            decreases self.sources.len() - i,
        {
            let source = self.sources[i].clone();
            assert(self.sources().contains(self.sources()[i as int]));
            let list = self.neighbors_of(source.as_str());
            out.push((source, list));
            i += 1;
        }
        out
    }
}

} // verus!
