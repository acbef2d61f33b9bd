//! The graph store: a directed graph keyed by file identity, and the
//! sub-graphs that a traversal from one of its nodes extracts.

use vstd::prelude::*;
use vstd::hash_map::StringHashMap;
use crate::digraph::{
    graph_add_edge, graph_add_node, graph_edge_count, graph_edge_list, graph_edges, graph_new, graph_node,
    graph_node_count, graph_nodes, graph_predecessors, graph_successors, DiGraph,
};
use crate::file_node::{FileNode, NodeKey};
use crate::traversal::{lemma_push_keeps, lemma_sources_of, lemma_targets_of, near_end};

verus! {

/// A directed graph of files that holds at most one node for each identity.
///
/// The nodes and edges live in a `petgraph` graph; beside it an index files
/// the handle of each node under the node's identity, one table for each
/// kind of file.
pub struct HashGraph {
    graph: DiGraph,
    user_index: StringHashMap<usize>,
    system_index: StringHashMap<usize>,
}

impl HashGraph {
    /// The nodes, in the order of their handles.
    pub closed spec fn nodes(&self) -> Seq<FileNode> {
        graph_nodes(self.graph)
    }

    /// The edges as (source handle, target handle), oldest first.
    pub closed spec fn edges(&self) -> Seq<(usize, usize)> {
        graph_edges(self.graph)
    }

    /// The identity of each node, in the order of the handles.
    pub open spec fn keys(&self) -> Seq<NodeKey> {
        self.nodes().map_values(|n: FileNode| n@)
    }

    /// What the identity index holds: the handle filed under each identity.
    pub closed spec fn index(&self) -> Map<NodeKey, usize> {
        Map::new(
            |k: NodeKey|
                if k.1 {
                    self.system_index@.contains_key(k.0)
                } else {
                    self.user_index@.contains_key(k.0)
                },
            |k: NodeKey|
                if k.1 {
                    self.system_index@[k.0]
                } else {
                    self.user_index@[k.0]
                },
        )
    }

    /// The index and the nodes correspond one to one, and every edge joins
    /// two nodes of the graph.
    pub open spec fn wf(&self) -> bool {
        &&& forall|i: int| 0 <= i < self.keys().len() ==> #[trigger] self.index().contains_key(self.keys()[i])
        &&& forall|i: int| 0 <= i < self.keys().len() ==> self.index()[#[trigger] self.keys()[i]] == i
        &&& forall|k: NodeKey| #[trigger]
            self.index().contains_key(k) ==> self.index()[k] < self.keys().len() && self.keys()[self.index()[k] as int]
                == k
        &&& forall|e: int|
            0 <= e < self.edges().len() ==> (#[trigger] self.edges()[e]).0 < self.keys().len() && self.edges()[e].1
                < self.keys().len()
    }

    /// Whether a node of this identity is in the graph.
    pub open spec fn has_node(&self, key: NodeKey) -> bool {
        self.keys().contains(key)
    }

    /// The handle of the node with this identity.
    pub open spec fn handle_of(&self, key: NodeKey) -> usize {
        self.index()[key]
    }

    /// The identities at the two ends of each edge, oldest edge first.
    pub open spec fn edge_keys(&self) -> Seq<(NodeKey, NodeKey)> {
        Seq::new(
            self.edges().len(),
            |e: int| (self.keys()[self.edges()[e].0 as int], self.keys()[self.edges()[e].1 as int]),
        )
    }

    /// Whether the graph holds an edge between nodes of these identities.
    pub open spec fn has_edge_between(&self, src: NodeKey, dst: NodeKey) -> bool {
        self.edge_keys().contains((src, dst))
    }

    /// Whether some edge begins or ends at a node of this identity.
    pub open spec fn is_endpoint(&self, key: NodeKey) -> bool {
        exists|e: int|
            0 <= e < self.edge_keys().len() && ((#[trigger] self.edge_keys()[e]).0 == key || self.edge_keys()[e].1 == key)
    }

    /// No identity is held twice.
    pub proof fn lemma_keys_distinct(&self, i: int, j: int)
        requires
            self.wf(),
            0 <= i < self.keys().len(),
            0 <= j < self.keys().len(),
            self.keys()[i] == self.keys()[j],
        ensures
            i == j,
    {
        assert(self.index()[self.keys()[i]] == i);
        assert(self.index()[self.keys()[j]] == j);
    }

    /// An empty graph.
    pub fn new() -> (g: HashGraph)
        ensures
            g.wf(),
            g.nodes().len() == 0,
            g.edges().len() == 0,
    {
        HashGraph { graph: graph_new(), user_index: StringHashMap::new(), system_index: StringHashMap::new() }
    }

    /// The number of nodes.
    pub fn node_count(&self) -> (n: usize)
        ensures
            n == self.nodes().len(),
    {
        graph_node_count(&self.graph)
    }

    /// The number of edges, parallel edges counted each.
    pub fn edge_count(&self) -> (n: usize)
        ensures
            n == self.edges().len(),
    {
        graph_edge_count(&self.graph)
    }

    /// Whether the graph holds a node of this identity.
    pub fn contains_node(&self, node: &FileNode) -> (found: bool)
        requires
            self.wf(),
        ensures
            found == self.has_node(node@),
    {
        let found = if node.is_system {
            self.system_index.contains_key(node.path.as_str())
        } else {
            self.user_index.contains_key(node.path.as_str())
        };
        proof {
            assert(found == self.index().contains_key(node@));
            if found {
                assert(self.keys()[self.index()[node@] as int] == node@);
            }
        }
        found
    }

    /// The node behind a handle, if the handle names one.
    pub fn node(&self, handle: usize) -> (found: Option<&FileNode>)
        ensures
            handle >= self.nodes().len() ==> found is None,
            handle < self.nodes().len() ==> found == Some(&self.nodes()[handle as int]),
    {
        if handle < graph_node_count(&self.graph) {
            Some(graph_node(&self.graph, handle))
        } else {
            None
        }
    }

    /// Every edge as (source handle, target handle), oldest first.
    pub fn edge_list(&self) -> (found: Vec<(usize, usize)>)
        ensures
            found@ == self.edges(),
    {
        graph_edge_list(&self.graph)
    }

    /// The handles of all nodes that satisfy a predicate, in increasing
    /// order.
    pub fn find<F>(&self, pred: F) -> (found: Vec<usize>) where F: Fn(&FileNode) -> bool
        requires
            forall|i: int| 0 <= i < self.nodes().len() ==> call_requires(pred, (&#[trigger] self.nodes()[i],)),
        ensures
            forall|k: int| 0 <= k < found@.len() ==> (#[trigger] found@[k]) < self.nodes().len(),
            forall|k: int, l: int| 0 <= k < l < found@.len() ==> found@[k] < found@[l],
            forall|k: int|
                0 <= k < found@.len() ==> call_ensures(pred, (&self.nodes()[(#[trigger] found@[k]) as int],), true),
            forall|i: usize|
                i < self.nodes().len() && !found@.contains(i) ==> call_ensures(
                    pred,
                    (&#[trigger] self.nodes()[i as int],),
                    false,
                ),
    {
        let n = graph_node_count(&self.graph);
        let mut found: Vec<usize> = Vec::new();
        let mut i: usize = 0;
        while i < n
            invariant
                n == self.nodes().len(),
                i <= n,
                forall|i: int| 0 <= i < self.nodes().len() ==> call_requires(pred, (&#[trigger] self.nodes()[i],)),
                forall|k: int| 0 <= k < found@.len() ==> (#[trigger] found@[k]) < i,
                forall|k: int, l: int| 0 <= k < l < found@.len() ==> found@[k] < found@[l],
                forall|k: int| 0 <= k < found@.len() ==> call_ensures(pred, (&self.nodes()[(#[trigger] found@[k]) as int],), true),
                forall|h: usize| h < i && !found@.contains(h) ==> call_ensures(pred, (&#[trigger] self.nodes()[h as int],), false),
            decreases n - i,
        {
            let ghost before = found@;
            if pred(graph_node(&self.graph, i)) {
                found.push(i);
                proof {
                    lemma_push_keeps(before, i);
                }
            }
            proof {
                assert forall|h: usize| h < i + 1 && !found@.contains(h) implies call_ensures(pred, (&#[trigger] self.nodes()[h as int],), false) by {
                    if h == i {
                        if found@.len() > before.len() {
                            assert(found@[before.len() as int] == i);
                        }
                    } else {
                        if before.contains(h) {
                            let k = choose|k: int| 0 <= k < before.len() && before[k] == h;
                            assert(found@[k] == h);
                        }
                    }
                }
            }
            i += 1;
        }
        found
    }

    /// The handle of the node with this identity, inserting the node first
    /// if the graph does not hold it yet.
    pub fn require_node(&mut self, node: FileNode) -> (handle: usize)
        requires
            old(self).wf(),
        ensures
            final(self).wf(),
            final(self).edges() == old(self).edges(),
            final(self).nodes() == if old(self).has_node(node@) {
                old(self).nodes()
            } else {
                old(self).nodes().push(node)
            },
            handle < final(self).keys().len(),
            final(self).keys()[handle as int] == node@,
    {
        let ghost key = node@;
        let known = if node.is_system {
            self.system_index.get(node.path.as_str())
        } else {
            self.user_index.get(node.path.as_str())
        };
        match known {
            Some(handle) => {
                let handle: usize = *handle;
                proof {
                    assert(self.index().contains_key(key));
                    assert(self.keys()[handle as int] == key);
                }
                handle
            },
            None => {
                proof {
                    assert(!self.index().contains_key(key));
                    if self.has_node(key) {
                        let i = choose|i: int| 0 <= i < self.keys().len() && self.keys()[i] == key;
                        assert(self.index().contains_key(self.keys()[i]));
                    }
                }
                let path = node.path.clone();
                let is_system = node.is_system;
                let handle = graph_add_node(&mut self.graph, node);
                if is_system {
                    self.system_index.insert(path, handle);
                } else {
                    self.user_index.insert(path, handle);
                }
                proof {
                    assert(self.keys() =~= old(self).keys().push(key));
                    assert(self.index() =~= old(self).index().insert(key, handle));
                    assert forall|i: int| 0 <= i < self.keys().len() implies #[trigger] self.index().contains_key(
                        self.keys()[i],
                    ) && self.index()[self.keys()[i]] == i by {
                        if i < old(self).keys().len() {
                            assert(old(self).index().contains_key(old(self).keys()[i]));
                        }
                    }
                    assert forall|k: NodeKey| #[trigger] self.index().contains_key(k) implies self.index()[k]
                        < self.keys().len() && self.keys()[self.index()[k] as int] == k by {
                        if k != key {
                            assert(old(self).index().contains_key(k));
                        }
                    }
                    assert forall|e: int| 0 <= e < self.edges().len() implies (#[trigger] self.edges()[e]).0
                        < self.keys().len() && self.edges()[e].1 < self.keys().len() by {
                        assert(old(self).edges()[e].0 < old(self).keys().len());
                    }
                }
                handle
            },
        }
    }

    /// Adds a directed edge from `src_node` to `dst_node`, creating either
    /// node if the graph does not hold it yet. An edge that is already there
    /// is added once more.
    pub fn add_edge(&mut self, src_node: FileNode, dst_node: FileNode)
        requires
            old(self).wf(),
        ensures
            final(self).wf(),
            final(self).keys() == with_key(with_key(old(self).keys(), src_node@), dst_node@),
            final(self).edge_keys() == old(self).edge_keys().push((src_node@, dst_node@)),
            final(self).edges().len() == old(self).edges().len() + 1,
            final(self).edges().drop_last() == old(self).edges(),
    {
        let ghost src = src_node@;
        let ghost dst = dst_node@;
        let src_node_idx = self.require_node(src_node);
        let ghost mid = *self;
        let dst_node_idx = self.require_node(dst_node);
        let ghost grown = *self;
        graph_add_edge(&mut self.graph, src_node_idx, dst_node_idx);
        proof {
            assert(mid.keys() =~= with_key(old(self).keys(), src));
            assert(grown.keys() =~= with_key(mid.keys(), dst));
            assert(self.keys() == grown.keys());
            assert(self.index() == grown.index());
            assert(grown.keys()[src_node_idx as int] == src) by {
                assert(mid.keys()[src_node_idx as int] == src);
            }
            assert(self.edges().drop_last() =~= old(self).edges());
            assert forall|e: int| 0 <= e < self.edges().len() implies (#[trigger] self.edges()[e]).0
                < self.keys().len() && self.edges()[e].1 < self.keys().len() by {
                if e < grown.edges().len() {
                    assert(grown.edges()[e].0 < grown.keys().len());
                }
            }
            assert forall|e: int| 0 <= e < old(self).edges().len() implies self.edge_keys()[e] == old(
                self,
            ).edge_keys()[e] by {
                assert(old(self).edges()[e].0 < old(self).keys().len());
            }
            assert(self.edge_keys() =~= old(self).edge_keys().push((src, dst)));
        }
    }

    /// The sub-graph of all that the file behind `root_node` pulls in,
    /// directly or through other files: the tree of a breadth-first traversal
    /// along the edges. The result is empty where the handle names no node.
    pub fn filter_included_by(&self, root_node: usize) -> (sub: HashGraph)
        requires
            self.wf(),
        ensures
            sub.wf(),
            root_node >= self.nodes().len() ==> sub.nodes().len() == 0 && sub.edges().len() == 0,
            root_node < self.nodes().len() ==> self.spans_from(sub, root_node, true),
    {
        self.traverse(root_node, true)
    }

    /// The sub-graph of all that pulls in the file behind `root_node`,
    /// directly or through other files: the tree of a breadth-first traversal
    /// against the edges, each edge kept in the direction that it has in this
    /// graph. The result is empty where the handle names no node.
    pub fn filter_that_includes(&self, root_node: usize) -> (sub: HashGraph)
        requires
            self.wf(),
        ensures
            sub.wf(),
            root_node >= self.nodes().len() ==> sub.nodes().len() == 0 && sub.edges().len() == 0,
            root_node < self.nodes().len() ==> self.spans_from(sub, root_node, false),
    {
        self.traverse(root_node, false)
    }

    /// The sub-graph of all that is related to the file behind `root_node`:
    /// the two traversals of `filter_included_by` and `filter_that_includes`,
    /// made apart and put into one graph, the edges of the first before those
    /// of the second. The result is empty where the handle names no node.
    pub fn filter_bidirectional(&self, root_node: usize) -> (sub: HashGraph)
        requires
            self.wf(),
        ensures
            sub.wf(),
            root_node >= self.nodes().len() ==> sub.nodes().len() == 0 && sub.edges().len() == 0,
            root_node < self.nodes().len() ==> {
                &&& forall|key: NodeKey| #[trigger]
                    sub.has_node(key) <==> exists|i: usize|
                        i < self.keys().len() && self.keys()[i as int] == key && #[trigger] self.related(root_node, i)
                &&& exists|down: HashGraph, up: HashGraph|
                    {
                        &&& #[trigger] self.spans_from(down, root_node, true)
                        &&& #[trigger] self.spans_from(up, root_node, false)
                        &&& sub.keys() == keys_after(down.keys(), up.edge_keys())
                        &&& sub.edge_keys() == down.edge_keys() + up.edge_keys()
                    }
            },
    {
        let down = self.traverse(root_node, true);
        let up = self.traverse(root_node, false);
        let mut sub = down;
        sub.absorb(&up);
        proof {
            if root_node < self.nodes().len() {
                assert forall|key: NodeKey| up.has_node(key) implies up.is_endpoint(key) || down.has_node(key) by {
                    let i = choose|i: int| 0 <= i < up.keys().len() && up.keys()[i] == key;
                    if i == 0 {
                        assert(down.keys()[0] == key);
                    } else {
                        let edge = up.edges()[i - 1];
                        assert(edge.0 == i);
                        assert(up.edge_keys()[i - 1].0 == key);
                    }
                }
                assert forall|key: NodeKey| up.is_endpoint(key) implies up.has_node(key) by {
                    let e = choose|e: int| 0 <= e < up.edge_keys().len() && ((#[trigger] up.edge_keys()[e]).0 == key || up.edge_keys()[e].1 == key);
                    let edge = up.edges()[e];
                    assert(edge.0 < up.keys().len() && edge.1 < up.keys().len());
                }
                assert forall|key: NodeKey| #[trigger]
                    sub.has_node(key) <==> exists|i: usize|
                        i < self.keys().len() && self.keys()[i as int] == key && #[trigger] self.related(root_node, i) by {
                    assert(sub.has_node(key) <==> down.has_node(key) || up.has_node(key));
                    if down.has_node(key) {
                        let i = choose|i: usize| i < self.keys().len() && self.keys()[i as int] == key && #[trigger] self.reaches(root_node, i, true);
                        assert(self.related(root_node, i));
                    }
                    if up.has_node(key) {
                        let i = choose|i: usize| i < self.keys().len() && self.keys()[i as int] == key && #[trigger] self.reaches(root_node, i, false);
                        assert(self.related(root_node, i));
                    }
                    if exists|i: usize| i < self.keys().len() && self.keys()[i as int] == key && #[trigger] self.related(root_node, i) {
                        let i = choose|i: usize| i < self.keys().len() && self.keys()[i as int] == key && #[trigger] self.related(root_node, i);
                        if self.reaches(root_node, i, true) {
                            assert(down.has_node(key));
                        } else {
                            assert(up.has_node(key));
                        }
                    }
                }
            } else {
                assert(up.edge_keys() =~= Seq::<(NodeKey, NodeKey)>::empty());
                assert(sub.edge_keys().len() == 0);
                assert(!up.is_endpoint(arbitrary()));
                assert forall|key: NodeKey| !sub.has_node(key) by {
                    assert(!up.is_endpoint(key));
                    assert(down.keys().len() == 0);
                }
                assert(sub.keys().len() == 0) by {
                    if sub.keys().len() > 0 {
                        assert(sub.has_node(sub.keys()[0]));
                    }
                }
            }
        }
        sub
    }

    /// A breadth-first traversal from `root_node`, along the edges when
    /// `outgoing` and against them otherwise. The result holds the root and,
    /// for each node that the traversal discovers, the edge by which it first
    /// arrived there.
    fn traverse(&self, root_node: usize, outgoing: bool) -> (sub: HashGraph)
        requires
            self.wf(),
        ensures
            sub.wf(),
            root_node >= self.nodes().len() ==> sub.nodes().len() == 0 && sub.edges().len() == 0,
            root_node < self.nodes().len() ==> self.spans_from(sub, root_node, outgoing),
    {
        let mut sub = HashGraph::new();
        let n = self.node_count();
        if root_node >= n {
            return sub;
        }
        sub.require_node(graph_node(&self.graph, root_node).clone());
        let mut order: Vec<usize> = Vec::new();
        order.push(root_node);
        let mut head: usize = 0;
        proof {
            self.lemma_reaches_self(root_node, outgoing);
            assert(sub.keys() =~= seq![self.keys()[root_node as int]]);
        }
        while head < order.len()
            invariant
                self.wf(),
                n == self.nodes().len(),
                root_node < n,
                head <= order.len(),
                self.search_inv(sub, order@, root_node, outgoing, head as int),
                forall|i: int| 0 <= i < head ==> self.steps_land_in(#[trigger] order@[i], order@, outgoing),
            decreases n - head,
        {
            proof {
                self.lemma_seen_distinct(sub, order@, root_node, outgoing, head as int);
            }
            let cur = order[head];
            let found = if outgoing {
                graph_successors(&self.graph, cur)
            } else {
                graph_predecessors(&self.graph, cur)
            };
            proof {
                lemma_targets_of(self.edges(), cur);
                lemma_sources_of(self.edges(), cur);
                assert forall|b: usize| found@.contains(b) <==> self.linked(cur, b, outgoing) by {}
            }
            let mut j: usize = 0;
            while j < found.len()
                invariant
                    self.wf(),
                    n == self.nodes().len(),
                    root_node < n,
                    head < order.len(),
                    order@[head as int] == cur,
                    found@ == self.neighbours(cur, outgoing),
                    j <= found.len(),
                    self.search_inv(sub, order@, root_node, outgoing, head + 1),
                    forall|i: int| 0 <= i < head ==> self.steps_land_in(#[trigger] order@[i], order@, outgoing),
                    forall|b: usize| found@.contains(b) <==> self.linked(cur, b, outgoing),
                    forall|k: int| 0 <= k < j ==> order@.contains(#[trigger] found@[k]),
                    forall|e: int|
                        0 <= e < sub.edges().len() && near_end(#[trigger] sub.edges()[e], outgoing) == head ==> exists|k: int|
                            0 <= k < j && #[trigger] found@[k] == order@[e + 1],
                decreases found.len() - j,
            {
                let nb = found[j];
                proof {
                    assert(found@.contains(nb));
                    assert(self.linked(cur, nb, outgoing));
                    let pair = if outgoing {
                        (cur, nb)
                    } else {
                        (nb, cur)
                    };
                    let k = choose|k: int| 0 <= k < self.edges().len() && self.edges()[k] == pair;
                    assert(self.edges()[k].0 < self.keys().len() && self.edges()[k].1 < self.keys().len());
                    assert(cur < self.keys().len());
                    self.lemma_seen_is_held(sub, order@, root_node, outgoing, head + 1, nb);
                    assert(self.nodes()[nb as int]@ == self.keys()[nb as int]);
                    assert(self.nodes()[cur as int]@ == self.keys()[cur as int]);
                }
                let nb_node = graph_node(&self.graph, nb);
                if !sub.contains_node(nb_node) {
                    let cur_node = graph_node(&self.graph, cur);
                    let ghost before = sub;
                    let ghost seen = order@;
                    if outgoing {
                        sub.add_edge(cur_node.clone(), nb_node.clone());
                    } else {
                        sub.add_edge(nb_node.clone(), cur_node.clone());
                    }
                    order.push(nb);
                    proof {
                        self.lemma_search_step(before, sub, seen, root_node, outgoing, head as int, j as int, nb);
                        assert forall|i: int| 0 <= i < head implies self.steps_land_in(#[trigger] order@[i], order@, outgoing) by {
                            assert(self.steps_land_in(seen[i], seen, outgoing));
                            lemma_push_keeps(seen, nb);
                        }
                        assert forall|k: int| 0 <= k < j implies order@.contains(#[trigger] found@[k]) by {
                            assert(seen.contains(found@[k]));
                            lemma_push_keeps(seen, nb);
                        }
                        assert(order@[seen.len() as int] == nb);
                    }
                } else {
                    proof {
                        assert forall|e: int|
                            0 <= e < sub.edges().len() && near_end(#[trigger] sub.edges()[e], outgoing) == head implies exists|k: int|
                            0 <= k < j + 1 && #[trigger] found@[k] == order@[e + 1] by {
                            let k = choose|k: int| 0 <= k < j && #[trigger] found@[k] == order@[e + 1];
                            assert(found@[k] == order@[e + 1]);
                        }
                    }
                }
                j += 1;
            }
            proof {
                assert forall|b: usize| #[trigger] self.linked(cur, b, outgoing) implies order@.contains(b) by {
                    assert(found@.contains(b));
                    let k = choose|k: int| 0 <= k < found@.len() && found@[k] == b;
                    assert(order@.contains(found@[k]));
                }
            }
            head += 1;
        }
        proof {
            self.lemma_search_done(sub, order@, root_node, outgoing);
        }
        sub
    }

    /// Adds every edge of `other` to this graph, oldest first, with the nodes
    /// at its ends.
    fn absorb(&mut self, other: &HashGraph)
        requires
            old(self).wf(),
            other.wf(),
        ensures
            final(self).wf(),
            final(self).keys() == keys_after(old(self).keys(), other.edge_keys()),
            final(self).edge_keys() == old(self).edge_keys() + other.edge_keys(),
            forall|key: NodeKey| #[trigger]
                final(self).has_node(key) <==> old(self).has_node(key) || other.is_endpoint(key),
    {
        let edges = graph_edge_list(&other.graph);
        let mut e: usize = 0;
        while e < edges.len()
            invariant
                self.wf(),
                other.wf(),
                edges@ == other.edges(),
                e <= edges.len(),
                self.keys() == keys_after(old(self).keys(), other.edge_keys().take(e as int)),
                self.edge_keys() == old(self).edge_keys() + other.edge_keys().take(e as int),
                forall|key: NodeKey| #[trigger]
                    self.has_node(key) <==> old(self).has_node(key) || exists|d: int|
                        0 <= d < e && ((#[trigger] other.edge_keys()[d]).0 == key || other.edge_keys()[d].1 == key),
            decreases edges.len() - e,
        {
            let (a, b) = edges[e];
            proof {
                assert(other.edges()[e as int] == (a, b));
                assert(a < other.keys().len() && b < other.keys().len());
                assert(other.nodes()[a as int]@ == other.keys()[a as int]);
                assert(other.nodes()[b as int]@ == other.keys()[b as int]);
            }
            let ghost before = *self;
            let src = graph_node(&other.graph, a).clone();
            let dst = graph_node(&other.graph, b).clone();
            self.add_edge(src, dst);
            proof {
                let pair = other.edge_keys()[e as int];
                assert(pair == (src@, dst@));
                assert(other.edge_keys().take(e as int + 1) =~= other.edge_keys().take(e as int).push(pair));
                assert(other.edge_keys().take(e as int + 1).drop_last() =~= other.edge_keys().take(e as int));
                assert(self.edge_keys() =~= old(self).edge_keys() + other.edge_keys().take(e as int + 1));
                lemma_with_key(before.keys(), pair.0);
                lemma_with_key(with_key(before.keys(), pair.0), pair.1);
                assert forall|key: NodeKey| #[trigger]
                    self.has_node(key) <==> old(self).has_node(key) || exists|d: int|
                        0 <= d < e + 1 && ((#[trigger] other.edge_keys()[d]).0 == key || other.edge_keys()[d].1 == key) by {
                    assert(self.has_node(key) <==> before.has_node(key) || key == pair.0 || key == pair.1);
                    if key == pair.0 || key == pair.1 {
                        assert(other.edge_keys()[e as int].0 == key || other.edge_keys()[e as int].1 == key);
                    }
                }
            }
            e += 1;
        }
        proof {
            assert(other.edge_keys().take(e as int) =~= other.edge_keys());
        }
    }
}

/// The identities `keys` with `k` appended unless it is among them already.
pub open spec fn with_key(keys: Seq<NodeKey>, k: NodeKey) -> Seq<NodeKey> {
    if keys.contains(k) {
        keys
    } else {
        keys.push(k)
    }
}

/// What `with_key` holds: what was there, and `k`.
pub proof fn lemma_with_key(keys: Seq<NodeKey>, k: NodeKey)
    ensures
        forall|x: NodeKey| #[trigger] with_key(keys, k).contains(x) <==> keys.contains(x) || x == k,
        keys.no_duplicates() ==> with_key(keys, k).no_duplicates(),
{
    assert forall|x: NodeKey| #[trigger] with_key(keys, k).contains(x) <==> keys.contains(x) || x == k by {
        if keys.contains(k) {
        } else {
            let grown = keys.push(k);
            if keys.contains(x) {
                let i = choose|i: int| 0 <= i < keys.len() && keys[i] == x;
                assert(grown[i] == x);
            }
            if x == k {
                assert(grown[keys.len() as int] == x);
            }
            if grown.contains(x) {
                let i = choose|i: int| 0 <= i < grown.len() && grown[i] == x;
                if i < keys.len() {
                    assert(keys[i] == x);
                }
            }
        }
    }
}

/// The identities that a graph holds after edges between the pairs of
/// `pairs` were added, one `add_edge` call for each pair and in their order,
/// to a graph that held `start`.
pub open spec fn keys_after(start: Seq<NodeKey>, pairs: Seq<(NodeKey, NodeKey)>) -> Seq<NodeKey>
    decreases pairs.len(),
{
    if pairs.len() == 0 {
        start
    } else {
        with_key(with_key(keys_after(start, pairs.drop_last()), pairs.last().0), pairs.last().1)
    }
}

/// The identities that occur in `pairs`, at either end.
pub open spec fn referenced(pairs: Seq<(NodeKey, NodeKey)>) -> Set<NodeKey> {
    Set::new(|k: NodeKey| exists|i: int| 0 <= i < pairs.len() && ((#[trigger] pairs[i]).0 == k || pairs[i].1 == k))
}

/// Node insertion is idempotent: whatever edges are added, in whatever order
/// and however often, the graph holds each identity that was there or that
/// an edge names exactly once, and no other. The number of nodes of a graph
/// built from nothing is therefore the number of different identities named.
pub proof fn lemma_one_node_per_identity(start: Seq<NodeKey>, pairs: Seq<(NodeKey, NodeKey)>)
    requires
        start.no_duplicates(),
    ensures
        keys_after(start, pairs).no_duplicates(),
        keys_after(start, pairs).to_set() == start.to_set().union(referenced(pairs)),
        start.len() == 0 ==> referenced(pairs).finite() && keys_after(start, pairs).len() == referenced(pairs).len(),
    decreases pairs.len(),
{
    let keys = keys_after(start, pairs);
    if pairs.len() == 0 {
        assert(keys.to_set() =~= start.to_set().union(referenced(pairs)));
    } else {
        let rest = pairs.drop_last();
        let last = pairs.last();
        lemma_one_node_per_identity(start, rest);
        let base = keys_after(start, rest);
        lemma_with_key(base, last.0);
        lemma_with_key(with_key(base, last.0), last.1);
        assert forall|k: NodeKey| keys.to_set().contains(k) <==> start.to_set().union(referenced(pairs)).contains(k) by {
            assert(keys.contains(k) <==> base.contains(k) || k == last.0 || k == last.1);
            assert(base.to_set().contains(k) <==> start.to_set().contains(k) || referenced(rest).contains(k));
            if referenced(rest).contains(k) {
                let i = choose|i: int| 0 <= i < rest.len() && ((#[trigger] rest[i]).0 == k || rest[i].1 == k);
                assert(pairs[i] == rest[i]);
            }
            if k == last.0 || k == last.1 {
                assert(pairs[pairs.len() - 1].0 == k || pairs[pairs.len() - 1].1 == k);
            }
            if referenced(pairs).contains(k) {
                let i = choose|i: int| 0 <= i < pairs.len() && ((#[trigger] pairs[i]).0 == k || pairs[i].1 == k);
                if i < rest.len() {
                    assert(rest[i] == pairs[i]);
                }
            }
        }
        assert(keys.to_set() =~= start.to_set().union(referenced(pairs)));
    }
    if start.len() == 0 {
        assert(start.to_set() =~= Set::<NodeKey>::empty());
        assert(keys.to_set() =~= referenced(pairs));
        keys.unique_seq_to_set();
    }
}

} // verus!
