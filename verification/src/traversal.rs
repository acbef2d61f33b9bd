//! What a breadth-first traversal of a graph is, and why the loop in
//! `HashGraph` builds one.

use vstd::prelude::*;
use crate::digraph::{sources_of, targets_of};
use crate::file_node::NodeKey;
use crate::hash_graph::{with_key, HashGraph};

verus! {

/// The end of a tree edge at the node that was discovered.
pub open spec fn far_end(edge: (usize, usize), outgoing: bool) -> usize {
    if outgoing {
        edge.1
    } else {
        edge.0
    }
}

/// The end of a tree edge at the discoverer.
pub open spec fn near_end(edge: (usize, usize), outgoing: bool) -> usize {
    if outgoing {
        edge.0
    } else {
        edge.1
    }
}

/// Whether `a` occurs in `list` before `b` first does.
pub open spec fn comes_before(list: Seq<usize>, a: usize, b: usize) -> bool {
    exists|j: int| 0 <= j < list.len() && #[trigger] list[j] == a && forall|k: int| 0 <= k <= j ==> #[trigger] list[k] != b
}

impl HashGraph {
    /// Whether some edge runs from `a` to `b`.
    pub open spec fn has_edge(&self, a: usize, b: usize) -> bool {
        self.edges().contains((a, b))
    }

    /// One step of a traversal: along an edge from `a` to `b` when
    /// `outgoing`, against an edge from `b` to `a` otherwise.
    pub open spec fn linked(&self, a: usize, b: usize, outgoing: bool) -> bool {
        if outgoing {
            self.has_edge(a, b)
        } else {
            self.has_edge(b, a)
        }
    }

    /// Whether `walk` is a sequence of handles in which each is one step
    /// away from the one before it.
    pub open spec fn is_walk(&self, walk: Seq<usize>, outgoing: bool) -> bool {
        &&& walk.len() > 0
        &&& forall|i: int| 0 <= i < walk.len() - 1 ==> self.linked(#[trigger] walk[i], walk[i + 1], outgoing)
    }

    /// Whether a traversal from `root` arrives at `node`: by following edges
    /// when `outgoing`, by following them backwards otherwise. Every node is
    /// reached from itself.
    pub open spec fn reaches(&self, root: usize, node: usize, outgoing: bool) -> bool {
        exists|walk: Seq<usize>| #[trigger] self.is_walk(walk, outgoing) && walk.first() == root && walk.last() == node
    }

    /// Whether a traversal from `root` arrives at `node` one way or the
    /// other: along the edges, or against them.
    pub open spec fn related(&self, root: usize, node: usize) -> bool {
        self.reaches(root, node, true) || self.reaches(root, node, false)
    }

    /// The neighbours of `a` in the order in which a traversal meets them:
    /// the far ends of the edges at `a`, newest edge first.
    pub open spec fn neighbours(&self, a: usize, outgoing: bool) -> Seq<usize> {
        if outgoing {
            targets_of(self.edges(), a)
        } else {
            sources_of(self.edges(), a)
        }
    }

    /// Whether `sub` is the tree that a breadth-first traversal of this
    /// graph from `root` builds.
    ///
    /// The first node of `sub` is the root, and the nodes of `sub` are what
    /// the traversal reaches. Every node but the root comes with exactly one
    /// edge, the one by which the traversal first arrived at it: edge number
    /// `e` joins node `e + 1` to its discoverer, a node with a smaller
    /// handle, and runs the way it runs in this graph. Nodes are discovered
    /// in the order of their discoverers; the discoverer of a node is the
    /// first node of `sub` with a step to it; and nodes with one discoverer
    /// stand in the order in which they are listed among its neighbours.
    pub open spec fn spans_from(&self, sub: HashGraph, root: usize, outgoing: bool) -> bool {
        &&& sub.wf()
        &&& sub.keys().len() > 0
        &&& sub.keys()[0] == self.keys()[root as int]
        &&& forall|key: NodeKey| #[trigger]
            sub.has_node(key) <==> exists|i: usize|
                i < self.keys().len() && self.keys()[i as int] == key && #[trigger] self.reaches(root, i, outgoing)
        &&& sub.edges().len() + 1 == sub.keys().len()
        &&& forall|e: int|
            0 <= e < sub.edges().len() ==> {
                let edge = #[trigger] sub.edges()[e];
                &&& far_end(edge, outgoing) == e + 1
                &&& near_end(edge, outgoing) <= e
                &&& self.has_edge_between(sub.keys()[edge.0 as int], sub.keys()[edge.1 as int])
            }
        &&& forall|d: int, e: int|
            0 <= d <= e < sub.edges().len() ==> near_end(#[trigger] sub.edges()[d], outgoing) <= near_end(
                #[trigger] sub.edges()[e],
                outgoing,
            )
        &&& forall|e: int, i: int|
            0 <= e < sub.edges().len() && 0 <= i < near_end(sub.edges()[e], outgoing) ==> !self.linked(
                self.handle_of(#[trigger] sub.keys()[i]),
                self.handle_of(#[trigger] sub.keys()[e + 1]),
                outgoing,
            )
        &&& forall|d: int, e: int|
            0 <= d < e < sub.edges().len() && near_end(sub.edges()[d], outgoing) == near_end(sub.edges()[e], outgoing)
                ==> comes_before(
                self.neighbours(self.handle_of(sub.keys()[near_end(sub.edges()[e], outgoing) as int]), outgoing),
                self.handle_of(#[trigger] sub.keys()[d + 1]),
                self.handle_of(#[trigger] sub.keys()[e + 1]),
            )
    }

    /// Whether every step from a handle in `seen` ends in `seen`.
    pub open spec fn closed_under_steps(&self, seen: Seq<usize>, outgoing: bool) -> bool {
        forall|a: usize, b: usize| seen.contains(a) && #[trigger] self.linked(a, b, outgoing) ==> seen.contains(b)
    }

    /// Whether every step from `a` ends in `seen`.
    pub open spec fn steps_land_in(&self, a: usize, seen: Seq<usize>, outgoing: bool) -> bool {
        forall|b: usize| #[trigger] self.linked(a, b, outgoing) ==> seen.contains(b)
    }

    /// What holds of a traversal under way: `seen` lists, in the order of
    /// discovery, the handles in this graph of the nodes of `sub`, and no
    /// node from number `limit` on has discovered anything yet.
    pub(crate) open spec fn search_inv(
        &self,
        sub: HashGraph,
        seen: Seq<usize>,
        root: usize,
        outgoing: bool,
        limit: int,
    ) -> bool {
        &&& sub.wf()
        &&& seen.len() == sub.keys().len()
        &&& seen.len() > 0
        &&& seen[0] == root
        &&& forall|i: int| 0 <= i < seen.len() ==> #[trigger] seen[i] < self.keys().len()
        &&& forall|i: int| 0 <= i < seen.len() ==> #[trigger] sub.keys()[i] == self.keys()[seen[i] as int]
        &&& forall|i: int| 0 <= i < seen.len() ==> self.reaches(root, #[trigger] seen[i], outgoing)
        &&& sub.edges().len() + 1 == seen.len()
        &&& forall|e: int|
            0 <= e < sub.edges().len() ==> {
                let edge = #[trigger] sub.edges()[e];
                &&& far_end(edge, outgoing) == e + 1
                &&& near_end(edge, outgoing) <= e
                &&& near_end(edge, outgoing) < limit
                &&& self.linked(seen[near_end(edge, outgoing) as int], seen[e + 1], outgoing)
            }
        &&& forall|d: int, e: int|
            0 <= d <= e < sub.edges().len() ==> near_end(#[trigger] sub.edges()[d], outgoing) <= near_end(
                #[trigger] sub.edges()[e],
                outgoing,
            )
        &&& forall|e: int, i: int|
            0 <= e < sub.edges().len() && 0 <= i < near_end(sub.edges()[e], outgoing) ==> !self.linked(
                #[trigger] seen[i],
                #[trigger] seen[e + 1],
                outgoing,
            )
        &&& forall|d: int, e: int|
            0 <= d < e < sub.edges().len() && near_end(sub.edges()[d], outgoing) == near_end(sub.edges()[e], outgoing)
                ==> comes_before(
                self.neighbours(seen[near_end(sub.edges()[e], outgoing) as int], outgoing),
                #[trigger] seen[d + 1],
                #[trigger] seen[e + 1],
            )
    }

    /// A walk that starts inside a set closed under steps never leaves it.
    pub(crate) proof fn lemma_walk_stays(&self, seen: Seq<usize>, walk: Seq<usize>, outgoing: bool, i: int)
        requires
            self.is_walk(walk, outgoing),
            seen.contains(walk.first()),
            self.closed_under_steps(seen, outgoing),
            0 <= i < walk.len(),
        ensures
            seen.contains(walk[i]),
        decreases i,
    {
        if i > 0 {
            self.lemma_walk_stays(seen, walk, outgoing, i - 1);
            assert(self.linked(walk[i - 1], walk[i - 1 + 1], outgoing));
        }
    }

    /// A walk can be extended by one step.
    pub(crate) proof fn lemma_reaches_step(&self, root: usize, a: usize, b: usize, outgoing: bool)
        requires
            self.reaches(root, a, outgoing),
            self.linked(a, b, outgoing),
        ensures
            self.reaches(root, b, outgoing),
    {
        let walk = choose|walk: Seq<usize>| #[trigger] self.is_walk(walk, outgoing) && walk.first() == root && walk.last() == a;
        let longer = walk.push(b);
        assert forall|i: int| 0 <= i < longer.len() - 1 implies self.linked(#[trigger] longer[i], longer[i + 1], outgoing) by {
            if i < walk.len() - 1 {
                assert(self.linked(walk[i], walk[i + 1], outgoing));
            }
        }
        assert(self.is_walk(longer, outgoing));
        assert(longer.first() == root && longer.last() == b);
    }

    /// Every node is reached from itself.
    pub(crate) proof fn lemma_reaches_self(&self, root: usize, outgoing: bool)
        ensures
            self.reaches(root, root, outgoing),
    {
        let walk = seq![root];
        assert(self.is_walk(walk, outgoing));
        assert(walk.first() == root && walk.last() == root);
    }

    /// A node of `sub` has the identity of a handle exactly when the
    /// traversal has seen that handle.
    pub(crate) proof fn lemma_seen_is_held(
        &self,
        sub: HashGraph,
        seen: Seq<usize>,
        root: usize,
        outgoing: bool,
        limit: int,
        a: usize,
    )
        requires
            self.wf(),
            self.search_inv(sub, seen, root, outgoing, limit),
            a < self.keys().len(),
        ensures
            sub.has_node(self.keys()[a as int]) <==> seen.contains(a),
    {
        if sub.has_node(self.keys()[a as int]) {
            let i = choose|i: int| 0 <= i < sub.keys().len() && sub.keys()[i] == self.keys()[a as int];
            assert(sub.keys()[i] == self.keys()[seen[i] as int]);
            self.lemma_keys_distinct(seen[i] as int, a as int);
            assert(seen[i] == a);
        }
        if seen.contains(a) {
            let i = choose|i: int| 0 <= i < seen.len() && seen[i] == a;
            assert(sub.keys()[i] == self.keys()[seen[i] as int]);
        }
    }

    /// The handles that a traversal has seen are all different.
    pub(crate) proof fn lemma_seen_distinct(
        &self,
        sub: HashGraph,
        seen: Seq<usize>,
        root: usize,
        outgoing: bool,
        limit: int,
    )
        requires
            self.wf(),
            self.search_inv(sub, seen, root, outgoing, limit),
        ensures
            seen.no_duplicates(),
            seen.len() <= self.keys().len(),
    {
        assert forall|i: int, j: int| 0 <= i < seen.len() && 0 <= j < seen.len() && i != j implies seen[i] != seen[j] by {
            if seen[i] == seen[j] {
                assert(sub.keys()[i] == self.keys()[seen[i] as int]);
                assert(sub.keys()[j] == self.keys()[seen[j] as int]);
                sub.lemma_keys_distinct(i, j);
            }
        }
        lemma_distinct_bounded(seen, self.keys().len());
    }

    /// Once no step leaves the handles seen, the traversal has built its
    /// tree.
    pub(crate) proof fn lemma_search_done(&self, sub: HashGraph, seen: Seq<usize>, root: usize, outgoing: bool)
        requires
            self.wf(),
            self.search_inv(sub, seen, root, outgoing, seen.len() as int),
            forall|i: int| 0 <= i < seen.len() ==> self.steps_land_in(#[trigger] seen[i], seen, outgoing),
        ensures
            self.spans_from(sub, root, outgoing),
    {
        assert(sub.keys()[0] == self.keys()[seen[0] as int]);
        assert forall|i: int| 0 <= i < seen.len() implies self.handle_of(#[trigger] sub.keys()[i]) == seen[i] by {
            assert(sub.keys()[i] == self.keys()[seen[i] as int]);
            assert(self.index()[self.keys()[seen[i] as int]] == seen[i]);
        }
        assert(self.closed_under_steps(seen, outgoing)) by {
            assert forall|a: usize, b: usize| seen.contains(a) && #[trigger] self.linked(a, b, outgoing) implies seen.contains(b) by {
                let i = choose|i: int| 0 <= i < seen.len() && seen[i] == a;
                assert(self.steps_land_in(seen[i], seen, outgoing));
            }
        }
        assert forall|key: NodeKey| #[trigger]
            sub.has_node(key) <==> exists|i: usize|
                i < self.keys().len() && self.keys()[i as int] == key && #[trigger] self.reaches(root, i, outgoing) by {
            if sub.has_node(key) {
                let k = choose|k: int| 0 <= k < sub.keys().len() && sub.keys()[k] == key;
                assert(sub.keys()[k] == self.keys()[seen[k] as int]);
                assert(seen[k] < self.keys().len());
                assert(self.reaches(root, seen[k], outgoing));
            }
            if exists|i: usize| i < self.keys().len() && self.keys()[i as int] == key && #[trigger] self.reaches(root, i, outgoing) {
                let i = choose|i: usize| i < self.keys().len() && self.keys()[i as int] == key && #[trigger] self.reaches(root, i, outgoing);
                let walk = choose|walk: Seq<usize>| #[trigger] self.is_walk(walk, outgoing) && walk.first() == root && walk.last() == i;
                assert(seen[0] == root);
                self.lemma_walk_stays(seen, walk, outgoing, walk.len() - 1);
                self.lemma_seen_is_held(sub, seen, root, outgoing, seen.len() as int, i);
            }
        }
        assert forall|e: int| 0 <= e < sub.edges().len() implies {
            let edge = #[trigger] sub.edges()[e];
            self.has_edge_between(sub.keys()[edge.0 as int], sub.keys()[edge.1 as int])
        } by {
            let edge = sub.edges()[e];
            assert(self.linked(seen[near_end(edge, outgoing) as int], seen[e + 1], outgoing));
            let a = seen[edge.0 as int];
            let b = seen[edge.1 as int];
            assert(self.has_edge(a, b));
            let k = choose|k: int| 0 <= k < self.edges().len() && self.edges()[k] == (a, b);
            assert(self.edge_keys()[k] == (self.keys()[a as int], self.keys()[b as int]));
            assert(sub.keys()[edge.0 as int] == self.keys()[seen[edge.0 as int] as int]);
            assert(sub.keys()[edge.1 as int] == self.keys()[seen[edge.1 as int] as int]);
        }
        assert forall|e: int, i: int|
            0 <= e < sub.edges().len() && 0 <= i < near_end(sub.edges()[e], outgoing) implies !self.linked(
            self.handle_of(#[trigger] sub.keys()[i]),
            self.handle_of(#[trigger] sub.keys()[e + 1]),
            outgoing,
        ) by {
            assert(near_end(sub.edges()[e], outgoing) <= e);
            assert(!self.linked(seen[i], seen[e + 1], outgoing));
        }
        assert forall|d: int, e: int|
            0 <= d < e < sub.edges().len() && near_end(sub.edges()[d], outgoing) == near_end(
                sub.edges()[e],
                outgoing,
            ) implies comes_before(
            self.neighbours(self.handle_of(sub.keys()[near_end(sub.edges()[e], outgoing) as int]), outgoing),
            self.handle_of(#[trigger] sub.keys()[d + 1]),
            self.handle_of(#[trigger] sub.keys()[e + 1]),
        ) by {
            assert(near_end(sub.edges()[e], outgoing) <= e);
            assert(comes_before(
                self.neighbours(seen[near_end(sub.edges()[e], outgoing) as int], outgoing),
                seen[d + 1],
                seen[e + 1],
            ));
        }
    }

    /// Adding the edge by which a traversal first arrives at `nb`, from the
    /// node that it saw as number `at` and whose neighbours it has read up
    /// to position `j`, keeps the traversal in order.
    pub(crate) proof fn lemma_search_step(
        &self,
        before: HashGraph,
        after: HashGraph,
        seen: Seq<usize>,
        root: usize,
        outgoing: bool,
        at: int,
        j: int,
        nb: usize,
    )
        requires
            self.wf(),
            self.search_inv(before, seen, root, outgoing, at + 1),
            0 <= at < seen.len(),
            nb < self.keys().len(),
            !seen.contains(nb),
            self.linked(seen[at], nb, outgoing),
            forall|i: int| 0 <= i < at ==> self.steps_land_in(#[trigger] seen[i], seen, outgoing),
            0 <= j < self.neighbours(seen[at], outgoing).len(),
            self.neighbours(seen[at], outgoing)[j] == nb,
            forall|k: int| 0 <= k < j ==> seen.contains(#[trigger] self.neighbours(seen[at], outgoing)[k]),
            forall|e: int|
                0 <= e < before.edges().len() && near_end(#[trigger] before.edges()[e], outgoing) == at ==> exists|k: int|
                    0 <= k < j && #[trigger] self.neighbours(seen[at], outgoing)[k] == seen[e + 1],
            after.wf(),
            after.edges().len() == before.edges().len() + 1,
            after.edges().drop_last() == before.edges(),
            ({
                let cur_key = self.keys()[seen[at] as int];
                let nb_key = self.keys()[nb as int];
                if outgoing {
                    &&& after.keys() == with_key(with_key(before.keys(), cur_key), nb_key)
                    &&& after.edge_keys() == before.edge_keys().push((cur_key, nb_key))
                } else {
                    &&& after.keys() == with_key(with_key(before.keys(), nb_key), cur_key)
                    &&& after.edge_keys() == before.edge_keys().push((nb_key, cur_key))
                }
            }),
        ensures
            self.search_inv(after, seen.push(nb), root, outgoing, at + 1),
            forall|e: int|
                0 <= e < after.edges().len() && near_end(#[trigger] after.edges()[e], outgoing) == at ==> exists|k: int|
                    0 <= k < j + 1 && #[trigger] self.neighbours(seen[at], outgoing)[k] == seen.push(nb)[e + 1],
    {
        let cur = seen[at];
        let cur_key = self.keys()[cur as int];
        let nb_key = self.keys()[nb as int];
        let grown = seen.push(nb);
        let list = self.neighbours(cur, outgoing);
        self.lemma_seen_is_held(before, seen, root, outgoing, at + 1, nb);
        assert(before.keys()[at] == cur_key);
        assert(before.keys().contains(cur_key));
        assert(!before.keys().contains(nb_key));
        assert(after.keys() == before.keys().push(nb_key)) by {
            if outgoing {
                assert(with_key(before.keys(), cur_key) == before.keys());
            } else {
                assert(with_key(before.keys(), nb_key) == before.keys().push(nb_key));
                assert(before.keys().push(nb_key)[at] == cur_key);
            }
        }
        let last = after.edges().len() - 1;
        let edge = after.edges()[last];
        assert(edge.0 < after.keys().len() && edge.1 < after.keys().len());
        assert(after.edge_keys()[last] == (after.keys()[edge.0 as int], after.keys()[edge.1 as int]));
        assert(after.keys()[at] == cur_key);
        assert(after.keys()[seen.len() as int] == nb_key);
        if outgoing {
            after.lemma_keys_distinct(edge.0 as int, at);
            after.lemma_keys_distinct(edge.1 as int, seen.len() as int);
        } else {
            after.lemma_keys_distinct(edge.1 as int, at);
            after.lemma_keys_distinct(edge.0 as int, seen.len() as int);
        }
        assert(near_end(edge, outgoing) == at && far_end(edge, outgoing) == last + 1);
        self.lemma_reaches_step(root, cur, nb, outgoing);
        assert forall|e: int| 0 <= e < last implies after.edges()[e] == before.edges()[e] by {
            assert(after.edges()[e] == after.edges().drop_last()[e]);
        }
        assert forall|i: int| 0 <= i < grown.len() implies #[trigger] after.keys()[i] == self.keys()[grown[i] as int] by {
            if i < seen.len() {
                assert(before.keys()[i] == self.keys()[seen[i] as int]);
            }
        }
        assert forall|i: int| 0 <= i < grown.len() implies self.reaches(root, #[trigger] grown[i], outgoing) by {
            if i < seen.len() {
                assert(self.reaches(root, seen[i], outgoing));
            }
        }
        assert forall|e: int| 0 <= e < after.edges().len() implies {
            let edge = #[trigger] after.edges()[e];
            &&& far_end(edge, outgoing) == e + 1
            &&& near_end(edge, outgoing) <= e
            &&& near_end(edge, outgoing) < at + 1
            &&& self.linked(grown[near_end(edge, outgoing) as int], grown[e + 1], outgoing)
        } by {
            if e < last {
                let edge = before.edges()[e];
                assert(self.linked(seen[near_end(edge, outgoing) as int], seen[e + 1], outgoing));
            }
        }
        assert forall|d: int, e: int| 0 <= d <= e < after.edges().len() implies near_end(
            #[trigger] after.edges()[d],
            outgoing,
        ) <= near_end(#[trigger] after.edges()[e], outgoing) by {
            if e < last {
                assert(near_end(before.edges()[d], outgoing) <= near_end(before.edges()[e], outgoing));
            } else if d < last {
                assert(near_end(before.edges()[d], outgoing) < at + 1);
            }
        }
        assert forall|e: int, i: int|
            0 <= e < after.edges().len() && 0 <= i < near_end(after.edges()[e], outgoing) implies !self.linked(
            #[trigger] grown[i],
            #[trigger] grown[e + 1],
            outgoing,
        ) by {
            if e < last {
                assert(near_end(before.edges()[e], outgoing) <= e);
                assert(!self.linked(seen[i], seen[e + 1], outgoing));
            } else {
                assert(self.steps_land_in(seen[i], seen, outgoing));
            }
        }
        assert forall|d: int, e: int|
            0 <= d < e < after.edges().len() && near_end(after.edges()[d], outgoing) == near_end(
                after.edges()[e],
                outgoing,
            ) implies comes_before(
            self.neighbours(grown[near_end(after.edges()[e], outgoing) as int], outgoing),
            #[trigger] grown[d + 1],
            #[trigger] grown[e + 1],
        ) by {
            if e < last {
                assert(near_end(before.edges()[e], outgoing) <= e);
                assert(comes_before(
                    self.neighbours(seen[near_end(before.edges()[e], outgoing) as int], outgoing),
                    seen[d + 1],
                    seen[e + 1],
                ));
            } else {
                assert(near_end(before.edges()[d], outgoing) == at);
                let k = choose|k: int| 0 <= k < j && #[trigger] list[k] == seen[d + 1];
                assert forall|m: int| 0 <= m <= k implies list[m] != nb by {
                    assert(seen.contains(list[m]));
                }
                assert(grown[d + 1] == seen[d + 1]);
            }
        }
        assert forall|e: int|
            0 <= e < after.edges().len() && near_end(#[trigger] after.edges()[e], outgoing) == at implies exists|k: int|
            0 <= k < j + 1 && #[trigger] list[k] == grown[e + 1] by {
            if e < last {
                let k = choose|k: int| 0 <= k < j && #[trigger] list[k] == seen[e + 1];
                assert(list[k] == grown[e + 1]);
            } else {
                assert(list[j] == grown[e + 1]);
            }
        }
    }

    /// Cycles do no harm and directions are kept: whatever the graph holds,
    /// the tree of a traversal holds every node that the traversal reaches
    /// exactly once and no other node, and each of its edges is an edge of
    /// the graph between the same two files and in the same direction.
    pub proof fn lemma_tree_is_sound(&self, sub: HashGraph, root: usize, outgoing: bool)
        requires
            self.wf(),
            root < self.keys().len(),
            self.spans_from(sub, root, outgoing),
        ensures
            sub.keys().no_duplicates(),
            sub.has_node(self.keys()[root as int]),
            forall|i: usize|
                i < self.keys().len() ==> (#[trigger] self.reaches(root, i, outgoing) <==> sub.has_node(
                    self.keys()[i as int],
                )),
            forall|k: int| 0 <= k < sub.keys().len() ==> self.has_node(#[trigger] sub.keys()[k]),
            forall|e: int| 0 <= e < sub.edge_keys().len() ==> self.edge_keys().contains(#[trigger] sub.edge_keys()[e]),
    {
        assert forall|i: int, j: int| 0 <= i < sub.keys().len() && 0 <= j < sub.keys().len() && i != j implies sub.keys()[i]
            != sub.keys()[j] by {
            if sub.keys()[i] == sub.keys()[j] {
                sub.lemma_keys_distinct(i, j);
            }
        }
        assert(sub.keys()[0] == self.keys()[root as int]);
        assert forall|i: usize| i < self.keys().len() implies (#[trigger] self.reaches(root, i, outgoing) <==> sub.has_node(
            self.keys()[i as int],
        )) by {
            let key = self.keys()[i as int];
            if sub.has_node(key) {
                let h = choose|h: usize|
                    h < self.keys().len() && self.keys()[h as int] == key && #[trigger] self.reaches(root, h, outgoing);
                self.lemma_keys_distinct(h as int, i as int);
            }
        }
        assert forall|k: int| 0 <= k < sub.keys().len() implies self.has_node(#[trigger] sub.keys()[k]) by {
            let key = sub.keys()[k];
            assert(sub.has_node(key));
            let h = choose|h: usize|
                h < self.keys().len() && self.keys()[h as int] == key && #[trigger] self.reaches(root, h, outgoing);
            assert(self.keys()[h as int] == key);
        }
        assert forall|e: int| 0 <= e < sub.edge_keys().len() implies self.edge_keys().contains(
            #[trigger] sub.edge_keys()[e],
        ) by {
            let edge = sub.edges()[e];
            assert(self.has_edge_between(sub.keys()[edge.0 as int], sub.keys()[edge.1 as int]));
        }
    }

    /// The edge that comes with a node of the tree is a step from its
    /// discoverer to the node.
    pub(crate) proof fn lemma_tree_step(&self, sub: HashGraph, root: usize, outgoing: bool, e: int)
        requires
            self.wf(),
            self.spans_from(sub, root, outgoing),
            0 <= e < sub.edges().len(),
        ensures
            near_end(sub.edges()[e], outgoing) <= e,
            self.linked(
                self.handle_of(sub.keys()[near_end(sub.edges()[e], outgoing) as int]),
                self.handle_of(sub.keys()[e + 1]),
                outgoing,
            ),
    {
        let edge = sub.edges()[e];
        let src = sub.keys()[edge.0 as int];
        let dst = sub.keys()[edge.1 as int];
        assert(self.has_edge_between(src, dst));
        let k = choose|k: int| 0 <= k < self.edge_keys().len() && self.edge_keys()[k] == (src, dst);
        let found = self.edges()[k];
        assert(found.0 < self.keys().len() && found.1 < self.keys().len());
        assert(self.index()[self.keys()[found.0 as int]] == found.0);
        assert(self.index()[self.keys()[found.1 as int]] == found.1);
        assert(self.edges().contains(found));
        assert(far_end(edge, outgoing) == e + 1);
    }

    /// Where two trees of one traversal agree on their first `k` nodes, the
    /// node that the first holds next stands in the second at `k` or later,
    /// and its discoverer there is no later than in the first.
    pub(crate) proof fn lemma_discoverer_bound(
        &self,
        a: HashGraph,
        b: HashGraph,
        root: usize,
        outgoing: bool,
        k: int,
    ) -> (m: int)
        requires
            self.wf(),
            self.spans_from(a, root, outgoing),
            self.spans_from(b, root, outgoing),
            1 <= k < a.keys().len(),
            k < b.keys().len(),
            forall|i: int| 0 <= i < k ==> a.keys()[i] == b.keys()[i],
        ensures
            k <= m < b.keys().len(),
            b.keys()[m] == a.keys()[k],
            near_end(b.edges()[k - 1], outgoing) <= near_end(b.edges()[m - 1], outgoing),
            near_end(b.edges()[m - 1], outgoing) <= near_end(a.edges()[k - 1], outgoing),
    {
        let key = a.keys()[k];
        assert(a.has_node(key));
        let h = choose|h: usize|
            h < self.keys().len() && self.keys()[h as int] == key && #[trigger] self.reaches(root, h, outgoing);
        assert(b.has_node(key));
        let m = choose|m: int| 0 <= m < b.keys().len() && b.keys()[m] == key;
        if m < k {
            assert(a.keys()[m] == b.keys()[m]);
            a.lemma_keys_distinct(m, k);
        }
        let e = m - 1;
        let first = near_end(a.edges()[k - 1], outgoing);
        let second = near_end(b.edges()[e], outgoing);
        self.lemma_tree_step(a, root, outgoing, k - 1);
        if first < second {
            assert(a.keys()[first as int] == b.keys()[first as int]);
            assert(!self.linked(self.handle_of(b.keys()[first as int]), self.handle_of(b.keys()[e + 1]), outgoing));
        }
        assert(near_end(b.edges()[k - 1], outgoing) <= near_end(b.edges()[e], outgoing));
        m
    }

    /// Where two trees of one traversal agree on their first `k` nodes, they
    /// agree on the next node and on the edge that comes with it.
    pub(crate) proof fn lemma_next_agrees(&self, a: HashGraph, b: HashGraph, root: usize, outgoing: bool, k: int)
        requires
            self.wf(),
            self.spans_from(a, root, outgoing),
            self.spans_from(b, root, outgoing),
            1 <= k < a.keys().len(),
            k < b.keys().len(),
            forall|i: int| 0 <= i < k ==> a.keys()[i] == b.keys()[i],
        ensures
            a.keys()[k] == b.keys()[k],
            a.edges()[k - 1] == b.edges()[k - 1],
    {
        let m = self.lemma_discoverer_bound(a, b, root, outgoing, k);
        let w = self.lemma_discoverer_bound(b, a, root, outgoing, k);
        let p = near_end(a.edges()[k - 1], outgoing);
        assert(near_end(b.edges()[k - 1], outgoing) == p);
        assert(near_end(b.edges()[m - 1], outgoing) == p);
        assert(near_end(a.edges()[w - 1], outgoing) == p);
        self.lemma_tree_step(a, root, outgoing, k - 1);
        assert(a.keys()[p as int] == b.keys()[p as int]);
        if a.keys()[k] != b.keys()[k] {
            let list = self.neighbours(self.handle_of(a.keys()[p as int]), outgoing);
            let x = self.handle_of(a.keys()[k]);
            let y = self.handle_of(b.keys()[k]);
            let d = k - 1;
            let e = m - 1;
            assert(comes_before(list, self.handle_of(b.keys()[d + 1]), self.handle_of(b.keys()[e + 1])));
            let f = w - 1;
            assert(comes_before(list, self.handle_of(a.keys()[d + 1]), self.handle_of(a.keys()[f + 1])));
            assert(comes_before(list, y, x));
            assert(comes_before(list, x, y));
            lemma_comes_before_one_way(list, x, y);
        }
        assert(far_end(a.edges()[k - 1], outgoing) == k);
        assert(far_end(b.edges()[k - 1], outgoing) == k);
    }

    /// Two trees of one traversal agree on their first `k` nodes and on the
    /// edges that come with them.
    pub(crate) proof fn lemma_trees_agree(&self, a: HashGraph, b: HashGraph, root: usize, outgoing: bool, k: int)
        requires
            self.wf(),
            root < self.keys().len(),
            self.spans_from(a, root, outgoing),
            self.spans_from(b, root, outgoing),
            a.keys().len() == b.keys().len(),
            1 <= k <= a.keys().len(),
        ensures
            forall|i: int| 0 <= i < k ==> a.keys()[i] == b.keys()[i],
            forall|e: int| 0 <= e < k - 1 ==> a.edges()[e] == b.edges()[e],
        decreases k,
    {
        if k > 1 {
            self.lemma_trees_agree(a, b, root, outgoing, k - 1);
            self.lemma_next_agrees(a, b, root, outgoing, k - 1);
        }
    }

    /// A traversal has one tree: two graphs that both are the tree of the
    /// traversal from `root` hold the same nodes under the same handles, and
    /// the same edges in the same order.
    pub proof fn lemma_tree_is_unique(&self, a: HashGraph, b: HashGraph, root: usize, outgoing: bool)
        requires
            self.wf(),
            root < self.keys().len(),
            self.spans_from(a, root, outgoing),
            self.spans_from(b, root, outgoing),
        ensures
            a.keys() == b.keys(),
            a.edges() == b.edges(),
    {
        self.lemma_tree_is_sound(a, root, outgoing);
        self.lemma_tree_is_sound(b, root, outgoing);
        assert(a.keys().to_set() =~= b.keys().to_set()) by {
            assert forall|key: NodeKey| a.keys().to_set().contains(key) <==> b.keys().to_set().contains(key) by {
                assert(a.has_node(key) <==> b.has_node(key));
            }
        }
        a.keys().unique_seq_to_set();
        b.keys().unique_seq_to_set();
        self.lemma_trees_agree(a, b, root, outgoing, a.keys().len() as int);
        assert(a.keys() =~= b.keys());
        assert(a.edges() =~= b.edges());
    }
}

/// Of two numbers, at most one occurs before the other first does.
pub proof fn lemma_comes_before_one_way(list: Seq<usize>, x: usize, y: usize)
    ensures
        !(comes_before(list, x, y) && comes_before(list, y, x)),
{
    if comes_before(list, x, y) && comes_before(list, y, x) {
        let i = choose|j: int|
            0 <= j < list.len() && #[trigger] list[j] == x && forall|k: int| 0 <= k <= j ==> #[trigger] list[k] != y;
        let j = choose|j: int|
            0 <= j < list.len() && #[trigger] list[j] == y && forall|k: int| 0 <= k <= j ==> #[trigger] list[k] != x;
        if i <= j {
            assert(list[i] != x);
        } else {
            assert(list[j] != y);
        }
    }
}

/// The neighbours that `petgraph` lists for `a` are the far ends of the edges
/// that leave `a`.
pub proof fn lemma_targets_of(edges: Seq<(usize, usize)>, a: usize)
    ensures
        forall|b: usize| targets_of(edges, a).contains(b) <==> edges.contains((a, b)),
    decreases edges.len(),
{
    if edges.len() > 0 {
        let rest = edges.drop_last();
        lemma_targets_of(rest, a);
        assert forall|b: usize| targets_of(edges, a).contains(b) <==> edges.contains((a, b)) by {
            let head = seq![edges.last().1];
            if edges.contains((a, b)) {
                let i = choose|i: int| 0 <= i < edges.len() && edges[i] == (a, b);
                if i < rest.len() {
                    assert(rest[i] == (a, b));
                    assert(targets_of(rest, a).contains(b));
                    let j = choose|j: int| 0 <= j < targets_of(rest, a).len() && targets_of(rest, a)[j] == b;
                    if edges.last().0 == a {
                        assert((head + targets_of(rest, a))[j + 1] == b);
                    }
                } else {
                    assert((head + targets_of(rest, a))[0] == b);
                }
            }
            if targets_of(edges, a).contains(b) {
                let j = choose|j: int| 0 <= j < targets_of(edges, a).len() && targets_of(edges, a)[j] == b;
                if edges.last().0 == a && j == 0 {
                    assert(edges[edges.len() - 1] == (a, b));
                } else {
                    if edges.last().0 == a {
                        assert(targets_of(rest, a)[j - 1] == b);
                    }
                    assert(targets_of(rest, a).contains(b));
                    let i = choose|i: int| 0 <= i < rest.len() && rest[i] == (a, b);
                    assert(edges[i] == (a, b));
                }
            }
        }
    }
}

/// The neighbours that `petgraph` lists against the edges for `a` are the
/// near ends of the edges that arrive at `a`.
pub proof fn lemma_sources_of(edges: Seq<(usize, usize)>, a: usize)
    ensures
        forall|b: usize| sources_of(edges, a).contains(b) <==> edges.contains((b, a)),
    decreases edges.len(),
{
    if edges.len() > 0 {
        let rest = edges.drop_last();
        lemma_sources_of(rest, a);
        assert forall|b: usize| sources_of(edges, a).contains(b) <==> edges.contains((b, a)) by {
            let head = seq![edges.last().0];
            if edges.contains((b, a)) {
                let i = choose|i: int| 0 <= i < edges.len() && edges[i] == (b, a);
                if i < rest.len() {
                    assert(rest[i] == (b, a));
                    assert(sources_of(rest, a).contains(b));
                    let j = choose|j: int| 0 <= j < sources_of(rest, a).len() && sources_of(rest, a)[j] == b;
                    if edges.last().1 == a {
                        assert((head + sources_of(rest, a))[j + 1] == b);
                    }
                } else {
                    assert((head + sources_of(rest, a))[0] == b);
                }
            }
            if sources_of(edges, a).contains(b) {
                let j = choose|j: int| 0 <= j < sources_of(edges, a).len() && sources_of(edges, a)[j] == b;
                if edges.last().1 == a && j == 0 {
                    assert(edges[edges.len() - 1] == (b, a));
                } else {
                    if edges.last().1 == a {
                        assert(sources_of(rest, a)[j - 1] == b);
                    }
                    assert(sources_of(rest, a).contains(b));
                    let i = choose|i: int| 0 <= i < rest.len() && rest[i] == (b, a);
                    assert(edges[i] == (b, a));
                }
            }
        }
    }
}

/// What a sequence holds, it still holds after a push.
pub proof fn lemma_push_keeps(s: Seq<usize>, x: usize)
    ensures
        forall|b: usize| s.contains(b) ==> #[trigger] s.push(x).contains(b),
{
    assert forall|b: usize| s.contains(b) implies #[trigger] s.push(x).contains(b) by {
        let k = choose|k: int| 0 <= k < s.len() && s[k] == b;
        assert(s.push(x)[k] == b);
    }
}

/// A sequence of different numbers below `n` has at most `n` entries.
pub proof fn lemma_distinct_bounded(s: Seq<usize>, n: nat)
    requires
        s.no_duplicates(),
        forall|i: int| 0 <= i < s.len() ==> #[trigger] s[i] < n,
    ensures
        s.len() <= n,
    decreases n,
{
    if s.len() > 0 {
        if n == 0 {
            assert(s[0] < n);
        } else {
            let top = (n - 1) as usize;
            if s.contains(top) {
                let k = choose|k: int| 0 <= k < s.len() && s[k] == top;
                let rest = s.remove(k);
                assert forall|i: int| 0 <= i < rest.len() implies #[trigger] rest[i] < (n - 1) as nat by {
                    if i < k {
                        assert(rest[i] == s[i]);
                    } else {
                        assert(rest[i] == s[i + 1]);
                    }
                }
                assert(rest.no_duplicates()) by {
                    assert forall|i: int, j: int| 0 <= i < rest.len() && 0 <= j < rest.len() && i != j implies rest[i] != rest[j] by {
                        let i2 = if i < k { i } else { i + 1 };
                        let j2 = if j < k { j } else { j + 1 };
                        assert(rest[i] == s[i2] && rest[j] == s[j2]);
                    }
                }
                lemma_distinct_bounded(rest, (n - 1) as nat);
            } else {
                assert forall|i: int| 0 <= i < s.len() implies #[trigger] s[i] < (n - 1) as nat by {
                    assert(s.contains(s[i]));
                }
                lemma_distinct_bounded(s, (n - 1) as nat);
            }
        }
    }
}

} // verus!
