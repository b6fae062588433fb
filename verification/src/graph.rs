//! The minimal contract every directed-graph representation must meet.
//!
//! A graph is modelled by two parallel sequences: the node values, in
//! insertion order, and one sequence of destination keys per node, also in
//! insertion order.  A key is a dense index into the node sequence, so key
//! validity is exactly index validity.

use vstd::prelude::*;

use crate::adjacency_list_graph::EdgeDestinationIterator;

verus! {

/// Contract for directed graphs keyed by dense indices.
///
/// `nodes_view` and `dests_view` are the abstract state: the node values and,
/// for each node, the destination keys of its outgoing edges in insertion
/// order.  Destinations are deliberately not validated: an edge may point at
/// a key that does not (or does not yet) exist.
pub trait Graph<V>: Sized {
    /// The node values, in insertion order.
    spec fn nodes_view(&self) -> Seq<V>;

    /// For each node, the destination keys of its outgoing edges, in
    /// insertion order.
    spec fn dests_view(&self) -> Seq<Seq<usize>>;

    /// Representation invariant; every operation preserves it.
    spec fn wf(&self) -> bool;

    /// A well-formed graph keeps one edge list per node.
    proof fn wf_views_agree(&self)
        requires
            self.wf(),
        ensures
            self.dests_view().len() == self.nodes_view().len(),
    ;

    /// Appends a node and returns the key it was inserted by.  Always
    /// succeeds; keys are never reused while nodes are only inserted.
    fn insert(&mut self, node: V) -> (key: usize)
        requires
            old(self).wf(),
        ensures
            final(self).wf(),
            key == old(self).nodes_view().len(),
            final(self).nodes_view() == old(self).nodes_view().push(node),
            final(self).dests_view() == old(self).dests_view().push(Seq::<usize>::empty()),
    ;

    /// Removes the node at `key` together with its edge list, shifting every
    /// node above it down by one; edge lists of other nodes are not rewritten,
    /// so previously issued keys at or above `key` now address other nodes.
    /// Returns the removed value, or `None` when `key` is out of range.
    fn remove(&mut self, key: usize) -> (removed: Option<V>)
        requires
            old(self).wf(),
        ensures
            final(self).wf(),
            key < old(self).nodes_view().len() ==> {
                &&& removed == Some(old(self).nodes_view()[key as int])
                &&& final(self).nodes_view() == old(self).nodes_view().remove(key as int)
                &&& final(self).dests_view() == old(self).dests_view().remove(key as int)
            },
            key >= old(self).nodes_view().len() ==> {
                &&& removed is None
                &&& final(self).nodes_view() == old(self).nodes_view()
                &&& final(self).dests_view() == old(self).dests_view()
            },
    ;

    /// Appends a directed edge from `source` to `destination` with the
    /// default (zero) weight.  Returns `false` and changes nothing when
    /// `source` is not a valid key; `destination` is not validated.
    fn add_connection(&mut self, source: usize, destination: usize) -> (r: bool)
        requires
            old(self).wf(),
        ensures
            final(self).wf(),
            final(self).nodes_view() == old(self).nodes_view(),
            source < old(self).nodes_view().len() ==> {
                &&& r
                &&& final(self).dests_view() == old(self).dests_view().update(
                    source as int,
                    old(self).dests_view()[source as int].push(destination),
                )
            },
            source >= old(self).nodes_view().len() ==> {
                &&& !r
                &&& final(self).dests_view() == old(self).dests_view()
            },
    ;

    /// Removes the first edge from `source` whose destination equals
    /// `destination` (stable among duplicates).  Returns `false` and changes
    /// nothing when `source` is invalid or no such edge exists.
    fn remove_connection(&mut self, source: usize, destination: usize) -> (r: bool)
        requires
            old(self).wf(),
        ensures
            final(self).wf(),
            final(self).nodes_view() == old(self).nodes_view(),
            source >= old(self).nodes_view().len() ==> {
                &&& !r
                &&& final(self).dests_view() == old(self).dests_view()
            },
            source < old(self).nodes_view().len() ==> match old(self).dests_view()[source as int].index_of_first(
                destination,
            ) {
                Some(j) => {
                    &&& r
                    &&& final(self).dests_view() == old(self).dests_view().update(
                        source as int,
                        old(self).dests_view()[source as int].remove(j),
                    )
                },
                None => {
                    &&& !r
                    &&& final(self).dests_view() == old(self).dests_view()
                },
            },
    ;

    /// Returns the node value at `key` together with an iterator over its
    /// edge destinations, or `None` when `key` is out of range.
    fn get(&self, key: usize) -> (r: Option<(&V, EdgeDestinationIterator)>)
        requires
            self.wf(),
        ensures
            key < self.nodes_view().len() ==> {
                &&& r matches Some(p)
                &&& *(p.0) == self.nodes_view()[key as int]
                &&& p.1.wf()
                &&& p.1.remaining() == self.dests_view()[key as int]
            },
            key >= self.nodes_view().len() ==> r is None,
    ;

    /// Returns the node value at `key`, or `None` when `key` is out of range.
    fn get_value(&self, key: usize) -> (r: Option<&V>)
        requires
            self.wf(),
        ensures
            key < self.nodes_view().len() ==> {
                &&& r matches Some(v)
                &&& *v == self.nodes_view()[key as int]
            },
            key >= self.nodes_view().len() ==> r is None,
    ;

    /// Returns an iterator over the edge destinations of `key`, in insertion
    /// order, or `None` when `key` is out of range.
    fn get_edges(&self, key: usize) -> (r: Option<EdgeDestinationIterator>)
        requires
            self.wf(),
        ensures
            key < self.nodes_view().len() ==> {
                &&& r matches Some(it)
                &&& it.wf()
                &&& it.remaining() == self.dests_view()[key as int]
            },
            key >= self.nodes_view().len() ==> r is None,
    ;
}

/// Round trip of insertion: `insert` ensures that the returned key is the
/// old length and that the node sequence grew by exactly the inserted value,
/// so the key addresses that value afterwards — and `get_value` on it is
/// then forced by its own contract to return `Some` of it.
pub proof fn lemma_insert_round_trip<V, G: Graph<V>>(pre: G, post: G, v: V, key: usize)
    requires
        key == pre.nodes_view().len(),
        post.nodes_view() == pre.nodes_view().push(v),
    ensures
        key < post.nodes_view().len(),
        post.nodes_view()[key as int] == v,
{
}

/// Removal renumbers instead of leaving a hole: after a successful
/// `remove(k)`, the key `k` addresses the node that used to sit at `k + 1`,
/// and only when the removed node was the last one does `k` fall out of
/// range — so `get_value(k)` reports "not found" exactly in that case.
pub proof fn lemma_remove_shifts<V, G: Graph<V>>(pre: G, post: G, k: usize)
    requires
        k < pre.nodes_view().len(),
        post.nodes_view() == pre.nodes_view().remove(k as int),
    ensures
        post.nodes_view().len() == pre.nodes_view().len() - 1,
        k < post.nodes_view().len() ==> post.nodes_view()[k as int] == pre.nodes_view()[k as int
            + 1],
        k >= post.nodes_view().len() ==> k == post.nodes_view().len(),
{
}

} // verus!
