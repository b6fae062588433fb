//! Edge weights: the weight contract, the zero-size "no weight" sentinel,
//! and the weight-aware graph contract.

use vstd::prelude::*;

use crate::adjacency_list_graph::WeightedEdgeIterator;
use crate::graph::Graph;

verus! {

/// Contract for edge-weight types: a weight is copyable and has an additive
/// identity, so the same storage engine can serve weighted and unweighted
/// graphs alike.
pub trait EdgeWeight: Copy + Sized {
    /// The mathematical zero of this weight type.
    spec fn zero_spec() -> Self;

    /// Returns the additive identity.
    fn zero() -> (r: Self)
        ensures
            r == Self::zero_spec(),
    ;

    /// Reports whether this weight is the additive identity.
    fn is_zero(&self) -> (r: bool)
        ensures
            r == (*self == Self::zero_spec()),
    ;
}

/// Zero-size sentinel weight: every value is equal, ordered the same, and is
/// its own additive identity, so an unweighted graph is exactly a weighted
/// graph instantiated with `NoWeight` at no storage cost.
#[derive(Debug, Clone, Copy, PartialEq, Eq, Structural)]
pub struct NoWeight {}

impl NoWeight {
    /// Adding two sentinels yields the sentinel again.
    pub fn add(self, _rhs: NoWeight) -> (r: NoWeight)
        ensures
            r == self,
    {
        NoWeight {  }
    }
}

impl PartialOrd for NoWeight {
    fn partial_cmp(&self, _other: &NoWeight) -> (r: Option<core::cmp::Ordering>) {
        Some(core::cmp::Ordering::Equal)
    }
}

impl vstd::std_specs::cmp::PartialOrdSpecImpl for NoWeight {
    open spec fn obeys_partial_cmp_spec() -> bool {
        true
    }

    open spec fn partial_cmp_spec(&self, _other: &NoWeight) -> Option<core::cmp::Ordering> {
        Some(core::cmp::Ordering::Equal)
    }
}

impl EdgeWeight for NoWeight {
    open spec fn zero_spec() -> Self {
        NoWeight {  }
    }

    fn zero() -> (r: Self) {
        NoWeight {  }
    }

    fn is_zero(&self) -> (r: bool) {
        true
    }
}

/// Contract for graphs whose edges carry a weight.  The weighted view lists
/// `(destination, weight)` pairs per node, in the same insertion order as the
/// unweighted view, which it refines.
pub trait WeightedGraph<V, W: Copy>: Graph<V> {
    /// For each node, its `(destination, weight)` pairs in insertion order.
    spec fn wedges_view(&self) -> Seq<Seq<(usize, W)>>;

    /// Dropping the weights from the weighted view yields exactly the
    /// unweighted view: both share one storage and one edge order.
    proof fn wedges_agree(&self)
        ensures
            self.dests_view() == self.wedges_view().map_values(
                (|row: Seq<(usize, W)>| row.map_values(|p: (usize, W)| p.0)),
            ),
    ;

    /// Appends a directed edge from `source` to `destination` carrying
    /// `weight`.  Returns `false` and changes nothing when `source` is not a
    /// valid key; `destination` is not validated.
    fn add_weighted_connection(&mut self, source: usize, destination: usize, weight: W) -> (r:
        bool)
        requires
            old(self).wf(),
        ensures
            final(self).wf(),
            final(self).nodes_view() == old(self).nodes_view(),
            source < old(self).nodes_view().len() ==> {
                &&& r
                &&& final(self).wedges_view() == old(self).wedges_view().update(
                    source as int,
                    old(self).wedges_view()[source as int].push((destination, weight)),
                )
                &&& final(self).dests_view() == old(self).dests_view().update(
                    source as int,
                    old(self).dests_view()[source as int].push(destination),
                )
            },
            source >= old(self).nodes_view().len() ==> {
                &&& !r
                &&& final(self).wedges_view() == old(self).wedges_view()
                &&& final(self).dests_view() == old(self).dests_view()
            },
    ;

    /// Returns the node value at `key` together with an iterator over its
    /// `(destination, weight)` pairs, or `None` when `key` is out of range.
    fn get_weighted(&self, key: usize) -> (r: Option<(&V, WeightedEdgeIterator<W>)>)
        requires
            self.wf(),
        ensures
            key < self.nodes_view().len() ==> {
                &&& r matches Some(p)
                &&& *(p.0) == self.nodes_view()[key as int]
                &&& p.1.wf()
                &&& p.1.remaining() == self.wedges_view()[key as int]
            },
            key >= self.nodes_view().len() ==> r is None,
    ;

    /// Returns an iterator over the `(destination, weight)` pairs of `key`,
    /// in insertion order, or `None` when `key` is out of range.
    fn get_weighted_edges(&self, key: usize) -> (r: Option<WeightedEdgeIterator<W>>)
        requires
            self.wf(),
        ensures
            key < self.nodes_view().len() ==> {
                &&& r matches Some(it)
                &&& it.wf()
                &&& it.remaining() == self.wedges_view()[key as int]
            },
            key >= self.nodes_view().len() ==> r is None,
    ;
}

/// Weighted/unweighted interchangeability, insertion: the minimal contract
/// pins the views after `insert` as a function of the views before it
/// alone, so a graph carrying the [`NoWeight`] sentinel and one carrying
/// real weights — or any two representations — stay view-equal when the
/// same value is inserted into both.
pub proof fn lemma_interchange_insert<V, G1: Graph<V>, G2: Graph<V>>(
    pre1: G1,
    post1: G1,
    key1: usize,
    pre2: G2,
    post2: G2,
    key2: usize,
    v: V,
)
    requires
        pre1.nodes_view() == pre2.nodes_view(),
        pre1.dests_view() == pre2.dests_view(),
        key1 == pre1.nodes_view().len(),
        post1.nodes_view() == pre1.nodes_view().push(v),
        post1.dests_view() == pre1.dests_view().push(Seq::<usize>::empty()),
        key2 == pre2.nodes_view().len(),
        post2.nodes_view() == pre2.nodes_view().push(v),
        post2.dests_view() == pre2.dests_view().push(Seq::<usize>::empty()),
    ensures
        key1 == key2,
        post1.nodes_view() == post2.nodes_view(),
        post1.dests_view() == post2.dests_view(),
{
}

/// Weighted/unweighted interchangeability, node removal: `remove` behaves
/// identically on two graphs with equal views, whatever weight type either
/// of them carries.
pub proof fn lemma_interchange_remove<V, G1: Graph<V>, G2: Graph<V>>(
    pre1: G1,
    post1: G1,
    removed1: Option<V>,
    pre2: G2,
    post2: G2,
    removed2: Option<V>,
    key: usize,
)
    requires
        pre1.nodes_view() == pre2.nodes_view(),
        pre1.dests_view() == pre2.dests_view(),
        key < pre1.nodes_view().len() ==> {
            &&& removed1 == Some(pre1.nodes_view()[key as int])
            &&& post1.nodes_view() == pre1.nodes_view().remove(key as int)
            &&& post1.dests_view() == pre1.dests_view().remove(key as int)
        },
        key >= pre1.nodes_view().len() ==> {
            &&& removed1 is None
            &&& post1.nodes_view() == pre1.nodes_view()
            &&& post1.dests_view() == pre1.dests_view()
        },
        key < pre2.nodes_view().len() ==> {
            &&& removed2 == Some(pre2.nodes_view()[key as int])
            &&& post2.nodes_view() == pre2.nodes_view().remove(key as int)
            &&& post2.dests_view() == pre2.dests_view().remove(key as int)
        },
        key >= pre2.nodes_view().len() ==> {
            &&& removed2 is None
            &&& post2.nodes_view() == pre2.nodes_view()
            &&& post2.dests_view() == pre2.dests_view()
        },
    ensures
        removed1 == removed2,
        post1.nodes_view() == post2.nodes_view(),
        post1.dests_view() == post2.dests_view(),
{
}

/// Weighted/unweighted interchangeability, edge insertion: `add_connection`
/// — which stores the zero weight — changes the unweighted views of two
/// view-equal graphs identically and reports the same outcome, whatever
/// weight type either carries.
pub proof fn lemma_interchange_add_connection<V, G1: Graph<V>, G2: Graph<V>>(
    pre1: G1,
    post1: G1,
    r1: bool,
    pre2: G2,
    post2: G2,
    r2: bool,
    source: usize,
    destination: usize,
)
    requires
        pre1.nodes_view() == pre2.nodes_view(),
        pre1.dests_view() == pre2.dests_view(),
        post1.nodes_view() == pre1.nodes_view(),
        source < pre1.nodes_view().len() ==> r1 && post1.dests_view() == pre1.dests_view().update(
            source as int,
            pre1.dests_view()[source as int].push(destination),
        ),
        source >= pre1.nodes_view().len() ==> !r1 && post1.dests_view() == pre1.dests_view(),
        post2.nodes_view() == pre2.nodes_view(),
        source < pre2.nodes_view().len() ==> r2 && post2.dests_view() == pre2.dests_view().update(
            source as int,
            pre2.dests_view()[source as int].push(destination),
        ),
        source >= pre2.nodes_view().len() ==> !r2 && post2.dests_view() == pre2.dests_view(),
    ensures
        r1 == r2,
        post1.nodes_view() == post2.nodes_view(),
        post1.dests_view() == post2.dests_view(),
{
}

/// Weighted/unweighted interchangeability, edge removal: `remove_connection`
/// removes the same (first-matching) edge from two view-equal graphs and
/// reports the same outcome, whatever weight type either carries.
pub proof fn lemma_interchange_remove_connection<V, G1: Graph<V>, G2: Graph<V>>(
    pre1: G1,
    post1: G1,
    r1: bool,
    pre2: G2,
    post2: G2,
    r2: bool,
    source: usize,
    destination: usize,
)
    requires
        pre1.nodes_view() == pre2.nodes_view(),
        pre1.dests_view() == pre2.dests_view(),
        post1.nodes_view() == pre1.nodes_view(),
        source >= pre1.nodes_view().len() ==> !r1 && post1.dests_view() == pre1.dests_view(),
        source < pre1.nodes_view().len() ==> match pre1.dests_view()[source as int].index_of_first(
            destination,
        ) {
            Some(j) => r1 && post1.dests_view() == pre1.dests_view().update(
                source as int,
                pre1.dests_view()[source as int].remove(j),
            ),
            None => !r1 && post1.dests_view() == pre1.dests_view(),
        },
        post2.nodes_view() == pre2.nodes_view(),
        source >= pre2.nodes_view().len() ==> !r2 && post2.dests_view() == pre2.dests_view(),
        source < pre2.nodes_view().len() ==> match pre2.dests_view()[source as int].index_of_first(
            destination,
        ) {
            Some(j) => r2 && post2.dests_view() == pre2.dests_view().update(
                source as int,
                pre2.dests_view()[source as int].remove(j),
            ),
            None => !r2 && post2.dests_view() == pre2.dests_view(),
        },
    ensures
        r1 == r2,
        post1.nodes_view() == post2.nodes_view(),
        post1.dests_view() == post2.dests_view(),
{
}

impl EdgeWeight for i32 {
    open spec fn zero_spec() -> Self {
        0
    }

    fn zero() -> (r: Self) {
        0
    }

    fn is_zero(&self) -> (r: bool) {
        *self == 0
    }
}

} // verus!
