//! The concrete adjacency-list representation: dense node storage plus one
//! edge list per node, implementing the graph contracts.

use vstd::prelude::*;
use vstd::seq_lib::*;

use crate::graph::Graph;
use crate::weighted_graph::{EdgeWeight, NoWeight, WeightedGraph};

verus! {

/// One stored edge: a destination key and the weight carried by the edge.
#[derive(Debug, Clone, Copy)]
pub struct AdjacencyListEdge<K: Copy, W: Copy> {
    destination: K,
    weight: W,
}

/// The adjacency-list engine: node values in a dense vector, edge lists in a
/// parallel vector of the same length.  Keys are indices into the node
/// vector, so removing a node shifts every key above it down by one.
#[derive(Debug)]
pub struct AdjacencyListGraph<V, W: Copy = NoWeight> {
    nodes: Vec<V>,
    edges: Vec<Vec<AdjacencyListEdge<usize, W>>>,
}

/// Iterator over the destination keys of one node's edge list, in insertion
/// order, traversable from both ends.  It owns a snapshot of the keys, so it
/// stays valid independently of the graph it was built from.
pub struct EdgeDestinationIterator {
    dests: Vec<usize>,
    front: usize,
    back: usize,
}

impl EdgeDestinationIterator {
    /// The cursors lie inside the snapshot.
    pub closed spec fn wf(&self) -> bool {
        self.front <= self.back <= self.dests@.len()
    }

    /// The destinations not yet yielded, front to back.
    pub closed spec fn remaining(&self) -> Seq<usize> {
        self.dests@.subrange(self.front as int, self.back as int)
    }

    /// Builds an iterator that will yield exactly `dests`, in order.
    pub fn new(dests: Vec<usize>) -> (it: EdgeDestinationIterator)
        ensures
            it.wf(),
            it.remaining() == dests@,
    {
        let n: usize = dests.len();
        let it = EdgeDestinationIterator { dests, front: 0, back: n };
        proof {
            assert(it.remaining() =~= it.dests@);
        }
        it
    }

    /// How many destinations are still to be yielded.
    pub fn len(&self) -> (n: usize)
        requires
            self.wf(),
        ensures
            n == self.remaining().len(),
    {
        self.back - self.front
    }

    /// Yields the first destination not yet yielded, or `None` when the
    /// iterator is exhausted.
    pub fn next(&mut self) -> (r: Option<usize>)
        requires
            old(self).wf(),
        ensures
            final(self).wf(),
            old(self).remaining().len() == 0 ==> {
                &&& r is None
                &&& final(self).remaining() == old(self).remaining()
            },
            old(self).remaining().len() > 0 ==> {
                &&& r == Some(old(self).remaining()[0])
                &&& final(self).remaining() == old(self).remaining().drop_first()
            },
    {
        if self.front < self.back {
            let v = self.dests[self.front];
            self.front = self.front + 1;
            proof {
                assert(self.remaining() =~= old(self).remaining().drop_first());
            }
            Some(v)
        } else {
            None
        }
    }

    /// Yields the last destination not yet yielded, or `None` when the
    /// iterator is exhausted.
    pub fn next_back(&mut self) -> (r: Option<usize>)
        requires
            old(self).wf(),
        ensures
            final(self).wf(),
            old(self).remaining().len() == 0 ==> {
                &&& r is None
                &&& final(self).remaining() == old(self).remaining()
            },
            old(self).remaining().len() > 0 ==> {
                &&& r == Some(old(self).remaining().last())
                &&& final(self).remaining() == old(self).remaining().drop_last()
            },
    {
        if self.front < self.back {
            let v = self.dests[self.back - 1];
            self.back = self.back - 1;
            proof {
                assert(self.remaining() =~= old(self).remaining().drop_last());
            }
            Some(v)
        } else {
            None
        }
    }
}

/// Iterator over one node's `(destination, weight)` pairs, in insertion
/// order, traversable from both ends.  Like [`EdgeDestinationIterator`] it
/// owns a snapshot of the pairs.
pub struct WeightedEdgeIterator<W: Copy> {
    items: Vec<(usize, W)>,
    front: usize,
    back: usize,
}

impl<W: Copy> WeightedEdgeIterator<W> {
    /// The cursors lie inside the snapshot.
    pub closed spec fn wf(&self) -> bool {
        self.front <= self.back <= self.items@.len()
    }

    /// The pairs not yet yielded, front to back.
    pub closed spec fn remaining(&self) -> Seq<(usize, W)> {
        self.items@.subrange(self.front as int, self.back as int)
    }

    /// Builds an iterator that will yield exactly `items`, in order.
    pub fn new(items: Vec<(usize, W)>) -> (it: WeightedEdgeIterator<W>)
        ensures
            it.wf(),
            it.remaining() == items@,
    {
        let n: usize = items.len();
        let it = WeightedEdgeIterator { items, front: 0, back: n };
        proof {
            assert(it.remaining() =~= it.items@);
        }
        it
    }

    /// How many pairs are still to be yielded.
    pub fn len(&self) -> (n: usize)
        requires
            self.wf(),
        ensures
            n == self.remaining().len(),
    {
        self.back - self.front
    }

    /// Yields the first pair not yet yielded, or `None` when the iterator is
    /// exhausted.
    pub fn next(&mut self) -> (r: Option<(usize, W)>)
        requires
            old(self).wf(),
        ensures
            final(self).wf(),
            old(self).remaining().len() == 0 ==> {
                &&& r is None
                &&& final(self).remaining() == old(self).remaining()
            },
            old(self).remaining().len() > 0 ==> {
                &&& r == Some(old(self).remaining()[0])
                &&& final(self).remaining() == old(self).remaining().drop_first()
            },
    {
        if self.front < self.back {
            let v = self.items[self.front];
            self.front = self.front + 1;
            proof {
                assert(self.remaining() =~= old(self).remaining().drop_first());
            }
            Some(v)
        } else {
            None
        }
    }

    /// Yields the last pair not yet yielded, or `None` when the iterator is
    /// exhausted.
    pub fn next_back(&mut self) -> (r: Option<(usize, W)>)
        requires
            old(self).wf(),
        ensures
            final(self).wf(),
            old(self).remaining().len() == 0 ==> {
                &&& r is None
                &&& final(self).remaining() == old(self).remaining()
            },
            old(self).remaining().len() > 0 ==> {
                &&& r == Some(old(self).remaining().last())
                &&& final(self).remaining() == old(self).remaining().drop_last()
            },
    {
        if self.front < self.back {
            let v = self.items[self.back - 1];
            self.back = self.back - 1;
            proof {
                assert(self.remaining() =~= old(self).remaining().drop_last());
            }
            Some(v)
        } else {
            None
        }
    }
}

impl<V, W: Copy> AdjacencyListGraph<V, W> {
    /// The node values, in insertion order.
    pub closed spec fn nodes_seq(&self) -> Seq<V> {
        self.nodes@
    }

    /// For each node, its `(destination, weight)` pairs in insertion order.
    pub closed spec fn edge_pairs(&self) -> Seq<Seq<(usize, W)>> {
        self.edges@.map_values(
            |row: Vec<AdjacencyListEdge<usize, W>>|
                row@.map_values(|e: AdjacencyListEdge<usize, W>| (e.destination, e.weight)),
        )
    }

    /// For each node, its destination keys in insertion order.
    pub open spec fn edge_dests(&self) -> Seq<Seq<usize>> {
        self.edge_pairs().map_values((|row: Seq<(usize, W)>| row.map_values(|p: (usize, W)| p.0)))
    }

    /// One edge list per node, always.
    pub open spec fn well_formed(&self) -> bool {
        self.edge_pairs().len() == self.nodes_seq().len()
    }

    /// Builds a graph holding the given nodes and no edges yet.
    pub fn new(nodes: Vec<V>) -> (g: AdjacencyListGraph<V, W>)
        ensures
            g.well_formed(),
            g.nodes_seq() == nodes@,
            g.edge_pairs().len() == nodes@.len(),
            forall|i: int| 0 <= i < nodes@.len() ==> g.edge_pairs()[i] == Seq::<(usize, W)>::empty(),
            forall|i: int| 0 <= i < nodes@.len() ==> g.edge_dests()[i] == Seq::<usize>::empty(),
    {
        let n: usize = nodes.len();
        let mut edges: Vec<Vec<AdjacencyListEdge<usize, W>>> = Vec::new();
        while edges.len() < n
            invariant
                edges@.len() <= n,
                forall|i: int| 0 <= i < edges@.len() ==> edges@[i]@ =~= Seq::<
                    AdjacencyListEdge<usize, W>,
                >::empty(),
            decreases n - edges@.len(),
        {
            edges.push(Vec::new());
        }
        let g = AdjacencyListGraph { nodes, edges };
        proof {
            assert forall|i: int| 0 <= i < nodes@.len() implies g.edge_pairs()[i] == Seq::<
                (usize, W),
            >::empty() by {
                assert(g.edge_pairs()[i] =~= Seq::<(usize, W)>::empty());
            }
            assert forall|i: int| 0 <= i < nodes@.len() implies g.edge_dests()[i] == Seq::<
                usize,
            >::empty() by {
                assert(g.edge_dests()[i] =~= Seq::<usize>::empty());
            }
        }
        g
    }
}

/// Copies the destination keys out of one stored edge list.
fn collect_dests<W: Copy>(row: &Vec<AdjacencyListEdge<usize, W>>) -> (v: Vec<usize>)
    ensures
        v@ == row@.map_values((|e: AdjacencyListEdge<usize, W>| e.destination)),
{
    let mut v: Vec<usize> = Vec::new();
    let mut i: usize = 0;
    while i < row.len()
        invariant
            i <= row@.len(),
            v@.len() == i,
            forall|k: int| 0 <= k < i ==> v@[k] == row@[k].destination,
        decreases row@.len() - i,
    {
        v.push(row[i].destination);
        i = i + 1;
    }
    proof {
        assert(v@ =~= row@.map_values((|e: AdjacencyListEdge<usize, W>| e.destination)));
    }
    v
}

/// Copies the `(destination, weight)` pairs out of one stored edge list.
fn collect_pairs<W: Copy>(row: &Vec<AdjacencyListEdge<usize, W>>) -> (v: Vec<(usize, W)>)
    ensures
        v@ == row@.map_values((|e: AdjacencyListEdge<usize, W>| (e.destination, e.weight))),
{
    let mut v: Vec<(usize, W)> = Vec::new();
    let mut i: usize = 0;
    while i < row.len()
        invariant
            i <= row@.len(),
            v@.len() == i,
            forall|k: int| 0 <= k < i ==> v@[k] == (row@[k].destination, row@[k].weight),
        decreases row@.len() - i,
    {
        let e = row[i];
        v.push((e.destination, e.weight));
        i = i + 1;
    }
    proof {
        assert(v@ =~= row@.map_values((|e: AdjacencyListEdge<usize, W>| (e.destination, e.weight))));
    }
    v
}

impl<V, W: EdgeWeight> Graph<V> for AdjacencyListGraph<V, W> {
    open spec fn nodes_view(&self) -> Seq<V> {
        self.nodes_seq()
    }

    open spec fn dests_view(&self) -> Seq<Seq<usize>> {
        self.edge_dests()
    }

    open spec fn wf(&self) -> bool {
        self.well_formed()
    }

    proof fn wf_views_agree(&self) {
    }

    /// Beyond the trait contract: insertion appends an empty weighted row
    /// and leaves every stored weight as it was.
    fn insert(&mut self, node: V) -> (key: usize)
        ensures
            final(self).edge_pairs() == old(self).edge_pairs().push(Seq::<(usize, W)>::empty()),
    {
        self.nodes.push(node);
        self.edges.push(Vec::new());
        proof {
            assert(self.edge_pairs() =~~= old(self).edge_pairs().push(Seq::<(usize, W)>::empty()));
            assert(self.edge_dests() =~~= old(self).edge_dests().push(Seq::<usize>::empty()));
        }
        self.nodes.len() - 1
    }

    /// Beyond the trait contract: removal drops exactly the removed node's
    /// weighted row and leaves every other stored weight as it was.
    fn remove(&mut self, key: usize) -> (removed: Option<V>)
        ensures
            key < old(self).nodes_seq().len() ==> final(self).edge_pairs() == old(
                self,
            ).edge_pairs().remove(key as int),
            key >= old(self).nodes_seq().len() ==> final(self).edge_pairs() == old(
                self,
            ).edge_pairs(),
    {
        if key >= self.nodes.len() {
            return None;
        }
        self.edges.remove(key);
        let v = self.nodes.remove(key);
        proof {
            assert(self.edge_pairs() =~~= old(self).edge_pairs().remove(key as int));
            assert(self.edge_dests() =~~= old(self).edge_dests().remove(key as int));
        }
        Some(v)
    }

    /// Beyond the trait contract: the appended edge carries the zero
    /// weight, so this is exactly `add_weighted_connection` with
    /// `W::zero()`, and a failed call leaves the weighted view unchanged.
    fn add_connection(&mut self, source: usize, destination: usize) -> (r: bool)
        ensures
            source < old(self).nodes_seq().len() ==> final(self).edge_pairs() == old(
                self,
            ).edge_pairs().update(
                source as int,
                old(self).edge_pairs()[source as int].push((destination, W::zero_spec())),
            ),
            source >= old(self).nodes_seq().len() ==> final(self).edge_pairs() == old(
                self,
            ).edge_pairs(),
    {
        if source >= self.edges.len() {
            return false;
        }
        let edge = AdjacencyListEdge { destination, weight: W::zero() };
        self.edges[source].push(edge);
        proof {
            assert(self.edge_pairs() =~~= old(self).edge_pairs().update(
                source as int,
                old(self).edge_pairs()[source as int].push((destination, W::zero_spec())),
            ));
            assert(self.edge_dests() =~~= old(self).edge_dests().update(
                source as int,
                old(self).edge_dests()[source as int].push(destination),
            ));
        }
        true
    }

    /// Beyond the trait contract: the `(destination, weight)` pair at the
    /// first matching index leaves the weighted row too, and a failed call
    /// leaves the weighted view unchanged.
    fn remove_connection(&mut self, source: usize, destination: usize) -> (r: bool)
        ensures
            source >= old(self).nodes_seq().len() ==> final(self).edge_pairs() == old(
                self,
            ).edge_pairs(),
            source < old(self).nodes_seq().len() ==> match old(
                self,
            ).edge_dests()[source as int].index_of_first(destination) {
                Some(j) => final(self).edge_pairs() == old(self).edge_pairs().update(
                    source as int,
                    old(self).edge_pairs()[source as int].remove(j),
                ),
                None => final(self).edge_pairs() == old(self).edge_pairs(),
            },
    {
        if source >= self.edges.len() {
            return false;
        }
        proof {
            old(self).edge_dests()[source as int].index_of_first_ensures(destination);
        }
        let mut j: usize = 0;
        let mut found: bool = false;
        while j < self.edges[source].len() && !found
            invariant
                self == old(self),
                source < self.edges@.len(),
                j <= self.edges@[source as int]@.len(),
                forall|k: int| 0 <= k < j ==> self.edge_dests()[source as int][k] != destination,
                found ==> j < self.edges@[source as int]@.len() && self.edge_dests()[source as int][j as int]
                    == destination,
            decreases self.edges@[source as int]@.len() - j + (if found { 0int } else { 1int }),
        {
            if self.edges[source][j].destination == destination {
                found = true;
            } else {
                j = j + 1;
            }
        }
        if found {
            self.edges[source].remove(j);
            proof {
                let js = old(self).edge_dests()[source as int].index_of_first(destination);
                assert(js == Some(j as int));
                assert(self.edge_pairs() =~~= old(self).edge_pairs().update(
                    source as int,
                    old(self).edge_pairs()[source as int].remove(j as int),
                ));
                assert(self.edge_dests() =~~= old(self).edge_dests().update(
                    source as int,
                    old(self).edge_dests()[source as int].remove(j as int),
                ));
            }
            true
        } else {
            proof {
                assert(old(self).edge_dests()[source as int].index_of_first(destination) is None);
            }
            false
        }
    }

    fn get(&self, key: usize) -> (r: Option<(&V, EdgeDestinationIterator)>) {
        if key >= self.nodes.len() {
            return None;
        }
        let node = &self.nodes[key];
        let dests = collect_dests(&self.edges[key]);
        proof {
            assert(dests@ =~= self.edge_dests()[key as int]);
        }
        Some((node, EdgeDestinationIterator::new(dests)))
    }

    fn get_value(&self, key: usize) -> (r: Option<&V>) {
        if key >= self.nodes.len() {
            return None;
        }
        Some(&self.nodes[key])
    }

    fn get_edges(&self, key: usize) -> (r: Option<EdgeDestinationIterator>) {
        if key >= self.nodes.len() {
            return None;
        }
        let dests = collect_dests(&self.edges[key]);
        proof {
            assert(dests@ =~= self.edge_dests()[key as int]);
        }
        Some(EdgeDestinationIterator::new(dests))
    }
}

impl<V, W: EdgeWeight> WeightedGraph<V, W> for AdjacencyListGraph<V, W> {
    open spec fn wedges_view(&self) -> Seq<Seq<(usize, W)>> {
        self.edge_pairs()
    }

    proof fn wedges_agree(&self) {
    }

    fn add_weighted_connection(&mut self, source: usize, destination: usize, weight: W) -> (r:
        bool) {
        if source >= self.edges.len() {
            return false;
        }
        let edge = AdjacencyListEdge { destination, weight };
        self.edges[source].push(edge);
        proof {
            assert(self.edge_pairs() =~~= old(self).edge_pairs().update(
                source as int,
                old(self).edge_pairs()[source as int].push((destination, weight)),
            ));
            assert(self.edge_dests() =~~= old(self).edge_dests().update(
                source as int,
                old(self).edge_dests()[source as int].push(destination),
            ));
        }
        true
    }

    fn get_weighted(&self, key: usize) -> (r: Option<(&V, WeightedEdgeIterator<W>)>) {
        if key >= self.nodes.len() {
            return None;
        }
        let node = &self.nodes[key];
        let items = collect_pairs(&self.edges[key]);
        proof {
            assert(items@ =~= self.edge_pairs()[key as int]);
        }
        Some((node, WeightedEdgeIterator::new(items)))
    }

    fn get_weighted_edges(&self, key: usize) -> (r: Option<WeightedEdgeIterator<W>>) {
        if key >= self.nodes.len() {
            return None;
        }
        let items = collect_pairs(&self.edges[key]);
        proof {
            assert(items@ =~= self.edge_pairs()[key as int]);
        }
        Some(WeightedEdgeIterator::new(items))
    }
}

/// On this engine, `add_connection` is exactly `add_weighted_connection`
/// with the zero weight: started from equal states, the two calls report
/// the same outcome and end in equal states, weights included.  The
/// hypotheses are the two methods' own ensures, so with the sentinel weight
/// an unweighted graph behaves identically to a weighted one.
pub proof fn lemma_add_connection_is_zero_weighted<V, W: EdgeWeight>(
    pre1: AdjacencyListGraph<V, W>,
    post1: AdjacencyListGraph<V, W>,
    r1: bool,
    pre2: AdjacencyListGraph<V, W>,
    post2: AdjacencyListGraph<V, W>,
    r2: bool,
    source: usize,
    destination: usize,
)
    requires
        pre1.nodes_seq() == pre2.nodes_seq(),
        pre1.edge_pairs() == pre2.edge_pairs(),
        post1.nodes_seq() == pre1.nodes_seq(),
        source < pre1.nodes_seq().len() ==> r1 && post1.edge_pairs() == pre1.edge_pairs().update(
            source as int,
            pre1.edge_pairs()[source as int].push((destination, W::zero_spec())),
        ),
        source >= pre1.nodes_seq().len() ==> !r1 && post1.edge_pairs() == pre1.edge_pairs(),
        post2.nodes_seq() == pre2.nodes_seq(),
        source < pre2.nodes_seq().len() ==> r2 && post2.edge_pairs() == pre2.edge_pairs().update(
            source as int,
            pre2.edge_pairs()[source as int].push((destination, W::zero_spec())),
        ),
        source >= pre2.nodes_seq().len() ==> !r2 && post2.edge_pairs() == pre2.edge_pairs(),
    ensures
        r1 == r2,
        post1.nodes_seq() == post2.nodes_seq(),
        post1.edge_pairs() == post2.edge_pairs(),
{
}

} // verus!
