//! Path search over any graph representation: depth-first and breadth-first
//! traversal built purely on the minimal contract's `get_edges` primitive.

use std::collections::HashSet;
use std::collections::VecDeque;

use vstd::prelude::*;

use crate::graph::Graph;

verus! {

broadcast use vstd::std_specs::hash::group_hash_axioms;

/// A consecutive-edge condition: every step of `p` follows an edge of the
/// graph described by `edges` (one destination list per node).
pub open spec fn is_linked(edges: Seq<Seq<usize>>, p: Seq<usize>) -> bool {
    forall|i: int|
        0 <= i < p.len() - 1 ==> #[trigger] p[i] < edges.len() && edges[p[i] as int].contains(
            p[i + 1],
        )
}

/// `p` is a path from `source` to `destination` through the graph described
/// by `edges`: it starts at `source`, ends at `destination`, and every step
/// follows an edge.
pub open spec fn is_path(
    edges: Seq<Seq<usize>>,
    p: Seq<usize>,
    source: usize,
    destination: usize,
) -> bool {
    &&& p.len() >= 1
    &&& p[0] == source
    &&& p[p.len() - 1] == destination
    &&& is_linked(edges, p)
}

/// One link of the backward chain a search builds while it explores: a key
/// and the link it was discovered from.  Following the parents from any link
/// leads back to the start of the search; each link owns its parent, so the
/// chain is cycle-free by construction.
#[derive(Debug)]
pub struct LinkedNode<T: Copy> {
    value: T,
    parent: Option<Box<LinkedNode<T>>>,
}

impl<T: Copy> LinkedNode<T> {
    /// The keys along the chain, from the start of the search to this link.
    pub closed spec fn chain(&self) -> Seq<T>
        decreases self,
    {
        match self.parent {
            Option::None => seq![self.value],
            Option::Some(p) => p.chain().push(self.value),
        }
    }

    /// The key this link holds: the last of its chain.
    pub closed spec fn head(&self) -> T {
        self.value
    }

    /// A chain is never empty and ends at the link's own key.
    pub proof fn lemma_chain_shape(&self)
        ensures
            self.chain().len() >= 1,
            self.chain().last() == self.head(),
    {
    }

    /// Builds a chain of one link, with no parent.
    pub fn new(value: T) -> (n: LinkedNode<T>)
        ensures
            n.chain() == seq![value],
            n.head() == value,
    {
        LinkedNode { value, parent: None }
    }

    /// Walks the parents back to the start of the search and returns the
    /// keys in walk order reversed, i.e. from the start to this link.
    pub fn flatten(&self) -> (r: Vec<T>)
        ensures
            r@ == self.chain(),
    {
        let mut list: Vec<T> = Vec::new();
        let mut current: &LinkedNode<T> = self;
        proof {
            assert(current.chain() + list@ =~= self.chain());
        }
        loop
            invariant_except_break
                current.chain() + list@ == self.chain(),
            ensures
                list@ == self.chain(),
            decreases *current,
        {
            list.insert(0, current.value);
            match &current.parent {
                Option::Some(p) => {
                    proof {
                        assert(p.chain() + list@ =~= self.chain());
                    }
                    current = &**p;
                },
                Option::None => {
                    proof {
                        assert(list@ =~= self.chain());
                    }
                    break ;
                },
            }
        }
        list
    }
}

impl<T: Copy> Clone for LinkedNode<T> {
    /// A clone is equal to the original, so a search may hand one chain to
    /// several successor links.
    fn clone(&self) -> (r: Self)
        ensures
            r == *self,
        decreases *self,
    {
        let parent: Option<Box<LinkedNode<T>>> = match &self.parent {
            Option::Some(p) => Option::Some(Box::new((**p).clone())),
            Option::None => Option::None,
        };
        LinkedNode { value: self.value, parent }
    }
}

/// The chains held by a stack of frontier entries, in stack order.
spec fn chains_of(stack: Seq<LinkedNode<usize>>) -> Seq<Seq<usize>> {
    stack.map_values((|n: LinkedNode<usize>| n.chain()))
}

/// The chain a search keeps for every frontier entry is a path from the
/// search's source to the entry's own key.
spec fn chain_ok(edges: Seq<Seq<usize>>, n: LinkedNode<usize>, source: usize) -> bool {
    &&& n.chain().len() >= 1
    &&& n.chain()[0] == source
    &&& n.chain().last() == n.head()
    &&& is_linked(edges, n.chain())
}

/// How much frontier growth the keys from `i` up can still cause: a key not
/// yet visited may enter the frontier once and push one entry per outgoing
/// edge when it is expanded.
pub open spec fn unexpanded_budget(edges: Seq<Seq<usize>>, visited: Seq<usize>, i: int) -> nat
    decreases edges.len() - i,
{
    if i < 0 || i >= edges.len() {
        0
    } else {
        (if visited.contains(i as usize) {
            0nat
        } else {
            (edges[i].len() + 1) as nat
        }) + unexpanded_budget(edges, visited, i + 1)
    }
}

/// Marking any key visited never raises the budget.
pub proof fn lemma_budget_push_le(edges: Seq<Seq<usize>>, visited: Seq<usize>, v: usize, i: int)
    ensures
        unexpanded_budget(edges, visited.push(v), i) <= unexpanded_budget(edges, visited, i),
    decreases edges.len() - i,
{
    if 0 <= i && i < edges.len() {
        lemma_budget_push_le(edges, visited, v, i + 1);
        if visited.contains(i as usize) {
            let j = choose|j: int| 0 <= j < visited.len() && visited[j] == i as usize;
            assert(visited.push(v)[j] == i as usize);
            assert(visited.push(v).contains(i as usize));
        }
    }
}

/// Marking a valid, unvisited key visited pays for one frontier entry per
/// outgoing edge of that key, and for the entry that held the key itself.
pub proof fn lemma_budget_mark_valid(edges: Seq<Seq<usize>>, visited: Seq<usize>, v: usize, i: int)
    requires
        !visited.contains(v),
        0 <= i <= v < edges.len(),
    ensures
        unexpanded_budget(edges, visited.push(v), i) + edges[v as int].len() + 1
            <= unexpanded_budget(edges, visited, i),
    decreases edges.len() - i,
{
    if i == v {
        lemma_budget_push_le(edges, visited, v, i + 1);
        assert(visited.push(v)[visited.len() as int] == v);
        assert(visited.push(v).contains(v));
    } else {
        lemma_budget_mark_valid(edges, visited, v, i + 1);
        if visited.contains(i as usize) {
            let j = choose|j: int| 0 <= j < visited.len() && visited[j] == i as usize;
            assert(visited.push(v)[j] == i as usize);
            assert(visited.push(v).contains(i as usize));
        }
    }
}

/// The chains a depth-first expansion of chain `c` over edge row `row`
/// leaves on the stack, newest last: one extension per destination, in
/// reverse row order, so the first-added edge ends on top.
pub open spec fn expand_chain(c: Seq<usize>, row: Seq<usize>) -> Seq<Seq<usize>> {
    Seq::new(row.len(), (|t: int| c.push(row[row.len() - 1 - t])))
}

/// The depth-first traversal itself, step by step over a stack of chains
/// and the keys already visited: pop the newest chain; discard it if its
/// head was already visited; return it if its head is the destination;
/// otherwise mark the head and push one extension per outgoing edge in
/// reverse edge order, so the first-added edge is explored first.
/// `find_path_dfs` returns exactly what this function computes from the
/// single chain `[source]` and no visited keys.
pub open spec fn dfs_from(
    edges: Seq<Seq<usize>>,
    stack: Seq<Seq<usize>>,
    visited: Seq<usize>,
    destination: usize,
) -> Option<Seq<usize>>
    decreases stack.len() + unexpanded_budget(edges, visited, 0),
{
    if stack.len() == 0 {
        None
    } else {
        let c = stack.last();
        let v = c.last();
        if visited.contains(v) {
            dfs_from(edges, stack.drop_last(), visited, destination)
        } else if v == destination {
            Some(c)
        } else if v < edges.len() {
            proof {
                lemma_budget_mark_valid(edges, visited, v, 0);
            }
            dfs_from(
                edges,
                stack.drop_last() + expand_chain(c, edges[v as int]),
                visited.push(v),
                destination,
            )
        } else {
            proof {
                lemma_budget_push_le(edges, visited, v, 0);
            }
            dfs_from(edges, stack.drop_last(), visited.push(v), destination)
        }
    }
}

/// Every key that occurs as a destination anywhere in the graph.
spec fn all_dests(edges: Seq<Seq<usize>>) -> Set<usize>
    decreases edges.len(),
{
    if edges.len() == 0 {
        Set::empty()
    } else {
        all_dests(edges.drop_last()).union(edges.last().to_set())
    }
}

proof fn lemma_all_dests_finite(edges: Seq<Seq<usize>>)
    ensures
        all_dests(edges).finite(),
    decreases edges.len(),
{
    if edges.len() > 0 {
        lemma_all_dests_finite(edges.drop_last());
        vstd::seq_lib::seq_to_set_is_finite(edges.last());
        vstd::set::axiom_set_union_finite(all_dests(edges.drop_last()), edges.last().to_set());
    }
}

proof fn lemma_all_dests_contains(edges: Seq<Seq<usize>>, i: int, d: usize)
    requires
        0 <= i < edges.len(),
        edges[i].contains(d),
    ensures
        all_dests(edges).contains(d),
    decreases edges.len(),
{
    if i == edges.len() - 1 {
        assert(edges.last().to_set().contains(d));
    } else {
        assert(edges.drop_last()[i] == edges[i]);
        lemma_all_dests_contains(edges.drop_last(), i, d);
    }
}

/// The keys of `p` are pairwise distinct: no key occurs twice.
pub open spec fn distinct_keys(p: Seq<usize>) -> bool {
    forall|i: int, j: int| 0 <= i < j < p.len() ==> p[i] != p[j]
}

/// No key of `q` has been visited yet.
spec fn seq_avoids(q: Seq<usize>, visited: Seq<usize>) -> bool {
    forall|j: int| 0 <= j < q.len() ==> !visited.contains(#[trigger] q[j])
}

/// Every key a frontier chain passed through on the way to its head — all
/// but the last — was marked visited when it was expanded, and no two of
/// them are equal.
spec fn prefix_marked(n: LinkedNode<usize>, visited: Seq<usize>) -> bool {
    &&& (forall|a: int, b: int| 0 <= a < b < n.chain().len() - 1 ==> n.chain()[a] != n.chain()[b])
    &&& (forall|a: int| 0 <= a < n.chain().len() - 1 ==> visited.contains(#[trigger] n.chain()[a]))
}

/// Marking one more key keeps every chain prefix marked.
proof fn lemma_prefix_marked_push(n: LinkedNode<usize>, visited: Seq<usize>, v: usize)
    requires
        prefix_marked(n, visited),
    ensures
        prefix_marked(n, visited.push(v)),
{
    assert forall|a: int| 0 <= a < n.chain().len() - 1 implies visited.push(v).contains(
        #[trigger] n.chain()[a],
    ) by {
        lemma_push_contains(visited, v, n.chain()[a]);
    }
}

/// A chain whose prefix is marked and whose head is still unvisited repeats
/// no key: the head differs from every marked prefix key.
proof fn lemma_expanded_chain_distinct(n: LinkedNode<usize>, visited: Seq<usize>)
    requires
        prefix_marked(n, visited),
        !visited.contains(n.head()),
        n.chain().len() >= 1,
        n.chain().last() == n.head(),
    ensures
        distinct_keys(n.chain()),
{
    let c = n.chain();
    assert forall|i: int, j: int| 0 <= i < j < c.len() implies c[i] != c[j] by {
        if j == c.len() - 1 {
            assert(visited.contains(c[i]));
        }
    }
}

/// Extending an expanded chain by one edge yields a chain whose prefix —
/// the whole old chain — is marked once the old head is marked too.
proof fn lemma_child_prefix_marked(
    node: LinkedNode<usize>,
    child: LinkedNode<usize>,
    d: usize,
    visited: Seq<usize>,
)
    requires
        prefix_marked(node, visited),
        !visited.contains(node.head()),
        node.chain().len() >= 1,
        node.chain().last() == node.head(),
        child.chain() == node.chain().push(d),
    ensures
        prefix_marked(child, visited.push(node.head())),
{
    let c = node.chain();
    lemma_expanded_chain_distinct(node, visited);
    assert forall|a: int, b: int| 0 <= a < b < child.chain().len() - 1 implies child.chain()[a]
        != child.chain()[b] by {
        assert(child.chain()[a] == c[a]);
        assert(child.chain()[b] == c[b]);
    }
    assert forall|a: int| 0 <= a < child.chain().len() - 1 implies visited.push(
        node.head(),
    ).contains(#[trigger] child.chain()[a]) by {
        assert(child.chain()[a] == c[a]);
        if a < c.len() - 1 {
            lemma_push_contains(visited, node.head(), c[a]);
        } else {
            assert(c[a] == node.head());
            assert(visited.push(node.head())[visited.len() as int] == node.head());
        }
    }
}

/// The frontier entry `n` still covers `destination`: some path from its
/// key to `destination` runs entirely through unvisited keys.
spec fn covers(
    edges: Seq<Seq<usize>>,
    n: LinkedNode<usize>,
    destination: usize,
    visited: Seq<usize>,
) -> bool {
    exists|q: Seq<usize>| #[trigger] is_path(edges, q, n.head(), destination) && seq_avoids(
        q,
        visited,
    )
}

/// What `push` can and cannot add to a membership test.
proof fn lemma_push_contains(s: Seq<usize>, v: usize, x: usize)
    ensures
        s.push(v).contains(x) <==> (s.contains(x) || x == v),
{
    if s.push(v).contains(x) {
        let m = choose|m: int| 0 <= m < s.push(v).len() && s.push(v)[m] == x;
        if m < s.len() {
            assert(s[m] == x);
        }
    }
    if s.contains(x) {
        let m = choose|m: int| 0 <= m < s.len() && s[m] == x;
        assert(s.push(v)[m] == x);
    }
    if x == v {
        assert(s.push(v)[s.len() as int] == x);
    }
}

/// A path that avoids `visited` and never passes through `v` still avoids
/// everything after `v` is marked visited.
proof fn lemma_avoids_push(q: Seq<usize>, visited: Seq<usize>, v: usize)
    requires
        seq_avoids(q, visited),
        !q.contains(v),
    ensures
        seq_avoids(q, visited.push(v)),
{
    assert forall|j: int| 0 <= j < q.len() implies !visited.push(v).contains(#[trigger] q[j]) by {
        assert(q[j] != v);
        lemma_push_contains(visited, v, q[j]);
    }
}

/// The position of the last occurrence of `v` in `q`.
proof fn last_occurrence(q: Seq<usize>, v: usize) -> (k: int)
    requires
        q.contains(v),
    ensures
        0 <= k < q.len(),
        q[k] == v,
        forall|j: int| k < j < q.len() ==> q[j] != v,
    decreases q.len(),
{
    if q.last() == v {
        q.len() - 1
    } else {
        let m = choose|m: int| 0 <= m < q.len() && q[m] == v;
        assert(m < q.len() - 1);
        assert(q.drop_last()[m] == v);
        assert(q.drop_last().contains(v));
        let k = last_occurrence(q.drop_last(), v);
        assert forall|j: int| k < j < q.len() implies q[j] != v by {
            if j < q.len() - 1 {
                assert(q.drop_last()[j] != v);
                assert(q[j] == q.drop_last()[j]);
            }
        }
        k
    }
}

/// Every suffix of a path is a path from the key it starts at.
proof fn lemma_path_suffix(edges: Seq<Seq<usize>>, q: Seq<usize>, a: usize, b: usize, s: int)
    requires
        is_path(edges, q, a, b),
        0 <= s < q.len(),
    ensures
        is_path(edges, q.skip(s), q[s], b),
{
    let q2 = q.skip(s);
    assert(q2.len() == q.len() - s);
    assert(q2[0] == q[s]);
    assert(q2[q2.len() - 1] == q[q.len() - 1]);
    assert forall|i: int| 0 <= i < q2.len() - 1 implies #[trigger] q2[i] < edges.len()
        && edges[q2[i] as int].contains(q2[i + 1]) by {
        assert(q2[i] == q[s + i]);
        assert(q2[i + 1] == q[s + i + 1]);
        assert(q[s + i] < edges.len() && edges[q[s + i] as int].contains(q[s + i + 1]));
    }
}

/// No key of `q` after its start has been visited yet.  The start itself is
/// exempt: breadth-first search marks a key when it enters the frontier, so
/// frontier entries themselves are already visited.
spec fn tail_avoids(q: Seq<usize>, visited: Set<usize>) -> bool {
    forall|j: int| 1 <= j < q.len() ==> !visited.contains(#[trigger] q[j])
}

/// Some frontier entry still covers `destination` no more expensively than
/// the reference path `q` does: a path with unvisited tail leads from the
/// entry's key to `destination`, and the entry's chain plus that path
/// together are no longer than `q`.
spec fn bfs_frontier_covers(
    edges: Seq<Seq<usize>>,
    queue: Seq<LinkedNode<usize>>,
    destination: usize,
    visited: Set<usize>,
    q: Seq<usize>,
) -> bool {
    exists|i: int, q2: Seq<usize>|
        0 <= i < queue.len() && #[trigger] is_path(edges, q2, queue[i].head(), destination)
            && tail_avoids(q2, visited) && queue[i].chain().len() + q2.len() <= q.len() + 1
}

/// While one node is being expanded, `destination` may instead be covered by
/// an edge of that node not yet handed out: a destination at or past `lo` in
/// `row`, unvisited, from which a path with unvisited tail leads to
/// `destination`, cheaply enough relative to the reference path `q` when the
/// expanded node's chain has length `base`.
spec fn bfs_pending_covers(
    edges: Seq<Seq<usize>>,
    row: Seq<usize>,
    lo: int,
    base: nat,
    destination: usize,
    visited: Set<usize>,
    q: Seq<usize>,
) -> bool {
    exists|jc: int, q2: Seq<usize>|
        lo <= jc < row.len() && #[trigger] is_path(edges, q2, row[jc], destination) && tail_avoids(
            q2,
            visited,
        ) && !visited.contains(row[jc]) && base + 1 + q2.len() <= q.len() + 1
}

/// Dequeuing the frontier's front for expansion keeps `destination`
/// covered: either another entry covers it, or a covering path ran through
/// the dequeued node and one of its outgoing edges now covers it, pending
/// its turn in the expansion.
proof fn lemma_bfs_expand_establish(
    edges: Seq<Seq<usize>>,
    queue0: Seq<LinkedNode<usize>>,
    queue1: Seq<LinkedNode<usize>>,
    node: LinkedNode<usize>,
    row: Seq<usize>,
    destination: usize,
    visited: Set<usize>,
    q: Seq<usize>,
)
    requires
        bfs_frontier_covers(edges, queue0, destination, visited, q),
        queue0.len() >= 1,
        node == queue0[0],
        queue1 == queue0.skip(1),
        node.head() < edges.len(),
        row == edges[node.head() as int],
        node.head() != destination,
    ensures
        bfs_frontier_covers(edges, queue1, destination, visited, q) || bfs_pending_covers(
            edges,
            row,
            0,
            node.chain().len(),
            destination,
            visited,
            q,
        ),
{
    let (i, q2) = choose|i: int, q2: Seq<usize>|
        0 <= i < queue0.len() && #[trigger] is_path(edges, q2, queue0[i].head(), destination)
            && tail_avoids(q2, visited) && queue0[i].chain().len() + q2.len() <= q.len() + 1;
    if i == 0 {
        assert(q2[0] == node.head());
        assert(q2.len() >= 2) by {
            if q2.len() == 1 {
                assert(q2[0] == destination);
            }
        }
        let c = q2[1];
        assert(q2[0] < edges.len() && edges[q2[0] as int].contains(q2[1]));
        assert(row.contains(c));
        let jc = choose|jc: int| 0 <= jc < row.len() && row[jc] == c;
        lemma_path_suffix(edges, q2, node.head(), destination, 1);
        let q3 = q2.skip(1);
        assert forall|j: int| 1 <= j < q3.len() implies !visited.contains(#[trigger] q3[j]) by {
            assert(q3[j] == q2[1 + j]);
        }
        assert(!visited.contains(row[jc]));
        assert(0 <= jc < row.len() && is_path(edges, q3, row[jc], destination) && tail_avoids(
            q3,
            visited,
        ) && !visited.contains(row[jc]) && node.chain().len() + 1 + q3.len() <= q.len() + 1);
    } else {
        assert(queue1[i - 1] == queue0[i]);
        assert(0 <= i - 1 < queue1.len() && is_path(edges, q2, queue1[i - 1].head(), destination)
            && tail_avoids(q2, visited) && queue1[i - 1].chain().len() + q2.len() <= q.len() + 1);
    }
}

/// Marking one handed-out destination `d` and appending a frontier entry for
/// it keeps `destination` covered, the pending region shrinking by one.
proof fn lemma_bfs_mark_maintain(
    edges: Seq<Seq<usize>>,
    iqueue0: Seq<LinkedNode<usize>>,
    newqueue: Seq<LinkedNode<usize>>,
    row: Seq<usize>,
    jd: int,
    node: LinkedNode<usize>,
    child: LinkedNode<usize>,
    d: usize,
    destination: usize,
    vpre: Set<usize>,
    q: Seq<usize>,
)
    requires
        bfs_frontier_covers(edges, iqueue0, destination, vpre, q) || bfs_pending_covers(
            edges,
            row,
            jd,
            node.chain().len(),
            destination,
            vpre,
            q,
        ),
        0 <= jd < row.len(),
        row[jd] == d,
        newqueue == iqueue0.push(child),
        child.head() == d,
        child.chain().len() == node.chain().len() + 1,
        forall|i: int| 0 <= i < iqueue0.len() ==> node.chain().len() <= (#[trigger] iqueue0[i]).chain().len(),
    ensures
        bfs_frontier_covers(edges, newqueue, destination, vpre.insert(d), q) || bfs_pending_covers(
            edges,
            row,
            jd + 1,
            node.chain().len(),
            destination,
            vpre.insert(d),
            q,
        ),
{
    if bfs_frontier_covers(edges, iqueue0, destination, vpre, q) {
        let (i0, q2) = choose|i0: int, q2: Seq<usize>|
            0 <= i0 < iqueue0.len() && #[trigger] is_path(edges, q2, iqueue0[i0].head(), destination)
                && tail_avoids(q2, vpre) && iqueue0[i0].chain().len() + q2.len() <= q.len() + 1;
        if exists|m: int| 1 <= m < q2.len() && q2[m] == d {
            let m = choose|m: int| 1 <= m < q2.len() && q2[m] == d;
            let q3 = lemma_bfs_cover_after_mark(
                edges,
                q2,
                iqueue0[i0].head(),
                destination,
                vpre,
                d,
                m,
                child,
            );
            assert(node.chain().len() <= iqueue0[i0].chain().len());
            assert(newqueue[newqueue.len() - 1] == child);
            assert(0 <= newqueue.len() - 1 < newqueue.len() && is_path(
                edges,
                q3,
                newqueue[newqueue.len() - 1].head(),
                destination,
            ) && tail_avoids(q3, vpre.insert(d)) && newqueue[newqueue.len() - 1].chain().len()
                + q3.len() <= q.len() + 1);
        } else {
            assert forall|j: int| 1 <= j < q2.len() implies !vpre.insert(d).contains(
                #[trigger] q2[j],
            ) by {
                assert(q2[j] != d);
            }
            assert(newqueue[i0] == iqueue0[i0]);
            assert(0 <= i0 < newqueue.len() && is_path(edges, q2, newqueue[i0].head(), destination)
                && tail_avoids(q2, vpre.insert(d)) && newqueue[i0].chain().len() + q2.len()
                <= q.len() + 1);
        }
    } else {
        let (jc, q2) = choose|jc: int, q2: Seq<usize>|
            jd <= jc < row.len() && #[trigger] is_path(edges, q2, row[jc], destination)
                && tail_avoids(q2, vpre) && !vpre.contains(row[jc]) && node.chain().len() + 1
                + q2.len() <= q.len() + 1;
        if row[jc] == d {
            let q3 = lemma_bfs_requeue(edges, q2, d, destination, vpre, child);
            assert(newqueue[newqueue.len() - 1] == child);
            assert(0 <= newqueue.len() - 1 < newqueue.len() && is_path(
                edges,
                q3,
                newqueue[newqueue.len() - 1].head(),
                destination,
            ) && tail_avoids(q3, vpre.insert(d)) && newqueue[newqueue.len() - 1].chain().len()
                + q3.len() <= q.len() + 1);
        } else if exists|m: int| 1 <= m < q2.len() && q2[m] == d {
            let m = choose|m: int| 1 <= m < q2.len() && q2[m] == d;
            let q3 = lemma_bfs_cover_after_mark(edges, q2, row[jc], destination, vpre, d, m, child);
            assert(newqueue[newqueue.len() - 1] == child);
            assert(0 <= newqueue.len() - 1 < newqueue.len() && is_path(
                edges,
                q3,
                newqueue[newqueue.len() - 1].head(),
                destination,
            ) && tail_avoids(q3, vpre.insert(d)) && newqueue[newqueue.len() - 1].chain().len()
                + q3.len() <= q.len() + 1);
        } else {
            assert(jc != jd);
            assert forall|j: int| 1 <= j < q2.len() implies !vpre.insert(d).contains(
                #[trigger] q2[j],
            ) by {
                assert(q2[j] != d);
            }
            assert(!vpre.insert(d).contains(row[jc]));
            assert(jd + 1 <= jc < row.len() && is_path(edges, q2, row[jc], destination)
                && tail_avoids(q2, vpre.insert(d)) && !vpre.insert(d).contains(row[jc])
                && node.chain().len() + 1 + q2.len() <= q.len() + 1);
        }
    }
}

/// Handing out a destination that is already visited keeps `destination`
/// covered, the pending region shrinking by one.
proof fn lemma_bfs_skip_maintain(
    edges: Seq<Seq<usize>>,
    queue: Seq<LinkedNode<usize>>,
    row: Seq<usize>,
    jd: int,
    node: LinkedNode<usize>,
    d: usize,
    destination: usize,
    visited: Set<usize>,
    q: Seq<usize>,
)
    requires
        bfs_frontier_covers(edges, queue, destination, visited, q) || bfs_pending_covers(
            edges,
            row,
            jd,
            node.chain().len(),
            destination,
            visited,
            q,
        ),
        0 <= jd < row.len(),
        row[jd] == d,
        visited.contains(d),
    ensures
        bfs_frontier_covers(edges, queue, destination, visited, q) || bfs_pending_covers(
            edges,
            row,
            jd + 1,
            node.chain().len(),
            destination,
            visited,
            q,
        ),
{
    if !bfs_frontier_covers(edges, queue, destination, visited, q) {
        let (jc, q2) = choose|jc: int, q2: Seq<usize>|
            jd <= jc < row.len() && #[trigger] is_path(edges, q2, row[jc], destination)
                && tail_avoids(q2, visited) && !visited.contains(row[jc]) && node.chain().len() + 1
                + q2.len() <= q.len() + 1;
        assert(jc != jd);
        assert(jd + 1 <= jc < row.len() && is_path(edges, q2, row[jc], destination) && tail_avoids(
            q2,
            visited,
        ) && !visited.contains(row[jc]) && node.chain().len() + 1 + q2.len() <= q.len() + 1);
    }
}

/// Dequeuing a node whose key is not a valid index keeps `destination`
/// covered: no path can run through such a key, so another entry covers it.
proof fn lemma_bfs_invalid_maintain(
    edges: Seq<Seq<usize>>,
    queue0: Seq<LinkedNode<usize>>,
    queue1: Seq<LinkedNode<usize>>,
    node: LinkedNode<usize>,
    destination: usize,
    visited: Set<usize>,
    q: Seq<usize>,
)
    requires
        bfs_frontier_covers(edges, queue0, destination, visited, q),
        queue0.len() >= 1,
        node == queue0[0],
        queue1 == queue0.skip(1),
        node.head() >= edges.len(),
        node.head() != destination,
    ensures
        bfs_frontier_covers(edges, queue1, destination, visited, q),
{
    let (i, q2) = choose|i: int, q2: Seq<usize>|
        0 <= i < queue0.len() && #[trigger] is_path(edges, q2, queue0[i].head(), destination)
            && tail_avoids(q2, visited) && queue0[i].chain().len() + q2.len() <= q.len() + 1;
    assert(i >= 1) by {
        if i == 0 {
            assert(q2[0] == node.head());
            if q2.len() == 1 {
                assert(q2[0] == destination);
            } else {
                assert(q2[0] < edges.len());
            }
        }
    }
    assert(queue1[i - 1] == queue0[i]);
    assert(0 <= i - 1 < queue1.len() && is_path(edges, q2, queue1[i - 1].head(), destination)
        && tail_avoids(q2, visited) && queue1[i - 1].chain().len() + q2.len() <= q.len() + 1);
}

/// When the front of the frontier holds `destination`, its chain is a
/// shortest path: every entry's chain is at least as long as the front's,
/// and every path to `destination` is at least as long as some entry's
/// chain plus the covering remainder.
proof fn lemma_bfs_found_shortest(
    edges: Seq<Seq<usize>>,
    queue0: Seq<LinkedNode<usize>>,
    node: LinkedNode<usize>,
    destination: usize,
    visited: Set<usize>,
    q: Seq<usize>,
)
    requires
        bfs_frontier_covers(edges, queue0, destination, visited, q),
        queue0.len() >= 1,
        node == queue0[0],
        forall|i: int, j: int|
            #![trigger queue0[i], queue0[j]]
            0 <= i <= j < queue0.len() ==> queue0[i].chain().len() <= queue0[j].chain().len()
                && queue0[j].chain().len() <= queue0[i].chain().len() + 1,
    ensures
        node.chain().len() <= q.len(),
{
    let (i, q2) = choose|i: int, q2: Seq<usize>|
        0 <= i < queue0.len() && #[trigger] is_path(edges, q2, queue0[i].head(), destination)
            && tail_avoids(q2, visited) && queue0[i].chain().len() + q2.len() <= q.len() + 1;
    assert(node.chain().len() <= queue0[i].chain().len());
    assert(q2.len() >= 1);
}

/// Marking `d` and giving it a frontier entry keeps `destination` covered
/// when a covering path starts at `d` itself: the suffix from the last
/// occurrence of `d` still avoids everything visited, and is no longer than
/// the path it came from.
#[verifier::rlimit(100)]
proof fn lemma_bfs_requeue(
    edges: Seq<Seq<usize>>,
    q2: Seq<usize>,
    d: usize,
    destination: usize,
    visited_pre: Set<usize>,
    child: LinkedNode<usize>,
) -> (q3: Seq<usize>)
    requires
        is_path(edges, q2, d, destination),
        tail_avoids(q2, visited_pre),
        child.head() == d,
    ensures
        is_path(edges, q3, child.head(), destination),
        tail_avoids(q3, visited_pre.insert(d)),
        q3.len() <= q2.len(),
{
    assert(q2.contains(d)) by {
        assert(q2[0] == d);
    }
    let k = last_occurrence(q2, d);
    lemma_path_suffix(edges, q2, d, destination, k);
    let q3 = q2.skip(k);
    assert forall|j: int| 1 <= j < q3.len() implies !visited_pre.insert(d).contains(
        #[trigger] q3[j],
    ) by {
        assert(q3[j] == q2[k + j]);
        assert(q2[k + j] != d);
        assert(!visited_pre.contains(q2[k + j]));
    }
    assert(is_path(edges, q3, child.head(), destination));
    q3
}

/// Marking `d` and giving it a frontier entry keeps `destination` covered
/// when `d` sits at position `m` in the tail of some covering path: the
/// suffix of that path from `d` on covers it from the new entry, and it is
/// at least `m` steps shorter.
proof fn lemma_bfs_cover_after_mark(
    edges: Seq<Seq<usize>>,
    q: Seq<usize>,
    a: usize,
    destination: usize,
    visited_pre: Set<usize>,
    d: usize,
    m: int,
    child: LinkedNode<usize>,
) -> (q3: Seq<usize>)
    requires
        is_path(edges, q, a, destination),
        tail_avoids(q, visited_pre),
        1 <= m < q.len(),
        q[m] == d,
        child.head() == d,
    ensures
        is_path(edges, q3, child.head(), destination),
        tail_avoids(q3, visited_pre.insert(d)),
        q3.len() <= q.len() - m,
{
    lemma_path_suffix(edges, q, a, destination, m);
    let q2 = q.skip(m);
    assert forall|j: int| 1 <= j < q2.len() implies !visited_pre.contains(#[trigger] q2[j]) by {
        assert(q2[j] == q[m + j]);
    }
    lemma_bfs_requeue(edges, q2, d, destination, visited_pre, child)
}

/// Discarding an already-visited frontier entry keeps `destination`
/// covered: no covering path can start at a visited key, so another entry
/// holds the cover.
proof fn lemma_dfs_skip_cover(
    edges: Seq<Seq<usize>>,
    stack0: Seq<LinkedNode<usize>>,
    newstack: Seq<LinkedNode<usize>>,
    node: LinkedNode<usize>,
    destination: usize,
    visited: Seq<usize>,
)
    requires
        exists|i: int| 0 <= i < stack0.len() && #[trigger] covers(
            edges,
            stack0[i],
            destination,
            visited,
        ),
        stack0.len() >= 1,
        node == stack0.last(),
        newstack == stack0.drop_last(),
        visited.contains(node.head()),
    ensures
        exists|i: int| 0 <= i < newstack.len() && #[trigger] covers(
            edges,
            newstack[i],
            destination,
            visited,
        ),
{
    let i0 = choose|i: int|
        0 <= i < stack0.len() && #[trigger] covers(edges, stack0[i], destination, visited);
    let q = choose|q: Seq<usize>|
        #[trigger] is_path(edges, q, stack0[i0].head(), destination) && seq_avoids(q, visited);
    assert(i0 < newstack.len()) by {
        if i0 == stack0.len() - 1 {
            assert(q[0] == node.head());
            assert(!visited.contains(q[0]));
        }
    }
    assert(newstack[i0] == stack0[i0]);
    assert(covers(edges, newstack[i0], destination, visited));
}

/// Expanding a frontier entry whose key is not a valid index keeps
/// `destination` covered: no path can pass through such a key, so another
/// entry holds the cover, and marking the key disturbs no covering path.
proof fn lemma_dfs_invalid_cover(
    edges: Seq<Seq<usize>>,
    stack0: Seq<LinkedNode<usize>>,
    newstack: Seq<LinkedNode<usize>>,
    node: LinkedNode<usize>,
    destination: usize,
    visited: Seq<usize>,
)
    requires
        exists|i: int| 0 <= i < stack0.len() && #[trigger] covers(
            edges,
            stack0[i],
            destination,
            visited,
        ),
        stack0.len() >= 1,
        node == stack0.last(),
        newstack == stack0.drop_last(),
        !visited.contains(node.head()),
        node.head() >= edges.len(),
        node.head() != destination,
    ensures
        exists|i: int| 0 <= i < newstack.len() && #[trigger] covers(
            edges,
            newstack[i],
            destination,
            visited.push(node.head()),
        ),
{
    let i0 = choose|i: int|
        0 <= i < stack0.len() && #[trigger] covers(edges, stack0[i], destination, visited);
    let q = choose|q: Seq<usize>|
        #[trigger] is_path(edges, q, stack0[i0].head(), destination) && seq_avoids(q, visited);
    assert(!q.contains(node.head())) by {
        if q.contains(node.head()) {
            let j = choose|j: int| 0 <= j < q.len() && q[j] == node.head();
            if j < q.len() - 1 {
                assert(q[j] < edges.len());
            } else {
                assert(q[j] == destination);
            }
        }
    }
    assert(i0 < newstack.len()) by {
        if i0 == stack0.len() - 1 {
            assert(q[0] == node.head());
            assert(q.contains(node.head()));
        }
    }
    lemma_avoids_push(q, visited, node.head());
    assert(newstack[i0] == stack0[i0]);
    assert(covers(edges, newstack[i0], destination, visited.push(node.head())));
}

/// Expanding a valid, unvisited frontier entry keeps `destination` covered:
/// a covering path either misses the expanded key, so its entry survives
/// below the top, or runs through it, and then its suffix past the last
/// occurrence covers from one of the freshly pushed successor entries.
#[verifier::rlimit(100)]
proof fn lemma_dfs_expand_cover(
    edges: Seq<Seq<usize>>,
    stack0: Seq<LinkedNode<usize>>,
    newstack: Seq<LinkedNode<usize>>,
    node: LinkedNode<usize>,
    row: Seq<usize>,
    destination: usize,
    visited: Seq<usize>,
)
    requires
        exists|i: int| 0 <= i < stack0.len() && #[trigger] covers(
            edges,
            stack0[i],
            destination,
            visited,
        ),
        stack0.len() >= 1,
        node == stack0.last(),
        !visited.contains(node.head()),
        node.head() != destination,
        node.head() < edges.len(),
        row == edges[node.head() as int],
        newstack.len() >= stack0.len() - 1,
        forall|i: int| 0 <= i < stack0.len() - 1 ==> #[trigger] newstack[i] == stack0[i],
        forall|j: int|
            #![trigger row[j]]
            0 <= j < row.len() ==> exists|i: int| 0 <= i < newstack.len() && (
            #[trigger] newstack[i]).head() == row[j],
    ensures
        exists|i: int| 0 <= i < newstack.len() && #[trigger] covers(
            edges,
            newstack[i],
            destination,
            visited.push(node.head()),
        ),
{
    let i0 = choose|i: int|
        0 <= i < stack0.len() && #[trigger] covers(edges, stack0[i], destination, visited);
    let n0 = stack0[i0];
    let q = choose|q: Seq<usize>|
        #[trigger] is_path(edges, q, n0.head(), destination) && seq_avoids(q, visited);
    if q.contains(node.head()) {
        let k = last_occurrence(q, node.head());
        assert(q[q.len() - 1] == destination);
        assert(k < q.len() - 1);
        let c = q[k + 1];
        lemma_path_suffix(edges, q, n0.head(), destination, k + 1);
        let q2 = q.skip(k + 1);
        assert(q[k] < edges.len() && edges[q[k] as int].contains(q[k + 1]));
        assert(row.contains(c));
        let jr = choose|jr: int| 0 <= jr < row.len() && row[jr] == c;
        let iw = choose|i: int|
            0 <= i < newstack.len() && (#[trigger] newstack[i]).head() == row[jr];
        assert(seq_avoids(q2, visited)) by {
            assert forall|j: int| 0 <= j < q2.len() implies !visited.contains(
                #[trigger] q2[j],
            ) by {
                assert(q2[j] == q[k + 1 + j]);
            }
        }
        assert(!q2.contains(node.head())) by {
            if q2.contains(node.head()) {
                let m = choose|m: int| 0 <= m < q2.len() && q2[m] == node.head();
                assert(q2[m] == q[k + 1 + m]);
            }
        }
        lemma_avoids_push(q2, visited, node.head());
        assert(is_path(edges, q2, newstack[iw].head(), destination));
        assert(covers(edges, newstack[iw], destination, visited.push(node.head())));
    } else {
        assert(q[0] == n0.head());
        assert(i0 < stack0.len() - 1) by {
            if i0 == stack0.len() - 1 {
                assert(q[0] == node.head());
                assert(q.contains(node.head()));
            }
        }
        lemma_avoids_push(q, visited, node.head());
        assert(newstack[i0] == stack0[i0]);
        assert(covers(edges, newstack[i0], destination, visited.push(node.head())));
    }
}

/// Linear membership test over the keys visited so far.
fn contains_key(v: &Vec<usize>, k: usize) -> (b: bool)
    ensures
        b == v@.contains(k),
{
    let mut i: usize = 0;
    while i < v.len()
        invariant
            i <= v@.len(),
            forall|j: int| 0 <= j < i ==> v@[j] != k,
        decreases v@.len() - i,
    {
        if v[i] == k {
            proof {
                assert(v@[i as int] == k);
            }
            return true;
        }
        i = i + 1;
    }
    proof {
        assert(!v@.contains(k)) by {
            if v@.contains(k) {
                let j = choose|j: int| 0 <= j < v@.len() && v@[j] == k;
                assert(v@[j] != k);
            }
        }
    }
    false
}

/// Path search over any representation of the minimal graph contract: both
/// algorithms reach the storage only through `get_edges`, so every
/// [`Graph`] implementation gets them for free.
pub trait SearchableGraph<V>: Graph<V> {
    /// Depth-first search: returns the first path found from `source` to
    /// `destination`, not necessarily a shortest one, and `None` exactly
    /// when no path exists.  The result is precisely what the documented
    /// traversal [`dfs_from`] computes — edges of a node explored
    /// first-added first under lazy visited marking — so it is
    /// deterministic; a key is visited at most once, so the returned path
    /// never repeats a key.
    fn find_path_dfs(&self, source: usize, destination: usize) -> (r: Option<Vec<usize>>)
        requires
            self.wf(),
        ensures
            r matches Some(p) ==> is_path(self.dests_view(), p@, source, destination),
            r matches Some(p) ==> distinct_keys(p@),
            r matches Some(p) ==> Some(p@) == dfs_from(
                self.dests_view(),
                seq![seq![source]],
                Seq::<usize>::empty(),
                destination,
            ),
            r is None ==> dfs_from(
                self.dests_view(),
                seq![seq![source]],
                Seq::<usize>::empty(),
                destination,
            ) is None,
            (exists|p: Seq<usize>| #[trigger] is_path(self.dests_view(), p, source, destination))
                <==> r is Some,
            source == destination ==> {
                &&& r matches Some(p)
                &&& p@ == seq![source]
            },
    ;

    /// Breadth-first search: returns a path with the fewest edges from
    /// `source` to `destination` — no other path is shorter — and `None`
    /// exactly when no path exists.  The frontier is explored in discovery
    /// order, one hop level at a time.
    fn find_path_bfs(&self, source: usize, destination: usize) -> (r: Option<Vec<usize>>)
        requires
            self.wf(),
        ensures
            r matches Some(p) ==> is_path(self.dests_view(), p@, source, destination),
            r matches Some(p) ==> forall|q: Seq<usize>|
                #[trigger] is_path(self.dests_view(), q, source, destination) ==> p@.len()
                    <= q.len(),
            (exists|p: Seq<usize>| #[trigger] is_path(self.dests_view(), p, source, destination))
                <==> r is Some,
            source == destination ==> r is Some,
    ;
}

impl<V, G: Graph<V>> SearchableGraph<V> for G {
    #[verifier::loop_isolation(false)]
    #[verifier::rlimit(100)]
    fn find_path_dfs(&self, source: usize, destination: usize) -> (r: Option<Vec<usize>>) {
        let ghost edges = self.dests_view();
        proof {
            self.wf_views_agree();
        }
        let mut visited: Vec<usize> = Vec::new();
        let mut stack: Vec<LinkedNode<usize>> = Vec::new();
        stack.push(LinkedNode::new(source));
        proof {
            assert(chains_of(stack@) =~~= seq![seq![source]]);
            if exists|p: Seq<usize>| is_path(edges, p, source, destination) {
                let p = choose|p: Seq<usize>| is_path(edges, p, source, destination);
                assert(is_path(edges, p, stack@[0].head(), destination) && seq_avoids(
                    p,
                    visited@,
                ));
                assert(covers(edges, stack@[0], destination, visited@));
            }
        }
        while stack.len() > 0
            invariant
                forall|i: int| 0 <= i < stack@.len() ==> chain_ok(edges, #[trigger] stack@[i], source),
                forall|i: int| 0 <= i < stack@.len() ==> prefix_marked(#[trigger] stack@[i], visited@),
                source == destination ==> stack@.len() == 1 && stack@[0].head() == source
                    && stack@[0].chain() == seq![source] && visited@.len() == 0,
                dfs_from(edges, chains_of(stack@), visited@, destination) == dfs_from(
                    edges,
                    seq![seq![source]],
                    Seq::<usize>::empty(),
                    destination,
                ),
                (exists|p: Seq<usize>| is_path(edges, p, source, destination)) ==> exists|i: int|
                    0 <= i < stack@.len() && #[trigger] covers(
                        edges,
                        stack@[i],
                        destination,
                        visited@,
                    ),
            decreases stack@.len() + unexpanded_budget(edges, visited@, 0),
        {
            let ghost visited0 = visited@;
            let ghost stack0 = stack@;
            let node = stack.pop().unwrap();
            proof {
                node.lemma_chain_shape();
                assert(chains_of(stack0).len() == stack0.len());
                assert(chains_of(stack0).last() == node.chain());
                assert(chains_of(stack@) =~~= chains_of(stack0).drop_last());
            }
            let was_visited = contains_key(&visited, node.value);
            if !was_visited {
                visited.push(node.value);
                if node.value == destination {
                    proof {
                        assert(is_path(edges, node.chain(), source, destination));
                        lemma_expanded_chain_distinct(node, visited0);
                        assert(dfs_from(edges, chains_of(stack0), visited0, destination) == Some(
                            node.chain(),
                        ));
                    }
                    return Some(node.flatten());
                } else {
                    match self.get_edges(node.value) {
                        Option::Some(mut it) => {
                            let ghost row = it.remaining();
                            let ghost mid = stack@;
                            proof {
                                assert(row == edges[node.head() as int]);
                                assert(row.take(row.len() as int) =~= row);
                                node.lemma_chain_shape();
                                assert forall|i: int| 0 <= i < stack@.len() implies prefix_marked(
                                    #[trigger] stack@[i],
                                    visited@,
                                ) by {
                                    assert(stack@[i] == stack0[i]);
                                    lemma_prefix_marked_push(stack0[i], visited0, node.value);
                                }
                            }
                            while it.len() > 0
                                invariant
                                    it.wf(),
                                    it.remaining().len() <= row.len(),
                                    it.remaining() == row.take(it.remaining().len() as int),
                                    stack@.len() == mid.len() + row.len() - it.remaining().len(),
                                    forall|i: int| 0 <= i < mid.len() ==> stack@[i] == mid[i],
                                    forall|j: int|
                                        #![trigger row[j]]
                                        it.remaining().len() <= j < row.len() ==> exists|i: int|
                                            0 <= i < stack@.len() && (#[trigger] stack@[i]).head()
                                                == row[j],
                                    forall|t: int|
                                        0 <= t < row.len() - it.remaining().len() ==> (
                                        #[trigger] stack@[mid.len() + t]).chain()
                                            == node.chain().push(row[row.len() - 1 - t]),
                                    forall|i: int| 0 <= i < stack@.len() ==> chain_ok(
                                        edges,
                                        #[trigger] stack@[i],
                                        source,
                                    ),
                                    forall|i: int| 0 <= i < stack@.len() ==> prefix_marked(
                                        #[trigger] stack@[i],
                                        visited@,
                                    ),
                                decreases it.remaining().len(),
                            {
                                let ghost rem0 = it.remaining();
                                let ghost istack = stack@;
                                let d = it.next_back().unwrap();
                                proof {
                                    assert(rem0[rem0.len() - 1] == row[rem0.len() - 1]);
                                    assert(row.contains(d)) by {
                                        assert(row[rem0.len() - 1] == d);
                                    }
                                    assert(it.remaining() =~= row.take(
                                        it.remaining().len() as int,
                                    ));
                                }
                                let child = LinkedNode {
                                    value: d,
                                    parent: Option::Some(Box::new(node.clone())),
                                };
                                proof {
                                    lemma_chain_extends(edges, node, child, d, source);
                                    lemma_child_prefix_marked(node, child, d, visited0);
                                }
                                stack.push(child);
                                proof {
                                    assert forall|j: int|
                                        #![trigger row[j]]
                                        it.remaining().len() <= j < row.len() implies exists|i: int|
                                            0 <= i < stack@.len() && (#[trigger] stack@[i]).head()
                                                == row[j] by {
                                        if j == rem0.len() - 1 {
                                            assert(stack@[stack@.len() - 1].head() == row[j]);
                                        } else {
                                            let i = choose|i: int|
                                                0 <= i < istack.len() && (#[trigger] istack[i]).head()
                                                    == row[j];
                                            assert(stack@[i].head() == row[j]);
                                        }
                                    }
                                    assert forall|t: int|
                                        0 <= t < row.len() - it.remaining().len() implies (
                                        #[trigger] stack@[mid.len() + t]).chain() == node.chain().push(
                                        row[row.len() - 1 - t],
                                    ) by {
                                        if t == row.len() - rem0.len() {
                                            assert(stack@[mid.len() + t] == child);
                                        } else {
                                            assert(stack@[mid.len() + t] == istack[mid.len() + t]);
                                        }
                                    }
                                }
                            }
                            proof {
                                lemma_budget_mark_valid(edges, visited0, node.value, 0);
                                assert forall|i: int| 0 <= i < stack@.len() implies chains_of(
                                    stack@,
                                )[i] == (chains_of(stack0).drop_last() + expand_chain(
                                    node.chain(),
                                    row,
                                ))[i] by {
                                    if i < mid.len() {
                                        assert(stack@[i] == mid[i]);
                                        assert(mid[i] == stack0[i]);
                                    } else {
                                        let t = i - mid.len();
                                        assert(stack@[mid.len() + t].chain() == node.chain().push(
                                            row[row.len() - 1 - t],
                                        ));
                                    }
                                }
                                assert(chains_of(stack@) =~= chains_of(stack0).drop_last()
                                    + expand_chain(node.chain(), row));
                                assert(dfs_from(edges, chains_of(stack0), visited0, destination)
                                    == dfs_from(
                                    edges,
                                    chains_of(stack0).drop_last() + expand_chain(
                                        node.chain(),
                                        row,
                                    ),
                                    visited0.push(node.value),
                                    destination,
                                ));
                                if exists|p: Seq<usize>| is_path(edges, p, source, destination) {
                                    assert forall|i: int| 0 <= i < stack0.len() - 1 implies #[trigger] stack@[i]
                                        == stack0[i] by {
                                        assert(stack@[i] == mid[i]);
                                    }
                                    lemma_dfs_expand_cover(
                                        edges,
                                        stack0,
                                        stack@,
                                        node,
                                        row,
                                        destination,
                                        visited0,
                                    );
                                }
                            }
                        },
                        Option::None => {
                            proof {
                                lemma_budget_push_le(edges, visited0, node.value, 0);
                                assert(dfs_from(edges, chains_of(stack0), visited0, destination)
                                    == dfs_from(
                                    edges,
                                    chains_of(stack0).drop_last(),
                                    visited0.push(node.value),
                                    destination,
                                ));
                                assert forall|i: int| 0 <= i < stack@.len() implies prefix_marked(
                                    #[trigger] stack@[i],
                                    visited@,
                                ) by {
                                    assert(stack@[i] == stack0[i]);
                                    lemma_prefix_marked_push(stack0[i], visited0, node.value);
                                }
                                if exists|p: Seq<usize>| is_path(edges, p, source, destination) {
                                    lemma_dfs_invalid_cover(
                                        edges,
                                        stack0,
                                        stack@,
                                        node,
                                        destination,
                                        visited0,
                                    );
                                }
                            }
                        },
                    }
                }
            } else {
                proof {
                    assert(dfs_from(edges, chains_of(stack0), visited0, destination) == dfs_from(
                        edges,
                        chains_of(stack0).drop_last(),
                        visited0,
                        destination,
                    ));
                    if exists|p: Seq<usize>| is_path(edges, p, source, destination) {
                        lemma_dfs_skip_cover(edges, stack0, stack@, node, destination, visited0);
                    }
                }
            }
        }
        None
    }

    #[verifier::loop_isolation(false)]
    #[verifier::rlimit(100)]
    fn find_path_bfs(&self, source: usize, destination: usize) -> (r: Option<Vec<usize>>) {
        let ghost edges = self.dests_view();
        let ghost keyspace = all_dests(edges);
        proof {
            self.wf_views_agree();
            lemma_all_dests_finite(edges);
        }
        let mut visited: HashSet<usize> = HashSet::new();
        let mut queue: VecDeque<LinkedNode<usize>> = VecDeque::new();
        queue.push_front(LinkedNode::new(source));
        proof {
            assert forall|q: Seq<usize>| #[trigger] is_path(edges, q, source, destination)
                implies bfs_frontier_covers(edges, queue@, destination, visited@, q) by {
                assert(is_path(edges, q, queue@[0].head(), destination) && tail_avoids(
                    q,
                    visited@,
                ) && queue@[0].chain().len() + q.len() <= q.len() + 1);
            }
        }
        while queue.len() > 0
            invariant
                forall|i: int| 0 <= i < queue@.len() ==> chain_ok(edges, #[trigger] queue@[i], source),
                keyspace.difference(visited@).finite(),
                source == destination ==> queue@.len() >= 1 && queue@[0].head() == source,
                forall|i: int, j: int|
                    #![trigger queue@[i], queue@[j]]
                    0 <= i <= j < queue@.len() ==> queue@[i].chain().len()
                        <= queue@[j].chain().len() && queue@[j].chain().len()
                        <= queue@[i].chain().len() + 1,
                forall|q: Seq<usize>| #[trigger] is_path(edges, q, source, destination)
                    ==> bfs_frontier_covers(edges, queue@, destination, visited@, q),
            decreases keyspace.difference(visited@).len(), queue@.len(),
        {
            let ghost diff0 = keyspace.difference(visited@).len();
            let ghost visited0 = visited@;
            let ghost queue0 = queue@;
            let node = queue.pop_front().unwrap();
            let ghost qlen1 = queue@.len();
            proof {
                assert(queue@ =~= queue0.skip(1));
            }
            if node.value == destination {
                proof {
                    node.lemma_chain_shape();
                    assert(is_path(edges, node.chain(), source, destination));
                    assert forall|q: Seq<usize>| #[trigger] is_path(edges, q, source, destination)
                        implies node.chain().len() <= q.len() by {
                        lemma_bfs_found_shortest(edges, queue0, node, destination, visited0, q);
                    }
                }
                return Some(node.flatten());
            } else {
                match self.get_edges(node.value) {
                    Option::Some(mut it) => {
                        let ghost row = it.remaining();
                        proof {
                            assert(row == edges[node.head() as int]);
                            assert(row.skip(0) =~= row);
                            assert forall|q: Seq<usize>| #[trigger] is_path(
                                edges,
                                q,
                                source,
                                destination,
                            ) implies bfs_frontier_covers(edges, queue@, destination, visited@, q)
                                || bfs_pending_covers(
                                edges,
                                row,
                                0,
                                node.chain().len(),
                                destination,
                                visited@,
                                q,
                            ) by {
                                lemma_bfs_expand_establish(
                                    edges,
                                    queue0,
                                    queue@,
                                    node,
                                    row,
                                    destination,
                                    visited@,
                                    q,
                                );
                            }
                            assert forall|i: int| 0 <= i < queue@.len() implies node.chain().len()
                                <= (#[trigger] queue@[i]).chain().len() && queue@[i].chain().len()
                                <= node.chain().len() + 1 by {
                                assert(queue@[i] == queue0[i + 1]);
                            }
                            assert forall|i: int, j: int|
                                #![trigger queue@[i], queue@[j]]
                                0 <= i <= j < queue@.len() implies queue@[i].chain().len()
                                    <= queue@[j].chain().len() && queue@[j].chain().len()
                                    <= queue@[i].chain().len() + 1 by {
                                assert(queue@[i] == queue0[i + 1]);
                                assert(queue@[j] == queue0[j + 1]);
                            }
                        }
                        while it.len() > 0
                            invariant
                                it.wf(),
                                it.remaining().len() <= row.len(),
                                it.remaining() == row.skip(row.len() - it.remaining().len()),
                                forall|i: int| 0 <= i < queue@.len() ==> chain_ok(
                                    edges,
                                    #[trigger] queue@[i],
                                    source,
                                ),
                                forall|i: int| 0 <= i < queue@.len() ==> node.chain().len()
                                    <= (#[trigger] queue@[i]).chain().len()
                                    && queue@[i].chain().len() <= node.chain().len() + 1,
                                forall|i: int, j: int|
                                    #![trigger queue@[i], queue@[j]]
                                    0 <= i <= j < queue@.len() ==> queue@[i].chain().len()
                                        <= queue@[j].chain().len() && queue@[j].chain().len()
                                        <= queue@[i].chain().len() + 1,
                                keyspace.difference(visited@).finite(),
                                keyspace.difference(visited@).len() <= diff0,
                                (visited@ == visited0 && queue@.len() == qlen1)
                                    || keyspace.difference(visited@).len() < diff0,
                                forall|q: Seq<usize>| #[trigger] is_path(
                                    edges,
                                    q,
                                    source,
                                    destination,
                                ) ==> bfs_frontier_covers(edges, queue@, destination, visited@, q)
                                    || bfs_pending_covers(
                                    edges,
                                    row,
                                    row.len() - it.remaining().len(),
                                    node.chain().len(),
                                    destination,
                                    visited@,
                                    q,
                                ),
                            decreases it.remaining().len(),
                        {
                            let ghost rem0 = it.remaining();
                            let ghost iqueue0 = queue@;
                            let ghost jd = row.len() - rem0.len();
                            let d = it.next().unwrap();
                            proof {
                                assert(rem0[0] == row[jd]);
                                assert(row.contains(d)) by {
                                    assert(row[jd] == d);
                                }
                                assert(it.remaining() =~= row.skip(
                                    row.len() - it.remaining().len(),
                                ));
                            }
                            if !visited.contains(&d) {
                                let ghost vpre = visited@;
                                visited.insert(d);
                                proof {
                                    lemma_all_dests_contains(edges, node.head() as int, d);
                                    assert(keyspace.difference(vpre).contains(d));
                                    assert(keyspace.difference(visited@)
                                        =~= keyspace.difference(vpre).remove(d));
                                    vstd::set::axiom_set_remove_len(
                                        keyspace.difference(vpre),
                                        d,
                                    );
                                }
                                let child = LinkedNode {
                                    value: d,
                                    parent: Option::Some(Box::new(node.clone())),
                                };
                                proof {
                                    lemma_chain_extends(edges, node, child, d, source);
                                    assert(child.chain().len() == node.chain().len() + 1);
                                }
                                queue.push_back(child);
                                proof {
                                    assert forall|q: Seq<usize>| #[trigger] is_path(
                                        edges,
                                        q,
                                        source,
                                        destination,
                                    ) implies bfs_frontier_covers(
                                        edges,
                                        queue@,
                                        destination,
                                        visited@,
                                        q,
                                    ) || bfs_pending_covers(
                                        edges,
                                        row,
                                        row.len() - it.remaining().len(),
                                        node.chain().len(),
                                        destination,
                                        visited@,
                                        q,
                                    ) by {
                                        lemma_bfs_mark_maintain(
                                            edges,
                                            iqueue0,
                                            queue@,
                                            row,
                                            jd,
                                            node,
                                            child,
                                            d,
                                            destination,
                                            vpre,
                                            q,
                                        );
                                    }
                                    assert forall|i: int| 0 <= i < queue@.len() implies node.chain().len()
                                        <= (#[trigger] queue@[i]).chain().len()
                                        && queue@[i].chain().len() <= node.chain().len() + 1 by {
                                        if i < queue@.len() - 1 {
                                            assert(queue@[i] == iqueue0[i]);
                                        }
                                    }
                                    assert forall|i: int, j: int|
                                        #![trigger queue@[i], queue@[j]]
                                        0 <= i <= j < queue@.len() implies queue@[i].chain().len()
                                            <= queue@[j].chain().len() && queue@[j].chain().len()
                                            <= queue@[i].chain().len() + 1 by {
                                        if j == queue@.len() - 1 {
                                            if i < j {
                                                assert(queue@[i] == iqueue0[i]);
                                            }
                                        } else {
                                            assert(queue@[i] == iqueue0[i]);
                                            assert(queue@[j] == iqueue0[j]);
                                        }
                                    }
                                }
                            } else {
                                proof {
                                    assert forall|q: Seq<usize>| #[trigger] is_path(
                                        edges,
                                        q,
                                        source,
                                        destination,
                                    ) implies bfs_frontier_covers(
                                        edges,
                                        queue@,
                                        destination,
                                        visited@,
                                        q,
                                    ) || bfs_pending_covers(
                                        edges,
                                        row,
                                        row.len() - it.remaining().len(),
                                        node.chain().len(),
                                        destination,
                                        visited@,
                                        q,
                                    ) by {
                                        lemma_bfs_skip_maintain(
                                            edges,
                                            queue@,
                                            row,
                                            jd,
                                            node,
                                            d,
                                            destination,
                                            visited@,
                                            q,
                                        );
                                    }
                                }
                            }
                        }
                        proof {
                            assert forall|q: Seq<usize>| #[trigger] is_path(
                                edges,
                                q,
                                source,
                                destination,
                            ) implies bfs_frontier_covers(edges, queue@, destination, visited@, q) by {
                                if !bfs_frontier_covers(edges, queue@, destination, visited@, q) {
                                    let (jc, q2) = choose|jc: int, q2: Seq<usize>|
                                        row.len() - it.remaining().len() <= jc < row.len()
                                            && #[trigger] is_path(edges, q2, row[jc], destination)
                                            && tail_avoids(q2, visited@) && !visited@.contains(
                                            row[jc],
                                        ) && node.chain().len() + 1 + q2.len() <= q.len() + 1;
                                    assert(false);
                                }
                            }
                        }
                    },
                    Option::None => {
                        proof {
                            assert forall|q: Seq<usize>| #[trigger] is_path(
                                edges,
                                q,
                                source,
                                destination,
                            ) implies bfs_frontier_covers(edges, queue@, destination, visited@, q) by {
                                lemma_bfs_invalid_maintain(
                                    edges,
                                    queue0,
                                    queue@,
                                    node,
                                    destination,
                                    visited@,
                                    q,
                                );
                            }
                            assert forall|i: int, j: int|
                                #![trigger queue@[i], queue@[j]]
                                0 <= i <= j < queue@.len() implies queue@[i].chain().len()
                                    <= queue@[j].chain().len() && queue@[j].chain().len()
                                    <= queue@[i].chain().len() + 1 by {
                                assert(queue@[i] == queue0[i + 1]);
                                assert(queue@[j] == queue0[j + 1]);
                            }
                        }
                    },
                }
            }
        }
        None
    }
}

/// An unreachable destination yields "not found": any result that meets the
/// search contract — whatever came out of `find_path_dfs` or
/// `find_path_bfs` — must be `None` when no path at all leads from `source`
/// to `destination`.
pub proof fn lemma_unreachable_gives_none(
    edges: Seq<Seq<usize>>,
    source: usize,
    destination: usize,
    r: Option<Vec<usize>>,
)
    requires
        forall|p: Seq<usize>| !#[trigger] is_path(edges, p, source, destination),
        r matches Some(p) ==> is_path(edges, p@, source, destination),
    ensures
        r is None,
{
}

/// A frontier entry built from a sound chain and one outgoing edge of its
/// head is again a sound chain.
proof fn lemma_chain_extends(
    edges: Seq<Seq<usize>>,
    node: LinkedNode<usize>,
    child: LinkedNode<usize>,
    d: usize,
    source: usize,
)
    requires
        chain_ok(edges, node, source),
        node.head() < edges.len(),
        edges[node.head() as int].contains(d),
        child.head() == d,
        child.chain() == node.chain().push(d),
    ensures
        chain_ok(edges, child, source),
{
    let c = node.chain();
    node.lemma_chain_shape();
    assert forall|i: int| 0 <= i < child.chain().len() - 1 implies #[trigger] child.chain()[i]
        < edges.len() && edges[child.chain()[i] as int].contains(child.chain()[i + 1]) by {
        if i < c.len() - 1 {
            assert(c.push(d)[i] == c[i]);
            assert(c.push(d)[i + 1] == c[i + 1]);
        } else {
            assert(c.push(d)[i] == c[i]);
            assert(c[i] == c.last());
            assert(c.push(d)[i + 1] == d);
        }
    }
}

} // verus!
