use vstd::prelude::*;

use crate::network::{edges_well_formed, Edge, Network};

verus! {

/// Depth-first visit of `node` in a graph of `n` nodes: mark it visited,
/// follow each outgoing edge in edge order to an unvisited target, then
/// append `node` after everything those visits appended.
pub open spec fn dfs_visit(edges: Seq<Edge>, n: int, node: int, visited: Seq<bool>, order: Seq<usize>) -> (Seq<bool>, Seq<usize>)
    decreases n - node, edges.len() + 1,
{
    let (v, o) = dfs_edges(edges, n, node, 0, visited.update(node, true), order);
    (v, o.push(node as usize))
}

/// The part of `dfs_visit(.., node, ..)` that scans the edges from index `i` on.
pub open spec fn dfs_edges(edges: Seq<Edge>, n: int, node: int, i: int, visited: Seq<bool>, order: Seq<usize>) -> (Seq<bool>, Seq<usize>)
    decreases n - node, edges.len() - i,
{
    if i < 0 || i >= edges.len() {
        (visited, order)
    } else {
        let e = edges[i];
        if e.from == node && node < e.to && e.to < n && !visited[e.to as int] {
            let (v, o) = dfs_visit(edges, n, e.to as int, visited, order);
            dfs_edges(edges, n, node, i + 1, v, o)
        } else {
            dfs_edges(edges, n, node, i + 1, visited, order)
        }
    }
}

/// The outer driver from index `i` on: each node not yet visited, in
/// ascending order, starts a depth-first visit.
pub open spec fn dfs_roots(edges: Seq<Edge>, n: int, i: int, visited: Seq<bool>, order: Seq<usize>) -> Seq<usize>
    decreases n - i,
{
    if i >= n {
        order
    } else if !visited[i] {
        let (v, o) = dfs_visit(edges, n, i, visited, order);
        dfs_roots(edges, n, i + 1, v, o)
    } else {
        dfs_roots(edges, n, i + 1, visited, order)
    }
}

/// The depth-first postorder of a graph of `n` nodes with the given edges.
pub open spec fn dfs_postorder(edges: Seq<Edge>, n: nat) -> Seq<usize> {
    dfs_roots(edges, n as int, 0, Seq::new(n, |i: int| false), Seq::empty())
}

impl<V> Network<V> {
    /// All node indices as a depth-first postorder: roots taken in ascending
    /// index order, outgoing edges followed in edge order.
    pub fn topological_sort(&self) -> (r: Vec<usize>)
        requires
            self.wf(),
        ensures
            r@ == dfs_postorder(self.edge_seq(), self.node_seq().len()),
            r.len() == self.node_seq().len(),
            r@.no_duplicates(),
            forall|x: usize| x < self.node_seq().len() ==> r@.contains(x),
            forall|q: int| 0 <= q < r.len() ==> (#[trigger] r@[q]) < self.node_seq().len(),
            forall|j: int, p: int, q: int|
                0 <= j < self.edge_seq().len() && 0 <= p < r.len() && 0 <= q < r.len() && #[trigger] r@[p] == (
                #[trigger] self.edge_seq()[j]).from && #[trigger] r@[q] == self.edge_seq()[j].to ==> q < p,
    {
        let n = self.nodes().len();
        let mut visited: Vec<bool> = Vec::new();
        while visited.len() < n
            invariant
                visited.len() <= n,
                forall|j: int| 0 <= j < visited.len() ==> !visited@[j],
            decreases n - visited.len(),
        {
            visited.push(false);
        }
        assert(visited@ =~= Seq::new(n as nat, |i: int| false));
        let mut order: Vec<usize> = Vec::new();
        let mut idx: usize = 0;
        while idx < n
            invariant
                self.wf(),
                n == self.node_seq().len(),
                idx <= n,
                visited.len() == n,
                dfs_roots(self.edge_seq(), n as int, idx as int, visited@, order@) == dfs_postorder(
                    self.edge_seq(),
                    n as nat,
                ),
            decreases n - idx,
        {
            if !visited[idx] {
                self.dfs(idx, &mut visited, &mut order);
            }
            idx += 1;
        }
        proof {
            lemma_dfs_postorder_is_reverse_topological(self.edge_seq(), n as nat);
        }
        order
    }

    fn dfs(&self, node_idx: usize, visited: &mut Vec<bool>, order: &mut Vec<usize>)
        requires
            self.wf(),
            node_idx < self.node_seq().len(),
            old(visited).len() == self.node_seq().len(),
        ensures
            final(visited).len() == old(visited).len(),
            (final(visited)@, final(order)@) == dfs_visit(
                self.edge_seq(),
                self.node_seq().len() as int,
                node_idx as int,
                old(visited)@,
                old(order)@,
            ),
        decreases self.node_seq().len() - node_idx,
    {
        let n = self.nodes().len();
        let edges = self.edges();
        visited.set(node_idx, true);
        let ghost start = visited@;
        let ghost start_order = order@;
        let mut i: usize = 0;
        while i < edges.len()
            invariant
                self.wf(),
                edges@ == self.edge_seq(),
                n == self.node_seq().len(),
                node_idx < n,
                i <= edges.len(),
                visited.len() == n,
                dfs_edges(edges@, n as int, node_idx as int, i as int, visited@, order@) == dfs_edges(
                    edges@,
                    n as int,
                    node_idx as int,
                    0,
                    start,
                    start_order,
                ),
            decreases edges.len() - i,
        {
            let e = edges[i];
            assert(edges@[i as int].from < edges@[i as int].to && edges@[i as int].to < n);
            if e.from == node_idx && !visited[e.to] {
                self.dfs(e.to, visited, order);
            }
            i += 1;
        }
        order.push(node_idx);
    }
}

/// Every edge leaving a node already in `order` enters a node placed before it.
pub open spec fn targets_precede(edges: Seq<Edge>, order: Seq<usize>) -> bool {
    forall|j: int, p: int|
        #![trigger edges[j], order[p]]
        0 <= j < edges.len() && 0 <= p < order.len() && order[p] == edges[j].from ==> exists|q: int|
            0 <= q < p && order[q] == edges[j].to
}

/// A consistent point of the depth-first traversal: `order` holds distinct
/// visited nodes, closed under outgoing edges, and every visited node from
/// `top` on has been appended (those not yet appended are below `top`).
spec fn dfs_state(edges: Seq<Edge>, n: int, visited: Seq<bool>, order: Seq<usize>, top: int) -> bool {
    &&& visited.len() == n
    &&& order.no_duplicates()
    &&& forall|q: int| 0 <= q < order.len() ==> (#[trigger] order[q]) < n && visited[order[q] as int]
    &&& forall|x: int| top <= x < n && #[trigger] visited[x] ==> order.contains(x as usize)
    &&& targets_precede(edges, order)
}

/// How a later state of the traversal relates to an earlier one: the order
/// only grows at its end, with nodes newly visited, and nodes newly visited
/// have all been appended.
spec fn dfs_extends(n: int, visited: Seq<bool>, order: Seq<usize>, v: Seq<bool>, o: Seq<usize>) -> bool {
    &&& v.len() == n
    &&& order.len() <= o.len()
    &&& o.subrange(0, order.len() as int) == order
    &&& forall|x: int| 0 <= x < n && #[trigger] visited[x] ==> v[x]
    &&& forall|x: int| 0 <= x < n && #[trigger] v[x] && !visited[x] ==> o.contains(x as usize)
    &&& forall|q: int| order.len() <= q < o.len() ==> (#[trigger] o[q]) < n && !visited[o[q] as int]
}

proof fn lemma_extends_trans(
    n: int,
    v1: Seq<bool>,
    o1: Seq<usize>,
    v2: Seq<bool>,
    o2: Seq<usize>,
    v3: Seq<bool>,
    o3: Seq<usize>,
)
    requires
        v1.len() == n,
        dfs_extends(n, v1, o1, v2, o2),
        dfs_extends(n, v2, o2, v3, o3),
    ensures
        dfs_extends(n, v1, o1, v3, o3),
{
    assert(o3.subrange(0, o1.len() as int) =~= o2.subrange(0, o1.len() as int));
    assert forall|x: int| 0 <= x < n && #[trigger] v3[x] && !v1[x] implies o3.contains(x as usize) by {
        if v2[x] {
            let q = choose|q: int| 0 <= q < o2.len() && o2[q] == x as usize;
            assert(o3[q] == o2[q]);
        }
    }
    assert forall|q: int| o1.len() <= q < o3.len() implies (#[trigger] o3[q]) < n && !v1[o3[q] as int] by {
        if q < o2.len() {
            assert(o3.subrange(0, o2.len() as int)[q] == o3[q]);
            assert(o3[q] == o2[q]);
        } else {
            let x = o3[q] as int;
            if 0 <= x < n && v1[x] {
                assert(v2[x]);
            }
        }
    }
}

proof fn lemma_dfs_visit(edges: Seq<Edge>, n: int, node: int, visited: Seq<bool>, order: Seq<usize>)
    requires
        n <= usize::MAX,
        edges_well_formed(edges, n as nat),
        0 <= node < n,
        !visited[node],
        dfs_state(edges, n, visited, order, node),
    ensures
        ({
            let (v, o) = dfs_visit(edges, n, node, visited, order);
            &&& dfs_state(edges, n, v, o, node)
            &&& dfs_extends(n, visited, order, v, o)
            &&& o.contains(node as usize)
        }),
    decreases n - node, edges.len() + 1,
{
    let v1 = visited.update(node, true);
    assert(!order.contains(node as usize)) by {
        if order.contains(node as usize) {
            let q = choose|q: int| 0 <= q < order.len() && order[q] == node as usize;
            assert(visited[order[q] as int]);
        }
    }
    assert forall|x: int| node + 1 <= x < n && #[trigger] v1[x] implies order.contains(x as usize) by {
        assert(visited[x]);
    }
    assert(dfs_state(edges, n, v1, order, node + 1));
    lemma_dfs_edges(edges, n, node, 0, v1, order);
    let (v, o) = dfs_edges(edges, n, node, 0, v1, order);
    let o2 = o.push(node as usize);
    assert(o2[o.len() as int] == node as usize);
    assert forall|j: int, p: int|
        #![trigger edges[j], o2[p]]
        0 <= j < edges.len() && 0 <= p < o2.len() && o2[p] == edges[j].from implies exists|q: int|
            0 <= q < p && o2[q] == edges[j].to by {
        if p < o.len() {
            assert(o2[p] == o[p]);
            assert(edges[j] == edges[j] && o[p] == o[p]);
            let q = choose|q: int| 0 <= q < p && o[q] == edges[j].to;
            assert(o2[q] == o[q]);
        } else {
            assert(edges[j].from == node);
            assert(o.contains(edges[j].to));
            let q = choose|q: int| 0 <= q < o.len() && o[q] == edges[j].to;
            assert(o2[q] == o[q]);
        }
    }
    assert(v1[node]);
    assert forall|q: int| 0 <= q < o2.len() implies (#[trigger] o2[q]) < n && v[o2[q] as int] by {
        if q < o.len() {
            assert(o2[q] == o[q]);
        }
    }
    assert forall|x: int| node <= x < n && #[trigger] v[x] implies o2.contains(x as usize) by {
        if x == node {
            assert(o2[o.len() as int] == node as usize);
        } else {
            assert(o.contains(x as usize));
            let q = choose|q: int| 0 <= q < o.len() && o[q] == x as usize;
            assert(o2[q] == o[q]);
        }
    }
    assert(o2.subrange(0, order.len() as int) =~= o.subrange(0, order.len() as int));
    assert forall|x: int| 0 <= x < n && #[trigger] visited[x] implies v[x] by {
        assert(v1[x]);
    }
    assert forall|x: int| 0 <= x < n && #[trigger] v[x] && !visited[x] implies o2.contains(x as usize) by {
        if x == node {
            assert(o2[o.len() as int] == node as usize);
        } else {
            assert(!v1[x]);
            assert(o.contains(x as usize));
            let q = choose|q: int| 0 <= q < o.len() && o[q] == x as usize;
            assert(o2[q] == o[q]);
        }
    }
    assert forall|q: int| order.len() <= q < o2.len() implies (#[trigger] o2[q]) < n && !visited[o2[q] as int] by {
        if q < o.len() {
            assert(o2[q] == o[q]);
            assert(o[q] < n && !v1[o[q] as int]);
        }
    }
}

proof fn lemma_dfs_edges(edges: Seq<Edge>, n: int, node: int, i: int, visited: Seq<bool>, order: Seq<usize>)
    requires
        n <= usize::MAX,
        edges_well_formed(edges, n as nat),
        0 <= node < n,
        0 <= i <= edges.len(),
        visited[node],
        !order.contains(node as usize),
        dfs_state(edges, n, visited, order, node + 1),
        forall|j: int| 0 <= j < i && (#[trigger] edges[j]).from == node ==> order.contains(edges[j].to),
    ensures
        ({
            let (v, o) = dfs_edges(edges, n, node, i, visited, order);
            &&& dfs_state(edges, n, v, o, node + 1)
            &&& dfs_extends(n, visited, order, v, o)
            &&& !o.contains(node as usize)
            &&& forall|j: int| 0 <= j < edges.len() && (#[trigger] edges[j]).from == node ==> o.contains(edges[j].to)
        }),
    decreases n - node, edges.len() - i,
{
    assert(dfs_extends(n, visited, order, visited, order)) by {
        assert(order.subrange(0, order.len() as int) =~= order);
    }
    if i < edges.len() {
        let e = edges[i];
        assert(e.from < e.to && e.to < n);
        if e.from == node && !visited[e.to as int] {
            let y = e.to as int;
            lemma_dfs_visit(edges, n, y, visited, order);
            let (v, o) = dfs_visit(edges, n, y, visited, order);
            assert forall|x: int| node + 1 <= x < n && #[trigger] v[x] implies o.contains(x as usize) by {
                if visited[x] {
                    let q = choose|q: int| 0 <= q < order.len() && order[q] == x as usize;
                    assert(o.subrange(0, order.len() as int)[q] == o[q]);
                }
            }
            assert(!o.contains(node as usize)) by {
                if o.contains(node as usize) {
                    let q = choose|q: int| 0 <= q < o.len() && o[q] == node as usize;
                    if q < order.len() {
                        assert(o.subrange(0, order.len() as int)[q] == o[q]);
                    }
                }
            }
            assert forall|j: int| 0 <= j < i + 1 && (#[trigger] edges[j]).from == node implies o.contains(edges[j].to) by {
                if j < i {
                    let q = choose|q: int| 0 <= q < order.len() && order[q] == edges[j].to;
                    assert(o.subrange(0, order.len() as int)[q] == o[q]);
                }
            }
            lemma_dfs_edges(edges, n, node, i + 1, v, o);
            let (v2, o2) = dfs_edges(edges, n, node, i + 1, v, o);
            lemma_extends_trans(n, visited, order, v, o, v2, o2);
        } else {
            if e.from == node {
                assert(visited[e.to as int]);
                assert(order.contains(e.to));
            }
            assert forall|j: int| 0 <= j < i + 1 && (#[trigger] edges[j]).from == node implies order.contains(edges[j].to) by {
            }
            lemma_dfs_edges(edges, n, node, i + 1, visited, order);
        }
    }
}

proof fn lemma_dfs_roots(edges: Seq<Edge>, n: int, i: int, visited: Seq<bool>, order: Seq<usize>)
    requires
        n <= usize::MAX,
        edges_well_formed(edges, n as nat),
        0 <= i <= n,
        dfs_state(edges, n, visited, order, 0),
        forall|x: int| 0 <= x < i ==> #[trigger] visited[x],
    ensures
        ({
            let o = dfs_roots(edges, n, i, visited, order);
            &&& o.no_duplicates()
            &&& forall|q: int| 0 <= q < o.len() ==> (#[trigger] o[q]) < n
            &&& forall|x: usize| x < n ==> o.contains(x)
            &&& targets_precede(edges, o)
        }),
    decreases n - i,
{
    if i >= n {
        assert forall|x: usize| x < n implies order.contains(x) by {
            assert(visited[x as int]);
        }
    } else if !visited[i] {
        lemma_dfs_visit(edges, n, i, visited, order);
        let (v, o) = dfs_visit(edges, n, i, visited, order);
        assert forall|x: int| 0 <= x < n && #[trigger] v[x] implies o.contains(x as usize) by {
            if visited[x] {
                let q = choose|q: int| 0 <= q < order.len() && order[q] == x as usize;
                assert(o.subrange(0, order.len() as int)[q] == o[q]);
            }
        }
        assert forall|x: int| 0 <= x < i + 1 implies #[trigger] v[x] by {
            if x < i {
                assert(visited[x]);
                assert(0 <= x < n);
            } else {
                assert(o.contains(x as usize));
                let q = choose|q: int| 0 <= q < o.len() && o[q] == x as usize;
                assert(o[q] < n && v[o[q] as int]);
            }
        }
        lemma_dfs_roots(edges, n, i + 1, v, o);
    } else {
        lemma_dfs_roots(edges, n, i + 1, visited, order);
    }
}

/// There are exactly `k` indices below `k`.
proof fn lemma_index_range_len(k: nat)
    requires
        k <= usize::MAX + 1,
    ensures
        Set::new(|x: usize| x < k).finite(),
        Set::new(|x: usize| x < k).len() == k,
    decreases k,
{
    if k == 0 {
        assert(Set::new(|x: usize| x < k) =~= Set::<usize>::empty());
    } else {
        let k1 = (k - 1) as nat;
        lemma_index_range_len(k1);
        assert(Set::new(|x: usize| x < k1).insert(k1 as usize) =~= Set::new(|x: usize| x < k));
    }
}

/// The depth-first order of a well-formed graph lists every node index
/// exactly once, and places the target of each edge before its source.
pub proof fn lemma_dfs_postorder_is_reverse_topological(edges: Seq<Edge>, n: nat)
    requires
        n <= usize::MAX,
        edges_well_formed(edges, n),
    ensures
        dfs_postorder(edges, n).len() == n,
        dfs_postorder(edges, n).no_duplicates(),
        forall|q: int| 0 <= q < dfs_postorder(edges, n).len() ==> (#[trigger] dfs_postorder(edges, n)[q]) < n,
        forall|x: usize| x < n ==> dfs_postorder(edges, n).contains(x),
        forall|j: int, p: int, q: int|
            0 <= j < edges.len() && 0 <= p < dfs_postorder(edges, n).len() && 0 <= q < dfs_postorder(edges, n).len()
                && #[trigger] dfs_postorder(edges, n)[p] == (#[trigger] edges[j]).from && #[trigger] dfs_postorder(
                edges,
                n,
            )[q] == edges[j].to ==> q < p,
{
    let visited = Seq::new(n, |i: int| false);
    let order = Seq::<usize>::empty();
    lemma_dfs_roots(edges, n as int, 0, visited, order);
    let o = dfs_postorder(edges, n);
    o.unique_seq_to_set();
    lemma_index_range_len(n);
    assert(o.to_set() =~= Set::new(|x: usize| x < n));
    assert forall|j: int, p: int, q: int|
        0 <= j < edges.len() && 0 <= p < o.len() && 0 <= q < o.len() && #[trigger] o[p] == (#[trigger] edges[j]).from
            && #[trigger] o[q] == edges[j].to implies q < p by {
        let r = choose|r: int| 0 <= r < p && o[r] == edges[j].to;
        assert(o[r] == o[q]);
    }
}

/// Determinism of the depth-first order: two networks built by the same
/// sequence of calls have the same node count and edge list, and the order
/// depends on nothing else, so `topological_sort` returns the same sequence
/// for both, and for one network on every call.
pub proof fn lemma_topological_sort_deterministic<V, W>(a: Network<V>, b: Network<W>)
    requires
        a.node_seq().len() == b.node_seq().len(),
        a.edge_seq() == b.edge_seq(),
    ensures
        dfs_postorder(a.edge_seq(), a.node_seq().len()) == dfs_postorder(b.edge_seq(), b.node_seq().len()),
{
}

} // verus!
