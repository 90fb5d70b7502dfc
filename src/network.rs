use vstd::prelude::*;

use crate::node::{Node, Operation};

verus! {

/// A directed link: `from` is an operand consumed to produce `to`.
#[derive(Clone, Copy, Debug, PartialEq, Eq, Structural)]
pub struct Edge {
    pub from: usize,
    pub to: usize,
}

/// The one way an operation on a network can fail.
#[derive(Clone, Copy, Debug, PartialEq, Eq, Structural)]
pub enum NetworkError {
    /// The given node index is not below the number of nodes.
    IndexOutOfRange(usize),
}

/// Every edge points from an earlier node to a later one, both in the arena.
pub open spec fn edges_well_formed(edges: Seq<Edge>, n: nat) -> bool {
    forall|j: int| 0 <= j < edges.len() ==> (#[trigger] edges[j]).from < edges[j].to && edges[j].to < n
}

/// Targets of the edges among the first `k` that leave `u`, in edge order.
pub open spec fn successors_upto(edges: Seq<Edge>, k: int, u: int) -> Seq<usize>
    decreases k,
{
    if k <= 0 {
        Seq::empty()
    } else {
        let p = successors_upto(edges, k - 1, u);
        if edges[k - 1].from == u {
            p.push(edges[k - 1].to)
        } else {
            p
        }
    }
}

/// Sources of the edges among the first `k` that enter `u`, in edge order.
pub open spec fn predecessors_upto(edges: Seq<Edge>, k: int, u: int) -> Seq<usize>
    decreases k,
{
    if k <= 0 {
        Seq::empty()
    } else {
        let p = predecessors_upto(edges, k - 1, u);
        if edges[k - 1].to == u {
            p.push(edges[k - 1].from)
        } else {
            p
        }
    }
}

/// For each of `n` nodes, the targets of its outgoing edges in edge order.
pub open spec fn successor_table(edges: Seq<Edge>, n: nat) -> Seq<Seq<usize>> {
    Seq::new(n, |u: int| successors_upto(edges, edges.len() as int, u))
}

/// For each of `n` nodes, the sources of its incoming edges in edge order.
pub open spec fn predecessor_table(edges: Seq<Edge>, n: nat) -> Seq<Seq<usize>> {
    Seq::new(n, |u: int| predecessors_upto(edges, edges.len() as int, u))
}

/// An append-only arena of nodes with the producer/consumer edges between them,
/// and adjacency lists derived from the edges on request.
///
/// A node's index is its position at insertion and never changes. Edges only
/// run from earlier to later nodes, so the graph is acyclic. The adjacency
/// lists reflect the edges at the time they were built and are not refreshed
/// by later insertions. Mutation needs exclusive access.
pub struct Network<V> {
    nodes: Vec<Node<V>>,
    edges: Vec<Edge>,
    predecessors: Option<Vec<Vec<usize>>>,
    successors: Option<Vec<Vec<usize>>>,
}

impl<V> Network<V> {
    /// The nodes, in order of insertion.
    pub closed spec fn node_seq(&self) -> Seq<Node<V>> {
        self.nodes@
    }

    /// The edges, in order of insertion.
    pub closed spec fn edge_seq(&self) -> Seq<Edge> {
        self.edges@
    }

    /// Predecessor lists, as last built.
    pub closed spec fn predecessor_lists(&self) -> Option<Seq<Seq<usize>>> {
        match self.predecessors {
            Some(p) => Some(p.deep_view()),
            None => None,
        }
    }

    /// Successor lists, as last built.
    pub closed spec fn successor_lists(&self) -> Option<Seq<Seq<usize>>> {
        match self.successors {
            Some(s) => Some(s.deep_view()),
            None => None,
        }
    }

    /// Well-formedness: every edge runs from an earlier node to a later one.
    pub open spec fn wf(&self) -> bool {
        edges_well_formed(self.edge_seq(), self.node_seq().len())
    }

    /// An empty network with no adjacency built.
    pub fn new() -> (r: Self)
        ensures
            r.wf(),
            r.node_seq().len() == 0,
            r.edge_seq().len() == 0,
            r.predecessor_lists() is None,
            r.successor_lists() is None,
    {
        Network { nodes: Vec::new(), edges: Vec::new(), predecessors: None, successors: None }
    }

    /// Read access to the nodes, index-addressable.
    pub fn nodes(&self) -> (r: &Vec<Node<V>>)
        ensures
            r@ == self.node_seq(),
    {
        &self.nodes
    }

    /// Read access to the edges, in order of insertion.
    pub fn edges(&self) -> (r: &Vec<Edge>)
        ensures
            r@ == self.edge_seq(),
    {
        &self.edges
    }

    /// The predecessor lists, `None` until first built.
    pub fn predecessors(&self) -> (r: &Option<Vec<Vec<usize>>>)
        ensures
            self.predecessor_lists() == match *r {
                Some(p) => Some(p.deep_view()),
                None => None::<Seq<Seq<usize>>>,
            },
    {
        &self.predecessors
    }

    /// The successor lists, `None` until first built.
    pub fn successors(&self) -> (r: &Option<Vec<Vec<usize>>>)
        ensures
            self.successor_lists() == match *r {
                Some(s) => Some(s.deep_view()),
                None => None::<Seq<Seq<usize>>>,
            },
    {
        &self.successors
    }

    /// Appends a node and returns its index, the number of nodes before the call.
    pub fn add_node(&mut self, node: Node<V>) -> (r: usize)
        requires
            old(self).wf(),
        ensures
            final(self).wf(),
            r == old(self).node_seq().len(),
            final(self).node_seq() == old(self).node_seq().push(node),
            final(self).edge_seq() == old(self).edge_seq(),
            final(self).predecessor_lists() == old(self).predecessor_lists(),
            final(self).successor_lists() == old(self).successor_lists(),
    {
        self.nodes.push(node);
        self.nodes.len() - 1
    }

    fn add_edge(&mut self, source_node_idx: usize, target_node_idx: usize)
        ensures
            final(self).edges@ == old(self).edges@.push(Edge { from: source_node_idx, to: target_node_idx }),
            final(self).nodes@ == old(self).nodes@,
            final(self).predecessors == old(self).predecessors,
            final(self).successors == old(self).successors,
    {
        self.edges.push(Edge { from: source_node_idx, to: target_node_idx });
    }

    /// Sets the label of the node at `idx`.
    pub fn set_node_label(&mut self, idx: usize, label: String) -> (r: Result<(), NetworkError>)
        requires
            old(self).wf(),
        ensures
            final(self).wf(),
            r is Err <==> idx >= old(self).node_seq().len(),
            r == Err::<(), NetworkError>(NetworkError::IndexOutOfRange(idx)) || r is Ok,
            r is Err ==> final(self).node_seq() == old(self).node_seq(),
            r is Ok ==> final(self).node_seq() == old(self).node_seq().update(
                idx as int,
                Node { label: Some(label), ..old(self).node_seq()[idx as int] },
            ),
            final(self).edge_seq() == old(self).edge_seq(),
            final(self).predecessor_lists() == old(self).predecessor_lists(),
            final(self).successor_lists() == old(self).successor_lists(),
    {
        if idx >= self.nodes.len() {
            return Err(NetworkError::IndexOutOfRange(idx));
        }
        self.nodes[idx].set_label(label);
        Ok(())
    }
    /// Rebuilds both adjacency lists from the current edges in one pass,
    /// replacing any built before.
    pub fn build_adjacency_storage(&mut self)
        requires
            old(self).wf(),
        ensures
            final(self).wf(),
            final(self).node_seq() == old(self).node_seq(),
            final(self).edge_seq() == old(self).edge_seq(),
            final(self).successor_lists() == Some(successor_table(old(self).edge_seq(), old(self).node_seq().len())),
            final(self).predecessor_lists() == Some(predecessor_table(old(self).edge_seq(), old(self).node_seq().len())),
    {
        let node_count = self.nodes.len();
        let mut predecessors: Vec<Vec<usize>> = Vec::new();
        let mut successors: Vec<Vec<usize>> = Vec::new();
        while predecessors.len() < node_count
            invariant
                predecessors.len() == successors.len(),
                predecessors.len() <= node_count,
                forall|u: int| 0 <= u < predecessors.len() ==> (#[trigger] predecessors@[u])@ == Seq::<usize>::empty(),
                forall|u: int| 0 <= u < successors.len() ==> (#[trigger] successors@[u])@ == Seq::<usize>::empty(),
            decreases node_count - predecessors.len(),
        {
            predecessors.push(Vec::new());
            successors.push(Vec::new());
        }
        let mut i: usize = 0;
        while i < self.edges.len()
            invariant
                self.wf(),
                node_count == self.nodes.len(),
                i <= self.edges.len(),
                predecessors.len() == node_count,
                successors.len() == node_count,
                forall|u: int| 0 <= u < node_count ==> (#[trigger] predecessors@[u])@ == predecessors_upto(self.edges@, i as int, u),
                forall|u: int| 0 <= u < node_count ==> (#[trigger] successors@[u])@ == successors_upto(self.edges@, i as int, u),
            decreases self.edges.len() - i,
        {
            let edge = self.edges[i];
            assert(self.edges@[i as int].to < node_count);
            predecessors[edge.to].push(edge.from);
            successors[edge.from].push(edge.to);
            i += 1;
            assert forall|u: int| 0 <= u < node_count implies (#[trigger] predecessors@[u])@ == predecessors_upto(self.edges@, i as int, u) by {
                reveal_with_fuel(predecessors_upto, 1);
            }
            assert forall|u: int| 0 <= u < node_count implies (#[trigger] successors@[u])@ == successors_upto(self.edges@, i as int, u) by {
                reveal_with_fuel(successors_upto, 1);
            }
        }
        assert forall|u: int| 0 <= u < node_count implies (#[trigger] predecessors@[u]).deep_view() == predecessors@[u]@ by {
            assert(predecessors@[u].deep_view() =~= predecessors@[u]@);
        }
        assert forall|u: int| 0 <= u < node_count implies (#[trigger] successors@[u]).deep_view() == successors@[u]@ by {
            assert(successors@[u].deep_view() =~= successors@[u]@);
        }
        assert(predecessors.deep_view() =~= predecessor_table(self.edges@, node_count as nat));
        assert(successors.deep_view() =~= successor_table(self.edges@, node_count as nat));
        self.predecessors = Some(predecessors);
        self.successors = Some(successors);
    }

    /// Reads the value of the node at `idx`.
    pub fn value_at(&self, idx: usize) -> (r: Result<&V, NetworkError>)
        ensures
            r is Err <==> idx >= self.node_seq().len(),
            match r {
                Ok(v) => *v == self.node_seq()[idx as int].value,
                Err(e) => e == NetworkError::IndexOutOfRange(idx),
            },
    {
        if idx >= self.nodes.len() {
            Err(NetworkError::IndexOutOfRange(idx))
        } else {
            Ok(&self.nodes[idx].value)
        }
    }
}

impl<V: Default> Network<V> {
    /// Applies the binary operation `kind` to the nodes at `idx_a` and `idx_b`:
    /// appends a derived node holding `value`, the result the caller computed
    /// from their values, and the edges `(idx_a, new)` and `(idx_b, new)`.
    /// Fails, changing nothing, when either index is out of range.
    pub fn binary_op(&mut self, kind: Operation, idx_a: usize, idx_b: usize, value: V) -> (r: Result<usize, NetworkError>)
        requires
            old(self).wf(),
        ensures
            final(self).wf(),
            binary_op_result(*old(self), *final(self), kind, idx_a, idx_b, value, r),
    {
        if idx_a >= self.nodes.len() {
            return Err(NetworkError::IndexOutOfRange(idx_a));
        }
        if idx_b >= self.nodes.len() {
            return Err(NetworkError::IndexOutOfRange(idx_b));
        }
        let new_node = Node::new_with_operation(value, kind);
        let new_node_idx = self.add_node(new_node);
        self.add_edge(idx_a, new_node_idx);
        self.add_edge(idx_b, new_node_idx);
        assert(self.nodes@.drop_last() =~= old(self).nodes@);
        Ok(new_node_idx)
    }

    /// `binary_op` with `Operation::Add`; `value` is the sum of the operands' values.
    pub fn add(&mut self, idx_a: usize, idx_b: usize, value: V) -> (r: Result<usize, NetworkError>)
        requires
            old(self).wf(),
        ensures
            final(self).wf(),
            binary_op_result(*old(self), *final(self), Operation::Add, idx_a, idx_b, value, r),
    {
        self.binary_op(Operation::Add, idx_a, idx_b, value)
    }

    /// `binary_op` with `Operation::Multiply`; `value` is the product of the operands' values.
    pub fn multiply(&mut self, idx_a: usize, idx_b: usize, value: V) -> (r: Result<usize, NetworkError>)
        requires
            old(self).wf(),
        ensures
            final(self).wf(),
            binary_op_result(*old(self), *final(self), Operation::Multiply, idx_a, idx_b, value, r),
    {
        self.binary_op(Operation::Multiply, idx_a, idx_b, value)
    }

    /// `binary_op` with `Operation::Subtract`; `value` is the first operand's value minus the second's.
    pub fn subtract(&mut self, idx_a: usize, idx_b: usize, value: V) -> (r: Result<usize, NetworkError>)
        requires
            old(self).wf(),
        ensures
            final(self).wf(),
            binary_op_result(*old(self), *final(self), Operation::Subtract, idx_a, idx_b, value, r),
    {
        self.binary_op(Operation::Subtract, idx_a, idx_b, value)
    }

    /// `binary_op` with `Operation::Divide`; `value` is the first operand's value divided by the second's.
    pub fn divide(&mut self, idx_a: usize, idx_b: usize, value: V) -> (r: Result<usize, NetworkError>)
        requires
            old(self).wf(),
        ensures
            final(self).wf(),
            binary_op_result(*old(self), *final(self), Operation::Divide, idx_a, idx_b, value, r),
    {
        self.binary_op(Operation::Divide, idx_a, idx_b, value)
    }

    /// Appends a derived node with `Operation::Tanh` holding `value`, the
    /// hyperbolic tangent of the value at `idx_a`, and the edge `(idx_a, new)`.
    /// Fails, changing nothing, when `idx_a` is out of range.
    pub fn tanh(&mut self, idx_a: usize, value: V) -> (r: Result<usize, NetworkError>)
        requires
            old(self).wf(),
        ensures
            final(self).wf(),
            unary_op_result(*old(self), *final(self), Operation::Tanh, idx_a, value, r),
    {
        if idx_a >= self.nodes.len() {
            return Err(NetworkError::IndexOutOfRange(idx_a));
        }
        let new_node = Node::new_with_operation(value, Operation::Tanh);
        let new_node_idx = self.add_node(new_node);
        self.add_edge(idx_a, new_node_idx);
        assert(self.nodes@.drop_last() =~= old(self).nodes@);
        Ok(new_node_idx)
    }
}

/// What a binary operation leaves behind: on success one derived node
/// appended, with the default gradient, and exactly its two incoming edges; on failure, for the first
/// index out of range, nothing changed.
pub open spec fn binary_op_result<V: Default>(
    pre: Network<V>,
    post: Network<V>,
    kind: Operation,
    idx_a: usize,
    idx_b: usize,
    value: V,
    r: Result<usize, NetworkError>,
) -> bool {
    let n = pre.node_seq().len();
    &&& post.predecessor_lists() == pre.predecessor_lists()
    &&& post.successor_lists() == pre.successor_lists()
    &&& if idx_a >= n {
        r == Err::<usize, NetworkError>(NetworkError::IndexOutOfRange(idx_a)) && post.node_seq() == pre.node_seq()
            && post.edge_seq() == pre.edge_seq()
    } else if idx_b >= n {
        r == Err::<usize, NetworkError>(NetworkError::IndexOutOfRange(idx_b)) && post.node_seq() == pre.node_seq()
            && post.edge_seq() == pre.edge_seq()
    } else {
        &&& r is Ok && r->Ok_0 == n
        &&& post.node_seq().len() == n + 1
        &&& post.node_seq().drop_last() == pre.node_seq()
        &&& post.node_seq().last().value == value
        &&& post.node_seq().last().operation == Some(kind)
        &&& post.node_seq().last().label is None
        &&& call_ensures(V::default, (), post.node_seq().last().gradient)
        &&& post.edge_seq() == pre.edge_seq().push(Edge { from: idx_a, to: r->Ok_0 }).push(
            Edge { from: idx_b, to: r->Ok_0 },
        )
    }
}

/// What a unary operation leaves behind: on success one derived node appended,
/// with the default gradient, and exactly its one incoming edge; on failure nothing changed.
pub open spec fn unary_op_result<V: Default>(
    pre: Network<V>,
    post: Network<V>,
    kind: Operation,
    idx_a: usize,
    value: V,
    r: Result<usize, NetworkError>,
) -> bool {
    let n = pre.node_seq().len();
    &&& post.predecessor_lists() == pre.predecessor_lists()
    &&& post.successor_lists() == pre.successor_lists()
    &&& if idx_a >= n {
        r == Err::<usize, NetworkError>(NetworkError::IndexOutOfRange(idx_a)) && post.node_seq() == pre.node_seq()
            && post.edge_seq() == pre.edge_seq()
    } else {
        &&& r is Ok && r->Ok_0 == n
        &&& post.node_seq().len() == n + 1
        &&& post.node_seq().drop_last() == pre.node_seq()
        &&& post.node_seq().last().value == value
        &&& post.node_seq().last().operation == Some(kind)
        &&& post.node_seq().last().label is None
        &&& call_ensures(V::default, (), post.node_seq().last().gradient)
        &&& post.edge_seq() == pre.edge_seq().push(Edge { from: idx_a, to: r->Ok_0 })
    }
}

/// An edge `(u, x)` lies among the first `k` edges exactly when `x` is in
/// `successors_upto(edges, k, u)`.
proof fn lemma_successors_upto(edges: Seq<Edge>, k: int, u: int, x: usize)
    requires
        0 <= k <= edges.len(),
    ensures
        successors_upto(edges, k, u).contains(x) <==> exists|j: int|
            0 <= j < k && (#[trigger] edges[j]).from == u && edges[j].to == x,
    decreases k,
{
    if k > 0 {
        lemma_successors_upto(edges, k - 1, u, x);
        let p = successors_upto(edges, k - 1, u);
        if edges[k - 1].from == u {
            assert(p.push(edges[k - 1].to)[p.len() as int] == edges[k - 1].to);
            assert forall|y: usize| p.contains(y) implies #[trigger] p.push(edges[k - 1].to).contains(y) by {
                let t = choose|t: int| 0 <= t < p.len() && p[t] == y;
                assert(p.push(edges[k - 1].to)[t] == y);
            }
        }
    }
}

/// An edge `(x, u)` lies among the first `k` edges exactly when `x` is in
/// `predecessors_upto(edges, k, u)`.
proof fn lemma_predecessors_upto(edges: Seq<Edge>, k: int, u: int, x: usize)
    requires
        0 <= k <= edges.len(),
    ensures
        predecessors_upto(edges, k, u).contains(x) <==> exists|j: int|
            0 <= j < k && (#[trigger] edges[j]).to == u && edges[j].from == x,
    decreases k,
{
    if k > 0 {
        lemma_predecessors_upto(edges, k - 1, u, x);
        let p = predecessors_upto(edges, k - 1, u);
        if edges[k - 1].to == u {
            assert(p.push(edges[k - 1].from)[p.len() as int] == edges[k - 1].from);
            assert forall|y: usize| p.contains(y) implies #[trigger] p.push(edges[k - 1].from).contains(y) by {
                let t = choose|t: int| 0 <= t < p.len() && p[t] == y;
                assert(p.push(edges[k - 1].from)[t] == y);
            }
        }
    }
}

/// Adjacency round trip: in the tables built from a well-formed edge list,
/// `v` is listed among the successors of `u`, and `u` among the predecessors
/// of `v`, exactly when `(u, v)` is an edge.
pub proof fn lemma_adjacency_round_trip(edges: Seq<Edge>, n: nat, u: usize, v: usize)
    requires
        edges_well_formed(edges, n),
        u < n,
        v < n,
    ensures
        successor_table(edges, n)[u as int].contains(v) <==> edges.contains(Edge { from: u as usize, to: v }),
        predecessor_table(edges, n)[v as int].contains(u as usize) <==> edges.contains(
            Edge { from: u as usize, to: v },
        ),
{
    let e = Edge { from: u as usize, to: v };
    lemma_successors_upto(edges, edges.len() as int, u as int, v);
    lemma_predecessors_upto(edges, edges.len() as int, v as int, u as usize);
    if edges.contains(e) {
        let j = choose|j: int| 0 <= j < edges.len() && edges[j] == e;
        assert(edges[j].from == u && edges[j].to == v);
    }
    if successor_table(edges, n)[u as int].contains(v) {
        let j = choose|j: int| 0 <= j < edges.len() && (#[trigger] edges[j]).from == u && edges[j].to == v;
        assert(edges[j] == e);
    }
    if predecessor_table(edges, n)[v as int].contains(u as usize) {
        let j = choose|j: int| 0 <= j < edges.len() && (#[trigger] edges[j]).to == v && edges[j].from == u as usize;
        assert(edges[j] == e);
    }
}

/// Edge correctness of a binary operation: the new node's incoming and
/// outgoing edges are exactly `(idx_a, new)` and `(idx_b, new)`.
pub proof fn lemma_binary_op_edges<V: Default>(
    pre: Network<V>,
    post: Network<V>,
    kind: Operation,
    idx_a: usize,
    idx_b: usize,
    value: V,
    new_idx: usize,
)
    requires
        pre.wf(),
        binary_op_result(pre, post, kind, idx_a, idx_b, value, Ok(new_idx)),
    ensures
        post.edge_seq().contains(Edge { from: idx_a, to: new_idx }),
        post.edge_seq().contains(Edge { from: idx_b, to: new_idx }),
        forall|e: Edge|
            #![trigger post.edge_seq().contains(e)]
            post.edge_seq().contains(e) && (e.from == new_idx || e.to == new_idx) ==> e == (Edge {
                from: idx_a,
                to: new_idx,
            }) || e == (Edge { from: idx_b, to: new_idx }),
{
    let m = pre.edge_seq().len() as int;
    assert(post.edge_seq()[m] == Edge { from: idx_a, to: new_idx });
    assert(post.edge_seq()[m + 1int] == Edge { from: idx_b, to: new_idx });
    assert forall|e: Edge|
        post.edge_seq().contains(e) && (e.from == new_idx || e.to == new_idx) implies e == (Edge {
            from: idx_a,
            to: new_idx,
        }) || e == (Edge { from: idx_b, to: new_idx }) by {
        let j = choose|j: int| 0 <= j < post.edge_seq().len() && post.edge_seq()[j] == e;
        if j < m {
            assert(post.edge_seq()[j] == pre.edge_seq()[j]);
            assert(pre.edge_seq()[j].to < pre.node_seq().len());
        } else if j == m {
            assert(post.edge_seq()[j] == Edge { from: idx_a, to: new_idx });
        } else {
            assert(post.edge_seq()[j] == Edge { from: idx_b, to: new_idx });
        }
    }
}

/// Edge correctness of a unary operation: the new node's only edge is `(idx_a, new)`.
pub proof fn lemma_unary_op_edges<V: Default>(
    pre: Network<V>,
    post: Network<V>,
    kind: Operation,
    idx_a: usize,
    value: V,
    new_idx: usize,
)
    requires
        pre.wf(),
        unary_op_result(pre, post, kind, idx_a, value, Ok(new_idx)),
    ensures
        post.edge_seq().contains(Edge { from: idx_a, to: new_idx }),
        forall|e: Edge|
            #![trigger post.edge_seq().contains(e)]
            post.edge_seq().contains(e) && (e.from == new_idx || e.to == new_idx) ==> e == (Edge {
                from: idx_a,
                to: new_idx,
            }),
{
    let m = pre.edge_seq().len() as int;
    assert(post.edge_seq()[m] == Edge { from: idx_a, to: new_idx });
    assert forall|e: Edge|
        post.edge_seq().contains(e) && (e.from == new_idx || e.to == new_idx) implies e == (Edge {
            from: idx_a,
            to: new_idx,
        }) by {
        let j = choose|j: int| 0 <= j < post.edge_seq().len() && post.edge_seq()[j] == e;
        if j < m {
            assert(post.edge_seq()[j] == pre.edge_seq()[j]);
            assert(pre.edge_seq()[j].to < pre.node_seq().len());
        } else {
            assert(post.edge_seq()[j] == Edge { from: idx_a, to: new_idx });
        }
    }
}

} // verus!
