//! The storage of the event graph: a `petgraph` graph and its breadth-first
//! walker, behind contracts over plain sequences and sets.
//!
//! Nothing in this file is proved. Each function makes one call into
//! `petgraph`, and its contract says what that call does to the node list, to
//! the edge list, and to the walker's queue and set of discovered nodes.
//! Nodes and edges are only ever added here, so indices stay stable.
use vstd::prelude::*;
use fixedbitset::FixedBitSet;
use petgraph::Directed;
use petgraph::Direction;
use petgraph::graph::Graph;
use petgraph::graph::NodeIndex;
use petgraph::visit::Bfs;
use petgraph::visit::EdgeRef;
use crate::event::Event;

verus! {

#[verifier::external_type_specification]
#[verifier::external_body]
#[verifier::reject_recursive_types(N)]
#[verifier::reject_recursive_types(E)]
#[verifier::reject_recursive_types(Ty)]
#[verifier::reject_recursive_types(Ix)]
pub struct ExGraph<N, E, Ty, Ix>(Graph<N, E, Ty, Ix>);

#[verifier::external_type_specification]
#[verifier::external_body]
pub struct ExDirected(Directed);

#[verifier::external_type_specification]
#[verifier::external_body]
#[verifier::reject_recursive_types(Ix)]
pub struct ExNodeIndex<Ix>(NodeIndex<Ix>);

#[verifier::external_type_specification]
#[verifier::external_body]
pub struct ExFixedBitSet(FixedBitSet);

#[verifier::external_type_specification]
#[verifier::external_body]
#[verifier::reject_recursive_types(N)]
#[verifier::reject_recursive_types(VM)]
pub struct ExBfs<N, VM>(Bfs<N, VM>);

/// The side of a node on which an edge lies: `Outgoing` edges start at the
/// node, `Incoming` edges end at it.
#[derive(Clone, Copy, Debug)]
pub enum EdgeDirection {
    Outgoing,
    Incoming,
}

/// The node weights of a graph, in the order of their node indices.
pub uninterp spec fn graph_nodes(g: Graph<Event, (), Directed, usize>) -> Seq<Event>;

/// The edges of a graph in the order of their edge indices, each as the
/// pair of its source's and its target's node index.
pub uninterp spec fn graph_edges(g: Graph<Event, (), Directed, usize>) -> Seq<(usize, usize)>;

/// The nodes that a walker has discovered and not handed out yet, the next
/// one to hand out first.
pub uninterp spec fn bfs_queue(b: Bfs<NodeIndex<usize>, FixedBitSet>) -> Seq<usize>;

/// The nodes that a walker has discovered so far.
pub uninterp spec fn bfs_discovered(b: Bfs<NodeIndex<usize>, FixedBitSet>) -> Set<usize>;

/// The number of nodes that a walker's set of discovered nodes has room
/// for: the node count of the graph it was made for.
pub uninterp spec fn bfs_bound(b: Bfs<NodeIndex<usize>, FixedBitSet>) -> nat;

/// Whether edge `e` lies on the `dir` side of node `a`.
pub open spec fn on_side(e: (usize, usize), a: usize, dir: EdgeDirection) -> bool {
    match dir {
        EdgeDirection::Outgoing => e.0 == a,
        EdgeDirection::Incoming => e.1 == a,
    }
}

/// The test that `on_side` makes for node `a` and side `dir`.
pub open spec fn side_test(a: usize, dir: EdgeDirection) -> spec_fn((usize, usize)) -> bool {
    |e: (usize, usize)| on_side(e, a, dir)
}

/// The edges among `edges` that lie on the `dir` side of node `a`, in the
/// order of `edges`.
pub open spec fn incident(edges: Seq<(usize, usize)>, a: usize, dir: EdgeDirection) -> Seq<(usize, usize)> {
    edges.filter(side_test(a, dir))
}

/// One step of a walker that hands out node `x`: `x` was the head of the
/// queue `q0`; the queue `q1` after the step is the rest of `q0` followed by
/// the successors of `x` that were not in `d0`, each once; `d1` is `d0` with
/// all successors of `x`.
pub open spec fn bfs_step(
    edges: Seq<(usize, usize)>,
    x: usize,
    q0: Seq<usize>,
    d0: Set<usize>,
    q1: Seq<usize>,
    d1: Set<usize>,
) -> bool {
    &&& q0.len() > 0
    &&& x == q0[0]
    &&& q1.len() >= q0.len() - 1
    &&& q1.subrange(0, q0.len() - 1) == q0.subrange(1, q0.len() as int)
    &&& q1.subrange(q0.len() - 1, q1.len() as int).no_duplicates()
    &&& forall|v: usize| #[trigger]
        q1.subrange(q0.len() - 1, q1.len() as int).contains(v) <==> edges.contains((x, v))
            && !d0.contains(v)
    &&& forall|v: usize| #[trigger] d1.contains(v) <==> d0.contains(v) || edges.contains((x, v))
}

/// `Graph::with_capacity`: a graph without nodes and without edges.
#[verifier::external_body]
pub(crate) fn graph_new() -> (g: Graph<Event, (), Directed, usize>)
    ensures
        graph_nodes(g) == Seq::<Event>::empty(),
        graph_edges(g) == Seq::<(usize, usize)>::empty(),
{
    Graph::with_capacity(0, 0)
}

/// `Graph::add_node`: the weight becomes the last node, whose index is
/// returned; the edges stay. With `usize` indices the call has no limit to
/// panic at. The nodes lie in a `Vec`, so their number fits `usize`.
#[verifier::external_body]
pub(crate) fn graph_add_node(g: &mut Graph<Event, (), Directed, usize>, weight: Event) -> (idx: usize)
    ensures
        graph_nodes(*final(g)) == graph_nodes(*old(g)).push(weight),
        graph_nodes(*final(g)).len() <= usize::MAX,
        graph_edges(*final(g)) == graph_edges(*old(g)),
        idx == graph_nodes(*old(g)).len(),
{
    g.add_node(weight).index()
}

/// `Graph::node_weight`: the weight of node `a`, or `None` where the graph
/// has no such node.
#[verifier::external_body]
pub(crate) fn graph_node_weight(g: &Graph<Event, (), Directed, usize>, a: usize) -> (w: Option<&Event>)
    ensures
        a < graph_nodes(*g).len() ==> w == Some(&graph_nodes(*g)[a as int]),
        a >= graph_nodes(*g).len() ==> w is None,
{
    g.node_weight(NodeIndex::new(a))
}

/// `Graph::node_indices`: the indices of all nodes, counting up from 0.
#[verifier::external_body]
pub(crate) fn graph_node_indices(g: &Graph<Event, (), Directed, usize>) -> (r: Vec<usize>)
    ensures
        r@.len() == graph_nodes(*g).len(),
        forall|i: int| 0 <= i < r@.len() ==> r@[i] == i,
{
    g.node_indices().map(|i| i.index()).collect()
}

/// `Graph::update_edge`: where the graph has an edge from `a` to `b`
/// nothing changes (the unit weight is written again); else that edge
/// becomes the last edge. The call panics unless both nodes exist.
#[verifier::external_body]
pub(crate) fn graph_update_edge(g: &mut Graph<Event, (), Directed, usize>, a: usize, b: usize)
    requires
        a < graph_nodes(*old(g)).len(),
        b < graph_nodes(*old(g)).len(),
    ensures
        graph_nodes(*final(g)) == graph_nodes(*old(g)),
        graph_edges(*old(g)).contains((a, b)) ==> graph_edges(*final(g)) == graph_edges(*old(g)),
        !graph_edges(*old(g)).contains((a, b)) ==> graph_edges(*final(g)) == graph_edges(
            *old(g),
        ).push((a, b)),
{
    g.update_edge(NodeIndex::new(a), NodeIndex::new(b), ());
}

/// `Graph::edges_directed`: the edges on the `dir` side of node `a`, each
/// once, as pairs of source and target. The order in which the graph lists
/// them is left open.
#[verifier::external_body]
pub(crate) fn graph_edges_directed(
    g: &Graph<Event, (), Directed, usize>,
    a: usize,
    dir: EdgeDirection,
) -> (r: Vec<(usize, usize)>)
    ensures
        r@.to_multiset() == incident(graph_edges(*g), a, dir).to_multiset(),
{
    let d = match dir {
        EdgeDirection::Outgoing => Direction::Outgoing,
        EdgeDirection::Incoming => Direction::Incoming,
    };
    g.edges_directed(NodeIndex::new(a), d).map(|e| (e.source().index(), e.target().index())).collect()
}

/// `Graph::edge_references`: all edges in the order of their indices, as
/// pairs of source and target.
#[verifier::external_body]
pub(crate) fn graph_edge_references(g: &Graph<Event, (), Directed, usize>) -> (r: Vec<(usize, usize)>)
    ensures
        r@ == graph_edges(*g),
{
    g.edge_references().map(|e| (e.source().index(), e.target().index())).collect()
}

/// `Graph::clone`: a graph with as many nodes and with the same edges at
/// the same indices. What the copied weights hold is not stated.
#[verifier::external_body]
pub(crate) fn graph_clone(g: &Graph<Event, (), Directed, usize>) -> (r: Graph<Event, (), Directed, usize>)
    ensures
        graph_nodes(r).len() == graph_nodes(*g).len(),
        graph_edges(r) == graph_edges(*g),
{
    g.clone()
}

/// `Graph::reverse`: every edge keeps its index and swaps its source and
/// its target; the nodes stay.
#[verifier::external_body]
pub(crate) fn graph_reverse(g: &mut Graph<Event, (), Directed, usize>)
    ensures
        graph_nodes(*final(g)) == graph_nodes(*old(g)),
        graph_edges(*final(g)).len() == graph_edges(*old(g)).len(),
        forall|i: int|
            0 <= i < graph_edges(*old(g)).len() ==> #[trigger] graph_edges(*final(g))[i] == (
                graph_edges(*old(g))[i].1,
                graph_edges(*old(g))[i].0,
            ),
{
    g.reverse();
}

/// `Bfs::new`: a walker that has discovered `start` alone and will hand it
/// out first. Its set of discovered nodes has room for the nodes of `g`;
/// the call panics where `start` is no node of `g`.
#[verifier::external_body]
pub(crate) fn bfs_new(g: &Graph<Event, (), Directed, usize>, start: usize) -> (b: Bfs<
    NodeIndex<usize>,
    FixedBitSet,
>)
    requires
        start < graph_nodes(*g).len(),
    ensures
        bfs_queue(b) == seq![start],
        bfs_discovered(b) == set![start],
        bfs_bound(b) == graph_nodes(*g).len(),
{
    Bfs::new(g, NodeIndex::new(start))
}

/// `Bfs::next`: with an empty queue, `None` and no change. Else the head
/// of the queue is handed out, and those of its successors in `g` that were
/// not discovered yet are discovered and join the end of the queue. The
/// call panics where a successor is beyond the room that the walker was
/// made with.
#[verifier::external_body]
pub(crate) fn bfs_next(b: &mut Bfs<NodeIndex<usize>, FixedBitSet>, g: &Graph<Event, (), Directed, usize>) -> (r:
    Option<usize>)
    requires
        graph_nodes(*g).len() <= bfs_bound(*old(b)),
    ensures
        bfs_bound(*final(b)) == bfs_bound(*old(b)),
        r is None ==> bfs_queue(*old(b)).len() == 0 && bfs_queue(*final(b)) == bfs_queue(*old(b))
            && bfs_discovered(*final(b)) == bfs_discovered(*old(b)),
        r is Some ==> bfs_step(
            graph_edges(*g),
            r->0,
            bfs_queue(*old(b)),
            bfs_discovered(*old(b)),
            bfs_queue(*final(b)),
            bfs_discovered(*final(b)),
        ),
{
    b.next(g).map(|n| n.index())
}

} // verus!
