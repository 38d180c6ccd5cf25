//! The mathematical model of the events DAG: what the indexes, the edges,
//! the frontier and the projections are, as functions of the list of events
//! and the list of edges.
use vstd::prelude::*;
use crate::data_set::EdgeView;
use crate::data_set::NodeView;
use crate::event::EventView;
use crate::event::node_of;
use crate::graph::EdgeDirection;
use crate::graph::incident;
use crate::reach::edges_in_range;
use crate::reach::reachable_from_any;
use crate::reach::reversed;

verus! {

/// The index of identifiers over `nodes`: each identifier is mapped to the
/// last node that bears it.
pub open spec fn index_of(nodes: Seq<EventView>) -> Map<Seq<char>, usize>
    decreases nodes.len(),
{
    if nodes.len() == 0 {
        Map::empty()
    } else {
        index_of(nodes.drop_last()).insert(nodes.last().event_id, (nodes.len() - 1) as usize)
    }
}

/// The nodes of `nodes` at `depth`, in the order of their indices.
pub open spec fn bucket(nodes: Seq<EventView>, depth: i64) -> Seq<usize>
    decreases nodes.len(),
{
    if nodes.len() == 0 {
        Seq::empty()
    } else if nodes.last().depth == depth {
        bucket(nodes.drop_last(), depth).push((nodes.len() - 1) as usize)
    } else {
        bucket(nodes.drop_last(), depth)
    }
}

/// The depth index over `nodes`: each depth that some node has is mapped to
/// the nodes at that depth.
pub open spec fn buckets_of(nodes: Seq<EventView>) -> Map<i64, Seq<usize>> {
    Map::new(|d: i64| bucket(nodes, d).len() > 0, |d: i64| bucket(nodes, d))
}

/// The maximal depth after a node of depth `d` has come to nodes of maximal
/// depth `max`, where -1 stands for "no node yet".
pub open spec fn raised(max: i64, d: i64) -> i64 {
    if max == -1 || d > max {
        d
    } else {
        max
    }
}

/// The minimal depth after a node of depth `d` has come to nodes of minimal
/// depth `min`, where -1 stands for "no node yet".
pub open spec fn lowered(min: i64, d: i64) -> i64 {
    if min == -1 || d < min {
        d
    } else {
        min
    }
}

/// The maximal depth as kept while `nodes` are added one by one: -1 without
/// nodes.
pub open spec fn depth_max(nodes: Seq<EventView>) -> i64
    decreases nodes.len(),
{
    if nodes.len() == 0 {
        -1i64
    } else {
        raised(depth_max(nodes.drop_last()), nodes.last().depth)
    }
}

/// The minimal depth as kept while `nodes` are added one by one: -1 without
/// nodes.
pub open spec fn depth_min(nodes: Seq<EventView>) -> i64
    decreases nodes.len(),
{
    if nodes.len() == 0 {
        -1i64
    } else {
        lowered(depth_min(nodes.drop_last()), nodes.last().depth)
    }
}

/// Every edge leads from a node to a node whose identifier it declares as a
/// predecessor.
pub open spec fn edges_declared(nodes: Seq<EventView>, edges: Seq<(usize, usize)>) -> bool {
    forall|i: int|
        0 <= i < edges.len() ==> nodes[(#[trigger] edges[i]).0 as int].prev_events.contains(
            nodes[edges[i].1 as int].event_id,
        )
}

/// Edge `e` leads from a node to the node that `index` gives for one of the
/// predecessors that the node declares.
pub open spec fn resolves(nodes: Seq<EventView>, index: Map<Seq<char>, usize>, e: (usize, usize)) -> bool {
    &&& e.0 < nodes.len()
    &&& exists|k: int|
        0 <= k < nodes[e.0 as int].prev_events.len() && index.contains_key(
            #[trigger] nodes[e.0 as int].prev_events[k],
        ) && index[nodes[e.0 as int].prev_events[k]] == e.1
}

/// Every declared predecessor that `index` knows has its edge.
pub open spec fn edges_complete(
    nodes: Seq<EventView>,
    index: Map<Seq<char>, usize>,
    edges: Seq<(usize, usize)>,
) -> bool {
    forall|e: (usize, usize)| #[trigger] resolves(nodes, index, e) ==> edges.contains(e)
}

/// The number of edges on the `dir` side of node `a`.
pub open spec fn degree(edges: Seq<(usize, usize)>, a: usize, dir: EdgeDirection) -> nat {
    incident(edges, a, dir).len()
}

/// The identifiers of those among the first `k` nodes that have no edge on
/// their `dir` side, in the order of the nodes.
pub open spec fn frontier(
    nodes: Seq<EventView>,
    edges: Seq<(usize, usize)>,
    dir: EdgeDirection,
    k: nat,
) -> Seq<Seq<char>>
    decreases k,
{
    if k == 0 {
        Seq::empty()
    } else if degree(edges, (k - 1) as usize, dir) == 0 {
        frontier(nodes, edges, dir, (k - 1) as nat).push(nodes[k - 1].event_id)
    } else {
        frontier(nodes, edges, dir, (k - 1) as nat)
    }
}

/// Identifier and depth of those among the first `k` nodes that have fewer
/// outgoing edges than they declare different predecessors, in the order
/// of the nodes.
pub open spec fn orphans(nodes: Seq<EventView>, edges: Seq<(usize, usize)>, k: nat) -> Seq<(Seq<char>, i64)>
    decreases k,
{
    if k == 0 {
        Seq::empty()
    } else if degree(edges, (k - 1) as usize, EdgeDirection::Outgoing) < nodes[k - 1].prev_events.to_set().len() {
        orphans(nodes, edges, (k - 1) as nat).push((nodes[k - 1].event_id, nodes[k - 1].depth))
    } else {
        orphans(nodes, edges, (k - 1) as nat)
    }
}

/// What adding one node does to the identifier index, to the depth index
/// and to the depth bounds.
pub proof fn lemma_push_node(nodes: Seq<EventView>, v: EventView)
    ensures
        index_of(nodes.push(v)) == index_of(nodes).insert(v.event_id, nodes.len() as usize),
        bucket(nodes.push(v), v.depth) == bucket(nodes, v.depth).push(nodes.len() as usize),
        forall|d: i64| d != v.depth ==> #[trigger] bucket(nodes.push(v), d) == bucket(nodes, d),
        depth_max(nodes.push(v)) == raised(depth_max(nodes), v.depth),
        depth_min(nodes.push(v)) == lowered(depth_min(nodes), v.depth),
{
    assert(nodes.push(v).drop_last() =~= nodes);
}

/// The identifier index leads from each identifier it knows to a node that
/// bears it, and it knows the identifier of every node.
pub proof fn lemma_index_of(nodes: Seq<EventView>)
    requires
        nodes.len() <= usize::MAX,
    ensures
        forall|id: Seq<char>| #[trigger]
            index_of(nodes).contains_key(id) ==> index_of(nodes)[id] < nodes.len() && nodes[index_of(
                nodes,
            )[id] as int].event_id == id,
        forall|i: int| 0 <= i < nodes.len() ==> index_of(nodes).contains_key(#[trigger] nodes[i].event_id),
    decreases nodes.len(),
{
    if nodes.len() > 0 {
        let rest = nodes.drop_last();
        lemma_index_of(rest);
        assert forall|id: Seq<char>| #[trigger] index_of(nodes).contains_key(id) implies index_of(nodes)[id]
            < nodes.len() && nodes[index_of(nodes)[id] as int].event_id == id by {
            if id != nodes.last().event_id {
                assert(index_of(rest).contains_key(id));
                assert(rest[index_of(rest)[id] as int] == nodes[index_of(rest)[id] as int]);
            }
        }
        assert forall|i: int| 0 <= i < nodes.len() implies index_of(nodes).contains_key(
            #[trigger] nodes[i].event_id,
        ) by {
            if i < nodes.len() - 1 {
                assert(nodes.drop_last()[i] == nodes[i]);
            }
        }
    }
}

/// What one call that makes sure of the edge from `src` to `dst` does to
/// sound edges, where `dst` is what the index gives for a predecessor that
/// `src` declares: the edges stay sound, the earlier edges stay where they
/// are, and the edge is among them.
pub proof fn lemma_link_step(
    nodes: Seq<EventView>,
    first: Seq<(usize, usize)>,
    before: Seq<(usize, usize)>,
    after: Seq<(usize, usize)>,
    src: usize,
    dst: usize,
)
    requires
        nodes.len() <= usize::MAX,
        before.no_duplicates(),
        edges_in_range(before, nodes.len()),
        edges_declared(nodes, before),
        first.is_prefix_of(before),
        resolves(nodes, index_of(nodes), (src, dst)),
        before.contains((src, dst)) ==> after == before,
        !before.contains((src, dst)) ==> after == before.push((src, dst)),
    ensures
        dst < nodes.len(),
        after.no_duplicates(),
        edges_in_range(after, nodes.len()),
        edges_declared(nodes, after),
        first.is_prefix_of(after),
        forall|e: (usize, usize)| #[trigger] after.contains(e) <==> before.contains(e) || e == (src, dst),
{
    lemma_index_of(nodes);
    let e = (src, dst);
    let k = choose|k: int|
        0 <= k < nodes[e.0 as int].prev_events.len() && index_of(nodes).contains_key(
            #[trigger] nodes[e.0 as int].prev_events[k],
        ) && index_of(nodes)[nodes[e.0 as int].prev_events[k]] == e.1;
    let id = nodes[src as int].prev_events[k];
    assert(index_of(nodes).contains_key(id));
    assert(nodes[dst as int].event_id == id);
    assert(nodes[src as int].prev_events.contains(nodes[dst as int].event_id));
    if !before.contains(e) {
        assert(after[before.len() as int] == e);
        assert forall|i: int, j: int| 0 <= i < after.len() && 0 <= j < after.len() && i != j implies after[i]
            != after[j] by {
            if i < before.len() {
                assert(before.contains(before[i]));
            }
            if j < before.len() {
                assert(before.contains(before[j]));
            }
        }
        assert forall|x: (usize, usize)| #[trigger] after.contains(x) <==> before.contains(x) || x == e by {
            if after.contains(x) {
                let i = choose|i: int| 0 <= i < after.len() && after[i] == x;
                if i < before.len() {
                    assert(before[i] == x);
                }
            }
            if before.contains(x) {
                let i = choose|i: int| 0 <= i < before.len() && before[i] == x;
                assert(after[i] == x);
            }
        }
        assert(first =~= after.subrange(0, first.len() as int));
    }
}

/// The data set nodes of those among the first `k` nodes that the
/// identifier index leads to, in the order of the nodes.
pub open spec fn indexed_nodes(
    nodes: Seq<EventView>,
    index: Map<Seq<char>, usize>,
    server: Seq<char>,
    chosen: Seq<Seq<char>>,
    k: nat,
) -> Seq<NodeView>
    decreases k,
{
    if k == 0 {
        Seq::empty()
    } else if index.contains_key(nodes[k - 1].event_id) && index[nodes[k - 1].event_id] == k - 1 {
        indexed_nodes(nodes, index, server, chosen, (k - 1) as nat).push(node_of(nodes[k - 1], server, chosen))
    } else {
        indexed_nodes(nodes, index, server, chosen, (k - 1) as nat)
    }
}

/// The data set nodes of the nodes `picked`, in their order.
pub open spec fn projected(
    nodes: Seq<EventView>,
    server: Seq<char>,
    chosen: Seq<Seq<char>>,
    picked: Seq<usize>,
) -> Seq<NodeView> {
    Seq::new(picked.len(), |i: int| node_of(nodes[picked[i] as int], server, chosen))
}

/// The data set edge of edge `e`: it leads from the identifier of the
/// source to the identifier of the target, and its own identifier is the
/// first followed by the second.
pub open spec fn edge_view(nodes: Seq<EventView>, e: (usize, usize)) -> EdgeView {
    EdgeView::between(nodes[e.0 as int].event_id, nodes[e.1 as int].event_id)
}

/// The data set edges of `edges`, in their order.
pub open spec fn edge_views(nodes: Seq<EventView>, edges: Seq<(usize, usize)>) -> Seq<EdgeView> {
    Seq::new(edges.len(), |i: int| edge_view(nodes, edges[i]))
}

/// The nodes that the index gives for the identifiers `from`.
pub open spec fn boundary_of(index: Map<Seq<char>, usize>, from: Seq<Seq<char>>) -> Seq<usize> {
    Seq::new(from.len(), |i: int| index[from[i]])
}

/// `found` lists, each once, the nodes that some node of `boundary`
/// reaches along `edges` and that are not in `boundary` themselves.
pub open spec fn found_beyond(edges: Seq<(usize, usize)>, boundary: Seq<usize>, found: Seq<usize>) -> bool {
    &&& found.no_duplicates()
    &&& forall|v: usize| #[trigger]
        found.contains(v) <==> reachable_from_any(edges, boundary, v) && !boundary.contains(v)
}

/// The edges along which a walk on the `dir` side of the nodes goes:
/// with `Outgoing` the edges themselves, from an event to its predecessors;
/// with `Incoming` the edges turned round, from an event to its successors.
pub open spec fn walked(edges: Seq<(usize, usize)>, dir: EdgeDirection) -> Seq<(usize, usize)> {
    match dir {
        EdgeDirection::Outgoing => edges,
        EdgeDirection::Incoming => reversed(edges),
    }
}

/// The end of edge `e` that a walk on the `dir` side of the nodes leaves:
/// the source with `Outgoing`, the target with `Incoming`.
pub open spec fn near_end(e: (usize, usize), dir: EdgeDirection) -> usize {
    match dir {
        EdgeDirection::Outgoing => e.0,
        EdgeDirection::Incoming => e.1,
    }
}

/// The end of edge `e` that a walk on the `dir` side of the nodes arrives
/// at: the target with `Outgoing`, the source with `Incoming`.
pub open spec fn far_end(e: (usize, usize), dir: EdgeDirection) -> usize {
    match dir {
        EdgeDirection::Outgoing => e.1,
        EdgeDirection::Incoming => e.0,
    }
}

/// Edge `e` comes with the nodes `found` beyond `boundary`: the walk
/// leaves a found node along it, or it leads the walk from a node of the
/// boundary to a found node.
pub open spec fn edge_joins(e: (usize, usize), boundary: Seq<usize>, found: Seq<usize>, dir: EdgeDirection) -> bool {
    found.contains(near_end(e, dir)) || (boundary.contains(near_end(e, dir)) && found.contains(far_end(e, dir)))
}

/// `picked` lists, each once, the edges of `edges` that come with the
/// nodes `found` beyond `boundary`. With `Outgoing` these are the edges
/// that start at a found node and those from a boundary node to a found
/// node; with `Incoming` those that end in a found node and those from a
/// found node to a boundary node.
pub open spec fn edges_at(
    edges: Seq<(usize, usize)>,
    boundary: Seq<usize>,
    found: Seq<usize>,
    dir: EdgeDirection,
    picked: Seq<(usize, usize)>,
) -> bool {
    &&& picked.no_duplicates()
    &&& forall|e: (usize, usize)| #[trigger] picked.contains(e) <==> edges.contains(e) && edge_joins(e, boundary, found, dir)
}

} // verus!
