//! What follows from the invariant of the store: statements about the
//! identifier index, the edges, the frontier, the orphans and the depth
//! bounds that callers can rely on.
use vstd::prelude::*;
use vstd::seq_lib::seq_to_set_is_finite;
use vstd::relations::injective_on;
use vstd::set_lib::lemma_len_subset;
use vstd::set_lib::lemma_map_size;
use crate::dag::RoomEvents;
use crate::event::EventView;
use crate::graph::EdgeDirection;
use crate::graph::incident;
use crate::graph::on_side;
use crate::graph::side_test;
use crate::model::boundary_of;
use crate::model::degree;
use crate::model::depth_max;
use crate::model::depth_min;
use crate::model::found_beyond;
use crate::model::frontier;
use crate::model::index_of;
use crate::model::lemma_index_of;
use crate::model::orphans;
use crate::reach::lemma_incident_listing;
use crate::seqs::lemma_push_contains;

verus! {

/// No two of `nodes` bear the same identifier.
pub open spec fn distinct_ids(nodes: Seq<EventView>) -> bool {
    forall|i: int, j: int|
        0 <= i < nodes.len() && 0 <= j < nodes.len() && i != j ==> (#[trigger] nodes[i]).event_id != (
        #[trigger] nodes[j]).event_id
}

/// The identifier index knows exactly the identifiers that nodes bear, and
/// leads from each to the newest node that bears it.
pub proof fn lemma_index_newest(nodes: Seq<EventView>)
    requires
        nodes.len() <= usize::MAX,
    ensures
        forall|id: Seq<char>| #[trigger]
            index_of(nodes).contains_key(id) <==> exists|i: int|
                0 <= i < nodes.len() && (#[trigger] nodes[i]).event_id == id,
        forall|id: Seq<char>| #[trigger]
            index_of(nodes).contains_key(id) ==> index_of(nodes)[id] < nodes.len() && nodes[index_of(
                nodes,
            )[id] as int].event_id == id,
        forall|i: int| 0 <= i < nodes.len() ==> i <= index_of(nodes)[(#[trigger] nodes[i]).event_id],
    decreases nodes.len(),
{
    lemma_index_of(nodes);
    if nodes.len() > 0 {
        let rest = nodes.drop_last();
        lemma_index_newest(rest);
        lemma_index_of(rest);
        assert forall|i: int| 0 <= i < nodes.len() implies i <= index_of(nodes)[(#[trigger] nodes[i]).event_id] by {
            if i < nodes.len() - 1 {
                assert(rest[i] == nodes[i]);
            }
        }
        assert forall|id: Seq<char>| #[trigger] index_of(nodes).contains_key(id) implies exists|i: int|
            0 <= i < nodes.len() && (#[trigger] nodes[i]).event_id == id by {
            assert(nodes[index_of(nodes)[id] as int].event_id == id);
        }
    }
}

/// Where no two nodes bear the same identifier, the identifier index is a
/// bijection between the identifiers and the nodes: it leads from the
/// identifier of each node to that node, and from each identifier it knows
/// to a node that bears it.
pub proof fn lemma_index_bijection(nodes: Seq<EventView>)
    requires
        nodes.len() <= usize::MAX,
        distinct_ids(nodes),
    ensures
        forall|i: int|
            0 <= i < nodes.len() ==> index_of(nodes).contains_key((#[trigger] nodes[i]).event_id) && index_of(
                nodes,
            )[nodes[i].event_id] == i,
        forall|id: Seq<char>| #[trigger]
            index_of(nodes).contains_key(id) ==> index_of(nodes)[id] < nodes.len() && nodes[index_of(
                nodes,
            )[id] as int].event_id == id,
{
    lemma_index_of(nodes);
    assert forall|i: int| 0 <= i < nodes.len() implies index_of(nodes)[(#[trigger] nodes[i]).event_id] == i by {
        let j = index_of(nodes)[nodes[i].event_id] as int;
        assert(nodes[j].event_id == nodes[i].event_id);
    }
}

/// A node has no edge on a side exactly where no edge of the list lies on
/// that side of it.
pub proof fn lemma_degree_zero(edges: Seq<(usize, usize)>, a: usize, dir: EdgeDirection)
    ensures
        degree(edges, a, dir) == 0 <==> forall|j: int| 0 <= j < edges.len() ==> !on_side(#[trigger] edges[j], a, dir),
{
    let test = side_test(a, dir);
    let inc = incident(edges, a, dir);
    if inc.len() > 0 {
        edges.lemma_filter_pred(test, 0);
        assert(inc.contains(inc[0]));
        edges.lemma_filter_contains_rev(test, inc[0]);
        let j = choose|j: int| 0 <= j < edges.len() && edges[j] == inc[0];
        assert(on_side(edges[j], a, dir));
    }
    if exists|j: int| 0 <= j < edges.len() && on_side(#[trigger] edges[j], a, dir) {
        let j = choose|j: int| 0 <= j < edges.len() && on_side(#[trigger] edges[j], a, dir);
        assert(test(edges[j]));
        edges.lemma_filter_contains(test, j);
    }
}

/// A node has no incoming edge exactly where no edge ends in it, and no
/// outgoing edge exactly where no edge starts at it.
pub proof fn lemma_degree_scan(edges: Seq<(usize, usize)>, a: usize)
    ensures
        degree(edges, a, EdgeDirection::Incoming) == 0 <==> forall|j: int|
            0 <= j < edges.len() ==> (#[trigger] edges[j]).1 != a,
        degree(edges, a, EdgeDirection::Outgoing) == 0 <==> forall|j: int|
            0 <= j < edges.len() ==> (#[trigger] edges[j]).0 != a,
{
    lemma_degree_zero(edges, a, EdgeDirection::Incoming);
    lemma_degree_zero(edges, a, EdgeDirection::Outgoing);
    if forall|j: int| 0 <= j < edges.len() ==> (#[trigger] edges[j]).1 != a {
        assert forall|j: int| 0 <= j < edges.len() implies !on_side(#[trigger] edges[j], a, EdgeDirection::Incoming) by {}
    }
    if forall|j: int| 0 <= j < edges.len() ==> (#[trigger] edges[j]).0 != a {
        assert forall|j: int| 0 <= j < edges.len() implies !on_side(#[trigger] edges[j], a, EdgeDirection::Outgoing) by {}
    }
    if forall|j: int| 0 <= j < edges.len() ==> !on_side(#[trigger] edges[j], a, EdgeDirection::Incoming) {
        assert forall|j: int| 0 <= j < edges.len() implies (#[trigger] edges[j]).1 != a by {
            assert(!on_side(edges[j], a, EdgeDirection::Incoming));
        }
    }
    if forall|j: int| 0 <= j < edges.len() ==> !on_side(#[trigger] edges[j], a, EdgeDirection::Outgoing) {
        assert forall|j: int| 0 <= j < edges.len() implies (#[trigger] edges[j]).0 != a by {
            assert(!on_side(edges[j], a, EdgeDirection::Outgoing));
        }
    }
}

/// The frontier on a side holds exactly the identifiers of the nodes
/// without an edge on that side.
pub proof fn lemma_frontier_members(nodes: Seq<EventView>, edges: Seq<(usize, usize)>, dir: EdgeDirection, k: nat)
    requires
        k <= nodes.len(),
        k <= usize::MAX,
    ensures
        forall|id: Seq<char>| #[trigger]
            frontier(nodes, edges, dir, k).contains(id) <==> exists|i: int|
                0 <= i < k && (#[trigger] nodes[i]).event_id == id && degree(edges, i as usize, dir) == 0,
    decreases k,
{
    if k > 0 {
        let less = frontier(nodes, edges, dir, (k - 1) as nat);
        let all = frontier(nodes, edges, dir, k);
        lemma_frontier_members(nodes, edges, dir, (k - 1) as nat);
        assert forall|id: Seq<char>| #[trigger] all.contains(id) <==> exists|i: int|
            0 <= i < k && (#[trigger] nodes[i]).event_id == id && degree(edges, i as usize, dir) == 0 by {
            if all.contains(id) {
                let m = choose|m: int| 0 <= m < all.len() && all[m] == id;
                if m < less.len() {
                    assert(less[m] == id);
                    assert(less.contains(id));
                } else {
                    assert(nodes[k - 1].event_id == id);
                }
            }
            if exists|i: int| 0 <= i < k && (#[trigger] nodes[i]).event_id == id && degree(edges, i as usize, dir) == 0 {
                let i = choose|i: int|
                    0 <= i < k && (#[trigger] nodes[i]).event_id == id && degree(edges, i as usize, dir) == 0;
                if i < k - 1 {
                    assert(less.contains(id));
                    let m = choose|m: int| 0 <= m < less.len() && less[m] == id;
                    assert(all[m] == id);
                } else {
                    assert(all[all.len() - 1] == id);
                }
            }
        }
    }
}

/// The orphans are exactly the nodes with fewer outgoing edges than they
/// declare different predecessors, each with its identifier and depth.
pub proof fn lemma_orphan_members(nodes: Seq<EventView>, edges: Seq<(usize, usize)>, k: nat)
    requires
        k <= nodes.len(),
        k <= usize::MAX,
    ensures
        forall|o: (Seq<char>, i64)| #[trigger]
            orphans(nodes, edges, k).contains(o) <==> exists|i: int|
                0 <= i < k && o == ((#[trigger] nodes[i]).event_id, nodes[i].depth) && degree(
                    edges,
                    i as usize,
                    EdgeDirection::Outgoing,
                ) < nodes[i].prev_events.to_set().len(),
    decreases k,
{
    if k > 0 {
        let less = orphans(nodes, edges, (k - 1) as nat);
        let all = orphans(nodes, edges, k);
        lemma_orphan_members(nodes, edges, (k - 1) as nat);
        assert forall|o: (Seq<char>, i64)| #[trigger] all.contains(o) <==> exists|i: int|
            0 <= i < k && o == ((#[trigger] nodes[i]).event_id, nodes[i].depth) && degree(
                edges,
                i as usize,
                EdgeDirection::Outgoing,
            ) < nodes[i].prev_events.to_set().len() by {
            if all.contains(o) {
                let m = choose|m: int| 0 <= m < all.len() && all[m] == o;
                if m < less.len() {
                    assert(less[m] == o);
                    assert(less.contains(o));
                } else {
                    assert(o == (nodes[k - 1].event_id, nodes[k - 1].depth));
                }
            }
            if exists|i: int|
                0 <= i < k && o == ((#[trigger] nodes[i]).event_id, nodes[i].depth) && degree(
                    edges,
                    i as usize,
                    EdgeDirection::Outgoing,
                ) < nodes[i].prev_events.to_set().len() {
                let i = choose|i: int|
                    0 <= i < k && o == ((#[trigger] nodes[i]).event_id, nodes[i].depth) && degree(
                        edges,
                        i as usize,
                        EdgeDirection::Outgoing,
                    ) < nodes[i].prev_events.to_set().len();
                if i < k - 1 {
                    assert(less.contains(o));
                    let m = choose|m: int| 0 <= m < less.len() && less[m] == o;
                    assert(all[m] == o);
                } else {
                    assert(all[all.len() - 1] == o);
                }
            }
        }
    }
}

/// Where no node has depth -1, the depth bounds of a store with nodes are
/// the greatest and the least depth among its nodes.
pub proof fn lemma_depth_bounds(nodes: Seq<EventView>)
    requires
        nodes.len() > 0,
        forall|i: int| 0 <= i < nodes.len() ==> (#[trigger] nodes[i]).depth != -1,
    ensures
        forall|i: int| 0 <= i < nodes.len() ==> depth_min(nodes) <= (#[trigger] nodes[i]).depth <= depth_max(nodes),
        exists|i: int| 0 <= i < nodes.len() && (#[trigger] nodes[i]).depth == depth_max(nodes),
        exists|i: int| 0 <= i < nodes.len() && (#[trigger] nodes[i]).depth == depth_min(nodes),
    decreases nodes.len(),
{
    let rest = nodes.drop_last();
    let last = nodes.len() - 1;
    if rest.len() == 0 {
        assert(depth_max(rest) == -1);
        assert(depth_min(rest) == -1);
        assert(nodes[last].depth == depth_max(nodes));
        assert(nodes[last].depth == depth_min(nodes));
    } else {
        assert forall|i: int| 0 <= i < rest.len() implies (#[trigger] rest[i]).depth != -1 by {
            assert(rest[i] == nodes[i]);
        }
        lemma_depth_bounds(rest);
        let hi = choose|i: int| 0 <= i < rest.len() && (#[trigger] rest[i]).depth == depth_max(rest);
        let lo = choose|i: int| 0 <= i < rest.len() && (#[trigger] rest[i]).depth == depth_min(rest);
        assert(rest[hi] == nodes[hi]);
        assert(rest[lo] == nodes[lo]);
        assert forall|i: int| 0 <= i < nodes.len() implies depth_min(nodes) <= (#[trigger] nodes[i]).depth
            <= depth_max(nodes) by {
            if i < last {
                assert(rest[i] == nodes[i]);
            }
        }
        if depth_max(nodes) == nodes[last].depth {
            assert(nodes[last].depth == depth_max(nodes));
        } else {
            assert(nodes[hi].depth == depth_max(nodes));
        }
        if depth_min(nodes) == nodes[last].depth {
            assert(nodes[last].depth == depth_min(nodes));
        } else {
            assert(nodes[lo].depth == depth_min(nodes));
        }
    }
}

/// A store with one node has the depth of that node as both bounds,
/// whatever that depth.
pub proof fn lemma_depth_of_one(nodes: Seq<EventView>)
    requires
        nodes.len() == 1,
    ensures
        depth_max(nodes) == nodes[0].depth,
        depth_min(nodes) == nodes[0].depth,
{
    assert(depth_max(nodes.drop_last()) == -1);
    assert(depth_min(nodes.drop_last()) == -1);
}

/// The store's index: it knows exactly the identifiers of the events, and
/// leads from each to the newest event that bears it.
pub proof fn lemma_store_index(store: RoomEvents)
    requires
        store.stored_ok(),
    ensures
        forall|id: Seq<char>| #[trigger]
            store.index().contains_key(id) <==> exists|i: int|
                0 <= i < store.nodes().len() && (#[trigger] store.nodes()[i]).event_id == id,
        forall|id: Seq<char>| #[trigger]
            store.index().contains_key(id) ==> store.index()[id] < store.nodes().len() && store.nodes()[store.index()[id] as int].event_id
                == id,
        forall|i: int| 0 <= i < store.nodes().len() ==> i <= store.index()[(#[trigger] store.nodes()[i]).event_id],
        distinct_ids(store.nodes()) ==> forall|i: int|
            0 <= i < store.nodes().len() ==> store.index()[(#[trigger] store.nodes()[i]).event_id] == i,
{
    lemma_index_newest(store.nodes());
    if distinct_ids(store.nodes()) {
        lemma_index_bijection(store.nodes());
    }
}

/// The store's frontier and orphans against a scan of its edge list: an
/// identifier is latest where some event bears it that no edge ends in,
/// earliest where some event bears it that no edge starts at, and an
/// orphan is an event with fewer outgoing edges than different declared
/// predecessors.
pub proof fn lemma_store_frontier(store: RoomEvents)
    requires
        store.wf(),
    ensures
        forall|id: Seq<char>| #[trigger]
            store.latest().contains(id) <==> exists|i: int|
                0 <= i < store.nodes().len() && (#[trigger] store.nodes()[i]).event_id == id && forall|j: int|
                    0 <= j < store.edges().len() ==> (#[trigger] store.edges()[j]).1 != i,
        forall|id: Seq<char>| #[trigger]
            store.earliest().contains(id) <==> exists|i: int|
                0 <= i < store.nodes().len() && (#[trigger] store.nodes()[i]).event_id == id && forall|j: int|
                    0 <= j < store.edges().len() ==> (#[trigger] store.edges()[j]).0 != i,
        forall|o: (Seq<char>, i64)| #[trigger]
            store.orphaned().contains(o) <==> exists|i: int|
                0 <= i < store.nodes().len() && o == ((#[trigger] store.nodes()[i]).event_id, store.nodes()[i].depth)
                    && degree(store.edges(), i as usize, EdgeDirection::Outgoing)
                    < store.nodes()[i].prev_events.to_set().len(),
{
    let nodes = store.nodes();
    let edges = store.edges();
    let n = nodes.len();
    lemma_frontier_members(nodes, edges, EdgeDirection::Incoming, n);
    lemma_frontier_members(nodes, edges, EdgeDirection::Outgoing, n);
    lemma_orphan_members(nodes, edges, n);
    assert forall|id: Seq<char>| #[trigger] store.latest().contains(id) <==> exists|i: int|
        0 <= i < n && (#[trigger] nodes[i]).event_id == id && forall|j: int|
            0 <= j < edges.len() ==> (#[trigger] edges[j]).1 != i by {
        if store.latest().contains(id) {
            let i = choose|i: int|
                0 <= i < n && (#[trigger] nodes[i]).event_id == id && degree(edges, i as usize, EdgeDirection::Incoming)
                    == 0;
            lemma_degree_scan(edges, i as usize);
            assert(nodes[i].event_id == id);
        }
        if exists|i: int|
            0 <= i < n && (#[trigger] nodes[i]).event_id == id && forall|j: int|
                0 <= j < edges.len() ==> (#[trigger] edges[j]).1 != i {
            let i = choose|i: int|
                0 <= i < n && (#[trigger] nodes[i]).event_id == id && forall|j: int|
                    0 <= j < edges.len() ==> (#[trigger] edges[j]).1 != i;
            lemma_degree_scan(edges, i as usize);
            assert(nodes[i].event_id == id && degree(edges, i as usize, EdgeDirection::Incoming) == 0);
        }
    }
    assert forall|id: Seq<char>| #[trigger] store.earliest().contains(id) <==> exists|i: int|
        0 <= i < n && (#[trigger] nodes[i]).event_id == id && forall|j: int|
            0 <= j < edges.len() ==> (#[trigger] edges[j]).0 != i by {
        if store.earliest().contains(id) {
            let i = choose|i: int|
                0 <= i < n && (#[trigger] nodes[i]).event_id == id && degree(edges, i as usize, EdgeDirection::Outgoing)
                    == 0;
            lemma_degree_scan(edges, i as usize);
            assert(nodes[i].event_id == id);
        }
        if exists|i: int|
            0 <= i < n && (#[trigger] nodes[i]).event_id == id && forall|j: int|
                0 <= j < edges.len() ==> (#[trigger] edges[j]).0 != i {
            let i = choose|i: int|
                0 <= i < n && (#[trigger] nodes[i]).event_id == id && forall|j: int|
                    0 <= j < edges.len() ==> (#[trigger] edges[j]).0 != i;
            lemma_degree_scan(edges, i as usize);
            assert(nodes[i].event_id == id && degree(edges, i as usize, EdgeDirection::Outgoing) == 0);
        }
    }
}

/// Where no two events bear the same identifier, event `i` is among the
/// orphans exactly where it has fewer outgoing edges than it declares
/// different predecessors.
pub proof fn lemma_store_orphan(store: RoomEvents, i: int)
    requires
        store.wf(),
        distinct_ids(store.nodes()),
        0 <= i < store.nodes().len(),
    ensures
        store.orphaned().contains((store.nodes()[i].event_id, store.nodes()[i].depth)) <==> degree(
            store.edges(),
            i as usize,
            EdgeDirection::Outgoing,
        ) < store.nodes()[i].prev_events.to_set().len(),
{
    let nodes = store.nodes();
    let edges = store.edges();
    let o = (nodes[i].event_id, nodes[i].depth);
    lemma_orphan_members(nodes, edges, nodes.len());
    if store.orphaned().contains(o) {
        let m = choose|m: int|
            0 <= m < nodes.len() && o == ((#[trigger] nodes[m]).event_id, nodes[m].depth) && degree(
                edges,
                m as usize,
                EdgeDirection::Outgoing,
            ) < nodes[m].prev_events.to_set().len();
        assert(nodes[m].event_id == nodes[i].event_id);
    }
    if degree(edges, i as usize, EdgeDirection::Outgoing) < nodes[i].prev_events.to_set().len() {
        assert(o == (nodes[i].event_id, nodes[i].depth));
    }
}

/// Where no two events bear the same identifier, an event has fewer
/// outgoing edges than different declared predecessors, and so is an
/// orphan, exactly where one of its declared predecessors is not known.
pub proof fn lemma_store_orphan_misses(store: RoomEvents, i: int)
    requires
        store.wf(),
        distinct_ids(store.nodes()),
        0 <= i < store.nodes().len(),
    ensures
        degree(store.edges(), i as usize, EdgeDirection::Outgoing) < store.nodes()[i].prev_events.to_set().len()
            <==> exists|k: int|
            0 <= k < store.nodes()[i].prev_events.len() && !store.index().contains_key(
                #[trigger] store.nodes()[i].prev_events[k],
            ),
{
    let nodes = store.nodes();
    let edges = store.edges();
    let index = store.index();
    let prev = nodes[i].prev_events;
    let declared = prev.to_set();
    let a = i as usize;
    let out = incident(edges, a, EdgeDirection::Outgoing);
    lemma_incident_listing(out, edges, a, EdgeDirection::Outgoing);
    lemma_index_bijection(nodes);
    assert forall|m: int| 0 <= m < out.len() implies (#[trigger] out[m]).0 == a && out[m].1 < nodes.len()
        && prev.contains(nodes[out[m].1 as int].event_id) by {
        assert(out.contains(out[m]));
        let j = choose|j: int| 0 <= j < edges.len() && edges[j] == out[m];
        assert(nodes[edges[j].0 as int].prev_events.contains(nodes[edges[j].1 as int].event_id));
    }
    out.unique_seq_to_set();
    seq_to_set_is_finite(prev);
    seq_to_set_is_finite(out);
    if exists|k: int| 0 <= k < prev.len() && !index.contains_key(#[trigger] prev[k]) {
        let k = choose|k: int| 0 <= k < prev.len() && !index.contains_key(#[trigger] prev[k]);
        let ids = Seq::new(out.len(), |m: int| nodes[out[m].1 as int].event_id);
        assert forall|m: int, l: int| 0 <= m < ids.len() && 0 <= l < ids.len() && m != l implies ids[m] != ids[l] by {
            assert(out[m] != out[l]);
            assert(out[m].0 == out[l].0);
        }
        ids.unique_seq_to_set();
        let rest = declared.remove(prev[k]);
        assert(prev.contains(prev[k]));
        assert(declared.contains(prev[k]));
        assert forall|id: Seq<char>| ids.to_set().contains(id) implies rest.contains(id) by {
            let m = choose|m: int| 0 <= m < ids.len() && ids[m] == id;
            assert(prev.contains(nodes[out[m].1 as int].event_id));
            assert(index.contains_key(nodes[out[m].1 as int].event_id));
        }
        lemma_len_subset(ids.to_set(), rest);
    } else {
        let target = |id: Seq<char>| (a, index[id]);
        assert forall|p: Seq<char>| #[trigger] declared.contains(p) implies index.contains_key(p) && nodes[index[p] as int].event_id
            == p by {
            let k = choose|k: int| 0 <= k < prev.len() && prev[k] == p;
            assert(index.contains_key(prev[k]));
        }
        assert(injective_on(target, declared)) by {
            assert forall|p: Seq<char>, q: Seq<char>|
                declared.contains(p) && declared.contains(q) && #[trigger] target(p) == #[trigger] target(
                    q,
                ) implies p == q by {
                assert(nodes[index[p] as int].event_id == p);
                assert(nodes[index[q] as int].event_id == q);
            }
        }
        let image = declared.map(target);
        lemma_map_size(declared, image, target);
        assert forall|e: (usize, usize)| image.contains(e) implies out.to_set().contains(e) by {
            let p = choose|p: Seq<char>| declared.contains(p) && e == target(p);
            let k = choose|k: int| 0 <= k < prev.len() && prev[k] == p;
            assert(index.contains_key(nodes[e.0 as int].prev_events[k]));
            assert(crate::model::resolves(nodes, index, e));
            assert(edges.contains(e));
            assert(out.contains(e));
        }
        lemma_len_subset(image, out.to_set());
    }
}

/// Where no two events bear the same identifier, the store has an edge
/// from one event to another exactly where the first declares the
/// identifier of the second as a predecessor.
pub proof fn lemma_store_edges(store: RoomEvents, a: usize, b: usize)
    requires
        store.wf(),
        distinct_ids(store.nodes()),
        a < store.nodes().len(),
        b < store.nodes().len(),
    ensures
        store.edges().contains((a, b)) <==> store.nodes()[a as int].prev_events.contains(
            store.nodes()[b as int].event_id,
        ),
{
    let nodes = store.nodes();
    let edges = store.edges();
    lemma_index_bijection(nodes);
    if edges.contains((a, b)) {
        let j = choose|j: int| 0 <= j < edges.len() && edges[j] == (a, b);
        assert(nodes[edges[j].0 as int].prev_events.contains(nodes[edges[j].1 as int].event_id));
    }
    if nodes[a as int].prev_events.contains(nodes[b as int].event_id) {
        let prev = nodes[a as int].prev_events;
        let k = choose|k: int| 0 <= k < prev.len() && prev[k] == nodes[b as int].event_id;
        let e = (a, b);
        assert(store.index().contains_key(nodes[b as int].event_id));
        assert(store.index().contains_key(nodes[e.0 as int].prev_events[k]));
        assert(crate::model::resolves(nodes, store.index(), e));
    }
}

/// Where no two events bear the same identifier, no event found beyond a
/// boundary bears an identifier of the boundary.
pub proof fn lemma_found_is_new(
    nodes: Seq<EventView>,
    from: Seq<Seq<char>>,
    walked: Seq<(usize, usize)>,
    found: Seq<usize>,
    v: usize,
)
    requires
        nodes.len() <= usize::MAX,
        distinct_ids(nodes),
        found_beyond(walked, boundary_of(index_of(nodes), from), found),
        found.contains(v),
        v < nodes.len(),
    ensures
        !from.contains(nodes[v as int].event_id),
{
    lemma_index_bijection(nodes);
    let boundary = boundary_of(index_of(nodes), from);
    if from.contains(nodes[v as int].event_id) {
        let i = choose|i: int| 0 <= i < from.len() && from[i] == nodes[v as int].event_id;
        assert(boundary[i] == v);
        assert(boundary.contains(v));
    }
}

/// What is found beyond a boundary depends on the edges and the boundary
/// alone: two lists of it hold the same nodes, and as many.
pub proof fn lemma_found_determined(
    walked: Seq<(usize, usize)>,
    boundary: Seq<usize>,
    first: Seq<usize>,
    second: Seq<usize>,
)
    requires
        found_beyond(walked, boundary, first),
        found_beyond(walked, boundary, second),
    ensures
        first.to_set() == second.to_set(),
        first.len() == second.len(),
{
    assert(first.to_set() =~= second.to_set());
    first.unique_seq_to_set();
    second.unique_seq_to_set();
}

/// Where no two nodes bear the same identifier, the frontier on a side
/// names no identifier twice.
pub proof fn lemma_frontier_distinct(nodes: Seq<EventView>, edges: Seq<(usize, usize)>, dir: EdgeDirection, k: nat)
    requires
        k <= nodes.len(),
        k <= usize::MAX,
        distinct_ids(nodes),
    ensures
        frontier(nodes, edges, dir, k).no_duplicates(),
    decreases k,
{
    if k > 0 {
        let less = frontier(nodes, edges, dir, (k - 1) as nat);
        lemma_frontier_distinct(nodes, edges, dir, (k - 1) as nat);
        lemma_frontier_members(nodes, edges, dir, (k - 1) as nat);
        if less.contains(nodes[k - 1].event_id) {
            let i = choose|i: int|
                0 <= i < k - 1 && (#[trigger] nodes[i]).event_id == nodes[k - 1].event_id && degree(
                    edges,
                    i as usize,
                    dir,
                ) == 0;
            assert(nodes[i].event_id != nodes[k - 1].event_id);
        }
        lemma_push_contains(less, nodes[k - 1].event_id);
    }
}

/// The identifier index has finitely many keys; where no two nodes bear
/// the same identifier, it has as many keys as there are nodes.
pub proof fn lemma_index_size(nodes: Seq<EventView>)
    requires
        nodes.len() <= usize::MAX,
    ensures
        index_of(nodes).dom().finite(),
        index_of(nodes).dom().len() <= nodes.len(),
        distinct_ids(nodes) ==> index_of(nodes).dom().len() == nodes.len(),
    decreases nodes.len(),
{
    if nodes.len() > 0 {
        let rest = nodes.drop_last();
        let last = nodes.last();
        lemma_index_size(rest);
        lemma_index_newest(rest);
        assert(index_of(nodes).dom() =~= index_of(rest).dom().insert(last.event_id));
        if distinct_ids(nodes) {
            assert forall|i: int, j: int| 0 <= i < rest.len() && 0 <= j < rest.len() && i != j implies (
            #[trigger] rest[i]).event_id != (#[trigger] rest[j]).event_id by {
                assert(rest[i] == nodes[i]);
                assert(rest[j] == nodes[j]);
            }
            if index_of(rest).contains_key(last.event_id) {
                let i = choose|i: int| 0 <= i < rest.len() && (#[trigger] rest[i]).event_id == last.event_id;
                assert(rest[i] == nodes[i]);
                assert(nodes[i].event_id != nodes[nodes.len() - 1].event_id);
            }
        }
    }
}

/// After a batch has been added behind the nodes `before`, the identifier
/// index leads from each identifier that the batch bears to a node of the
/// batch, the newest that bears it, and from every other identifier to
/// where it led before. The older nodes stay in the list.
pub proof fn lemma_index_after_batch(before: Seq<EventView>, batch: Seq<EventView>)
    requires
        before.len() + batch.len() <= usize::MAX,
    ensures
        forall|j: int|
            0 <= j < batch.len() ==> index_of(before + batch).contains_key((#[trigger] batch[j]).event_id)
                && before.len() + j <= index_of(before + batch)[batch[j].event_id] < before.len() + batch.len(),
        forall|id: Seq<char>|
            (forall|j: int| 0 <= j < batch.len() ==> (#[trigger] batch[j]).event_id != id) ==> index_of(
                before + batch,
            ).contains_key(id) == #[trigger] index_of(before).contains_key(id) && (index_of(before).contains_key(id)
                ==> index_of(before + batch)[id] == index_of(before)[id]),
    decreases batch.len(),
{
    let all = before + batch;
    lemma_index_newest(all);
    assert forall|j: int| 0 <= j < batch.len() implies index_of(all).contains_key((#[trigger] batch[j]).event_id)
        && before.len() + j <= index_of(all)[batch[j].event_id] < all.len() by {
        assert(all[before.len() + j] == batch[j]);
    }
    if batch.len() == 0 {
        assert(all =~= before);
    } else {
        let fewer = batch.drop_last();
        lemma_index_after_batch(before, fewer);
        assert(all.drop_last() =~= before + fewer);
        assert forall|id: Seq<char>|
            (forall|j: int| 0 <= j < batch.len() ==> (#[trigger] batch[j]).event_id != id) implies index_of(
            all,
        ).contains_key(id) == #[trigger] index_of(before).contains_key(id) && (index_of(before).contains_key(id)
            ==> index_of(all)[id] == index_of(before)[id]) by {
            assert(batch[batch.len() - 1].event_id != id);
            assert forall|j: int| 0 <= j < fewer.len() implies (#[trigger] fewer[j]).event_id != id by {
                assert(fewer[j] == batch[j]);
            }
        }
    }
}

/// Where no two events of the store bear the same identifier, the lists
/// of latest and of earliest events name no identifier twice, and the
/// identifier index has as many keys as the store has events.
pub proof fn lemma_store_distinct(store: RoomEvents)
    requires
        store.wf(),
        distinct_ids(store.nodes()),
    ensures
        store.latest().no_duplicates(),
        store.earliest().no_duplicates(),
        store.index().dom().finite(),
        store.index().dom().len() == store.nodes().len(),
{
    let n = store.nodes().len();
    lemma_frontier_distinct(store.nodes(), store.edges(), EdgeDirection::Incoming, n);
    lemma_frontier_distinct(store.nodes(), store.edges(), EdgeDirection::Outgoing, n);
    lemma_index_size(store.nodes());
}

} // verus!
