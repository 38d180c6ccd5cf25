//! The events DAG of the room being observed, the indexes that locate its
//! events, and the projections of it into data sets.
use vstd::hash_map::StringHashMap;
use vstd::prelude::*;
use vstd::string::StringExecFns;
use std::collections::HashMap;
use petgraph::Directed;
use petgraph::graph::Graph;
use crate::data_set::DataSet;
use crate::data_set::DataSetEdge;
use crate::data_set::DataSetView;
use crate::event::Event;
use crate::event::EventView;
use crate::event::clone_strings;
use crate::event::distinct_count;
use crate::event::event_views;
use crate::event::node_of;
use crate::event::texts;
use crate::graph::EdgeDirection;
use crate::graph::graph_add_node;
use crate::graph::graph_clone;
use crate::graph::graph_edge_references;
use crate::graph::graph_edges;
use crate::graph::graph_edges_directed;
use crate::graph::graph_new;
use crate::graph::graph_node_indices;
use crate::graph::graph_node_weight;
use crate::graph::graph_nodes;
use crate::graph::graph_reverse;
use crate::graph::graph_update_edge;
use crate::model::boundary_of;
use crate::model::bucket;
use crate::model::buckets_of;
use crate::model::depth_max;
use crate::model::depth_min;
use crate::model::edge_view;
use crate::model::edge_views;
use crate::model::edge_joins;
use crate::model::edges_at;
use crate::model::walked;
use crate::model::edges_complete;
use crate::model::edges_declared;
use crate::model::found_beyond;
use crate::model::frontier;
use crate::model::index_of;
use crate::model::indexed_nodes;
use crate::model::lemma_index_of;
use crate::model::lemma_link_step;
use crate::model::lemma_push_node;
use crate::model::orphans;
use crate::model::projected;
use crate::model::resolves;
use crate::reach::edges_in_range;
use crate::reach::lemma_incident_listing;
use crate::reach::lemma_reversed;
use crate::reach::new_nodes_edges;
use crate::reach::reversed;

verus! {

/// The identifier and the depth of an event with missing ancestors.
#[derive(Debug)]
pub struct OrphanInfo {
    pub id: String,
    pub depth: i64,
}

impl View for OrphanInfo {
    type V = (Seq<char>, i64);

    open spec fn view(&self) -> (Seq<char>, i64) {
        (self.id@, self.depth)
    }
}

impl Clone for OrphanInfo {
    fn clone(&self) -> (r: OrphanInfo)
        ensures
            r@ == self@,
    {
        OrphanInfo { id: self.id.clone(), depth: self.depth }
    }
}

/// The views of a list of orphans.
pub open spec fn orphan_views(v: Seq<OrphanInfo>) -> Seq<(Seq<char>, i64)> {
    Seq::new(v.len(), |i: int| v[i]@)
}

/// What `push` does to the texts of a list of strings.
proof fn lemma_texts_push(v: Seq<String>, s: String)
    ensures
        texts(v.push(s)) == texts(v).push(s@),
{
    assert(texts(v.push(s)) =~= texts(v).push(s@));
}

/// What `push` does to the views of a list of orphans.
proof fn lemma_orphan_views_push(v: Seq<OrphanInfo>, o: OrphanInfo)
    ensures
        orphan_views(v.push(o)) == orphan_views(v).push(o@),
{
    assert(orphan_views(v.push(o)) =~= orphan_views(v).push(o@));
}

/// One room of a sync response: its identifier and the events of its
/// timeline.
#[derive(Debug)]
pub struct JoinedRoom {
    pub room_id: String,
    pub timeline: Vec<Event>,
}

/// The rooms that a sync response holds.
#[derive(Debug)]
pub struct SyncResponse {
    pub joined: Vec<JoinedRoom>,
}

/// `i` is the position of the first room of `joined` whose identifier is
/// `room`.
pub open spec fn room_at(joined: Seq<JoinedRoom>, room: Seq<char>, i: int) -> bool {
    &&& 0 <= i < joined.len()
    &&& joined[i].room_id@ == room
    &&& forall|j: int| 0 <= j < i ==> (#[trigger] joined[j]).room_id@ != room
}

/// The internal representation of the events DAG of the room being
/// observed, with the maps that locate the events in it.
pub struct RoomEvents {
    room_id: String,
    server_name: String,
    fields: Vec<String>,
    dag: Graph<Event, (), Directed, usize>,
    events_map: StringHashMap<usize>,
    depth_map: HashMap<i64, Vec<usize>>,
    /// The identifiers of the events that no known event declares as a
    /// predecessor.
    pub latest_events: Vec<String>,
    /// The identifiers of the events none of whose declared predecessors is
    /// known.
    pub earliest_events: Vec<String>,
    /// Identifier and depth of the events with missing ancestors.
    pub orphan_events: Vec<OrphanInfo>,
    max_depth: i64,
    min_depth: i64,
}

impl RoomEvents {
    /// The events of the DAG, in the order in which they were added: the
    /// position of an event is its node index.
    pub closed spec fn nodes(&self) -> Seq<EventView> {
        event_views(graph_nodes(self.dag))
    }

    /// The edges of the DAG, each from an event to one of its predecessors,
    /// in the order in which they were added.
    pub closed spec fn edges(&self) -> Seq<(usize, usize)> {
        graph_edges(self.dag)
    }

    /// The map from identifiers to node indices.
    pub closed spec fn index(&self) -> Map<Seq<char>, usize> {
        self.events_map@
    }

    /// The map from depths to the nodes at each depth.
    pub closed spec fn buckets(&self) -> Map<i64, Seq<usize>> {
        Map::new(|d: i64| self.depth_map@.contains_key(d), |d: i64| self.depth_map@[d]@)
    }

    /// The maximal and the minimal depth that the store keeps.
    pub closed spec fn depth_bounds(&self) -> (i64, i64) {
        (self.max_depth, self.min_depth)
    }

    /// The identifier of the room.
    pub closed spec fn room(&self) -> Seq<char> {
        self.room_id@
    }

    /// The name of the server from which the DAG is observed.
    pub closed spec fn server(&self) -> Seq<char> {
        self.server_name@
    }

    /// The names of the fields that labels are made of.
    pub closed spec fn chosen(&self) -> Seq<Seq<char>> {
        texts(self.fields@)
    }

    /// The identifiers in `latest_events`.
    pub closed spec fn latest(&self) -> Seq<Seq<char>> {
        texts(self.latest_events@)
    }

    /// The identifiers in `earliest_events`.
    pub closed spec fn earliest(&self) -> Seq<Seq<char>> {
        texts(self.earliest_events@)
    }

    /// Identifier and depth of each entry of `orphan_events`.
    pub closed spec fn orphaned(&self) -> Seq<(Seq<char>, i64)> {
        orphan_views(self.orphan_events@)
    }

    /// The indexes and bounds fit the nodes, and the edges are sound: none
    /// twice, each between two nodes, each declared by its source.
    pub open spec fn stored_ok(&self) -> bool {
        &&& self.nodes().len() <= usize::MAX
        &&& self.index() == index_of(self.nodes())
        &&& self.buckets() == buckets_of(self.nodes())
        &&& self.depth_bounds() == (depth_max(self.nodes()), depth_min(self.nodes()))
        &&& self.edges().no_duplicates()
        &&& edges_in_range(self.edges(), self.nodes().len())
        &&& edges_declared(self.nodes(), self.edges())
    }

    /// The three lists of frontier and orphan events fit the edges.
    pub open spec fn frontier_ok(&self) -> bool {
        &&& self.latest() == frontier(
            self.nodes(),
            self.edges(),
            EdgeDirection::Incoming,
            self.nodes().len(),
        )
        &&& self.earliest() == frontier(
            self.nodes(),
            self.edges(),
            EdgeDirection::Outgoing,
            self.nodes().len(),
        )
        &&& self.orphaned() == orphans(self.nodes(), self.edges(), self.nodes().len())
    }

    /// The invariant of the store between two calls: indexes, bounds and
    /// edges fit the nodes, every declared predecessor that is known has
    /// its edge, and the frontier and orphan lists fit the edges.
    pub open spec fn wf(&self) -> bool {
        &&& self.stored_ok()
        &&& edges_complete(self.nodes(), self.index(), self.edges())
        &&& self.frontier_ok()
    }

    /// An empty store for room `room_id` as seen from `server_name`, with
    /// labels made of `fields`.
    fn empty(room_id: &str, server_name: &str, fields: &Vec<String>) -> (store: RoomEvents)
        ensures
            store.stored_ok(),
            store.nodes() == Seq::<EventView>::empty(),
            store.edges() == Seq::<(usize, usize)>::empty(),
            store.room() == room_id@,
            store.server() == server_name@,
            store.chosen() == texts(fields@),
    {
        let store = RoomEvents {
            room_id: room_id.to_owned(),
            server_name: server_name.to_owned(),
            fields: clone_strings(fields),
            dag: graph_new(),
            events_map: StringHashMap::new(),
            depth_map: HashMap::new(),
            latest_events: Vec::new(),
            earliest_events: Vec::new(),
            orphan_events: Vec::new(),
            max_depth: -1,
            min_depth: -1,
        };
        proof {
            assert(store.nodes() =~= Seq::<EventView>::empty());
            assert(store.buckets() =~= buckets_of(store.nodes()));
        }
        store
    }

    /// Adds each of `events` as a node of the DAG, and enters it in the
    /// identifier index, in the depth index and in the depth bounds.
    fn add_event_nodes(&mut self, events: &Vec<Event>)
        requires
            old(self).stored_ok(),
        ensures
            final(self).stored_ok(),
            final(self).nodes() == old(self).nodes() + event_views(events@),
            final(self).edges() == old(self).edges(),
            final(self).room() == old(self).room(),
            final(self).server() == old(self).server(),
            final(self).chosen() == old(self).chosen(),
            final(self).latest_events == old(self).latest_events,
            final(self).earliest_events == old(self).earliest_events,
            final(self).orphan_events == old(self).orphan_events,
    {
        broadcast use vstd::std_specs::hash::group_hash_axioms;

        let mut i: usize = 0;
        assert(old(self).nodes() + event_views(events@).take(0) =~= old(self).nodes());
        while i < events.len()
            invariant
                i <= events@.len(),
                self.stored_ok(),
                self.nodes() == old(self).nodes() + event_views(events@).take(i as int),
                self.edges() == old(self).edges(),
                self.room_id == old(self).room_id,
                self.server_name == old(self).server_name,
                self.fields == old(self).fields,
                self.latest_events == old(self).latest_events,
                self.earliest_events == old(self).earliest_events,
                self.orphan_events == old(self).orphan_events,
            decreases events@.len() - i,
        {
            let event = events[i].clone();
            let id = event.event_id.clone();
            let depth = event.depth;
            let ghost before = self.nodes();
            let ghost old_map = self.depth_map@;
            proof {
                lemma_push_node(before, event@);
                assert(self.buckets().contains_key(depth) == buckets_of(before).contains_key(depth));
                if old_map.contains_key(depth) {
                    assert(self.buckets()[depth] == buckets_of(before)[depth]);
                }
                assert forall|d: i64| #[trigger] old_map.contains_key(d) <==> bucket(before, d).len() > 0 by {
                    assert(self.buckets().contains_key(d) == buckets_of(before).contains_key(d));
                }
                assert forall|d: i64| #[trigger] old_map.contains_key(d) implies old_map[d]@ == bucket(before, d) by {
                    assert(self.buckets().contains_key(d));
                    assert(self.buckets()[d] == buckets_of(before)[d]);
                }
            }
            let index = graph_add_node(&mut self.dag, event);
            assert(self.nodes() =~= before.push(events@[i as int]@));
            self.events_map.insert(id, index);
            match self.depth_map.remove(&depth) {
                None => {
                    let mut v: Vec<usize> = Vec::new();
                    v.push(index);
                    assert(!old_map.contains_key(depth));
                    assert(bucket(before, depth) =~= Seq::<usize>::empty());
                    assert(v@ =~= bucket(before, depth).push(index));
                    self.depth_map.insert(depth, v);
                },
                Some(found) => {
                    assert(old_map.contains_key(depth) && old_map[depth] == found);
                    let mut v = found;
                    v.push(index);
                    assert(v@ =~= bucket(before, depth).push(index));
                    self.depth_map.insert(depth, v);
                },
            }
            if self.max_depth == -1 || depth > self.max_depth {
                self.max_depth = depth;
            }
            if self.min_depth == -1 || depth < self.min_depth {
                self.min_depth = depth;
            }
            proof {
                let now = self.depth_map@;
                let after = before.push(events@[i as int]@);
                assert(self.nodes() == after);
                assert forall|d: i64| #[trigger] now.contains_key(d) <==> bucket(self.nodes(), d).len() > 0 by {
                    if d != depth {
                        assert(now.contains_key(d) == old_map.contains_key(d));
                        assert(bucket(after, d) == bucket(before, d));
                    } else {
                        assert(now.contains_key(d));
                        assert(bucket(after, d) == bucket(before, d).push(index));
                    }
                }
                assert forall|d: i64| #[trigger] now.contains_key(d) implies now[d]@ == bucket(self.nodes(), d) by {
                    if d != depth {
                        assert(old_map.contains_key(d));
                        assert(now[d] == old_map[d]);
                    }
                }
                assert(self.buckets() =~= buckets_of(self.nodes()));
                assert(event_views(events@).take(i + 1) =~= event_views(events@).take(i as int).push(
                    events@[i as int]@,
                ));
                assert(self.nodes() =~= old(self).nodes() + event_views(events@).take(i + 1));
            }
            i += 1;
        }
        assert(event_views(events@).take(i as int) =~= event_views(events@));
    }

    /// The nodes that the identifier index gives for the predecessors that
    /// node `src` declares, in the order in which it declares them.
    fn resolved_targets(&self, src: usize) -> (targets: Vec<usize>)
        requires
            src < self.nodes().len(),
            self.nodes().len() <= usize::MAX,
            self.index() == index_of(self.nodes()),
        ensures
            forall|dst: usize| #[trigger] targets@.contains(dst) <==> resolves(self.nodes(), self.index(), (src, dst)),
            forall|k: int| 0 <= k < targets@.len() ==> targets@[k] < self.nodes().len(),
    {
        let node = graph_node_weight(&self.dag, src).unwrap();
        let prev = node.get_prev_events();
        let ghost declared = self.nodes()[src as int].prev_events;
        assert(declared == texts(prev@));
        let mut targets: Vec<usize> = Vec::new();
        let mut k: usize = 0;
        proof {
            lemma_index_of(self.nodes());
        }
        while k < prev.len()
            invariant
                k <= prev@.len(),
                src < self.nodes().len(),
                declared == texts(prev@),
                declared == self.nodes()[src as int].prev_events,
                forall|id: Seq<char>| #[trigger]
                    self.index().contains_key(id) ==> self.index()[id] < self.nodes().len(),
                forall|dst: usize| #[trigger]
                    targets@.contains(dst) <==> exists|j: int|
                        0 <= j < k && self.index().contains_key(#[trigger] declared[j]) && self.index()[declared[j]]
                            == dst,
                forall|j: int| 0 <= j < targets@.len() ==> targets@[j] < self.nodes().len(),
            decreases prev@.len() - k,
        {
            let ghost before = targets@;
            match self.events_map.get(prev[k].as_str()) {
                Some(found) => {
                    let dst = *found;
                    targets.push(dst);
                    proof {
                        assert(declared[k as int] == prev@[k as int]@);
                        assert forall|d: usize| #[trigger] targets@.contains(d) <==> exists|j: int|
                            0 <= j < k + 1 && self.index().contains_key(#[trigger] declared[j]) && self.index()[declared[j]]
                                == d by {
                            if targets@.contains(d) {
                                let m = choose|m: int| 0 <= m < targets@.len() && targets@[m] == d;
                                if m < before.len() {
                                    assert(before[m] == d);
                                    assert(before.contains(d));
                                } else {
                                    assert(self.index().contains_key(declared[k as int]));
                                }
                            }
                            if exists|j: int|
                                0 <= j < k + 1 && self.index().contains_key(#[trigger] declared[j])
                                    && self.index()[declared[j]] == d {
                                let j = choose|j: int|
                                    0 <= j < k + 1 && self.index().contains_key(#[trigger] declared[j])
                                        && self.index()[declared[j]] == d;
                                if j < k {
                                    assert(before.contains(d));
                                    let m = choose|m: int| 0 <= m < before.len() && before[m] == d;
                                    assert(targets@[m] == d);
                                } else {
                                    assert(targets@[before.len() as int] == d);
                                }
                            }
                        }
                    }
                },
                None => {
                    proof {
                        assert(declared[k as int] == prev@[k as int]@);
                        assert(!self.index().contains_key(declared[k as int]));
                    }
                },
            }
            k += 1;
        }
        proof {
            let nodes = self.nodes();
            let index = self.index();
            assert(declared.len() == k);
            assert forall|dst: usize| #[trigger] targets@.contains(dst) implies resolves(nodes, index, (src, dst)) by {
                let j = choose|j: int|
                    0 <= j < k && index.contains_key(#[trigger] declared[j]) && index[declared[j]] == dst;
                let e = (src, dst);
                assert(0 <= j < nodes[e.0 as int].prev_events.len() && index.contains_key(
                    nodes[e.0 as int].prev_events[j],
                ) && index[nodes[e.0 as int].prev_events[j]] == e.1);
            }
            assert forall|dst: usize| resolves(nodes, index, (src, dst)) implies #[trigger] targets@.contains(dst) by {
                let e = (src, dst);
                let j = choose|j: int|
                    0 <= j < nodes[e.0 as int].prev_events.len() && index.contains_key(
                        #[trigger] nodes[e.0 as int].prev_events[j],
                    ) && index[nodes[e.0 as int].prev_events[j]] == e.1;
                assert(0 <= j < k && index.contains_key(declared[j]) && index[declared[j]] == dst);
            }
        }
        targets
    }

    /// Every declared predecessor that the index knows has its edge.
    pub open spec fn linked(&self) -> bool {
        edges_complete(self.nodes(), self.index(), self.edges())
    }

    /// Makes sure that each node has an edge to every node that the index
    /// gives for one of the predecessors it declares.
    fn link_events(&mut self)
        requires
            old(self).stored_ok(),
        ensures
            final(self).stored_ok(),
            final(self).linked(),
            final(self).nodes() == old(self).nodes(),
            final(self).room() == old(self).room(),
            final(self).server() == old(self).server(),
            final(self).chosen() == old(self).chosen(),
            old(self).edges().is_prefix_of(final(self).edges()),
            forall|e: (usize, usize)| #[trigger]
                final(self).edges().contains(e) <==> old(self).edges().contains(e) || resolves(
                    old(self).nodes(),
                    old(self).index(),
                    e,
                ),
            old(self).linked() ==> final(self).edges() == old(self).edges(),
    {
        let ghost nodes = self.nodes();
        let ghost index = self.index();
        let ghost first = self.edges();
        let indices = graph_node_indices(&self.dag);
        let mut s: usize = 0;
        assert(first =~= first.subrange(0, first.len() as int));
        while s < indices.len()
            invariant
                s <= indices@.len(),
                indices@.len() == nodes.len(),
                forall|i: int| 0 <= i < indices@.len() ==> indices@[i] == i,
                self.stored_ok(),
                self.nodes() == nodes,
                self.index() == index,
                nodes == old(self).nodes(),
                index == old(self).index(),
                first == old(self).edges(),
                self.room_id == old(self).room_id,
                self.server_name == old(self).server_name,
                self.fields == old(self).fields,
                first.is_prefix_of(self.edges()),
                forall|e: (usize, usize)| #[trigger]
                    self.edges().contains(e) <==> first.contains(e) || (e.0 < s && resolves(nodes, index, e)),
                edges_complete(nodes, index, first) ==> self.edges() == first,
            decreases indices@.len() - s,
        {
            let src = indices[s];
            let targets = self.resolved_targets(src);
            let ghost start = self.edges();
            let mut t: usize = 0;
            while t < targets.len()
                invariant
                    t <= targets@.len(),
                    src == s,
                    src < nodes.len(),
                    forall|dst: usize| #[trigger] targets@.contains(dst) <==> resolves(nodes, index, (src, dst)),
                    self.stored_ok(),
                    self.nodes() == nodes,
                    self.index() == index,
                    self.room_id == old(self).room_id,
                    self.server_name == old(self).server_name,
                    self.fields == old(self).fields,
                    first.is_prefix_of(self.edges()),
                    forall|e: (usize, usize)| #[trigger]
                        self.edges().contains(e) <==> start.contains(e) || (e.0 == src && targets@.take(
                            t as int,
                        ).contains(e.1)),
                    edges_complete(nodes, index, first) ==> start == first,
                    edges_complete(nodes, index, first) ==> self.edges() == first,
                decreases targets@.len() - t,
            {
                let dst = targets[t];
                let ghost before = self.edges();
                proof {
                    assert(targets@.contains(dst));
                    lemma_index_of(nodes);
                    let e = (src, dst);
                    let k = choose|k: int|
                        0 <= k < nodes[e.0 as int].prev_events.len() && index.contains_key(
                            #[trigger] nodes[e.0 as int].prev_events[k],
                        ) && index[nodes[e.0 as int].prev_events[k]] == e.1;
                    assert(dst < nodes.len());
                }
                graph_update_edge(&mut self.dag, src, dst);
                proof {
                    lemma_link_step(nodes, first, before, self.edges(), src, dst);
                    let done = targets@.take(t as int);
                    let more = targets@.take(t + 1);
                    assert(more =~= done.push(dst));
                    assert forall|e: (usize, usize)| #[trigger]
                        self.edges().contains(e) <==> start.contains(e) || (e.0 == src && more.contains(e.1)) by {
                        if done.contains(e.1) {
                            let i = choose|i: int| 0 <= i < done.len() && done[i] == e.1;
                            assert(more[i] == e.1);
                        }
                        if more.contains(e.1) {
                            let i = choose|i: int| 0 <= i < more.len() && more[i] == e.1;
                            if i < done.len() {
                                assert(done[i] == e.1);
                            }
                        }
                        assert(more[t as int] == dst);
                    }
                    assert(self.nodes() == nodes);
                }
                t += 1;
            }
            proof {
                assert(targets@.take(t as int) =~= targets@);
                assert forall|e: (usize, usize)| #[trigger]
                    self.edges().contains(e) <==> first.contains(e) || (e.0 < s + 1 && resolves(nodes, index, e)) by {
                    if e.0 == src {
                        assert(targets@.contains(e.1) <==> resolves(nodes, index, (src, e.1)));
                        assert(e == (src, e.1));
                    }
                }
            }
            s += 1;
        }
    }

    /// Builds the lists of latest, earliest and orphan events anew from the
    /// edges on each side of every node.
    fn scan_frontier(&mut self)
        requires
            old(self).stored_ok(),
        ensures
            final(self).stored_ok(),
            final(self).frontier_ok(),
            final(self).nodes() == old(self).nodes(),
            final(self).edges() == old(self).edges(),
            final(self).room() == old(self).room(),
            final(self).server() == old(self).server(),
            final(self).chosen() == old(self).chosen(),
    {
        self.latest_events = Vec::new();
        self.earliest_events = Vec::new();
        self.orphan_events = Vec::new();
        let ghost nodes = self.nodes();
        let ghost edges = self.edges();
        let indices = graph_node_indices(&self.dag);
        let mut i: usize = 0;
        assert(self.latest() =~= Seq::<Seq<char>>::empty());
        assert(self.earliest() =~= Seq::<Seq<char>>::empty());
        assert(self.orphaned() =~= Seq::<(Seq<char>, i64)>::empty());
        while i < indices.len()
            invariant
                i <= indices@.len(),
                indices@.len() == nodes.len(),
                forall|k: int| 0 <= k < indices@.len() ==> indices@[k] == k,
                self.stored_ok(),
                self.nodes() == nodes,
                self.edges() == edges,
                self.room_id == old(self).room_id,
                self.server_name == old(self).server_name,
                self.fields == old(self).fields,
                self.latest() == frontier(nodes, edges, EdgeDirection::Incoming, i as nat),
                self.earliest() == frontier(nodes, edges, EdgeDirection::Outgoing, i as nat),
                self.orphaned() == orphans(nodes, edges, i as nat),
            decreases indices@.len() - i,
        {
            let idx = indices[i];
            let outgoing = graph_edges_directed(&self.dag, idx, EdgeDirection::Outgoing);
            let incoming = graph_edges_directed(&self.dag, idx, EdgeDirection::Incoming);
            let node = graph_node_weight(&self.dag, idx).unwrap();
            proof {
                lemma_incident_listing(outgoing@, edges, idx, EdgeDirection::Outgoing);
                lemma_incident_listing(incoming@, edges, idx, EdgeDirection::Incoming);
                assert(node@ == nodes[i as int]);
            }
            if outgoing.len() == 0 {
                proof {
                    lemma_texts_push(self.earliest_events@, node.event_id);
                }
                self.earliest_events.push(node.event_id.clone());
            }
            if incoming.len() == 0 {
                proof {
                    lemma_texts_push(self.latest_events@, node.event_id);
                }
                self.latest_events.push(node.event_id.clone());
            }
            if outgoing.len() < distinct_count(node.get_prev_events()) {
                let info = OrphanInfo { id: node.event_id.clone(), depth: node.depth };
                proof {
                    lemma_orphan_views_push(self.orphan_events@, info);
                }
                self.orphan_events.push(info);
            }
            i += 1;
        }
    }

    /// Recomputes the edges of every node of the DAG against the events
    /// that are known now, then the latest, earliest and orphan events.
    /// Edges are only added, each once: where every known predecessor
    /// already has its edge, the edges stay as they are.
    pub fn update_event_edges(&mut self)
        requires
            old(self).stored_ok(),
        ensures
            final(self).wf(),
            final(self).nodes() == old(self).nodes(),
            final(self).room() == old(self).room(),
            final(self).server() == old(self).server(),
            final(self).chosen() == old(self).chosen(),
            old(self).edges().is_prefix_of(final(self).edges()),
            forall|e: (usize, usize)| #[trigger]
                final(self).edges().contains(e) <==> old(self).edges().contains(e) || resolves(
                    final(self).nodes(),
                    final(self).index(),
                    e,
                ),
            old(self).linked() ==> final(self).edges() == old(self).edges(),
    {
        self.link_events();
        self.scan_frontier();
    }

    /// The store for room `room_id` as seen from `server_name`, with labels
    /// made of `fields`, that holds `events`.
    fn build(room_id: &str, server_name: &str, fields: &Vec<String>, events: &Vec<Event>) -> (store: RoomEvents)
        ensures
            store.built(room_id@, server_name@, texts(fields@), event_views(events@)),
    {
        let mut store = RoomEvents::empty(room_id, server_name, fields);
        store.add_event_nodes(events);
        assert(store.nodes() =~= event_views(events@));
        store.update_event_edges();
        store
    }

    /// The store is the one that is built from `events` alone for `room`,
    /// seen from `server`, with labels made of `chosen`: its nodes are
    /// `events`, and its edges are those that the identifier index gives
    /// for the declared predecessors.
    pub open spec fn built(
        &self,
        room: Seq<char>,
        server: Seq<char>,
        chosen: Seq<Seq<char>>,
        events: Seq<EventView>,
    ) -> bool {
        &&& self.wf()
        &&& self.nodes() == events
        &&& self.room() == room
        &&& self.server() == server
        &&& self.chosen() == chosen
        &&& forall|e: (usize, usize)| #[trigger]
            self.edges().contains(e) <==> resolves(self.nodes(), self.index(), e)
    }

    /// Creates the events DAG of room `room_id` from the timeline that the
    /// sync response `res` holds for that room. Where `res` holds no such
    /// room there is no DAG.
    pub fn from_sync_response(room_id: &str, server_name: &str, fields: &Vec<String>, res: SyncResponse) -> (r:
        Option<RoomEvents>)
        ensures
            r is None <==> forall|i: int| 0 <= i < res.joined@.len() ==> (#[trigger] res.joined@[i]).room_id@ != room_id@,
            forall|i: int| #[trigger]
                room_at(res.joined@, room_id@, i) ==> r is Some && r->0.built(
                    room_id@,
                    server_name@,
                    texts(fields@),
                    event_views(res.joined@[i].timeline@),
                ),
    {
        let wanted = room_id.to_owned();
        let mut i: usize = 0;
        while i < res.joined.len()
            invariant
                i <= res.joined@.len(),
                wanted@ == room_id@,
                forall|j: int| 0 <= j < i ==> (#[trigger] res.joined@[j]).room_id@ != room_id@,
            decreases res.joined@.len() - i,
        {
            if res.joined[i].room_id == wanted {
                let store = RoomEvents::build(room_id, server_name, fields, &res.joined[i].timeline);
                assert(room_at(res.joined@, room_id@, i as int));
                return Some(store);
            }
            i += 1;
        }
        None
    }

    /// Creates the events DAG of room `room_id` from its deepest events.
    pub fn from_deepest_events(room_id: &str, server_name: &str, fields: &Vec<String>, events: Vec<Event>) -> (store:
        RoomEvents)
        ensures
            store.built(room_id@, server_name@, texts(fields@), event_views(events@)),
    {
        RoomEvents::build(room_id, server_name, fields, &events)
    }

    /// Adds `events` to the DAG: each becomes a new node, whatever its
    /// identifier, and the identifier index then leads to the newest node
    /// of each identifier. The edges of all nodes are then recomputed.
    pub fn add_events(&mut self, events: Vec<Event>)
        requires
            old(self).stored_ok(),
        ensures
            final(self).wf(),
            final(self).nodes() == old(self).nodes() + event_views(events@),
            final(self).room() == old(self).room(),
            final(self).server() == old(self).server(),
            final(self).chosen() == old(self).chosen(),
            old(self).edges().is_prefix_of(final(self).edges()),
            forall|e: (usize, usize)| #[trigger]
                final(self).edges().contains(e) <==> old(self).edges().contains(e) || resolves(
                    final(self).nodes(),
                    final(self).index(),
                    e,
                ),
            events@.len() == 0 && old(self).linked() ==> final(self).edges() == old(self).edges(),
    {
        self.add_event_nodes(&events);
        proof {
            if events@.len() == 0 {
                assert(self.nodes() =~= old(self).nodes());
            }
        }
        self.update_event_edges();
    }

    /// The identifiers of the latest events: those that no known event
    /// declares as a predecessor.
    pub fn latest_events(&self) -> (r: &Vec<String>)
        ensures
            texts(r@) == self.latest(),
    {
        &self.latest_events
    }

    /// The identifiers of the earliest events: those none of whose declared
    /// predecessors is known.
    pub fn earliest_events(&self) -> (r: &Vec<String>)
        ensures
            texts(r@) == self.earliest(),
    {
        &self.earliest_events
    }

    /// Identifier and depth of the events with missing ancestors.
    pub fn orphan_events(&self) -> (r: &Vec<OrphanInfo>)
        ensures
            orphan_views(r@) == self.orphaned(),
    {
        &self.orphan_events
    }

    /// The maximal depth of the events of the DAG, -1 where it has none.
    pub fn max_depth(&self) -> (d: i64)
        ensures
            d == self.depth_bounds().0,
    {
        self.max_depth
    }

    /// The minimal depth of the events of the DAG, -1 where it has none.
    pub fn min_depth(&self) -> (d: i64)
        ensures
            d == self.depth_bounds().1,
    {
        self.min_depth
    }

    /// Gets an event from its identifier: the newest event that bears it.
    pub fn get_event(&self, id: &str) -> (r: Option<&Event>)
        requires
            self.stored_ok(),
        ensures
            r is Some <==> self.index().contains_key(id@),
            r is Some ==> r->0@ == self.nodes()[self.index()[id@] as int] && r->0@.event_id == id@,
    {
        proof {
            lemma_index_of(self.nodes());
        }
        match self.events_map.get(id) {
            Some(idx) => graph_node_weight(&self.dag, *idx),
            None => None,
        }
    }

    /// Changes the fields of the events which labels are made of. The DAG
    /// stays as it is.
    pub fn change_fields(&mut self, fields: &Vec<String>)
        ensures
            final(self).chosen() == texts(fields@),
            final(self).nodes() == old(self).nodes(),
            final(self).edges() == old(self).edges(),
            final(self).index() == old(self).index(),
            final(self).buckets() == old(self).buckets(),
            final(self).depth_bounds() == old(self).depth_bounds(),
            final(self).room() == old(self).room(),
            final(self).server() == old(self).server(),
            final(self).latest() == old(self).latest(),
            final(self).earliest() == old(self).earliest(),
            final(self).orphaned() == old(self).orphaned(),
    {
        self.fields = clone_strings(fields);
    }

    /// The data set edge of the edge from node `src` to node `dst`, where
    /// the DAG has both nodes.
    fn to_data_set_edge(&self, src: usize, dst: usize) -> (r: Option<DataSetEdge>)
        ensures
            r is Some <==> src < self.nodes().len() && dst < self.nodes().len(),
            r is Some ==> r->0@ == edge_view(self.nodes(), (src, dst)),
    {
        let from = match graph_node_weight(&self.dag, src) {
            Some(node) => node.event_id.clone(),
            None => {
                return None;
            },
        };
        let to = match graph_node_weight(&self.dag, dst) {
            Some(node) => node.event_id.clone(),
            None => {
                return None;
            },
        };
        Some(DataSetEdge { id: from.clone().concat(to.as_str()), from, to })
    }

    /// Creates the data set of the whole DAG: a node for each event that
    /// the identifier index leads to, in the order of the events, and an
    /// edge for each edge of the DAG, in the order of the edges.
    pub fn create_data_set(&self) -> (ds: DataSet)
        requires
            self.stored_ok(),
        ensures
            ds@.nodes == indexed_nodes(self.nodes(), self.index(), self.server(), self.chosen(), self.nodes().len()),
            ds@.edges == edge_views(self.nodes(), self.edges()),
    {
        let mut ds = DataSet::new();
        let indices = graph_node_indices(&self.dag);
        let mut i: usize = 0;
        assert(ds.edges@.len() == ds@.edges.len());
        while i < indices.len()
            invariant
                i <= indices@.len(),
                indices@.len() == self.nodes().len(),
                forall|k: int| 0 <= k < indices@.len() ==> indices@[k] == k,
                ds.edges@.len() == 0,
                ds@.nodes == indexed_nodes(self.nodes(), self.index(), self.server(), self.chosen(), i as nat),
            decreases indices@.len() - i,
        {
            let idx = indices[i];
            let node = graph_node_weight(&self.dag, idx).unwrap();
            let ghost before = ds@.nodes;
            let indexed = match self.events_map.get(node.event_id.as_str()) {
                Some(found) => *found == idx,
                None => false,
            };
            if indexed {
                let projected = node.to_data_set_node(self.server_name.as_str(), &self.fields);
                ds.nodes.push(projected);
                assert(ds@.nodes =~= before.push(node_of(self.nodes()[i as int], self.server(), self.chosen())));
            }
            i += 1;
        }
        let edges = graph_edge_references(&self.dag);
        let ghost nodes_done = ds@.nodes;
        let mut k: usize = 0;
        assert(ds@.edges =~= edge_views(self.nodes(), edges@.take(0)));
        while k < edges.len()
            invariant
                k <= edges@.len(),
                edges@ == self.edges(),
                edges_in_range(self.edges(), self.nodes().len()),
                ds@.nodes == nodes_done,
                ds@.edges == edge_views(self.nodes(), edges@.take(k as int)),
            decreases edges@.len() - k,
        {
            let (src, dst) = edges[k];
            let ghost before = ds@.edges;
            let edge = self.to_data_set_edge(src, dst).unwrap();
            ds.edges.push(edge);
            proof {
                assert(ds@.nodes =~= nodes_done);
                assert(ds@.edges =~= before.push(edge_view(self.nodes(), (src, dst))));
                assert(edges@.take(k + 1) =~= edges@.take(k as int).push((src, dst)));
                assert(ds@.edges =~= edge_views(self.nodes(), edges@.take(k + 1)));
            }
            k += 1;
        }
        assert(edges@.take(k as int) =~= edges@);
        ds
    }

    /// The data set `after` is `before` grown from `boundary` by a walk on
    /// the `dir` side of the nodes: behind the nodes and edges of `before`
    /// it has, for some list `found` of the nodes beyond `boundary`, the
    /// nodes of `found` in their order, and for some list `picked` of the
    /// edges of the DAG that come with them, the edges of `picked` in their
    /// order.
    pub open spec fn grown(
        &self,
        before: DataSetView,
        after: DataSetView,
        boundary: Seq<usize>,
        dir: EdgeDirection,
    ) -> bool {
        exists|found: Seq<usize>, picked: Seq<(usize, usize)>|
            #![trigger edges_at(self.edges(), boundary, found, dir, picked)]
            {
                &&& found_beyond(walked(self.edges(), dir), boundary, found)
                &&& edges_at(self.edges(), boundary, found, dir, picked)
                &&& after.nodes == before.nodes + projected(self.nodes(), self.server(), self.chosen(), found)
                &&& after.edges == before.edges + edge_views(self.nodes(), picked)
            }
    }

    /// The nodes that the identifier index gives for the identifiers
    /// `from`.
    fn boundary_indices(&self, from: &Vec<String>) -> (r: Vec<usize>)
        requires
            self.stored_ok(),
            forall|i: int| 0 <= i < from@.len() ==> self.index().contains_key(#[trigger] from@[i]@),
        ensures
            r@ == boundary_of(self.index(), texts(from@)),
            forall|i: int| 0 <= i < r@.len() ==> r@[i] < self.nodes().len(),
    {
        proof {
            lemma_index_of(self.nodes());
        }
        let mut r: Vec<usize> = Vec::new();
        let mut i: usize = 0;
        while i < from.len()
            invariant
                i <= from@.len(),
                r@.len() == i,
                forall|j: int| 0 <= j < from@.len() ==> self.index().contains_key(#[trigger] from@[j]@),
                forall|id: Seq<char>| #[trigger]
                    self.index().contains_key(id) ==> self.index()[id] < self.nodes().len(),
                forall|j: int| 0 <= j < i ==> r@[j] == self.index()[from@[j]@],
                forall|j: int| 0 <= j < i ==> r@[j] < self.nodes().len(),
            decreases from@.len() - i,
        {
            assert(self.index().contains_key(from@[i as int]@));
            let idx = *self.events_map.get(from[i].as_str()).unwrap();
            r.push(idx);
            i += 1;
        }
        assert(r@ =~= boundary_of(self.index(), texts(from@)));
        r
    }

    /// Appends to `data_set` the data set nodes of the nodes `found` and
    /// the data set edges of the edges `picked`.
    fn append(&self, data_set: &mut DataSet, found: &Vec<usize>, picked: &Vec<(usize, usize)>)
        requires
            forall|i: int| 0 <= i < found@.len() ==> found@[i] < self.nodes().len(),
            edges_in_range(picked@, self.nodes().len()),
        ensures
            final(data_set)@.nodes == old(data_set)@.nodes + projected(
                self.nodes(),
                self.server(),
                self.chosen(),
                found@,
            ),
            final(data_set)@.edges == old(data_set)@.edges + edge_views(self.nodes(), picked@),
    {
        let mut i: usize = 0;
        assert(data_set@.nodes =~= old(data_set)@.nodes + projected(
            self.nodes(),
            self.server(),
            self.chosen(),
            found@.take(0),
        ));
        while i < found.len()
            invariant
                i <= found@.len(),
                forall|j: int| 0 <= j < found@.len() ==> found@[j] < self.nodes().len(),
                data_set@.edges == old(data_set)@.edges,
                data_set@.nodes == old(data_set)@.nodes + projected(
                    self.nodes(),
                    self.server(),
                    self.chosen(),
                    found@.take(i as int),
                ),
            decreases found@.len() - i,
        {
            let ghost before = data_set@;
            let node = graph_node_weight(&self.dag, found[i]).unwrap();
            let projected_node = node.to_data_set_node(self.server_name.as_str(), &self.fields);
            data_set.nodes.push(projected_node);
            proof {
                assert(data_set@.edges =~= before.edges);
                assert(data_set@.nodes =~= before.nodes.push(
                    node_of(self.nodes()[found@[i as int] as int], self.server(), self.chosen()),
                ));
                assert(found@.take(i + 1) =~= found@.take(i as int).push(found@[i as int]));
                assert(data_set@.nodes =~= old(data_set)@.nodes + projected(
                    self.nodes(),
                    self.server(),
                    self.chosen(),
                    found@.take(i + 1),
                ));
            }
            i += 1;
        }
        assert(found@.take(i as int) =~= found@);
        let ghost nodes_done = data_set@.nodes;
        let mut k: usize = 0;
        assert(data_set@.edges =~= old(data_set)@.edges + edge_views(self.nodes(), picked@.take(0)));
        while k < picked.len()
            invariant
                k <= picked@.len(),
                edges_in_range(picked@, self.nodes().len()),
                data_set@.nodes == nodes_done,
                data_set@.edges == old(data_set)@.edges + edge_views(self.nodes(), picked@.take(k as int)),
            decreases picked@.len() - k,
        {
            let ghost before = data_set@;
            let (src, dst) = picked[k];
            let edge = self.to_data_set_edge(src, dst).unwrap();
            data_set.edges.push(edge);
            proof {
                assert(data_set@.nodes =~= before.nodes);
                assert(data_set@.edges =~= before.edges.push(edge_view(self.nodes(), (src, dst))));
                assert(picked@.take(k + 1) =~= picked@.take(k as int).push((src, dst)));
                assert(data_set@.edges =~= old(data_set)@.edges + edge_views(self.nodes(), picked@.take(k + 1)));
            }
            k += 1;
        }
        assert(picked@.take(k as int) =~= picked@);
    }

    /// Adds to `data_set` every event of the DAG which is earlier than the
    /// events whose identifiers are in `from`: the events that those reach
    /// along the edges and that are not among them, with every edge that
    /// starts at such an event and every edge from an event of `from` to
    /// such an event. The identifiers of `from` must be known.
    pub fn add_earlier_events_to_data_set(&self, data_set: &mut DataSet, from: Vec<String>)
        requires
            self.stored_ok(),
            forall|i: int| 0 <= i < from@.len() ==> self.index().contains_key(#[trigger] from@[i]@),
        ensures
            self.grown(
                old(data_set)@,
                final(data_set)@,
                boundary_of(self.index(), texts(from@)),
                EdgeDirection::Outgoing,
            ),
    {
        let boundary = self.boundary_indices(&from);
        let (found, picked) = new_nodes_edges(&self.dag, &boundary);
        self.append(data_set, &found, &picked);
        proof {
            assert(edges_at(self.edges(), boundary@, found@, EdgeDirection::Outgoing, picked@));
        }
    }

    /// Adds to `data_set` every event of the DAG which is newer than the
    /// events whose identifiers are in `from`: the events that reach those
    /// along the edges and that are not among them, with every edge that
    /// ends in such an event and every edge from such an event to an event
    /// of `from`. The identifiers of `from` must be known.
    pub fn add_new_events_to_data_set(&self, data_set: &mut DataSet, from: Vec<String>)
        requires
            self.stored_ok(),
            forall|i: int| 0 <= i < from@.len() ==> self.index().contains_key(#[trigger] from@[i]@),
        ensures
            self.grown(
                old(data_set)@,
                final(data_set)@,
                boundary_of(self.index(), texts(from@)),
                EdgeDirection::Incoming,
            ),
    {
        let mut rev_dag = graph_clone(&self.dag);
        graph_reverse(&mut rev_dag);
        proof {
            assert(graph_edges(rev_dag) =~= reversed(self.edges()));
            lemma_reversed(self.edges(), self.nodes().len());
        }
        let boundary = self.boundary_indices(&from);
        let (found, rev_picked) = new_nodes_edges(&rev_dag, &boundary);
        let mut picked: Vec<(usize, usize)> = Vec::new();
        let mut k: usize = 0;
        while k < rev_picked.len()
            invariant
                k <= rev_picked@.len(),
                picked@.len() == k,
                forall|j: int| 0 <= j < k ==> picked@[j] == (rev_picked@[j].1, rev_picked@[j].0),
            decreases rev_picked@.len() - k,
        {
            let (src, dst) = rev_picked[k];
            picked.push((dst, src));
            k += 1;
        }
        proof {
            assert(picked@ =~= reversed(rev_picked@));
            lemma_reversed(rev_picked@, self.nodes().len());
            assert forall|e: (usize, usize)| #[trigger]
                picked@.contains(e) <==> self.edges().contains(e) && edge_joins(
                    e,
                    boundary@,
                    found@,
                    EdgeDirection::Incoming,
                ) by {
                assert(e == (e.0, e.1));
                assert(picked@.contains((e.0, e.1)) <==> rev_picked@.contains((e.1, e.0)));
                assert(reversed(self.edges()).contains((e.1, e.0)) <==> self.edges().contains((e.0, e.1)));
            }
        }
        self.append(data_set, &found, &picked);
        proof {
            assert(edges_at(self.edges(), boundary@, found@, EdgeDirection::Incoming, picked@));
        }
    }
}

} // verus!
