use event_dag::dag::JoinedRoom;
use event_dag::dag::RoomEvents;
use event_dag::dag::SyncResponse;
use event_dag::data_set::DataSet;
use event_dag::data_set::DataSetEdge;
use event_dag::data_set::DataSetNode;
use event_dag::data_set::NodeColor;
use event_dag::event::distinct_count;
use event_dag::event::Event;
use event_dag::event::EventField;

fn ev(id: &str, depth: i64, prev: &[&str]) -> Event {
    Event {
        event_id: id.to_string(),
        depth,
        prev_events: prev.iter().map(|p| p.to_string()).collect(),
        origin: "example.org".to_string(),
        fields: vec![
            EventField { name: "sender".to_string(), value: "@alice:example.org".to_string() },
            EventField { name: "type".to_string(), value: "m.room.message".to_string() },
        ],
    }
}

fn store(events: Vec<Event>) -> RoomEvents {
    RoomEvents::from_deepest_events("!room:example.org", "example.org", &vec!["sender".to_string()], events)
}

fn chain() -> RoomEvents {
    store(vec![ev("$a", 3, &["$b"]), ev("$b", 2, &["$c"]), ev("$c", 1, &[])])
}

fn sorted(mut v: Vec<String>) -> Vec<String> {
    v.sort();
    v
}

fn node_ids(ds: &DataSet) -> Vec<String> {
    sorted(ds.nodes.iter().map(|n| n.id.clone()).collect())
}

fn edge_pairs(ds: &DataSet) -> Vec<(String, String)> {
    let mut v: Vec<(String, String)> = ds.edges.iter().map(|e| (e.from.clone(), e.to.clone())).collect();
    v.sort();
    v
}

fn pair(a: &str, b: &str) -> (String, String) {
    (a.to_string(), b.to_string())
}

#[test]
fn empty_store_has_sentinel_depths() {
    let s = store(vec![]);
    assert_eq!(s.max_depth(), -1);
    assert_eq!(s.min_depth(), -1);
    assert!(s.latest_events.is_empty());
    assert!(s.earliest_events.is_empty());
    assert!(s.orphan_events.is_empty());
}

#[test]
fn one_event_sets_both_depths() {
    let s = store(vec![ev("$a", 5, &[])]);
    assert_eq!(s.max_depth(), 5);
    assert_eq!(s.min_depth(), 5);
}

#[test]
fn depths_follow_the_events() {
    let mut s = store(vec![ev("$a", 5, &[]), ev("$b", 9, &["$a"]), ev("$c", 2, &[])]);
    assert_eq!(s.max_depth(), 9);
    assert_eq!(s.min_depth(), 2);
    s.add_events(vec![ev("$d", 12, &["$b"]), ev("$e", 0, &[])]);
    assert_eq!(s.max_depth(), 12);
    assert_eq!(s.min_depth(), 0);
}

#[test]
fn frontier_of_a_chain() {
    let s = chain();
    assert_eq!(s.latest_events, vec!["$a".to_string()]);
    assert_eq!(s.earliest_events, vec!["$c".to_string()]);
    assert!(s.orphan_events.is_empty());
}

#[test]
fn frontier_of_a_fork() {
    let s = store(vec![
        ev("$root", 1, &[]),
        ev("$left", 2, &["$root"]),
        ev("$right", 2, &["$root"]),
        ev("$lone", 7, &[]),
    ]);
    assert_eq!(s.latest_events, vec!["$left".to_string(), "$right".to_string(), "$lone".to_string()]);
    assert_eq!(s.earliest_events, vec!["$root".to_string(), "$lone".to_string()]);
}

#[test]
fn missing_predecessor_makes_an_orphan() {
    let s = store(vec![ev("$a", 1, &[]), ev("$e", 4, &["$a", "$b"])]);
    assert_eq!(s.orphan_events.len(), 1);
    assert_eq!(s.orphan_events[0].id, "$e");
    assert_eq!(s.orphan_events[0].depth, 4);
    assert_eq!(s.earliest_events, vec!["$a".to_string()]);
    assert_eq!(s.latest_events, vec!["$e".to_string()]);
}

#[test]
fn later_batch_resolves_an_orphan() {
    let mut s = store(vec![ev("$e", 4, &["$a", "$b"])]);
    assert_eq!(s.orphan_events.len(), 1);
    assert_eq!(s.earliest_events, vec!["$e".to_string()]);
    s.add_events(vec![ev("$a", 1, &[])]);
    assert_eq!(s.orphan_events.len(), 1);
    assert_eq!(s.earliest_events, vec!["$a".to_string()]);
    s.add_events(vec![ev("$b", 2, &[])]);
    assert!(s.orphan_events.is_empty());
    assert_eq!(s.latest_events, vec!["$e".to_string()]);
    assert_eq!(edge_pairs(&s.create_data_set()), vec![pair("$e", "$a"), pair("$e", "$b")]);
}

#[test]
fn repeated_predecessor_counts_once() {
    let s = store(vec![ev("$a", 1, &[]), ev("$e", 2, &["$a", "$a"])]);
    assert_eq!(edge_pairs(&s.create_data_set()), vec![pair("$e", "$a")]);
    assert!(s.orphan_events.is_empty());
    let t = store(vec![ev("$a", 1, &[]), ev("$e", 2, &["$a", "$b", "$a", "$b"])]);
    assert_eq!(t.orphan_events.len(), 1);
    assert_eq!(t.orphan_events[0].id, "$e");
    assert_eq!(t.orphan_events[0].depth, 2);
}

#[test]
fn distinct_count_counts_each_string_once() {
    let none: Vec<String> = vec![];
    assert_eq!(distinct_count(&none), 0);
    assert_eq!(distinct_count(&vec!["$a".to_string()]), 1);
    assert_eq!(distinct_count(&vec!["$a".to_string(), "$a".to_string()]), 1);
    assert_eq!(distinct_count(&vec!["$a".to_string(), "$b".to_string(), "$a".to_string(), "$c".to_string()]), 3);
}

#[test]
fn getters_hand_out_the_lists() {
    let s = store(vec![ev("$a", 1, &[]), ev("$e", 4, &["$a", "$b"])]);
    assert_eq!(s.latest_events(), &vec!["$e".to_string()]);
    assert_eq!(s.earliest_events(), &vec!["$a".to_string()]);
    assert_eq!(s.orphan_events().len(), 1);
    assert_eq!(s.orphan_events()[0].id, "$e");
    assert_eq!(s.orphan_events()[0].depth, 4);
}

#[test]
fn recomputing_edges_adds_none() {
    let mut s = chain();
    let first = edge_pairs(&s.create_data_set());
    s.update_event_edges();
    s.update_event_edges();
    assert_eq!(edge_pairs(&s.create_data_set()), first);
    assert_eq!(s.create_data_set().edges.len(), 2);
    s.add_events(vec![]);
    assert_eq!(s.create_data_set().edges.len(), 2);
    assert_eq!(s.latest_events, vec!["$a".to_string()]);
}

#[test]
fn extend_backward_from_the_tip() {
    let s = chain();
    let mut ds = DataSet::new();
    s.add_earlier_events_to_data_set(&mut ds, vec!["$a".to_string()]);
    assert_eq!(node_ids(&ds), vec!["$b".to_string(), "$c".to_string()]);
    assert_eq!(edge_pairs(&ds), vec![pair("$a", "$b"), pair("$b", "$c")]);
}

#[test]
fn extend_forward_from_the_root() {
    let s = chain();
    let mut ds = DataSet::new();
    s.add_new_events_to_data_set(&mut ds, vec!["$c".to_string()]);
    assert_eq!(node_ids(&ds), vec!["$a".to_string(), "$b".to_string()]);
    assert_eq!(edge_pairs(&ds), vec![pair("$a", "$b"), pair("$b", "$c")]);
}

#[test]
fn extension_leaves_the_boundary_out() {
    let s = chain();
    let mut ds = DataSet::new();
    s.add_earlier_events_to_data_set(&mut ds, vec!["$a".to_string(), "$b".to_string()]);
    assert_eq!(node_ids(&ds), vec!["$c".to_string()]);
    assert_eq!(edge_pairs(&ds), vec![pair("$b", "$c")]);
    let mut none = DataSet::new();
    s.add_earlier_events_to_data_set(&mut none, vec!["$c".to_string()]);
    assert!(none.nodes.is_empty());
    assert!(none.edges.is_empty());
    let mut up = DataSet::new();
    s.add_new_events_to_data_set(&mut up, vec!["$a".to_string()]);
    assert!(up.nodes.is_empty());
    assert!(up.edges.is_empty());
}

#[test]
fn extension_visits_a_shared_ancestor_once() {
    let s = store(vec![
        ev("$root", 1, &[]),
        ev("$left", 2, &["$root"]),
        ev("$right", 2, &["$root"]),
        ev("$top", 3, &["$left", "$right"]),
    ]);
    let mut ds = DataSet::new();
    s.add_earlier_events_to_data_set(&mut ds, vec!["$left".to_string(), "$right".to_string()]);
    assert_eq!(node_ids(&ds), vec!["$root".to_string()]);
    assert_eq!(edge_pairs(&ds), vec![pair("$left", "$root"), pair("$right", "$root")]);
    let mut all = DataSet::new();
    s.add_earlier_events_to_data_set(&mut all, vec!["$top".to_string()]);
    assert_eq!(node_ids(&all), vec!["$left".to_string(), "$right".to_string(), "$root".to_string()]);
    assert_eq!(all.edges.len(), 4);
    let mut up = DataSet::new();
    s.add_new_events_to_data_set(&mut up, vec!["$root".to_string()]);
    assert_eq!(node_ids(&up), vec!["$left".to_string(), "$right".to_string(), "$top".to_string()]);
    assert_eq!(up.edges.len(), 4);
}

#[test]
fn extension_appends_behind_what_is_there() {
    let s = chain();
    let mut ds = DataSet::new();
    s.add_earlier_events_to_data_set(&mut ds, vec!["$b".to_string()]);
    s.add_new_events_to_data_set(&mut ds, vec!["$b".to_string()]);
    assert_eq!(ds.nodes.len(), 2);
    assert_eq!(ds.nodes[0].id, "$c");
    assert_eq!(ds.nodes[1].id, "$a");
    assert_eq!(ds.edges.len(), 2);
    assert_eq!(ds.edges[0].id, "$b$c");
    assert_eq!(ds.edges[1].id, "$a$b");
}

#[test]
fn disconnected_parts_stay_apart() {
    let s = store(vec![ev("$a", 2, &["$b"]), ev("$b", 1, &[]), ev("$x", 2, &["$y"]), ev("$y", 1, &[])]);
    let mut ds = DataSet::new();
    s.add_earlier_events_to_data_set(&mut ds, vec!["$a".to_string()]);
    assert_eq!(node_ids(&ds), vec!["$b".to_string()]);
    assert_eq!(edge_pairs(&ds), vec![pair("$a", "$b")]);
}

#[test]
fn full_data_set_of_a_chain() {
    let s = chain();
    let ds = s.create_data_set();
    assert_eq!(ds.nodes.len(), 3);
    assert_eq!(ds.nodes[0].id, "$a");
    assert_eq!(ds.nodes[0].level, 3);
    assert_eq!(ds.nodes[2].id, "$c");
    assert_eq!(ds.nodes[2].level, 1);
    assert_eq!(ds.edges.len(), 2);
    assert_eq!(ds.edges[0].id, "$a$b");
    assert_eq!(ds.edges[0].from, "$a");
    assert_eq!(ds.edges[0].to, "$b");
    assert_eq!(ds.edges[1].id, "$b$c");
}

#[test]
fn newest_event_of_an_identifier_is_indexed() {
    let mut s = store(vec![ev("$a", 1, &[]), ev("$b", 2, &["$a"])]);
    assert_eq!(s.get_event("$a").map(|e| e.depth), Some(1));
    s.add_events(vec![ev("$a", 9, &[])]);
    assert_eq!(s.get_event("$a").map(|e| e.depth), Some(9));
    assert_eq!(s.get_event("$b").map(|e| e.event_id.clone()), Some("$b".to_string()));
    assert!(s.get_event("$zz").is_none());
    let ds = s.create_data_set();
    assert_eq!(ds.nodes.len(), 2);
    assert_eq!(ds.nodes[0].id, "$b");
    assert_eq!(ds.nodes[1].id, "$a");
    assert_eq!(ds.nodes[1].level, 9);
    assert_eq!(ds.edges.len(), 2);
}

#[test]
fn sync_response_without_the_room_gives_no_graph() {
    let res = SyncResponse {
        joined: vec![JoinedRoom { room_id: "!other:example.org".to_string(), timeline: vec![ev("$a", 1, &[])] }],
    };
    let r = RoomEvents::from_sync_response("!room:example.org", "example.org", &vec![], res);
    assert!(r.is_none());
}

#[test]
fn sync_response_with_the_room_gives_its_timeline() {
    let res = SyncResponse {
        joined: vec![
            JoinedRoom { room_id: "!other:example.org".to_string(), timeline: vec![ev("$x", 1, &[])] },
            JoinedRoom {
                room_id: "!room:example.org".to_string(),
                timeline: vec![ev("$a", 2, &["$b"]), ev("$b", 1, &[])],
            },
        ],
    };
    let r = RoomEvents::from_sync_response("!room:example.org", "example.org", &vec![], res);
    let s = r.expect("the room is in the response");
    assert!(s.get_event("$x").is_none());
    assert_eq!(s.latest_events, vec!["$a".to_string()]);
    assert_eq!(s.earliest_events, vec!["$b".to_string()]);
    assert_eq!(s.create_data_set().edges.len(), 1);
}

#[test]
fn label_is_made_of_the_chosen_fields() {
    let e = ev("$a", 1, &[]);
    assert_eq!(e.label(&vec!["sender".to_string()]), "@alice:example.org\n");
    assert_eq!(e.label(&vec!["type".to_string(), "sender".to_string()]), "@alice:example.org\nm.room.message\n");
    assert_eq!(e.label(&vec![]), "");
    assert_eq!(e.label(&vec!["depth".to_string()]), "");
}

#[test]
fn colors_tell_the_observed_server() {
    let e = ev("$a", 4, &[]);
    let here = e.to_data_set_node("example.org", &vec!["type".to_string()]);
    assert_eq!(here.id, "$a");
    assert_eq!(here.label, "m.room.message\n");
    assert_eq!(here.level, 4);
    assert_eq!(here.color.border, "#006633");
    assert_eq!(here.color.background, "#009900");
    let there = e.to_data_set_node("matrix.org", &vec![]);
    assert_eq!(there.color.border, "#990000");
    assert_eq!(there.color.background, "#ff6600");
}

#[test]
fn changing_fields_changes_labels_only() {
    let mut s = chain();
    assert_eq!(s.create_data_set().nodes[0].label, "@alice:example.org\n");
    s.change_fields(&vec!["type".to_string()]);
    let ds = s.create_data_set();
    assert_eq!(ds.nodes[0].label, "m.room.message\n");
    assert_eq!(ds.nodes.len(), 3);
    assert_eq!(ds.edges.len(), 2);
    assert_eq!(s.latest_events, vec!["$a".to_string()]);
}

#[test]
fn prefix_rewrites_every_identifier() {
    let mut ds = DataSet {
        nodes: vec![DataSetNode {
            id: "$abc".to_string(),
            label: "l".to_string(),
            level: 2,
            color: NodeColor { border: "#006633".to_string(), background: "#009900".to_string() },
        }],
        edges: vec![DataSetEdge { id: "$abc$def".to_string(), from: "$abc".to_string(), to: "$def".to_string() }],
    };
    ds.add_prefix("v1-");
    assert_eq!(ds.nodes[0].id, "v1-$abc");
    assert_eq!(ds.nodes[0].label, "l");
    assert_eq!(ds.nodes[0].level, 2);
    assert_eq!(ds.nodes[0].color.border, "#006633");
    assert_eq!(ds.edges[0].id, "v1-$abc$def");
    assert_eq!(ds.edges[0].from, "v1-$abc");
    assert_eq!(ds.edges[0].to, "v1-$def");
}

#[test]
fn prefixes_stack_in_front() {
    let s = chain();
    let mut ds = s.create_data_set();
    ds.add_prefix("a-");
    ds.add_prefix("b-");
    assert_eq!(ds.nodes[0].id, "b-a-$a");
    assert_eq!(ds.edges[1].from, "b-a-$b");
    let mut empty = DataSet::new();
    empty.add_prefix("v1-");
    assert!(empty.nodes.is_empty());
    assert!(empty.edges.is_empty());
}

#[test]
fn cloned_event_holds_the_same() {
    let e = ev("$a", 4, &["$b", "$c"]);
    let c = e.clone();
    assert_eq!(c.event_id, "$a");
    assert_eq!(c.depth, 4);
    assert_eq!(c.get_prev_events(), &vec!["$b".to_string(), "$c".to_string()]);
    assert_eq!(c.origin, "example.org");
    assert_eq!(c.fields.len(), 2);
    assert_eq!(c.fields[1].value, "m.room.message");
}

#[test]
fn event_that_declares_itself() {
    let s = store(vec![ev("$a", 1, &["$a"])]);
    assert!(s.latest_events.is_empty());
    assert!(s.earliest_events.is_empty());
    assert!(s.orphan_events.is_empty());
    let ds = s.create_data_set();
    assert_eq!(ds.edges.len(), 1);
    assert_eq!(ds.edges[0].id, "$a$a");
    let mut out = DataSet::new();
    s.add_earlier_events_to_data_set(&mut out, vec!["$a".to_string()]);
    assert!(out.nodes.is_empty());
    assert!(out.edges.is_empty());
}

#[test]
fn walk_ends_on_a_cycle() {
    let s = store(vec![ev("$a", 1, &["$b"]), ev("$b", 2, &["$c"]), ev("$c", 3, &["$a"])]);
    assert!(s.latest_events.is_empty());
    assert!(s.earliest_events.is_empty());
    let mut back = DataSet::new();
    s.add_earlier_events_to_data_set(&mut back, vec!["$a".to_string()]);
    assert_eq!(node_ids(&back), vec!["$b".to_string(), "$c".to_string()]);
    assert_eq!(edge_pairs(&back), vec![pair("$a", "$b"), pair("$b", "$c"), pair("$c", "$a")]);
    let mut forth = DataSet::new();
    s.add_new_events_to_data_set(&mut forth, vec!["$a".to_string()]);
    assert_eq!(node_ids(&forth), vec!["$b".to_string(), "$c".to_string()]);
    assert_eq!(edge_pairs(&forth), vec![pair("$a", "$b"), pair("$b", "$c"), pair("$c", "$a")]);
}

#[test]
fn extension_between_two_boundary_events() {
    let s = chain();
    let mut back = DataSet::new();
    s.add_earlier_events_to_data_set(&mut back, vec!["$a".to_string(), "$c".to_string()]);
    assert_eq!(node_ids(&back), vec!["$b".to_string()]);
    assert_eq!(edge_pairs(&back), vec![pair("$a", "$b"), pair("$b", "$c")]);
    let mut forth = DataSet::new();
    s.add_new_events_to_data_set(&mut forth, vec!["$a".to_string(), "$c".to_string()]);
    assert_eq!(node_ids(&forth), vec!["$b".to_string()]);
    assert_eq!(edge_pairs(&forth), vec![pair("$a", "$b"), pair("$b", "$c")]);
}

#[test]
fn edge_from_outside_the_walk_stays_out() {
    let s = store(vec![
        ev("$root", 1, &[]),
        ev("$mid", 2, &["$root"]),
        ev("$tip", 3, &["$mid"]),
        ev("$side", 3, &["$mid"]),
    ]);
    let mut back = DataSet::new();
    s.add_earlier_events_to_data_set(&mut back, vec!["$tip".to_string()]);
    assert_eq!(node_ids(&back), vec!["$mid".to_string(), "$root".to_string()]);
    assert_eq!(edge_pairs(&back), vec![pair("$mid", "$root"), pair("$tip", "$mid")]);
    let mut forth = DataSet::new();
    s.add_new_events_to_data_set(&mut forth, vec!["$mid".to_string()]);
    assert_eq!(node_ids(&forth), vec!["$side".to_string(), "$tip".to_string()]);
    assert_eq!(edge_pairs(&forth), vec![pair("$side", "$mid"), pair("$tip", "$mid")]);
    let mut up = DataSet::new();
    s.add_new_events_to_data_set(&mut up, vec!["$root".to_string()]);
    assert_eq!(up.edges.len(), 3);
}

#[test]
fn boundary_may_name_an_event_twice() {
    let s = chain();
    let mut ds = DataSet::new();
    s.add_earlier_events_to_data_set(&mut ds, vec!["$b".to_string(), "$b".to_string()]);
    assert_eq!(node_ids(&ds), vec!["$c".to_string()]);
    assert_eq!(edge_pairs(&ds), vec![pair("$b", "$c")]);
    let mut none = DataSet::new();
    s.add_new_events_to_data_set(&mut none, vec![]);
    assert!(none.nodes.is_empty());
    assert!(none.edges.is_empty());
}

#[test]
fn depth_minus_one_counts_as_unset() {
    let s = store(vec![ev("$a", 3, &[]), ev("$b", -1, &[]), ev("$c", 2, &[])]);
    assert_eq!(s.max_depth(), 3);
    assert_eq!(s.min_depth(), 2);
    let t = store(vec![ev("$a", -5, &[]), ev("$b", -3, &[])]);
    assert_eq!(t.max_depth(), -3);
    assert_eq!(t.min_depth(), -5);
}

#[test]
fn edge_to_an_overwritten_event_stays() {
    let mut s = store(vec![ev("$p", 1, &[]), ev("$c", 2, &["$p", "$q"])]);
    assert_eq!(s.orphan_events.len(), 1);
    s.add_events(vec![ev("$p", 5, &[])]);
    let ds = s.create_data_set();
    assert_eq!(ds.edges.len(), 2);
    assert_eq!(ds.edges[0].id, "$c$p");
    assert_eq!(ds.edges[1].id, "$c$p");
    assert!(s.orphan_events.is_empty());
    assert_eq!(s.latest_events, vec!["$c".to_string()]);
    assert_eq!(s.earliest_events, vec!["$p".to_string(), "$p".to_string()]);
}

#[test]
fn orphan_info_can_be_cloned() {
    let s = store(vec![ev("$e", 4, &["$gone"])]);
    let o = s.orphan_events[0].clone();
    assert_eq!(o.id, "$e");
    assert_eq!(o.depth, 4);
}
