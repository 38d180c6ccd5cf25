//! Reachability along the edges of the event graph, and the walks that
//! find what can be reached from a set of boundary nodes.
use vstd::prelude::*;
use vstd::seq_lib::*;
use vstd::set_lib::*;
use std::collections::HashSet;
use petgraph::Directed;
use petgraph::graph::Graph;
use crate::event::Event;
use crate::graph::EdgeDirection;
use crate::graph::bfs_bound;
use crate::graph::bfs_discovered;
use crate::graph::bfs_new;
use crate::graph::bfs_next;
use crate::graph::bfs_queue;
use crate::graph::bfs_step;
use crate::graph::graph_edges;
use crate::graph::graph_edges_directed;
use crate::graph::graph_nodes;
use crate::graph::incident;
use crate::graph::on_side;
use crate::graph::side_test;
use crate::seqs::lemma_members_in_range;
use crate::seqs::lemma_push_contains;
use crate::seqs::lemma_take_next;

verus! {

/// Every edge joins two of the first `n` node indices.
pub open spec fn edges_in_range(edges: Seq<(usize, usize)>, n: nat) -> bool {
    forall|i: int| 0 <= i < edges.len() ==> (#[trigger] edges[i]).0 < n && edges[i].1 < n
}

/// `edges` has an edge from the node at position `i` of `path` to the next
/// node of `path`.
pub open spec fn steps(edges: Seq<(usize, usize)>, path: Seq<usize>, i: int) -> bool {
    edges.contains((path[i], path[i + 1]))
}

/// `path` is a walk along `edges`: it has a first node, and each of its
/// nodes has an edge to the next one.
pub open spec fn is_path(edges: Seq<(usize, usize)>, path: Seq<usize>) -> bool {
    &&& path.len() > 0
    &&& forall|i: int| 0 <= i < path.len() - 1 ==> #[trigger] steps(edges, path, i)
}

/// Some walk along `edges` leads from `from` to `to`. Every node reaches
/// itself.
pub open spec fn reachable(edges: Seq<(usize, usize)>, from: usize, to: usize) -> bool {
    exists|path: Seq<usize>| #[trigger] is_path(edges, path) && path[0] == from && path.last() == to
}

/// Some walk along `edges` leads from one of `starts` to `to`.
pub open spec fn reachable_from_any(edges: Seq<(usize, usize)>, starts: Seq<usize>, to: usize) -> bool {
    exists|k: int| 0 <= k < starts.len() && reachable(edges, #[trigger] starts[k], to)
}

/// `edges` with every edge turned round.
pub open spec fn reversed(edges: Seq<(usize, usize)>) -> Seq<(usize, usize)> {
    Seq::new(edges.len(), |i: int| (edges[i].1, edges[i].0))
}

/// Every node reaches itself.
pub proof fn lemma_reachable_self(edges: Seq<(usize, usize)>, a: usize)
    ensures
        reachable(edges, a, a),
{
    let path = seq![a];
    assert(is_path(edges, path) && path[0] == a && path.last() == a);
}

/// A walk can be continued along one more edge.
pub proof fn lemma_reachable_step(edges: Seq<(usize, usize)>, a: usize, b: usize, c: usize)
    requires
        reachable(edges, a, b),
        edges.contains((b, c)),
    ensures
        reachable(edges, a, c),
{
    let path = choose|path: Seq<usize>| #[trigger] is_path(edges, path) && path[0] == a && path.last() == b;
    let longer = path.push(c);
    assert forall|i: int| 0 <= i < longer.len() - 1 implies #[trigger] steps(edges, longer, i) by {
        if i < path.len() - 1 {
            assert(steps(edges, path, i));
        }
    }
    assert(is_path(edges, longer) && longer[0] == a && longer.last() == c);
}

proof fn lemma_closed_holds_path(edges: Seq<(usize, usize)>, s: Set<usize>, path: Seq<usize>, k: int)
    requires
        is_path(edges, path),
        s.contains(path[0]),
        forall|u: usize, v: usize| s.contains(u) && #[trigger] edges.contains((u, v)) ==> s.contains(v),
        0 <= k < path.len(),
    ensures
        s.contains(path[k]),
    decreases k,
{
    if k > 0 {
        lemma_closed_holds_path(edges, s, path, k - 1);
        assert(steps(edges, path, k - 1));
    }
}

/// A set that holds `a` and, with each node, the node's successors holds
/// all that `a` reaches.
pub proof fn lemma_closed_holds_reachable(edges: Seq<(usize, usize)>, s: Set<usize>, a: usize, b: usize)
    requires
        s.contains(a),
        forall|u: usize, v: usize| s.contains(u) && #[trigger] edges.contains((u, v)) ==> s.contains(v),
        reachable(edges, a, b),
    ensures
        s.contains(b),
{
    let path = choose|path: Seq<usize>| #[trigger] is_path(edges, path) && path[0] == a && path.last() == b;
    lemma_closed_holds_path(edges, s, path, path.len() - 1);
}

/// A list of distinct node indices below `n` has at most `n` entries.
pub proof fn lemma_distinct_below(s: Seq<usize>, n: nat)
    requires
        s.no_duplicates(),
        forall|i: int| 0 <= i < s.len() ==> s[i] < n,
    ensures
        s.len() <= n,
{
    let f = |v: usize| v as int;
    let t = s.map_values(f);
    assert forall|i: int, j: int| 0 <= i < t.len() && 0 <= j < t.len() && i != j implies t[i] != t[j] by {
        assert(s[i] != s[j]);
    }
    t.unique_seq_to_set();
    lemma_int_range(0, n as int);
    assert forall|x: int| t.to_set().contains(x) implies set_int_range(0, n as int).contains(x) by {
        let i = choose|i: int| 0 <= i < t.len() && t[i] == x;
        assert(s[i] < n);
    }
    lemma_len_subset(t.to_set(), set_int_range(0, n as int));
}

/// Filtering keeps a list free of duplicates.
pub proof fn lemma_filter_no_duplicates<A>(s: Seq<A>, pred: spec_fn(A) -> bool)
    requires
        s.no_duplicates(),
    ensures
        s.filter(pred).no_duplicates(),
    decreases s.len(),
{
    reveal(Seq::filter);
    if s.len() > 0 {
        let rest = s.drop_last();
        lemma_filter_no_duplicates(rest, pred);
        let sub = rest.filter(pred);
        if pred(s.last()) {
            assert forall|i: int| 0 <= i < sub.len() implies sub[i] != s.last() by {
                assert(sub.contains(sub[i]));
                rest.lemma_filter_contains_rev(pred, sub[i]);
                let j = choose|j: int| 0 <= j < rest.len() && rest[j] == sub[i];
                assert(s[j] == sub[i]);
            }
        }
    }
}

/// What a listing of the edges on one side of a node holds, whatever the
/// order of the listing: as many entries as the graph has such edges, and
/// exactly those edges; none of them twice where the graph has no edge
/// twice.
pub proof fn lemma_incident_listing(
    listing: Seq<(usize, usize)>,
    edges: Seq<(usize, usize)>,
    a: usize,
    dir: EdgeDirection,
)
    requires
        listing.to_multiset() == incident(edges, a, dir).to_multiset(),
    ensures
        listing.len() == incident(edges, a, dir).len(),
        forall|e: (usize, usize)| #[trigger] listing.contains(e) <==> edges.contains(e) && on_side(e, a, dir),
        edges.no_duplicates() ==> listing.no_duplicates(),
{
    let pred = side_test(a, dir);
    let inc = incident(edges, a, dir);
    to_multiset_len(listing);
    to_multiset_len(inc);
    assert forall|e: (usize, usize)| #[trigger] listing.contains(e) <==> edges.contains(e) && pred(e) by {
        to_multiset_contains(listing, e);
        to_multiset_contains(inc, e);
        if inc.contains(e) {
            edges.lemma_filter_contains_rev(pred, e);
            let i = choose|i: int| 0 <= i < inc.len() && inc[i] == e;
            edges.lemma_filter_pred(pred, i);
        }
        if edges.contains(e) && pred(e) {
            let i = choose|i: int| 0 <= i < edges.len() && edges[i] == e;
            edges.lemma_filter_contains(pred, i);
        }
    }
    if edges.no_duplicates() {
        lemma_filter_no_duplicates(edges, pred);
        inc.lemma_multiset_has_no_duplicates();
        listing.lemma_multiset_has_no_duplicates_conv();
    }
}

/// What holds of a breadth-first walk from `start` after it has handed out
/// the nodes `done`, with the queue `queue` and the discovered nodes `found`:
/// the discovered nodes are those handed out and those in the queue, none
/// of them twice; each is in range and reached from `start`; and every
/// successor of a node handed out is discovered.
pub open spec fn walk_inv(
    edges: Seq<(usize, usize)>,
    n: nat,
    start: usize,
    done: Seq<usize>,
    queue: Seq<usize>,
    found: Set<usize>,
) -> bool {
    &&& forall|v: usize| #[trigger] found.contains(v) <==> done.contains(v) || queue.contains(v)
    &&& found.contains(start)
    &&& forall|v: usize| #[trigger] found.contains(v) ==> reachable(edges, start, v) && v < n
    &&& forall|u: usize, v: usize| done.contains(u) && #[trigger] edges.contains((u, v)) ==> found.contains(v)
    &&& (done + queue).no_duplicates()
}

proof fn lemma_walk_start(edges: Seq<(usize, usize)>, n: nat, start: usize)
    requires
        start < n,
    ensures
        walk_inv(edges, n, start, Seq::<usize>::empty(), seq![start], set![start]),
{
    let done = Seq::<usize>::empty();
    let queue = seq![start];
    lemma_reachable_self(edges, start);
    assert(queue[0] == start);
    assert(done + queue =~= queue);
}

proof fn lemma_walk_step(
    edges: Seq<(usize, usize)>,
    n: nat,
    start: usize,
    done: Seq<usize>,
    x: usize,
    q0: Seq<usize>,
    d0: Set<usize>,
    q1: Seq<usize>,
    d1: Set<usize>,
)
    requires
        edges_in_range(edges, n),
        walk_inv(edges, n, start, done, q0, d0),
        bfs_step(edges, x, q0, d0, q1, d1),
    ensures
        walk_inv(edges, n, start, done.push(x), q1, d1),
        done.len() < n,
{
    let tail = q0.subrange(1, q0.len() as int);
    let fresh = q1.subrange(q0.len() - 1, q1.len() as int);
    let done1 = done.push(x);
    assert(q1 =~= q1.subrange(0, q0.len() - 1) + fresh);
    assert(q1 =~= tail + fresh);
    assert(q0 =~= seq![x] + tail);
    assert(done1 + q1 =~= (done + q0) + fresh);
    assert(q0.contains(x)) by {
        assert(q0[0] == x);
    }
    assert(d0.contains(x));
    assert forall|v: usize| #[trigger] d1.contains(v) implies reachable(edges, start, v) && v < n by {
        if !d0.contains(v) {
            lemma_reachable_step(edges, start, x, v);
            let i = choose|i: int| 0 <= i < edges.len() && edges[i] == (x, v);
            assert(edges[i].1 < n);
        }
    }
    assert forall|v: usize| #[trigger] d1.contains(v) <==> done1.contains(v) || q1.contains(v) by {
        if done1.contains(v) {
            let i = choose|i: int| 0 <= i < done1.len() && done1[i] == v;
            if i < done.len() {
                assert(done[i] == v);
                assert(done.contains(v));
            }
        }
        if q1.contains(v) {
            let i = choose|i: int| 0 <= i < q1.len() && q1[i] == v;
            if i < tail.len() {
                assert(q0[i + 1] == v);
                assert(q0.contains(v));
            } else {
                assert(fresh[i - tail.len()] == v);
                assert(fresh.contains(v));
            }
        }
        if d1.contains(v) {
            if d0.contains(v) {
                if done.contains(v) {
                    let i = choose|i: int| 0 <= i < done.len() && done[i] == v;
                    assert(done1[i] == v);
                } else {
                    let i = choose|i: int| 0 <= i < q0.len() && q0[i] == v;
                    if i == 0 {
                        assert(done1[done.len() as int] == v);
                    } else {
                        assert(q1[i - 1] == v);
                    }
                }
            } else {
                assert(fresh.contains(v));
                let i = choose|i: int| 0 <= i < fresh.len() && fresh[i] == v;
                assert(q1[tail.len() + i] == v);
            }
        }
    }
    assert forall|u: usize, v: usize| done1.contains(u) && #[trigger] edges.contains((u, v)) implies d1.contains(
        v,
    ) by {
        let i = choose|i: int| 0 <= i < done1.len() && done1[i] == u;
        if i < done.len() {
            assert(done[i] == u);
            assert(done.contains(u));
            assert(d0.contains(v));
        }
    }
    assert forall|i: int, j: int| 0 <= i < (done + q0).len() && 0 <= j < fresh.len() implies (done + q0)[i]
        != fresh[j] by {
        assert(fresh.contains(fresh[j]));
        if i < done.len() {
            assert(done[i] == (done + q0)[i]);
            assert(done.contains((done + q0)[i]));
        } else {
            assert(q0[i - done.len()] == (done + q0)[i]);
            assert(q0.contains((done + q0)[i]));
        }
    }
    lemma_no_dup_in_concat(done + q0, fresh);
    assert(done1.no_duplicates()) by {
        assert forall|i: int, j: int| 0 <= i < done1.len() && 0 <= j < done1.len() && i != j implies done1[i]
            != done1[j] by {
            assert((done1 + q1)[i] == done1[i]);
            assert((done1 + q1)[j] == done1[j]);
        }
    }
    assert forall|i: int| 0 <= i < done1.len() implies done1[i] < n by {
        assert(done1.contains(done1[i]));
        assert(d1.contains(done1[i]));
    }
    lemma_distinct_below(done1, n);
}

proof fn lemma_walk_end(edges: Seq<(usize, usize)>, n: nat, start: usize, done: Seq<usize>, found: Set<usize>)
    requires
        walk_inv(edges, n, start, done, Seq::<usize>::empty(), found),
    ensures
        done.no_duplicates(),
        forall|v: usize| #[trigger] done.contains(v) <==> reachable(edges, start, v),
        forall|v: usize| #[trigger] done.contains(v) ==> v < n,
{
    assert(done + Seq::<usize>::empty() =~= done);
    assert forall|v: usize| reachable(edges, start, v) implies #[trigger] done.contains(v) by {
        assert forall|u: usize, w: usize| found.contains(u) && #[trigger] edges.contains((u, w)) implies found.contains(
            w,
        ) by {}
        lemma_closed_holds_reachable(edges, found, start, v);
    }
    assert forall|v: usize| #[trigger] done.contains(v) implies reachable(edges, start, v) && v < n by {
        assert(found.contains(v));
    }
}

/// The nodes that `start` reaches in `g`, each once, in the order in which
/// a breadth-first walk hands them out.
pub(crate) fn walk(g: &Graph<Event, (), Directed, usize>, start: usize) -> (out: Vec<usize>)
    requires
        start < graph_nodes(*g).len(),
        edges_in_range(graph_edges(*g), graph_nodes(*g).len()),
    ensures
        out@.no_duplicates(),
        forall|v: usize| #[trigger] out@.contains(v) <==> reachable(graph_edges(*g), start, v),
        forall|v: usize| #[trigger] out@.contains(v) ==> v < graph_nodes(*g).len(),
{
    let mut bfs = bfs_new(g, start);
    let mut out: Vec<usize> = Vec::new();
    proof {
        lemma_walk_start(graph_edges(*g), graph_nodes(*g).len(), start);
    }
    loop
        invariant_except_break
            edges_in_range(graph_edges(*g), graph_nodes(*g).len()),
            bfs_bound(bfs) == graph_nodes(*g).len(),
            walk_inv(
                graph_edges(*g),
                graph_nodes(*g).len(),
                start,
                out@,
                bfs_queue(bfs),
                bfs_discovered(bfs),
            ),
        ensures
            out@.no_duplicates(),
            forall|v: usize| #[trigger] out@.contains(v) <==> reachable(graph_edges(*g), start, v),
            forall|v: usize| #[trigger] out@.contains(v) ==> v < graph_nodes(*g).len(),
        decreases graph_nodes(*g).len() - out@.len(),
    {
        let ghost q0 = bfs_queue(bfs);
        let ghost d0 = bfs_discovered(bfs);
        match bfs_next(&mut bfs, g) {
            None => {
                proof {
                    assert(bfs_queue(bfs) =~= Seq::<usize>::empty());
                    lemma_walk_end(
                        graph_edges(*g),
                        graph_nodes(*g).len(),
                        start,
                        out@,
                        bfs_discovered(bfs),
                    );
                }
                break ;
            },
            Some(x) => {
                proof {
                    lemma_walk_step(
                        graph_edges(*g),
                        graph_nodes(*g).len(),
                        start,
                        out@,
                        x,
                        q0,
                        d0,
                        bfs_queue(bfs),
                        bfs_discovered(bfs),
                    );
                }
                out.push(x);
            },
        }
    }
    out
}

/// Whether edge `e` joins what was found beyond a boundary to the view:
/// it starts at a found node, or it leads from a node of the boundary to a
/// found node.
pub open spec fn joins(e: (usize, usize), boundary: Seq<usize>, found: Seq<usize>) -> bool {
    found.contains(e.0) || (boundary.contains(e.0) && found.contains(e.1))
}

/// The nodes and edges by which a view that holds the nodes `from` grows
/// along the edges of `g`: the nodes that some node of `from` reaches and
/// that are not in `from`, each once, and, each once, the edges of `g` that
/// start at one of these nodes or lead from a node of `from` to one of
/// them.
pub(crate) fn new_nodes_edges(g: &Graph<Event, (), Directed, usize>, from: &Vec<usize>) -> (r: (
    Vec<usize>,
    Vec<(usize, usize)>,
))
    requires
        forall|i: int| 0 <= i < from@.len() ==> from@[i] < graph_nodes(*g).len(),
        edges_in_range(graph_edges(*g), graph_nodes(*g).len()),
        graph_edges(*g).no_duplicates(),
    ensures
        r.0@.no_duplicates(),
        forall|v: usize| #[trigger]
            r.0@.contains(v) <==> reachable_from_any(graph_edges(*g), from@, v) && !from@.contains(v),
        forall|i: int| 0 <= i < r.0@.len() ==> r.0@[i] < graph_nodes(*g).len(),
        r.1@.no_duplicates(),
        forall|e: (usize, usize)| #[trigger] r.1@.contains(e) <==> graph_edges(*g).contains(e) && joins(e, from@, r.0@),
        edges_in_range(r.1@, graph_nodes(*g).len()),
{
    broadcast use vstd::std_specs::hash::group_hash_axioms;

    let ghost all = graph_edges(*g);
    let ghost n = graph_nodes(*g).len();
    let mut boundary: HashSet<usize> = HashSet::new();
    let mut starts: Vec<usize> = Vec::new();
    let mut i: usize = 0;
    while i < from.len()
        invariant
            i <= from@.len(),
            forall|v: usize| #[trigger] boundary@.contains(v) <==> from@.take(i as int).contains(v),
            forall|v: usize| #[trigger] starts@.contains(v) <==> boundary@.contains(v),
            starts@.no_duplicates(),
        decreases from@.len() - i,
    {
        proof {
            lemma_take_next(from@, i as int);
            lemma_push_contains(starts@, from@[i as int]);
        }
        if boundary.insert(from[i]) {
            starts.push(from[i]);
        }
        i += 1;
    }
    assert(from@.take(i as int) =~= from@);
    let mut found: HashSet<usize> = HashSet::new();
    let mut nodes: Vec<usize> = Vec::new();
    let mut i: usize = 0;
    while i < starts.len()
        invariant
            i <= starts@.len(),
            all == graph_edges(*g),
            n == graph_nodes(*g).len(),
            forall|k: int| 0 <= k < from@.len() ==> from@[k] < n,
            edges_in_range(all, n),
            forall|v: usize| #[trigger] boundary@.contains(v) <==> from@.contains(v),
            forall|v: usize| #[trigger] starts@.contains(v) <==> from@.contains(v),
            forall|v: usize| #[trigger] found@.contains(v) <==> nodes@.contains(v),
            nodes@.no_duplicates(),
            forall|v: usize| #[trigger]
                nodes@.contains(v) ==> !from@.contains(v) && reachable_from_any(all, from@, v) && v < n,
            forall|k: int, v: usize|
                0 <= k < i && #[trigger] reachable(all, starts@[k], v) ==> from@.contains(v) || nodes@.contains(v),
        decreases starts@.len() - i,
    {
        let start = starts[i];
        proof {
            assert(starts@.contains(start));
            let k = choose|k: int| 0 <= k < from@.len() && from@[k] == start;
            assert(from@[k] < n);
        }
        let reached = walk(g, start);
        let mut j: usize = 0;
        while j < reached.len()
            invariant
                j <= reached@.len(),
                i < starts@.len(),
                start == starts@[i as int],
                from@.contains(start),
                forall|v: usize| #[trigger] reached@.contains(v) <==> reachable(all, start, v),
                forall|v: usize| #[trigger] reached@.contains(v) ==> v < n,
                forall|v: usize| #[trigger] boundary@.contains(v) <==> from@.contains(v),
                forall|v: usize| #[trigger] found@.contains(v) <==> nodes@.contains(v),
                nodes@.no_duplicates(),
                forall|v: usize| #[trigger]
                    nodes@.contains(v) ==> !from@.contains(v) && reachable_from_any(all, from@, v) && v < n,
                forall|k: int, v: usize|
                    0 <= k < i && #[trigger] reachable(all, starts@[k], v) ==> from@.contains(v) || nodes@.contains(
                        v,
                    ),
                forall|m: int|
                    0 <= m < j ==> from@.contains(#[trigger] reached@[m]) || nodes@.contains(reached@[m]),
            decreases reached@.len() - j,
        {
            let v = reached[j];
            proof {
                lemma_push_contains(nodes@, v);
                assert(reached@.contains(v));
                let k = choose|k: int| 0 <= k < from@.len() && from@[k] == start;
                assert(reachable(all, from@[k], v));
            }
            if !boundary.contains(&v) && !found.contains(&v) {
                found.insert(v);
                nodes.push(v);
            }
            j += 1;
        }
        proof {
            assert forall|v: usize| #[trigger] reachable(all, starts@[i as int], v) implies from@.contains(v)
                || nodes@.contains(v) by {
                assert(reached@.contains(v));
                let m = choose|m: int| 0 <= m < reached@.len() && reached@[m] == v;
                assert(from@.contains(reached@[m]) || nodes@.contains(reached@[m]));
            }
        }
        i += 1;
    }
    proof {
        assert forall|v: usize| reachable_from_any(all, from@, v) && !from@.contains(v) implies #[trigger] nodes@.contains(
            v,
        ) by {
            let k = choose|k: int| 0 <= k < from@.len() && reachable(all, #[trigger] from@[k], v);
            assert(starts@.contains(from@[k]));
            let m = choose|m: int| 0 <= m < starts@.len() && starts@[m] == from@[k];
            assert(reachable(all, starts@[m], v));
        }
        assert forall|k: int| 0 <= k < nodes@.len() implies nodes@[k] < n by {
            assert(nodes@.contains(nodes@[k]));
        }
    }
    let mut edges: Vec<(usize, usize)> = Vec::new();
    let mut k: usize = 0;
    while k < nodes.len()
        invariant
            k <= nodes@.len(),
            all == graph_edges(*g),
            all.no_duplicates(),
            nodes@.no_duplicates(),
            edges@.no_duplicates(),
            forall|e: (usize, usize)| #[trigger]
                edges@.contains(e) <==> all.contains(e) && nodes@.take(k as int).contains(e.0),
        decreases nodes@.len() - k,
    {
        let source = nodes[k];
        let out = graph_edges_directed(g, source, EdgeDirection::Outgoing);
        let ghost base = edges@;
        proof {
            lemma_incident_listing(out@, all, source, EdgeDirection::Outgoing);
            lemma_take_next(nodes@, k as int);
        }
        let mut m: usize = 0;
        while m < out.len()
            invariant
                m <= out@.len(),
                edges@ == base + out@.take(m as int),
            decreases out@.len() - m,
        {
            proof {
                assert(out@.take(m + 1) =~= out@.take(m as int).push(out@[m as int]));
            }
            edges.push(out[m]);
            m += 1;
        }
        proof {
            assert(out@.take(m as int) =~= out@);
            let before = nodes@.take(k as int);
            assert forall|a: int, b: int| 0 <= a < base.len() && 0 <= b < out@.len() implies base[a] != out@[b] by {
                assert(base.contains(base[a]));
                assert(out@.contains(out@[b]));
                let c = choose|c: int| 0 <= c < before.len() && before[c] == base[a].0;
                assert(nodes@[c] != nodes@[k as int]);
            }
            lemma_no_dup_in_concat(base, out@);
            assert forall|e: (usize, usize)| #[trigger]
                edges@.contains(e) <==> all.contains(e) && nodes@.take(k + 1).contains(e.0) by {
                vstd::seq_lib::lemma_seq_concat_contains_all_elements(base, out@, e);
            }
        }
        k += 1;
    }
    assert(nodes@.take(k as int) =~= nodes@);
    let mut j: usize = 0;
    while j < starts.len()
        invariant
            j <= starts@.len(),
            all == graph_edges(*g),
            all.no_duplicates(),
            starts@.no_duplicates(),
            forall|v: usize| #[trigger] starts@.contains(v) <==> from@.contains(v),
            forall|v: usize| #[trigger] found@.contains(v) <==> nodes@.contains(v),
            forall|v: usize| #[trigger] nodes@.contains(v) ==> !from@.contains(v),
            edges@.no_duplicates(),
            forall|e: (usize, usize)| #[trigger]
                edges@.contains(e) <==> all.contains(e) && (nodes@.contains(e.0) || (starts@.take(j as int).contains(
                    e.0,
                ) && nodes@.contains(e.1))),
        decreases starts@.len() - j,
    {
        let source = starts[j];
        let out = graph_edges_directed(g, source, EdgeDirection::Outgoing);
        let ghost base = edges@;
        proof {
            lemma_incident_listing(out@, all, source, EdgeDirection::Outgoing);
            lemma_take_next(starts@, j as int);
            assert(starts@.contains(source));
            assert forall|e: (usize, usize)| base.contains(e) implies e.0 != source by {
                if starts@.take(j as int).contains(e.0) {
                    let c = choose|c: int| 0 <= c < j && starts@.take(j as int)[c] == e.0;
                    assert(starts@[c] != starts@[j as int]);
                }
            }
        }
        let mut m: usize = 0;
        while m < out.len()
            invariant
                m <= out@.len(),
                out@.no_duplicates(),
                forall|e: (usize, usize)| #[trigger] out@.contains(e) <==> all.contains(e) && e.0 == source,
                forall|e: (usize, usize)| base.contains(e) ==> e.0 != source,
                forall|v: usize| #[trigger] found@.contains(v) <==> nodes@.contains(v),
                edges@.no_duplicates(),
                forall|e: (usize, usize)| #[trigger]
                    edges@.contains(e) <==> base.contains(e) || (out@.take(m as int).contains(e) && nodes@.contains(
                        e.1,
                    )),
            decreases out@.len() - m,
        {
            let e = out[m];
            proof {
                lemma_take_next(out@, m as int);
                lemma_push_contains(edges@, e);
                assert(out@.contains(e));
                if out@.take(m as int).contains(e) {
                    let c = choose|c: int| 0 <= c < m && out@.take(m as int)[c] == e;
                    assert(out@[c] != out@[m as int]);
                }
            }
            if found.contains(&e.1) {
                edges.push(e);
            }
            m += 1;
        }
        proof {
            assert(out@.take(m as int) =~= out@);
        }
        j += 1;
    }
    proof {
        assert(starts@.take(j as int) =~= starts@);
        lemma_members_in_range(edges@, all, n);
    }
    (nodes, edges)
}

/// Turning all edges round keeps them in range and free of duplicates,
/// and an edge is among the turned ones where its reverse was an edge.
pub proof fn lemma_reversed(edges: Seq<(usize, usize)>, n: nat)
    ensures
        edges_in_range(edges, n) ==> edges_in_range(reversed(edges), n),
        edges.no_duplicates() ==> reversed(edges).no_duplicates(),
        forall|a: usize, b: usize| #[trigger] reversed(edges).contains((a, b)) <==> edges.contains((b, a)),
{
    let r = reversed(edges);
    if edges_in_range(edges, n) {
        assert forall|i: int| 0 <= i < r.len() implies (#[trigger] r[i]).0 < n && r[i].1 < n by {
            assert(edges[i].0 < n);
        }
    }
    if edges.no_duplicates() {
        assert forall|i: int, j: int| 0 <= i < r.len() && 0 <= j < r.len() && i != j implies r[i] != r[j] by {
            assert(edges[i] != edges[j]);
        }
    }
    assert forall|a: usize, b: usize| #[trigger] r.contains((a, b)) <==> edges.contains((b, a)) by {
        if r.contains((a, b)) {
            let i = choose|i: int| 0 <= i < r.len() && r[i] == (a, b);
            assert(edges[i] == (b, a));
        }
        if edges.contains((b, a)) {
            let i = choose|i: int| 0 <= i < edges.len() && edges[i] == (b, a);
            assert(r[i] == (a, b));
        }
    }
}

proof fn lemma_path_turned(edges: Seq<(usize, usize)>, path: Seq<usize>)
    requires
        is_path(reversed(edges), path),
    ensures
        is_path(edges, path.reverse()),
        path.reverse()[0] == path.last(),
        path.reverse().last() == path[0],
{
    let back = path.reverse();
    lemma_reversed(edges, 0);
    assert forall|i: int| 0 <= i < back.len() - 1 implies #[trigger] steps(edges, back, i) by {
        let j = path.len() - 2 - i;
        assert(steps(reversed(edges), path, j));
        assert(back[i] == path[j + 1]);
        assert(back[i + 1] == path[j]);
    }
}

/// A walk along the turned edges is a walk along the edges, taken
/// backwards: `from` reaches `to` along `reversed(edges)` exactly where `to`
/// reaches `from` along `edges`, that is, where `to` is a descendant of
/// `from` in a graph whose edges lead to predecessors.
pub proof fn lemma_reversed_reachable(edges: Seq<(usize, usize)>, from: usize, to: usize)
    ensures
        reachable(reversed(edges), from, to) <==> reachable(edges, to, from),
{
    if reachable(reversed(edges), from, to) {
        let path = choose|path: Seq<usize>|
            #[trigger] is_path(reversed(edges), path) && path[0] == from && path.last() == to;
        lemma_path_turned(edges, path);
        assert(is_path(edges, path.reverse()));
    }
    if reachable(edges, to, from) {
        let path = choose|path: Seq<usize>| #[trigger] is_path(edges, path) && path[0] == to && path.last() == from;
        assert(reversed(reversed(edges)) =~= edges);
        lemma_path_turned(reversed(edges), path);
        assert(is_path(reversed(edges), path.reverse()));
    }
}

/// What is reached from a boundary along the turned edges is what reaches
/// a node of the boundary along the edges.
pub proof fn lemma_reversed_reachable_from_any(edges: Seq<(usize, usize)>, starts: Seq<usize>, to: usize)
    ensures
        reachable_from_any(reversed(edges), starts, to) <==> exists|k: int|
            0 <= k < starts.len() && reachable(edges, to, #[trigger] starts[k]),
{
    if reachable_from_any(reversed(edges), starts, to) {
        let k = choose|k: int| 0 <= k < starts.len() && reachable(reversed(edges), #[trigger] starts[k], to);
        lemma_reversed_reachable(edges, starts[k], to);
    }
    if exists|k: int| 0 <= k < starts.len() && reachable(edges, to, #[trigger] starts[k]) {
        let k = choose|k: int| 0 <= k < starts.len() && reachable(edges, to, #[trigger] starts[k]);
        lemma_reversed_reachable(edges, starts[k], to);
    }
}

} // verus!
