//! The portable node/edge data set handed to a renderer.
use vstd::prelude::*;
use vstd::string::StringExecFns;

verus! {

/// The colors of a data set node.
#[derive(Debug)]
pub struct NodeColor {
    pub border: String,
    pub background: String,
}

/// A node of the data set.
#[derive(Debug)]
pub struct DataSetNode {
    pub id: String,
    pub label: String,
    pub level: i64,
    pub color: NodeColor,
}

/// An edge of the data set.
#[derive(Debug)]
pub struct DataSetEdge {
    pub id: String,
    pub from: String,
    pub to: String,
}

/// The data set containing the events which will be added to the rendered
/// network.
#[derive(Debug)]
pub struct DataSet {
    pub nodes: Vec<DataSetNode>,
    pub edges: Vec<DataSetEdge>,
}

/// What a `DataSetNode` holds, as mathematical values.
pub struct NodeView {
    pub id: Seq<char>,
    pub label: Seq<char>,
    pub level: i64,
    pub border: Seq<char>,
    pub background: Seq<char>,
}

/// What a `DataSetEdge` holds, as mathematical values.
pub struct EdgeView {
    pub id: Seq<char>,
    pub from: Seq<char>,
    pub to: Seq<char>,
}

/// What a `DataSet` holds, as mathematical values.
pub struct DataSetView {
    pub nodes: Seq<NodeView>,
    pub edges: Seq<EdgeView>,
}

impl View for DataSetNode {
    type V = NodeView;

    open spec fn view(&self) -> NodeView {
        NodeView {
            id: self.id@,
            label: self.label@,
            level: self.level,
            border: self.color.border@,
            background: self.color.background@,
        }
    }
}

impl View for DataSetEdge {
    type V = EdgeView;

    open spec fn view(&self) -> EdgeView {
        EdgeView { id: self.id@, from: self.from@, to: self.to@ }
    }
}

impl View for DataSet {
    type V = DataSetView;

    open spec fn view(&self) -> DataSetView {
        DataSetView {
            nodes: Seq::new(self.nodes@.len(), |i: int| self.nodes@[i]@),
            edges: Seq::new(self.edges@.len(), |i: int| self.edges@[i]@),
        }
    }
}

impl NodeView {
    /// The node with `pref` in front of its identifier.
    pub open spec fn with_prefix(self, pref: Seq<char>) -> NodeView {
        NodeView { id: pref + self.id, ..self }
    }
}

impl EdgeView {
    /// The edge with `pref` in front of its identifier and of both its
    /// endpoints.
    pub open spec fn with_prefix(self, pref: Seq<char>) -> EdgeView {
        EdgeView { id: pref + self.id, from: pref + self.from, to: pref + self.to }
    }

    /// The edge between two identifiers: its own identifier is `from`
    /// followed by `to`.
    pub open spec fn between(from: Seq<char>, to: Seq<char>) -> EdgeView {
        EdgeView { id: from + to, from, to }
    }
}

impl DataSetView {
    /// The data set with `pref` in front of every identifier.
    pub open spec fn with_prefix(self, pref: Seq<char>) -> DataSetView {
        DataSetView {
            nodes: Seq::new(self.nodes.len(), |i: int| self.nodes[i].with_prefix(pref)),
            edges: Seq::new(self.edges.len(), |i: int| self.edges[i].with_prefix(pref)),
        }
    }
}

/// Puts `pref` in front of `s`.
fn prepend(s: &mut String, pref: &str)
    ensures
        final(s)@ == pref@ + old(s)@,
{
    let mut r = String::from_str(pref);
    r.append(s.as_str());
    *s = r;
}

impl DataSet {
    /// An empty data set.
    pub fn new() -> (ds: DataSet)
        ensures
            ds@.nodes == Seq::<NodeView>::empty(),
            ds@.edges == Seq::<EdgeView>::empty(),
    {
        let ds = DataSet { nodes: Vec::new(), edges: Vec::new() };
        assert(ds@.nodes =~= Seq::<NodeView>::empty());
        assert(ds@.edges =~= Seq::<EdgeView>::empty());
        ds
    }

    /// Adds the prefix `pref` to the identifiers in the data set, so that
    /// its events can be associated with the view that `pref` names.
    pub fn add_prefix(&mut self, pref: &str)
        ensures
            final(self)@ == old(self)@.with_prefix(pref@),
    {
        let n = self.nodes.len();
        let mut i: usize = 0;
        while i < n
            invariant
                i <= n,
                self.nodes@.len() == n,
                self.edges == old(self).edges,
                old(self).nodes@.len() == n,
                forall|j: int| 0 <= j < i ==> (#[trigger] self.nodes@[j])@ == old(self).nodes@[j]@.with_prefix(pref@),
                forall|j: int| i <= j < n ==> (#[trigger] self.nodes@[j]) == old(self).nodes@[j],
            decreases n - i,
        {
            prepend(&mut self.nodes[i].id, pref);
            i += 1;
        }
        let m = self.edges.len();
        let mut k: usize = 0;
        while k < m
            invariant
                k <= m,
                self.edges@.len() == m,
                old(self).edges@.len() == m,
                self@.nodes == old(self)@.with_prefix(pref@).nodes,
                forall|j: int| 0 <= j < k ==> (#[trigger] self.edges@[j])@ == old(self).edges@[j]@.with_prefix(pref@),
                forall|j: int| k <= j < m ==> (#[trigger] self.edges@[j]) == old(self).edges@[j],
            decreases m - k,
        {
            prepend(&mut self.edges[k].id, pref);
            prepend(&mut self.edges[k].from, pref);
            prepend(&mut self.edges[k].to, pref);
            k += 1;
        }
        assert(self@.edges =~= old(self)@.with_prefix(pref@).edges);
    }
}

/// Prefixing twice is prefixing once with both prefixes: the one added last
/// comes first.
pub proof fn lemma_prefix_composes(ds: DataSetView, first: Seq<char>, second: Seq<char>)
    ensures
        ds.with_prefix(first).with_prefix(second) == ds.with_prefix(second + first),
{
    let a = ds.with_prefix(first).with_prefix(second);
    let b = ds.with_prefix(second + first);
    assert forall|i: int| 0 <= i < ds.nodes.len() implies a.nodes[i] == b.nodes[i] by {
        assert(second + (first + ds.nodes[i].id) =~= (second + first) + ds.nodes[i].id);
    }
    assert forall|i: int| 0 <= i < ds.edges.len() implies a.edges[i] == b.edges[i] by {
        assert(second + (first + ds.edges[i].id) =~= (second + first) + ds.edges[i].id);
        assert(second + (first + ds.edges[i].from) =~= (second + first) + ds.edges[i].from);
        assert(second + (first + ds.edges[i].to) =~= (second + first) + ds.edges[i].to);
    }
    assert(a.nodes =~= b.nodes);
    assert(a.edges =~= b.edges);
}

} // verus!
