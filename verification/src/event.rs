//! The decoded event record and its projection into a data set node.
use vstd::hash_map::StringHashMap;
use vstd::prelude::*;
use vstd::string::StringExecFns;
use crate::data_set::DataSetNode;
use crate::data_set::NodeColor;
use crate::data_set::NodeView;
use crate::seqs::lemma_take_next;

verus! {

/// A named value of an event, kept for display only.
#[derive(Debug)]
pub struct EventField {
    pub name: String,
    pub value: String,
}

/// One event of the room: its identifier, its depth, the identifiers of the
/// events it declares as predecessors, the server it comes from, and the
/// named values that labels are made of.
#[derive(Debug)]
pub struct Event {
    pub event_id: String,
    pub depth: i64,
    pub prev_events: Vec<String>,
    pub origin: String,
    pub fields: Vec<EventField>,
}

/// What an `Event` holds, as mathematical values.
pub struct EventView {
    pub event_id: Seq<char>,
    pub depth: i64,
    pub prev_events: Seq<Seq<char>>,
    pub origin: Seq<char>,
    pub fields: Seq<(Seq<char>, Seq<char>)>,
}

/// The texts of a sequence of strings.
pub open spec fn texts(v: Seq<String>) -> Seq<Seq<char>> {
    Seq::new(v.len(), |i: int| v[i]@)
}

impl View for EventField {
    type V = (Seq<char>, Seq<char>);

    open spec fn view(&self) -> (Seq<char>, Seq<char>) {
        (self.name@, self.value@)
    }
}

impl View for Event {
    type V = EventView;

    open spec fn view(&self) -> EventView {
        EventView {
            event_id: self.event_id@,
            depth: self.depth,
            prev_events: texts(self.prev_events@),
            origin: self.origin@,
            fields: Seq::new(self.fields@.len(), |i: int| self.fields@[i]@),
        }
    }
}

/// The views of a sequence of events.
pub open spec fn event_views(v: Seq<Event>) -> Seq<EventView> {
    Seq::new(v.len(), |i: int| v[i]@)
}

/// The label made of `fields`: the value of each field whose name is among
/// `chosen`, in the order of the fields, each followed by a line break.
pub open spec fn label_of(fields: Seq<(Seq<char>, Seq<char>)>, chosen: Seq<Seq<char>>) -> Seq<char>
    decreases fields.len(),
{
    if fields.len() == 0 {
        Seq::empty()
    } else {
        let head = label_of(fields.drop_last(), chosen);
        if chosen.contains(fields.last().0) {
            head + fields.last().1 + "\n"@
        } else {
            head
        }
    }
}

/// The border color of an event of `origin` as seen from `server`.
pub open spec fn border_of(origin: Seq<char>, server: Seq<char>) -> Seq<char> {
    if origin == server {
        "#006633"@
    } else {
        "#990000"@
    }
}

/// The background color of an event of `origin` as seen from `server`.
pub open spec fn background_of(origin: Seq<char>, server: Seq<char>) -> Seq<char> {
    if origin == server {
        "#009900"@
    } else {
        "#ff6600"@
    }
}

/// The data set node that stands for event `e` when seen from `server`, with
/// a label made of the fields named in `chosen`. Its level is the event's
/// depth; its colors tell an event of the observed server from one of
/// another server.
pub open spec fn node_of(e: EventView, server: Seq<char>, chosen: Seq<Seq<char>>) -> NodeView {
    NodeView {
        id: e.event_id,
        label: label_of(e.fields, chosen),
        level: e.depth,
        border: border_of(e.origin, server),
        background: background_of(e.origin, server),
    }
}

/// Copies a list of strings.
pub fn clone_strings(v: &Vec<String>) -> (r: Vec<String>)
    ensures
        texts(r@) == texts(v@),
{
    let mut r: Vec<String> = Vec::new();
    let mut i: usize = 0;
    while i < v.len()
        invariant
            i <= v@.len(),
            r@.len() == i,
            forall|j: int| 0 <= j < i ==> r@[j]@ == v@[j]@,
        decreases v@.len() - i,
    {
        r.push(v[i].clone());
        i += 1;
    }
    assert(texts(r@) =~= texts(v@));
    r
}

/// Whether `name` is one of `names`.
pub fn is_chosen(names: &Vec<String>, name: &String) -> (b: bool)
    ensures
        b == texts(names@).contains(name@),
{
    let mut i: usize = 0;
    while i < names.len()
        invariant
            i <= names@.len(),
            forall|j: int| 0 <= j < i ==> names@[j]@ != name@,
        decreases names@.len() - i,
    {
        if names[i] == *name {
            assert(texts(names@)[i as int] == name@);
            return true;
        }
        i += 1;
    }
    assert forall|j: int| 0 <= j < texts(names@).len() implies texts(names@)[j] != name@ by {}
    false
}

/// The number of different strings among `v`.
pub fn distinct_count(v: &Vec<String>) -> (n: usize)
    ensures
        n == texts(v@).to_set().len(),
{
    let mut seen: StringHashMap<bool> = StringHashMap::new();
    let mut i: usize = 0;
    assert(seen@.dom() =~= texts(v@).take(0).to_set());
    while i < v.len()
        invariant
            i <= v@.len(),
            seen@.dom() == texts(v@).take(i as int).to_set(),
        decreases v@.len() - i,
    {
        seen.insert(v[i].clone(), true);
        proof {
            lemma_take_next(texts(v@), i as int);
            assert(seen@.dom() =~= texts(v@).take(i + 1).to_set());
        }
        i += 1;
    }
    assert(texts(v@).take(i as int) =~= texts(v@));
    seen.len()
}

impl Clone for EventField {
    fn clone(&self) -> (r: EventField)
        ensures
            r@ == self@,
    {
        EventField { name: self.name.clone(), value: self.value.clone() }
    }
}

impl Clone for Event {
    fn clone(&self) -> (r: Event)
        ensures
            r@ == self@,
    {
        let mut fields: Vec<EventField> = Vec::new();
        let mut i: usize = 0;
        while i < self.fields.len()
            invariant
                i <= self.fields@.len(),
                fields@.len() == i,
                forall|j: int| 0 <= j < i ==> fields@[j]@ == self.fields@[j]@,
            decreases self.fields@.len() - i,
        {
            fields.push(self.fields[i].clone());
            i += 1;
        }
        let r = Event {
            event_id: self.event_id.clone(),
            depth: self.depth,
            prev_events: clone_strings(&self.prev_events),
            origin: self.origin.clone(),
            fields,
        };
        assert(r@.fields =~= self@.fields);
        r
    }
}

impl Event {
    /// The identifiers of the events that this event declares as its
    /// predecessors, in the order in which it declares them.
    pub fn get_prev_events(&self) -> (prev: &Vec<String>)
        ensures
            texts(prev@) == self@.prev_events,
    {
        &self.prev_events
    }

    /// The label of this event: the values of its fields named in `chosen`.
    pub fn label(&self, chosen: &Vec<String>) -> (text: String)
        ensures
            text@ == label_of(self@.fields, texts(chosen@)),
    {
        let mut text = String::new();
        let mut i: usize = 0;
        while i < self.fields.len()
            invariant
                i <= self.fields@.len(),
                text@ == label_of(self@.fields.take(i as int), texts(chosen@)),
            decreases self.fields@.len() - i,
        {
            proof {
                let next = self@.fields.take(i + 1);
                assert(next.drop_last() =~= self@.fields.take(i as int));
                assert(next.last() == self.fields@[i as int]@);
            }
            if is_chosen(chosen, &self.fields[i].name) {
                text.append(self.fields[i].value.as_str());
                text.append("\n");
            }
            i += 1;
        }
        assert(self@.fields.take(i as int) =~= self@.fields);
        text
    }

    /// The data set node that stands for this event when seen from
    /// `server_name`, labelled with the fields named in `fields`.
    pub fn to_data_set_node(&self, server_name: &str, fields: &Vec<String>) -> (node: DataSetNode)
        ensures
            node@ == node_of(self@, server_name@, texts(fields@)),
    {
        let server = String::from_str(server_name);
        let local = self.origin == server;
        let color = if local {
            NodeColor {
                border: String::from_str("#006633"),
                background: String::from_str("#009900"),
            }
        } else {
            NodeColor {
                border: String::from_str("#990000"),
                background: String::from_str("#ff6600"),
            }
        };
        DataSetNode {
            id: self.event_id.clone(),
            label: self.label(fields),
            level: self.depth,
            color,
        }
    }
}

} // verus!
