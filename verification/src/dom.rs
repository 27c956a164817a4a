//! The document model: a tree of text and element nodes.

use vstd::prelude::*;

verus! {

/// The attributes of an element: a mapping from names to values in which no
/// name occurs twice.
#[derive(Debug)]
pub struct AttrMap {
    entries: Vec<(String, String)>,
}

/// A node of the document tree, owning its children.
#[derive(Debug)]
pub struct Node {
    pub children: Vec<Node>,
    pub node_type: NodeType,
}

/// The two kinds of node.
#[derive(Debug)]
pub enum NodeType {
    Text(String),
    Element(ElementData),
}

/// What an element carries besides its children.
#[derive(Debug)]
pub struct ElementData {
    pub tag_name: String,
    pub attributes: AttrMap,
}

/// The mathematical value of a [`Node`].
pub struct NodeView {
    pub children: Seq<NodeView>,
    pub node_type: NodeTypeView,
}

/// The mathematical value of a [`NodeType`].
pub enum NodeTypeView {
    Text(Seq<char>),
    Element(ElementDataView),
}

/// The mathematical value of an [`ElementData`].
pub struct ElementDataView {
    pub tag_name: Seq<char>,
    pub attributes: Map<Seq<char>, Seq<char>>,
}

/// Whether no two of `entries` carry the same name.
pub open spec fn names_distinct(entries: Seq<(String, String)>) -> bool {
    forall|i: int, j: int|
        0 <= i < j < entries.len() ==> (#[trigger] entries[i]).0@ != (#[trigger] entries[j]).0@
}

/// Whether one of `entries` carries the name `name`.
pub open spec fn has_name(entries: Seq<(String, String)>, name: Seq<char>) -> bool {
    exists|i: int| 0 <= i < entries.len() && (#[trigger] entries[i]).0@ == name
}

/// The index of an entry that carries the name `name`.
pub open spec fn index_of_name(entries: Seq<(String, String)>, name: Seq<char>) -> int {
    choose|i: int| 0 <= i < entries.len() && (#[trigger] entries[i]).0@ == name
}

/// The mapping that `entries` stand for: each name to the value beside it.
pub open spec fn entries_to_map(entries: Seq<(String, String)>) -> Map<Seq<char>, Seq<char>> {
    Map::new(
        |name: Seq<char>| has_name(entries, name),
        |name: Seq<char>| entries[index_of_name(entries, name)].1@,
    )
}

/// Entries with distinct names stand for a finite mapping with one key for
/// each entry.
pub proof fn lemma_entries_to_map_len(entries: Seq<(String, String)>)
    requires
        names_distinct(entries),
    ensures
        entries_to_map(entries).dom().finite(),
        entries_to_map(entries).dom().len() == entries.len(),
    decreases entries.len(),
{
    if entries.len() == 0 {
        assert(entries_to_map(entries).dom() =~= Set::<Seq<char>>::empty());
    } else {
        let front = entries.drop_last();
        let last = entries.last();
        lemma_entries_to_map_len(front);
        assert forall|name: Seq<char>| has_name(entries, name) <==> (has_name(front, name) || name
            == last.0@) by {
            if has_name(entries, name) {
                let i = index_of_name(entries, name);
                if i < front.len() {
                    assert(front[i].0@ == name);
                }
            }
            if has_name(front, name) {
                let i = index_of_name(front, name);
                assert(entries[i].0@ == name);
            }
            if name == last.0@ {
                assert(entries[entries.len() - 1].0@ == name);
            }
        }
        assert(entries_to_map(entries).dom() =~= entries_to_map(front).dom().insert(last.0@));
        if has_name(front, last.0@) {
            let i = index_of_name(front, last.0@);
            assert(entries[i].0@ == entries[entries.len() - 1].0@);
        }
    }
}

/// Putting a value under a name, over the entry that carries the name or
/// behind all entries where none does, keeps the names distinct and gives the
/// mapping with that one name set.
proof fn lemma_entries_put(
    before: Seq<(String, String)>,
    after: Seq<(String, String)>,
    i: int,
    key: Seq<char>,
    val: Seq<char>,
)
    requires
        names_distinct(before),
        0 <= i <= before.len(),
        forall|j: int| 0 <= j < i ==> (#[trigger] before[j]).0@ != key,
        i < before.len() ==> before[i].0@ == key,
        after.len() == (if i < before.len() {
            before.len()
        } else {
            before.len() + 1
        }),
        forall|j: int| 0 <= j < before.len() && j != i ==> after[j] == before[j],
        after[i].0@ == key,
        after[i].1@ == val,
    ensures
        names_distinct(after),
        entries_to_map(after) == entries_to_map(before).insert(key, val),
{
    assert forall|j: int| 0 <= j < after.len() implies ((#[trigger] after[j]).0@ == key <==> j
        == i) by {
        if j != i {
            assert(after[j] == before[j]);
            if j < i {
                assert(before[j].0@ != key);
            } else {
                assert(before[i].0@ != before[j].0@);
            }
        }
    }
    assert forall|a: int, b: int| 0 <= a < b < after.len() implies (#[trigger] after[a]).0@ != (
    #[trigger] after[b]).0@ by {
        if a != i && b != i {
            assert(before[a].0@ != before[b].0@);
        }
    }
    assert forall|k: Seq<char>| has_name(after, k) <==> (has_name(before, k) || k == key) by {
        if has_name(after, k) {
            let a = index_of_name(after, k);
            if a != i {
                assert(before[a].0@ == k);
            }
        }
        if has_name(before, k) {
            let a = index_of_name(before, k);
            if a != i {
                assert(after[a].0@ == k);
            }
        }
        if k == key {
            assert(after[i].0@ == k);
        }
    }
    assert forall|k: Seq<char>| has_name(after, k) implies entries_to_map(after)[k]
        == entries_to_map(before).insert(key, val)[k] by {
        let a = index_of_name(after, k);
        if k != key {
            assert(before[a].0@ == k);
            let b = index_of_name(before, k);
            if a < b {
                assert(before[a].0@ != before[b].0@);
            } else if b < a {
                assert(before[b].0@ != before[a].0@);
            }
        }
    }
    assert(entries_to_map(after) =~= entries_to_map(before).insert(key, val));
}

impl AttrMap {
    #[verifier::type_invariant]
    spec fn well_formed(&self) -> bool {
        names_distinct(self.entries@)
    }

    /// An empty mapping.
    pub fn new() -> (attrs: AttrMap)
        ensures
            attrs@ == Map::<Seq<char>, Seq<char>>::empty(),
    {
        let attrs = AttrMap { entries: Vec::new() };
        assert(attrs@ =~= Map::<Seq<char>, Seq<char>>::empty());
        attrs
    }

    /// The number of attributes.
    pub fn len(&self) -> (n: usize)
        ensures
            self@.dom().finite(),
            n == self@.len(),
    {
        proof {
            use_type_invariant(self);
            lemma_entries_to_map_len(self.entries@);
        }
        self.entries.len()
    }

    /// Gives `name` the value `value`, in place of the value it had, if any.
    pub fn insert(&mut self, name: String, value: String)
        ensures
            final(self)@ == old(self)@.insert(name@, value@),
    {
        proof {
            use_type_invariant(&*self);
        }
        let ghost before = self.entries@;
        let ghost key = name@;
        let ghost val = value@;
        let mut entries: Vec<(String, String)> = Vec::new();
        core::mem::swap(&mut self.entries, &mut entries);
        let mut i: usize = 0;
        while i < entries.len() && !(entries[i].0 == name)
            invariant
                entries@ == before,
                i <= entries.len(),
                forall|j: int| 0 <= j < i ==> (#[trigger] entries@[j]).0@ != name@,
            decreases entries.len() - i,
        {
            i += 1;
        }
        if i < entries.len() {
            entries.set(i, (name, value));
        } else {
            entries.push((name, value));
        }
        proof {
            lemma_entries_put(before, entries@, i as int, key, val);
        }
        self.entries = entries;
    }

    /// The value that `name` has, if it has one.
    pub fn get(&self, name: &str) -> (value: Option<&String>)
        ensures
            match value {
                Some(v) => self@.contains_key(name@) && v@ == self@[name@],
                None => !self@.contains_key(name@),
            },
    {
        proof {
            use_type_invariant(self);
        }
        let key = name.to_owned();
        let mut i: usize = 0;
        while i < self.entries.len()
            invariant
                key@ == name@,
                i <= self.entries.len(),
                names_distinct(self.entries@),
                forall|j: int| 0 <= j < i ==> (#[trigger] self.entries@[j]).0@ != name@,
            decreases self.entries.len() - i,
        {
            if self.entries[i].0 == key {
                proof {
                    let a = index_of_name(self.entries@, name@);
                    assert(self.entries@[i as int].0@ == name@);
                    if a != i {
                        if a < i {
                            assert(self.entries@[a].0@ != self.entries@[i as int].0@);
                        } else {
                            assert(self.entries@[i as int].0@ != self.entries@[a].0@);
                        }
                    }
                }
                return Some(&self.entries[i].1);
            }
            i += 1;
        }
        None
    }

    /// The attributes as a list of names with their values, each name once.
    pub fn entries(&self) -> (entries: &Vec<(String, String)>)
        ensures
            names_distinct(entries@),
            self@ == entries_to_map(entries@),
    {
        proof {
            use_type_invariant(self);
        }
        &self.entries
    }
}

impl View for AttrMap {
    type V = Map<Seq<char>, Seq<char>>;

    closed spec fn view(&self) -> Map<Seq<char>, Seq<char>> {
        entries_to_map(self.entries@)
    }
}

impl View for ElementData {
    type V = ElementDataView;

    open spec fn view(&self) -> ElementDataView {
        ElementDataView { tag_name: self.tag_name@, attributes: self.attributes@ }
    }
}

impl View for NodeType {
    type V = NodeTypeView;

    open spec fn view(&self) -> NodeTypeView {
        match self {
            NodeType::Text(data) => NodeTypeView::Text(data@),
            NodeType::Element(data) => NodeTypeView::Element(data@),
        }
    }
}

impl View for Node {
    type V = NodeView;

    open spec fn view(&self) -> NodeView
        decreases self,
    {
        NodeView { children: nodes_view(self.children@), node_type: self.node_type@ }
    }
}

/// The mathematical values of a list of nodes, in order.
pub open spec fn nodes_view(nodes: Seq<Node>) -> Seq<NodeView>
    decreases nodes,
{
    Seq::new(
        nodes.len(),
        |i: int|
            if 0 <= i < nodes.len() {
                nodes[i]@
            } else {
                arbitrary()
            },
    )
}

/// The value of a text node that holds `data`.
pub open spec fn text_view(data: Seq<char>) -> NodeView {
    NodeView { children: Seq::empty(), node_type: NodeTypeView::Text(data) }
}

/// The value of an element node with the given name, attributes and children.
pub open spec fn element_view(
    name: Seq<char>,
    attrs: Map<Seq<char>, Seq<char>>,
    children: Seq<NodeView>,
) -> NodeView {
    NodeView {
        children,
        node_type: NodeTypeView::Element(ElementDataView { tag_name: name, attributes: attrs }),
    }
}

/// The name of an element; of a text node, the empty name.
pub open spec fn tag_name_of(node: NodeView) -> Seq<char> {
    match node.node_type {
        NodeTypeView::Element(data) => data.tag_name,
        NodeTypeView::Text(_) => Seq::empty(),
    }
}

/// A text node that holds `data`, without children.
pub fn text_node(data: String) -> (node: Node)
    ensures
        node@ == text_view(data@),
{
    let node = Node { children: Vec::new(), node_type: NodeType::Text(data) };
    assert(nodes_view(node.children@) =~= Seq::empty());
    node
}

/// An element node with the given name, attributes and children.
pub fn element_node(name: String, attrs: AttrMap, children: Vec<Node>) -> (node: Node)
    ensures
        node@ == element_view(name@, attrs@, nodes_view(children@)),
{
    Node {
        children: children,
        node_type: NodeType::Element(ElementData { tag_name: name, attributes: attrs }),
    }
}

} // verus!
