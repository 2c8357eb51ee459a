//! The document tree: text, comment and element nodes, where an element
//! carries a tag name and an attribute map.

use vstd::prelude::*;

verus! {

use crate::text::{string_of, push_char, push_chars, string_eq_str};
use vstd::string::StringExecFns;

broadcast use vstd::std_specs::vec::group_vec_axioms;

/// An attribute map: names to values, order of lookup irrelevant.
/// Later insertions of the same name replace earlier ones.
#[derive(Debug, PartialEq)]
pub struct AttrMap {
    pub entries: Vec<(String, String)>,
}

/// The mapping an entry list denotes: entries folded left to right,
/// so the latest entry for a name wins.
pub open spec fn map_of(entries: Seq<(String, String)>) -> Map<Seq<char>, Seq<char>>
    decreases entries.len(),
{
    if entries.len() == 0 {
        Map::empty()
    } else {
        map_of(entries.drop_last()).insert(entries.last().0@, entries.last().1@)
    }
}

impl View for AttrMap {
    type V = Map<Seq<char>, Seq<char>>;

    open spec fn view(&self) -> Map<Seq<char>, Seq<char>> {
        map_of(self.entries@)
    }
}

/// A name missing from every entry is missing from the mapping.
proof fn lemma_map_of_absent(entries: Seq<(String, String)>, name: Seq<char>)
    requires
        forall|i: int| 0 <= i < entries.len() ==> (#[trigger] entries[i]).0@ != name,
    ensures
        !map_of(entries).contains_key(name),
    decreases entries.len(),
{
    if entries.len() > 0 {
        assert(forall|i: int|
            0 <= i < entries.drop_last().len() ==> (#[trigger] entries.drop_last()[i]).0@
                != name) by {
            assert(forall|i: int|
                0 <= i < entries.drop_last().len() ==> entries.drop_last()[i] == entries[i]);
        }
        lemma_map_of_absent(entries.drop_last(), name);
    }
}

/// The mapping sends a name to the value of its last entry.
proof fn lemma_map_of_found(entries: Seq<(String, String)>, i: int)
    requires
        0 <= i < entries.len(),
        forall|j: int| i < j < entries.len() ==> (#[trigger] entries[j]).0@ != entries[i].0@,
    ensures
        map_of(entries).contains_key(entries[i].0@),
        map_of(entries)[entries[i].0@] == entries[i].1@,
    decreases entries.len(),
{
    if i == entries.len() - 1 {
    } else {
        assert(entries.drop_last()[i] == entries[i]);
        assert(forall|j: int|
            i < j < entries.drop_last().len() ==> (#[trigger] entries.drop_last()[j]).0@
                != entries.drop_last()[i].0@) by {
            assert(forall|j: int|
                0 <= j < entries.drop_last().len() ==> entries.drop_last()[j] == entries[j]);
        }
        lemma_map_of_found(entries.drop_last(), i);
        assert(entries.last().0@ != entries[i].0@);
    }
}

impl AttrMap {
    pub fn new() -> (r: AttrMap)
        ensures
            r@ == Map::<Seq<char>, Seq<char>>::empty(),
    {
        AttrMap { entries: Vec::new() }
    }

    /// Binds a name to a value, replacing any earlier binding.
    pub fn insert(&mut self, name: String, value: String)
        ensures
            final(self)@ == old(self)@.insert(name@, value@),
    {
        let ghost before = self.entries@;
        let ghost n = name@;
        let ghost v = value@;
        self.entries.push((name, value));
        proof {
            assert(self.entries@.drop_last() =~= before);
        }
    }

    /// Looks a name up.
    pub fn get(&self, name: &str) -> (r: Option<&String>)
        ensures
            match r {
                Some(value) => self@.contains_key(name@) && value@ == self@[name@],
                None => !self@.contains_key(name@),
            },
    {
        let mut i: usize = self.entries.len();
        while i > 0
            invariant
                i <= self.entries@.len(),
                forall|j: int| i <= j < self.entries@.len() ==> (#[trigger] self.entries@[j]).0@
                    != name@,
            decreases i,
        {
            i = i - 1;
            if string_eq_str(&self.entries[i].0, name) {
                proof {
                    lemma_map_of_found(self.entries@, i as int);
                }
                return Some(&self.entries[i].1);
            }
        }
        proof {
            lemma_map_of_absent(self.entries@, name@);
        }
        None
    }

    /// A copy with the same mapping.
    pub fn duplicate(&self) -> (r: AttrMap)
        ensures
            r@ == self@,
            r.entries@.len() == self.entries@.len(),
            forall|i: int| 0 <= i < r.entries@.len() ==> (#[trigger] r.entries@[i]).0@
                == self.entries@[i].0@ && r.entries@[i].1@ == self.entries@[i].1@,
    {
        let mut entries: Vec<(String, String)> = Vec::new();
        let mut i: usize = 0;
        while i < self.entries.len()
            invariant
                i <= self.entries@.len(),
                entries@.len() == i,
                forall|j: int| 0 <= j < i ==> (#[trigger] entries@[j]).0@ == self.entries@[j].0@
                    && entries@[j].1@ == self.entries@[j].1@,
            decreases self.entries@.len() - i,
        {
            let name = self.entries[i].0.clone();
            let value = self.entries[i].1.clone();
            entries.push((name, value));
            i = i + 1;
        }
        let r = AttrMap { entries };
        proof {
            lemma_map_of_congruent(r.entries@, self.entries@);
        }
        r
    }
}

/// Entry lists equal name for name and value for value denote one mapping.
proof fn lemma_map_of_congruent(a: Seq<(String, String)>, b: Seq<(String, String)>)
    requires
        a.len() == b.len(),
        forall|i: int| 0 <= i < a.len() ==> (#[trigger] a[i]).0@ == b[i].0@ && a[i].1@ == b[i].1@,
    ensures
        map_of(a) == map_of(b),
    decreases a.len(),
{
    if a.len() > 0 {
        assert(forall|i: int|
            0 <= i < a.drop_last().len() ==> (#[trigger] a.drop_last()[i]).0@ == b.drop_last()[i].0@
                && a.drop_last()[i].1@ == b.drop_last()[i].1@) by {
            assert(forall|i: int| 0 <= i < a.drop_last().len() ==> a.drop_last()[i] == a[i]);
            assert(forall|i: int| 0 <= i < b.drop_last().len() ==> b.drop_last()[i] == b[i]);
        }
        lemma_map_of_congruent(a.drop_last(), b.drop_last());
    }
}

/// An element: a tag name and its attributes.
#[derive(Debug, PartialEq)]
pub struct ElementData {
    pub tag_name: String,
    pub attributes: AttrMap,
}

/// The mathematical shape of an element.
pub struct ElementDataV {
    pub tag_name: Seq<char>,
    pub attributes: Map<Seq<char>, Seq<char>>,
}

impl View for ElementData {
    type V = ElementDataV;

    open spec fn view(&self) -> ElementDataV {
        ElementDataV { tag_name: self.tag_name@, attributes: self.attributes@ }
    }
}

/// The element's `id` attribute, if any.
pub open spec fn spec_id(e: ElementDataV) -> Option<Seq<char>> {
    if e.attributes.contains_key("id"@) {
        Some(e.attributes["id"@])
    } else {
        None
    }
}

/// The index of the first space in a sequence, or -1 when there is none.
pub open spec fn first_space(s: Seq<char>) -> int
    decreases s.len(),
{
    if s.len() == 0 {
        -1
    } else if s[0] == ' ' {
        0
    } else {
        let r = first_space(s.subrange(1, s.len() as int));
        if r < 0 {
            -1
        } else {
            1 + r
        }
    }
}

proof fn lemma_first_space_bounds(s: Seq<char>)
    ensures
        -1 <= first_space(s) < s.len(),
        first_space(s) >= 0 ==> s[first_space(s)] == ' ',
        forall|i: int| 0 <= i < s.len() && i < first_space(s) ==> s[i] != ' ',
        first_space(s) == -1 ==> forall|i: int| 0 <= i < s.len() ==> s[i] != ' ',
    decreases s.len(),
{
    if s.len() == 0 {
    } else if s[0] == ' ' {
    } else {
        lemma_first_space_bounds(s.subrange(1, s.len() as int));
        assert(forall|i: int| 1 <= i < s.len() ==> s[i] == s.subrange(1, s.len() as int)[i - 1]);
    }
}

/// Where a space stands at `i` and none before it, `i` is the first space.
proof fn lemma_first_space_at(s: Seq<char>, i: int)
    requires
        0 <= i < s.len(),
        s[i] == ' ',
        forall|j: int| 0 <= j < i ==> s[j] != ' ',
    ensures
        first_space(s) == i,
    decreases s.len(),
{
    if i == 0 {
    } else {
        lemma_first_space_at(s.subrange(1, s.len() as int), i - 1);
    }
}

/// The pieces of a sequence split at every space, as Rust's `split(' ')`
/// yields them: `n` spaces give `n + 1` pieces, empty pieces included.
pub open spec fn split_spaces(s: Seq<char>) -> Seq<Seq<char>>
    decreases s.len(),
    via split_spaces_decreases
{
    let i = first_space(s);
    if i < 0 {
        seq![s]
    } else {
        seq![s.subrange(0, i)] + split_spaces(s.subrange(i + 1, s.len() as int))
    }
}

#[via_fn]
proof fn split_spaces_decreases(s: Seq<char>) {
    lemma_first_space_bounds(s);
}

/// The classes of an element: its `class` attribute split on spaces, or
/// nothing when the attribute is absent.
pub open spec fn spec_classes(e: ElementDataV) -> Seq<Seq<char>> {
    if e.attributes.contains_key("class"@) {
        split_spaces(e.attributes["class"@])
    } else {
        Seq::empty()
    }
}

/// Splits a string at every space.
pub fn split_on_spaces(s: &String) -> (r: Vec<String>)
    ensures
        r@.map_values(|piece: String| piece@) == split_spaces(s@),
{
    let chars = crate::text::chars_of(s.as_str());
    let n = chars.len();
    let mut out: Vec<String> = Vec::new();
    let mut piece: Vec<char> = Vec::new();
    let mut i: usize = 0;
    proof {
        assert(s@.subrange(0, s@.len() as int) =~= s@);
        assert(out@.map_values(|p: String| p@) + split_spaces(s@) =~= split_spaces(s@));
    }
    while i < n
        invariant
            n == s@.len(),
            i <= n,
            chars@ == s@,
            piece@.len() <= i,
            piece@ == s@.subrange(i - piece@.len(), i as int),
            forall|j: int| i - piece@.len() <= j < i ==> s@[j] != ' ',
            split_spaces(s@) == out@.map_values(|p: String| p@) + split_spaces(
                s@.subrange(i - piece@.len(), s@.len() as int),
            ),
        decreases n - i,
    {
        let c = chars[i];
        if c == ' ' {
            let ghost plen = piece@.len() as int;
            let ghost tail = s@.subrange(i - plen, s@.len() as int);
            proof {
                assert(tail[plen] == ' ');
                assert(forall|j: int| 0 <= j < plen ==> tail[j] != ' ') by {
                    assert(forall|j: int| 0 <= j < plen ==> tail[j] == s@[i - plen + j]);
                }
                lemma_first_space_at(tail, plen);
                assert(tail.subrange(0, plen) =~= piece@);
                assert(tail.subrange(plen + 1, tail.len() as int) =~= s@.subrange(
                    i + 1,
                    s@.len() as int,
                ));
            }
            let finished = string_of(&piece);
            let ghost out_before = out@;
            out.push(finished);
            piece = Vec::new();
            i = i + 1;
            proof {
                assert(out@.map_values(|p: String| p@) =~= out_before.map_values(
                    |p: String| p@,
                ).push(tail.subrange(0, plen)));
                assert(piece@ =~= s@.subrange(i as int, i as int));
                assert(out_before.map_values(|p: String| p@) + split_spaces(tail)
                    =~= out@.map_values(|p: String| p@) + split_spaces(
                    s@.subrange(i as int, s@.len() as int),
                ));
            }
        } else {
            piece.push(c);
            i = i + 1;
            proof {
                assert(piece@ =~= s@.subrange(i - piece@.len(), i as int));
            }
        }
    }
    let ghost plen = piece@.len() as int;
    let ghost tail = s@.subrange(i - plen, s@.len() as int);
    proof {
        assert(tail =~= piece@);
        assert(forall|j: int| 0 <= j < tail.len() ==> tail[j] != ' ') by {
            assert(forall|j: int| 0 <= j < tail.len() ==> tail[j] == s@[i - plen + j]);
        }
        if first_space(tail) >= 0 {
            lemma_first_space_bounds(tail);
        }
        assert(split_spaces(tail) =~= seq![piece@]);
    }
    let last = string_of(&piece);
    let ghost out_before = out@;
    out.push(last);
    proof {
        assert(out@.map_values(|p: String| p@) =~= out_before.map_values(|p: String| p@).push(
            piece@,
        ));
        assert(out_before.map_values(|p: String| p@) + split_spaces(tail) =~= out@.map_values(
            |p: String| p@,
        ));
    }
    out
}

impl ElementData {
    pub fn tag_name(&self) -> (r: &String)
        ensures
            r@ == self@.tag_name,
    {
        &self.tag_name
    }

    /// The value of the `id` attribute, if any.
    pub fn id(&self) -> (r: Option<&String>)
        ensures
            match r {
                Some(value) => spec_id(self@) == Some(value@),
                None => spec_id(self@) is None,
            },
    {
        self.attributes.get("id")
    }

    /// The element's classes: the `class` attribute split on spaces.
    pub fn classes(&self) -> (r: Vec<String>)
        ensures
            r@.map_values(|piece: String| piece@) == spec_classes(self@),
    {
        match self.attributes.get("class") {
            Some(value) => split_on_spaces(value),
            None => {
                let r: Vec<String> = Vec::new();
                proof {
                    assert(r@.map_values(|piece: String| piece@) =~= Seq::<Seq<char>>::empty());
                }
                r
            },
        }
    }
}

/// A copy of a node's own data with the same shape.
pub fn clone_node_type(node_type: &NodeType) -> (r: NodeType)
    ensures
        r@ == node_type@,
{
    match node_type {
        NodeType::Text(data) => NodeType::Text(data.clone()),
        NodeType::Comment(data) => NodeType::Comment(data.clone()),
        NodeType::Element(data) => NodeType::Element(
            ElementData { tag_name: data.tag_name.clone(), attributes: data.attributes.duplicate() },
        ),
    }
}

/// What a node is: text, an element, or a comment.
#[derive(Debug, PartialEq)]
pub enum NodeType {
    Text(String),
    Element(ElementData),
    Comment(String),
}

/// The mathematical shape of a node's own data.
pub enum NodeTypeV {
    Text(Seq<char>),
    Element(ElementDataV),
    Comment(Seq<char>),
}

impl View for NodeType {
    type V = NodeTypeV;

    open spec fn view(&self) -> NodeTypeV {
        match self {
            NodeType::Text(data) => NodeTypeV::Text(data@),
            NodeType::Element(data) => NodeTypeV::Element(data@),
            NodeType::Comment(data) => NodeTypeV::Comment(data@),
        }
    }
}

/// A node of the document tree.
#[derive(Debug, PartialEq)]
pub struct Node {
    pub children: Vec<Node>,
    pub node_type: NodeType,
}

/// The mathematical shape of a node.
pub struct NodeV {
    pub children: Seq<NodeV>,
    pub node_type: NodeTypeV,
}

/// The shape of a node, child views in order.
pub open spec fn node_view(node: Node) -> NodeV
    decreases node,
{
    NodeV { children: nodes_view(node.children@), node_type: node.node_type@ }
}

/// The shapes of a sequence of nodes, in order.
pub open spec fn nodes_view(nodes: Seq<Node>) -> Seq<NodeV>
    decreases nodes,
{
    if nodes.len() == 0 {
        Seq::empty()
    } else {
        nodes_view(nodes.subrange(0, nodes.len() - 1)).push(node_view(nodes[nodes.len() - 1]))
    }
}

pub broadcast proof fn lemma_nodes_view(nodes: Seq<Node>)
    ensures
        (#[trigger] nodes_view(nodes)).len() == nodes.len(),
        forall|i: int| 0 <= i < nodes.len() ==> nodes_view(nodes)[i] == node_view(nodes[i]),
    decreases nodes,
{
    if nodes.len() > 0 {
        lemma_nodes_view(nodes.subrange(0, nodes.len() - 1));
        assert(forall|i: int|
            0 <= i < nodes.len() - 1 ==> nodes.subrange(0, nodes.len() - 1)[i] == nodes[i]);
    }
}

impl View for Node {
    type V = NodeV;

    open spec fn view(&self) -> NodeV {
        node_view(*self)
    }
}


/// The rendered form of an attribute list: one ` name="value"` for
/// each entry, in order.
pub open spec fn render_attrs(entries: Seq<(String, String)>) -> Seq<char>
    decreases entries.len(),
{
    if entries.len() == 0 {
        Seq::empty()
    } else {
        render_attrs(entries.drop_last()) + seq![' '] + entries.last().0@ + seq!['=', '"']
            + entries.last().1@ + seq!['"']
    }
}

/// The rendered form of a node at a given indentation: text and
/// comments on lines of their own; an element as its opening tag with
/// attributes, its children two spaces deeper, and its closing tag.
pub open spec fn render_node(node: Node, indent: Seq<char>) -> Seq<char>
    decreases node, 1int,
{
    match node.node_type {
        NodeType::Text(text) => indent + text@ + seq!['\n'],
        NodeType::Comment(text) => indent + text@ + seq!['\n'],
        NodeType::Element(elem) => indent + seq!['<'] + elem.tag_name@ + render_attrs(
            elem.attributes.entries@,
        ) + seq!['>', '\n'] + render_children(node.children@, indent + seq![' ', ' ']) + indent
            + seq!['<', '/'] + elem.tag_name@ + seq!['>', '\n'],
    }
}

/// The rendered forms of a sequence of nodes, in order.
pub open spec fn render_children(nodes: Seq<Node>, indent: Seq<char>) -> Seq<char>
    decreases nodes, 0int,
{
    if nodes.len() == 0 {
        Seq::empty()
    } else {
        render_children(nodes.subrange(0, nodes.len() - 1), indent) + render_node(
            nodes[nodes.len() - 1],
            indent,
        )
    }
}

/// An indentation two spaces deeper.
fn deeper_indent(indent: &Vec<char>) -> (r: Vec<char>)
    ensures
        r@ == indent@ + seq![' ', ' '],
{
    let mut r = crate::text::sub_chars(indent, 0, indent.len());
    r.push(' ');
    r.push(' ');
    proof {
        assert(r@ =~= indent@ + seq![' ', ' ']);
    }
    r
}

/// Appends the rendered attributes to a string.
fn print_attrs(attrs: &AttrMap, out: &mut String)
    ensures
        final(out)@ == old(out)@ + render_attrs(attrs.entries@),
{
    let mut i: usize = 0;
    proof {
        assert(attrs.entries@.subrange(0, 0) =~= Seq::<(String, String)>::empty());
        assert(out@ =~= old(out)@ + render_attrs(attrs.entries@.subrange(0, 0)));
    }
    while i < attrs.entries.len()
        invariant
            i <= attrs.entries@.len(),
            out@ == old(out)@ + render_attrs(attrs.entries@.subrange(0, i as int)),
        decreases attrs.entries@.len() - i,
    {
        push_char(out, ' ');
        out.append(attrs.entries[i].0.as_str());
        push_char(out, '=');
        push_char(out, '"');
        out.append(attrs.entries[i].1.as_str());
        push_char(out, '"');
        proof {
            let prefix = attrs.entries@.subrange(0, i + 1);
            assert(prefix.drop_last() =~= attrs.entries@.subrange(0, i as int));
            assert(prefix.last() == attrs.entries@[i as int]);
            assert(out@ =~= old(out)@ + render_attrs(prefix));
        }
        i = i + 1;
    }
    proof {
        assert(attrs.entries@.subrange(0, attrs.entries@.len() as int) =~= attrs.entries@);
    }
}

/// Appends the rendered form of a node to a string.
fn print_node(node: &Node, indent: &Vec<char>, out: &mut String)
    ensures
        final(out)@ == old(out)@ + render_node(*node, indent@),
    decreases *node,
{
    match &node.node_type {
        NodeType::Text(text) => {
            push_chars(out, indent);
            out.append(text.as_str());
            push_char(out, '\n');
            proof {
                assert(out@ =~= old(out)@ + render_node(*node, indent@));
            }
        },
        NodeType::Comment(text) => {
            push_chars(out, indent);
            out.append(text.as_str());
            push_char(out, '\n');
            proof {
                assert(out@ =~= old(out)@ + render_node(*node, indent@));
            }
        },
        NodeType::Element(elem) => {
            push_chars(out, indent);
            push_char(out, '<');
            out.append(elem.tag_name.as_str());
            print_attrs(&elem.attributes, out);
            push_char(out, '>');
            push_char(out, '\n');
            let deeper = deeper_indent(indent);
            let ghost base = out@;
            proof {
                assert(node.children@.subrange(0, 0) =~= Seq::<Node>::empty());
                assert(out@ =~= base + render_children(node.children@.subrange(0, 0), deeper@));
            }
            let mut i: usize = 0;
            while i < node.children.len()
                invariant
                    i <= node.children@.len(),
                    deeper@ == indent@ + seq![' ', ' '],
                    out@ == base + render_children(node.children@.subrange(0, i as int), deeper@),
                decreases node.children@.len() - i,
            {
                proof {
                    assert(decreases_to!(*node => node.children));
                    assert(decreases_to!(node.children => node.children@));
                    assert(decreases_to!(node.children@ => node.children@[i as int]));
                }
                print_node(&node.children[i], &deeper, out);
                proof {
                    let prefix = node.children@.subrange(0, i + 1);
                    assert(prefix.subrange(0, prefix.len() - 1) =~= node.children@.subrange(
                        0,
                        i as int,
                    ));
                    assert(prefix[prefix.len() - 1] == node.children@[i as int]);
                    assert(out@ =~= base + render_children(prefix, deeper@));
                }
                i = i + 1;
            }
            proof {
                assert(node.children@.subrange(0, node.children@.len() as int)
                    =~= node.children@);
            }
            push_chars(out, indent);
            push_char(out, '<');
            push_char(out, '/');
            out.append(elem.tag_name.as_str());
            push_char(out, '>');
            push_char(out, '\n');
            proof {
                assert(out@ =~= old(out)@ + render_node(*node, indent@));
            }
        },
    }
}

impl Node {
    /// A text node.
    pub fn text(data: String) -> (r: Node)
        ensures
            r@.node_type == NodeTypeV::Text(data@),
            r@.children == Seq::<NodeV>::empty(),
    {
        let r = Node { children: Vec::new(), node_type: NodeType::Text(data) };
        proof {
            lemma_nodes_view(r.children@);
            assert(r@.children =~= Seq::<NodeV>::empty());
        }
        r
    }

    /// An element node.
    pub fn elem(name: String, attrs: AttrMap, children: Vec<Node>) -> (r: Node)
        ensures
            r@.node_type == NodeTypeV::Element(
                ElementDataV { tag_name: name@, attributes: attrs@ },
            ),
            r@.children.len() == children@.len(),
            forall|i: int| 0 <= i < children@.len() ==> r@.children[i] == #[trigger] children@[i]@,
    {
        let r = Node {
            children,
            node_type: NodeType::Element(ElementData { tag_name: name, attributes: attrs }),
        };
        proof {
            lemma_nodes_view(r.children@);
        }
        r
    }

    /// A comment node.
    pub fn comment(data: String) -> (r: Node)
        ensures
            r@.node_type == NodeTypeV::Comment(data@),
            r@.children == Seq::<NodeV>::empty(),
    {
        let r = Node { children: Vec::new(), node_type: NodeType::Comment(data) };
        proof {
            lemma_nodes_view(r.children@);
            assert(r@.children =~= Seq::<NodeV>::empty());
        }
        r
    }

    /// The tree rendered as indented lines, two spaces per level.
    pub fn pretty_print(&self) -> (r: String)
        ensures
            r@ == render_node(*self, Seq::<char>::empty()),
    {
        let mut out = String::new();
        let indent: Vec<char> = Vec::new();
        print_node(self, &indent, &mut out);
        proof {
            assert(out@ =~= render_node(*self, Seq::<char>::empty()));
        }
        out
    }
}

} // verus!
