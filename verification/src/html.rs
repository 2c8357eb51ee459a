//! The markup parser: reads a document tree of elements, attributes,
//! text and nothing else from source text; a malformed document yields
//! nothing rather than a partial tree.

use vstd::prelude::*;

verus! {

use crate::dom::{AttrMap, ElementDataV, Node, NodeTypeV, NodeV};
use crate::source::Source;
use crate::text::{is_digit, is_letter, space_run, until_run};
use vstd::string::StringExecFns;

/// A tag-name character: an ASCII letter or digit.
pub open spec fn is_tag_char(c: char) -> bool {
    is_letter(c) || is_digit(c)
}

pub fn tag_char(c: char) -> (r: bool)
    ensures
        r == is_tag_char(c),
{
    crate::text::is_letter_char(c) || crate::text::is_digit_char(c)
}


/// How many consecutive tag-name characters stand at a position.
pub open spec fn tag_run(s: Seq<char>, pos: int) -> nat
    decreases s.len() - pos,
{
    if pos < 0 || pos >= s.len() || !is_tag_char(s[pos]) {
        0
    } else {
        1 + tag_run(s, pos + 1)
    }
}

/// A position that skips exactly the tag-name characters is
/// `pos + tag_run`.
pub proof fn lemma_tag_run_is(s: Seq<char>, pos: int, q: int)
    requires
        0 <= pos <= q <= s.len(),
        forall|i: int| pos <= i < q ==> is_tag_char(#[trigger] s[i]),
        q < s.len() ==> !is_tag_char(s[q]),
    ensures
        pos + tag_run(s, pos) == q,
    decreases q - pos,
{
    if pos < q {
        lemma_tag_run_is(s, pos + 1, q);
    }
}

/// A tag-name run never passes the end of the text.
pub proof fn lemma_tag_run_bound(s: Seq<char>, pos: int)
    requires
        0 <= pos <= s.len(),
    ensures
        pos + tag_run(s, pos) <= s.len(),
    decreases s.len() - pos,
{
    if pos < s.len() && is_tag_char(s[pos]) {
        lemma_tag_run_bound(s, pos + 1);
    }
}

/// One `name="value"` (or single-quoted) attribute from a position:
/// the name, the equals sign, the quoted value; nothing where the
/// equals sign or a quote is missing or the value is unterminated.
pub open spec fn spec_parse_attr(s: Seq<char>, pos: int) -> Option<((Seq<char>, Seq<char>), int)> {
    let e = pos + tag_run(s, pos);
    if e >= s.len() || s[e] != '=' {
        None
    } else if e + 1 >= s.len() || (s[e + 1] != '"' && s[e + 1] != '\'') {
        None
    } else {
        let vend = (e + 2) + until_run(s, e + 2, s[e + 1]);
        if vend >= s.len() {
            None
        } else {
            Some(((s.subrange(pos, e), s.subrange(e + 2, vend)), vend + 1))
        }
    }
}

/// The attributes before the tag's closing `>`: whitespace-separated
/// pairs folded into the map in order, so for a repeated name the last
/// occurrence wins; the cursor stops at the `>`.
pub open spec fn spec_attributes(s: Seq<char>, pos: int, acc: Map<Seq<char>, Seq<char>>) -> Option<
    (Map<Seq<char>, Seq<char>>, int),
>
    decreases s.len() - pos,
{
    let p = pos + space_run(s, pos);
    if pos < 0 || p >= s.len() {
        None
    } else if s[p] == '>' {
        Some((acc, p))
    } else {
        match spec_parse_attr(s, p) {
            Option::None => Option::None,
            Option::Some(((name, value), p2)) => {
                // a parsed attribute consumes text, so this guard
                // cannot fire; it keeps the recursion visibly bounded
                if p2 <= pos || p2 > s.len() {
                    None
                } else {
                    spec_attributes(s, p2, acc.insert(name, value))
                }
            },
        }
    }
}

/// A parsed attribute list ends at the tag's closing `>`.
proof fn lemma_attributes_at_close(s: Seq<char>, pos: int, acc: Map<Seq<char>, Seq<char>>)
    ensures
        spec_attributes(s, pos, acc) matches Some(pair) ==> 0 <= pair.1 < s.len()
            && s[pair.1] == '>',
    decreases s.len() - pos,
{
    if 0 <= pos {
        let p = pos + space_run(s, pos);
        if p < s.len() && s[p] != '>' {
            match spec_parse_attr(s, p) {
                Option::None => {},
                Option::Some(((name, value), p2)) => {
                    if pos < p2 <= s.len() {
                        lemma_attributes_at_close(s, p2, acc.insert(name, value));
                    }
                },
            }
        }
    }
}

/// One node from a position: an element where a tag opens, a text node
/// of everything up to the next tag opener otherwise.
pub open spec fn spec_parse_node(s: Seq<char>, pos: int) -> Option<(NodeV, int)>
    decreases s.len() - pos, 1int,
{
    if pos < 0 || pos >= s.len() {
        None
    } else if s[pos] == '<' {
        spec_parse_element(s, pos)
    } else {
        let q = pos + until_run(s, pos, '<');
        Some(
            (
                NodeV {
                    children: Seq::empty(),
                    node_type: NodeTypeV::Text(s.subrange(pos, q)),
                },
                q,
            ),
        )
    }
}

/// One element from a position: `<`, the tag name, its attributes,
/// `>`, its children in order, then a closing tag whose name must
/// equal the opening tag's; nothing otherwise.
pub open spec fn spec_parse_element(s: Seq<char>, pos: int) -> Option<(NodeV, int)>
    decreases s.len() - pos, 0int,
{
    if pos < 0 || pos >= s.len() || s[pos] != '<' {
        None
    } else {
        let t_end = (pos + 1) + tag_run(s, pos + 1);
        let tag = s.subrange(pos + 1, t_end);
        match spec_attributes(s, t_end, Map::empty()) {
            Option::None => Option::None,
            Option::Some((attributes, p)) => {
                // the attribute list ends at the closing `>` inside the
                // text, so this guard cannot fire; it keeps the
                // recursion visibly bounded
                if p <= pos || p >= s.len() {
                    None
                } else {
                    match spec_nodes(s, p + 1, Seq::empty()) {
                        Option::None => Option::None,
                        Option::Some((children, q)) => {
                            if q >= s.len() || s[q] != '<' {
                                None
                            } else if q + 1 >= s.len() || s[q + 1] != '/' {
                                None
                            } else {
                                let c_end = (q + 2) + tag_run(s, q + 2);
                                if s.subrange(q + 2, c_end) != tag {
                                    None
                                } else if c_end >= s.len() || s[c_end] != '>' {
                                    None
                                } else {
                                    Some(
                                        (
                                            NodeV {
                                                children,
                                                node_type: NodeTypeV::Element(
                                                    ElementDataV { tag_name: tag, attributes },
                                                ),
                                            },
                                            c_end + 1,
                                        ),
                                    )
                                }
                            }
                        },
                    }
                }
            },
        }
    }
}

/// The sibling nodes from a position, whitespace before each dropped,
/// up to the end of the text or a closing tag.
pub open spec fn spec_nodes(s: Seq<char>, pos: int, acc: Seq<NodeV>) -> Option<(Seq<NodeV>, int)>
    decreases s.len() - pos, 2int,
{
    if pos < 0 {
        None
    } else {
        let p = pos + space_run(s, pos);
        if p >= s.len() {
            Some((acc, p))
        } else if p + 2 <= s.len() && s[p] == '<' && s[p + 1] == '/' {
            Some((acc, p))
        } else {
            match spec_parse_node(s, p) {
                Option::None => Option::None,
                Option::Some((node, q)) => {
                    // a parsed node consumes text, so this guard cannot
                    // fire; it keeps the recursion visibly bounded
                    if q <= p || q > s.len() {
                        None
                    } else {
                        spec_nodes(s, q, acc.push(node))
                    }
                },
            }
        }
    }
}

/// The whole document from a position: its top-level nodes; one alone
/// is the root, several (or none) stand under one `html` element.
pub open spec fn spec_parse_document(s: Seq<char>, pos: int) -> Option<(NodeV, int)> {
    match spec_nodes(s, pos, Seq::empty()) {
        Option::None => Option::None,
        Option::Some((nodes, p)) => {
            if nodes.len() == 1 {
                Some((nodes[0], p))
            } else {
                Some(
                    (
                        NodeV {
                            children: nodes,
                            node_type: NodeTypeV::Element(
                                ElementDataV { tag_name: "html"@, attributes: Map::empty() },
                            ),
                        },
                        p,
                    ),
                )
            }
        },
    }
}

/// Reads a document tree from text.
pub struct Parser {
    pub input: Source,
}

impl Parser {
    pub fn new(source: String) -> (r: Parser)
        ensures
            r.input.wf(),
            r.input.source@ == source@,
            r.input.pos == 0,
    {
        Parser { input: Source::new(source) }
    }

    /// The tag name at the cursor: its longest run of letters and
    /// digits, possibly empty.
    fn parse_tag_name(&mut self) -> (r: String)
        requires
            old(self).input.wf(),
        ensures
            final(self).input.wf(),
            final(self).input.source@ == old(self).input.source@,
            old(self).input.pos <= final(self).input.pos,
            r@ == old(self).input.source@.subrange(
                old(self).input.pos as int,
                final(self).input.pos as int,
            ),
            forall|i: int|
                old(self).input.pos <= i < final(self).input.pos ==> is_tag_char(
                    #[trigger] old(self).input.source@[i],
                ),
            !final(self).input.spec_eof() ==> !is_tag_char(
                final(self).input.source@[final(self).input.pos as int],
            ),
            final(self).input.pos == old(self).input.pos + tag_run(
                old(self).input.source@,
                old(self).input.pos as int,
            ),
    {
        let r = self.input.consume_while(tag_char);
        proof {
            assert(forall|i: int|
                old(self).input.pos <= i < self.input.pos ==> is_tag_char(
                    #[trigger] old(self).input.source@[i],
                ));
            if !self.input.spec_eof() {
                assert(!is_tag_char(self.input.source@[self.input.pos as int]));
            }
            lemma_tag_run_is(self.input.source@, old(self).input.pos as int, self.input.pos as int);
        }
        r
    }

    /// One node: an element where the text opens a tag, a text node
    /// otherwise.
    fn parse_node(&mut self) -> (r: Option<Node>)
        requires
            old(self).input.wf(),
            !old(self).input.spec_eof(),
        ensures
            final(self).input.wf(),
            final(self).input.source@ == old(self).input.source@,
            old(self).input.pos <= final(self).input.pos,
            r is Some ==> old(self).input.pos < final(self).input.pos,
            r matches Some(node) ==> (node@.node_type is Element || node@.node_type is Text),
            r is None <==> spec_parse_node(old(self).input.source@, old(self).input.pos as int)
                is None,
            r matches Some(node) ==> spec_parse_node(
                old(self).input.source@,
                old(self).input.pos as int,
            ) == Some((node@, final(self).input.pos as int)),
        decreases old(self).input.source@.len() - old(self).input.pos, 1int,
    {
        if self.input.peek() == '<' {
            self.parse_element()
        } else {
            let node = self.parse_text();
            proof {
                assert(node@ == NodeV {
                    children: Seq::empty(),
                    node_type: NodeTypeV::Text(
                        old(self).input.source@.subrange(
                            old(self).input.pos as int,
                            self.input.pos as int,
                        ),
                    ),
                });
            }
            Some(node)
        }
    }

    /// One element: its opening tag with attributes, its children, and
    /// a matching closing tag.
    fn parse_element(&mut self) -> (r: Option<Node>)
        requires
            old(self).input.wf(),
        ensures
            final(self).input.wf(),
            final(self).input.source@ == old(self).input.source@,
            old(self).input.pos <= final(self).input.pos,
            r is Some ==> old(self).input.pos < final(self).input.pos,
            r matches Some(node) ==> node@.node_type is Element,
            r matches Some(node) ==> match node@.node_type {
                NodeTypeV::Element(ed) => forall|i: int|
                    0 <= i < ed.tag_name.len() ==> is_tag_char(#[trigger] ed.tag_name[i]),
                _ => false,
            },
            r is None <==> spec_parse_element(
                old(self).input.source@,
                old(self).input.pos as int,
            ) is None,
            r matches Some(node) ==> spec_parse_element(
                old(self).input.source@,
                old(self).input.pos as int,
            ) == Some((node@, final(self).input.pos as int)),
        decreases old(self).input.source@.len() - old(self).input.pos, 0int,
    {
        let ghost s = old(self).input.source@;
        let ghost pos0 = old(self).input.pos as int;
        if self.input.eof() {
            return None;
        }
        let c = self.input.consume_char();
        if c != '<' {
            return None;
        }
        let tag_name = self.parse_tag_name();
        let ghost t_end = self.input.pos as int;
        proof {
            lemma_attributes_at_close(s, t_end, Map::empty());
        }
        let attrs = match self.parse_attributes() {
            Some(attrs) => attrs,
            None => {
                return None;
            },
        };
        let ghost p = self.input.pos as int;
        if self.input.eof() {
            return None;
        }
        let c2 = self.input.consume_char();
        if c2 != '>' {
            return None;
        }
        let children = match self.parse_nodes() {
            Some(children) => children,
            None => {
                return None;
            },
        };
        let ghost q = self.input.pos as int;
        if self.input.eof() {
            return None;
        }
        if self.input.consume_char() != '<' {
            return None;
        }
        if self.input.eof() {
            return None;
        }
        if self.input.consume_char() != '/' {
            return None;
        }
        let closing = self.parse_tag_name();
        let ghost c_end = self.input.pos as int;
        if !(closing == tag_name) {
            return None;
        }
        if self.input.eof() {
            return None;
        }
        if self.input.consume_char() != '>' {
            return None;
        }
        let node = Node::elem(tag_name, attrs, children);
        proof {
            crate::dom::lemma_nodes_view(children@);
            assert(node@.children.len() == children@.len());
            assert forall|i: int| 0 <= i < children@.len() implies node@.children[i]
                == crate::dom::nodes_view(children@)[i] by {
                assert(node@.children[i] == children@[i]@);
            }
            assert(node@.children =~= crate::dom::nodes_view(children@));
            assert(spec_parse_element(s, pos0) == Some((node@, self.input.pos as int)));
        }
        Some(node)
    }

    /// A text node: everything up to the next tag opener.
    fn parse_text(&mut self) -> (r: Node)
        requires
            old(self).input.wf(),
            !old(self).input.spec_eof(),
            old(self).input.source@[old(self).input.pos as int] != '<',
        ensures
            final(self).input.wf(),
            final(self).input.source@ == old(self).input.source@,
            old(self).input.pos < final(self).input.pos,
            r@.node_type == NodeTypeV::Text(
                old(self).input.source@.subrange(
                    old(self).input.pos as int,
                    final(self).input.pos as int,
                ),
            ),
            r@.children == Seq::<NodeV>::empty(),
            forall|i: int|
                old(self).input.pos <= i < final(self).input.pos ==> old(self).input.source@[i]
                    != '<',
            !final(self).input.spec_eof()
                ==> final(self).input.source@[final(self).input.pos as int] == '<',
            final(self).input.pos == old(self).input.pos + until_run(
                old(self).input.source@,
                old(self).input.pos as int,
                '<',
            ),
    {
        let text = self.input.consume_until('<');
        Node::text(text)
    }

    /// The attributes of an opening tag, up to the closing `>`, which
    /// is left in place.
    fn parse_attributes(&mut self) -> (r: Option<AttrMap>)
        requires
            old(self).input.wf(),
        ensures
            final(self).input.wf(),
            final(self).input.source@ == old(self).input.source@,
            old(self).input.pos <= final(self).input.pos,
            r is Some ==> !final(self).input.spec_eof()
                && final(self).input.source@[final(self).input.pos as int] == '>',
            r is None <==> spec_attributes(
                old(self).input.source@,
                old(self).input.pos as int,
                Map::empty(),
            ) is None,
            r matches Some(attrs) ==> spec_attributes(
                old(self).input.source@,
                old(self).input.pos as int,
                Map::empty(),
            ) == Some((attrs@, final(self).input.pos as int)),
    {
        let ghost s = old(self).input.source@;
        let ghost pos0 = old(self).input.pos as int;
        let ghost target = spec_attributes(s, pos0, Map::empty());
        let mut attributes = AttrMap::new();
        loop
            invariant
                self.input.wf(),
                self.input.source@ == s,
                s == old(self).input.source@,
                pos0 == old(self).input.pos as int,
                old(self).input.pos <= self.input.pos,
                target == spec_attributes(s, pos0, Map::empty()),
                spec_attributes(s, self.input.pos as int, attributes@) == target,
            ensures
                self.input.wf(),
                self.input.source@ == old(self).input.source@,
                old(self).input.pos <= self.input.pos,
                !self.input.spec_eof(),
                self.input.source@[self.input.pos as int] == '>',
                target == Some((attributes@, self.input.pos as int)),
            decreases self.input.source@.len() - self.input.pos,
        {
            let ghost anchor = self.input.pos as int;
            self.input.consume_whitespace();
            if self.input.eof() {
                return None;
            }
            if self.input.peek() == '>' {
                break;
            }
            match self.parse_attr() {
                Some((name, value)) => {
                    attributes.insert(name, value);
                },
                None => {
                    return None;
                },
            }
        }
        Some(attributes)
    }

    /// One `name="value"` attribute.
    fn parse_attr(&mut self) -> (r: Option<(String, String)>)
        requires
            old(self).input.wf(),
        ensures
            final(self).input.wf(),
            final(self).input.source@ == old(self).input.source@,
            old(self).input.pos <= final(self).input.pos,
            r is Some ==> old(self).input.pos < final(self).input.pos,
            r is None <==> spec_parse_attr(old(self).input.source@, old(self).input.pos as int)
                is None,
            r matches Some(kv) ==> spec_parse_attr(
                old(self).input.source@,
                old(self).input.pos as int,
            ) == Some(((kv.0@, kv.1@), final(self).input.pos as int)),
    {
        let ghost s = old(self).input.source@;
        let ghost pos0 = old(self).input.pos as int;
        let key = self.parse_tag_name();
        if self.input.eof() {
            return None;
        }
        if self.input.consume_char() != '=' {
            return None;
        }
        let value = match self.parse_attr_value() {
            Some(value) => value,
            None => {
                return None;
            },
        };
        Some((key, value))
    }

    /// A quoted attribute value, single or double quotes alike.
    fn parse_attr_value(&mut self) -> (r: Option<String>)
        requires
            old(self).input.wf(),
        ensures
            final(self).input.wf(),
            final(self).input.source@ == old(self).input.source@,
            old(self).input.pos <= final(self).input.pos,
            r is None <==> ({
                let s = old(self).input.source@;
                let pos = old(self).input.pos as int;
                pos >= s.len() || (s[pos] != '"' && s[pos] != '\'') || (pos + 1) + until_run(
                    s,
                    pos + 1,
                    s[pos],
                ) >= s.len()
            }),
            r matches Some(value) ==> ({
                let s = old(self).input.source@;
                let pos = old(self).input.pos as int;
                let vend = (pos + 1) + until_run(s, pos + 1, s[pos]);
                &&& value@ == s.subrange(pos + 1, vend)
                &&& final(self).input.pos == vend + 1
            }),
    {
        if self.input.eof() {
            return None;
        }
        let open_quote = self.input.consume_char();
        if !(open_quote == '"' || open_quote == '\'') {
            return None;
        }
        let value = self.input.consume_until(open_quote);
        if self.input.eof() {
            return None;
        }
        let c = self.input.consume_char();
        if c != open_quote {
            return None;
        }
        Some(value)
    }

    /// Sibling nodes, up to the end of the text or a closing tag.
    fn parse_nodes(&mut self) -> (r: Option<Vec<Node>>)
        requires
            old(self).input.wf(),
        ensures
            final(self).input.wf(),
            final(self).input.source@ == old(self).input.source@,
            old(self).input.pos <= final(self).input.pos,
            r matches Some(nodes) ==> forall|k: int|
                0 <= k < nodes@.len() ==> ((#[trigger] nodes@[k]@).node_type is Element
                    || nodes@[k]@.node_type is Text),
            r is None <==> spec_nodes(
                old(self).input.source@,
                old(self).input.pos as int,
                Seq::empty(),
            ) is None,
            r matches Some(nodes) ==> spec_nodes(
                old(self).input.source@,
                old(self).input.pos as int,
                Seq::empty(),
            ) == Some((crate::dom::nodes_view(nodes@), final(self).input.pos as int)),
        decreases old(self).input.source@.len() - old(self).input.pos, 2int,
    {
        let ghost s = old(self).input.source@;
        let ghost pos0 = old(self).input.pos as int;
        let ghost target = spec_nodes(s, pos0, Seq::empty());
        let mut nodes: Vec<Node> = Vec::new();
        proof {
            crate::dom::lemma_nodes_view(nodes@);
            assert(crate::dom::nodes_view(nodes@) =~= Seq::<NodeV>::empty());
        }
        loop
            invariant
                self.input.wf(),
                self.input.source@ == s,
                s == old(self).input.source@,
                pos0 == old(self).input.pos as int,
                old(self).input.pos <= self.input.pos,
                target == spec_nodes(s, pos0, Seq::empty()),
                spec_nodes(s, self.input.pos as int, crate::dom::nodes_view(nodes@)) == target,
                forall|k: int| 0 <= k < nodes@.len() ==> ((#[trigger] nodes@[k]@).node_type
                    is Element || nodes@[k]@.node_type is Text),
            ensures
                self.input.wf(),
                self.input.source@ == old(self).input.source@,
                old(self).input.pos <= self.input.pos,
                target == Some((crate::dom::nodes_view(nodes@), self.input.pos as int)),
                forall|k: int| 0 <= k < nodes@.len() ==> ((#[trigger] nodes@[k]@).node_type
                    is Element || nodes@[k]@.node_type is Text),
            decreases self.input.source@.len() - self.input.pos,
        {
            self.input.consume_whitespace();
            if self.input.eof() {
                break;
            }
            let closing_next = self.input.starts_with("</");
            proof {
                reveal_strlit("</");
                assert("</"@.len() == 2);
                if closing_next {
                    assert(s[self.input.pos as int] == '<' && s[self.input.pos + 1] == '/') by {
                        assert(s.subrange(
                            self.input.pos as int,
                            self.input.pos + 2,
                        )[0] == s[self.input.pos as int]);
                        assert(s.subrange(
                            self.input.pos as int,
                            self.input.pos + 2,
                        )[1] == s[self.input.pos + 1]);
                    }
                } else {
                    if self.input.pos + 2 <= s.len() && s[self.input.pos as int] == '<'
                        && s[self.input.pos + 1] == '/' {
                        assert(s.subrange(self.input.pos as int, self.input.pos + 2) =~= "</"@);
                        assert(false);
                    }
                }
            }
            if closing_next {
                break;
            }
            match self.parse_node() {
                Some(node) => {
                    let ghost before = nodes@;
                    nodes.push(node);
                    proof {
                        assert(nodes@.subrange(0, nodes@.len() - 1) =~= before);
                        assert(crate::dom::nodes_view(nodes@) =~= crate::dom::nodes_view(
                            before,
                        ).push(node@));
                    }
                },
                None => {
                    return None;
                },
            }
        }
        Some(nodes)
    }

    /// The whole document: its root element, or, where the text holds
    /// several roots or none, those nodes under one `html` element.
    /// Nothing is returned for text that is not well-formed markup.
    pub fn parse(&mut self) -> (r: Option<Node>)
        requires
            old(self).input.wf(),
        ensures
            final(self).input.wf(),
            final(self).input.source@ == old(self).input.source@,
            old(self).input.pos <= final(self).input.pos,
            r matches Some(node) ==> (node@.node_type is Element || node@.node_type is Text),
            r is None <==> spec_parse_document(
                old(self).input.source@,
                old(self).input.pos as int,
            ) is None,
            r matches Some(node) ==> spec_parse_document(
                old(self).input.source@,
                old(self).input.pos as int,
            ) == Some((node@, final(self).input.pos as int)),
    {
        let ghost s = old(self).input.source@;
        let ghost pos0 = old(self).input.pos as int;
        let mut nodes = match self.parse_nodes() {
            Some(nodes) => nodes,
            None => {
                return None;
            },
        };
        let ghost before = nodes@;
        proof {
            crate::dom::lemma_nodes_view(before);
        }
        if nodes.len() == 1 {
            let node = nodes.swap_remove(0);
            proof {
                assert(node == before[0]);
                assert(node@ == crate::dom::nodes_view(before)[0]);
            }
            Some(node)
        } else {
            let node = Node::elem(String::from_str("html"), AttrMap::new(), nodes);
            proof {
                assert(node@.children.len() == before.len());
                assert forall|i: int| 0 <= i < before.len() implies node@.children[i]
                    == crate::dom::nodes_view(before)[i] by {
                    assert(node@.children[i] == before[i]@);
                }
                assert(node@.children =~= crate::dom::nodes_view(before));
                assert(spec_parse_document(s, pos0) == Some((node@, self.input.pos as int)));
            }
            Some(node)
        }
    }
}

} // verus!
