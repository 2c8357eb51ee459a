//! The box tree: one box per block or inline element, with inline runs
//! under a block parent grouped into synthesized anonymous block boxes,
//! and `display: none` subtrees pruned.

use vstd::prelude::*;

verus! {

use crate::css::ValueV;
use crate::dom::{clone_node_type, NodeType, NodeTypeV};
use crate::style::{
    spec_display, styleds_view, Display, PropertyMap, StyledNode, StyledNodeV, lemma_styleds_view,
};

broadcast use vstd::std_specs::vec::group_vec_axioms;

/// The styled element a box refers to: the node's own data and its
/// resolved properties.
#[derive(Debug, PartialEq)]
pub struct StyledData {
    pub node_type: NodeType,
    pub css_props: PropertyMap,
}

/// The mathematical shape of a box's styled element.
pub struct StyledDataV {
    pub node_type: NodeTypeV,
    pub css_props: Map<Seq<char>, ValueV>,
}

impl View for StyledData {
    type V = StyledDataV;

    open spec fn view(&self) -> StyledDataV {
        StyledDataV { node_type: self.node_type@, css_props: self.css_props@ }
    }
}

/// What a box is: a block box or inline box for a styled element, or an
/// anonymous block, a pure structural wrapper with no element.
#[derive(Debug, PartialEq)]
pub enum BoxType {
    Block(StyledData),
    Inline(StyledData),
    AnonymousBlock,
}

/// The mathematical shape of a box's kind.
pub enum BoxTypeV {
    Block(StyledDataV),
    Inline(StyledDataV),
    AnonymousBlock,
}

impl View for BoxType {
    type V = BoxTypeV;

    open spec fn view(&self) -> BoxTypeV {
        match self {
            BoxType::Block(data) => BoxTypeV::Block(data@),
            BoxType::Inline(data) => BoxTypeV::Inline(data@),
            BoxType::AnonymousBlock => BoxTypeV::AnonymousBlock,
        }
    }
}

/// A box of the layout tree, with its child boxes in order.
#[derive(Debug, PartialEq)]
pub struct LayoutBox {
    pub box_type: BoxType,
    pub children: Vec<LayoutBox>,
}

/// The mathematical shape of a layout box.
pub struct LayoutBoxV {
    pub box_type: BoxTypeV,
    pub children: Seq<LayoutBoxV>,
}

/// The shape of a box, child views in order.
pub open spec fn box_view(b: LayoutBox) -> LayoutBoxV
    decreases b,
{
    LayoutBoxV { box_type: b.box_type@, children: boxes_view(b.children@) }
}

/// The shapes of a sequence of boxes, in order.
pub open spec fn boxes_view(boxes: Seq<LayoutBox>) -> Seq<LayoutBoxV>
    decreases boxes,
{
    if boxes.len() == 0 {
        Seq::empty()
    } else {
        boxes_view(boxes.subrange(0, boxes.len() - 1)).push(box_view(boxes[boxes.len() - 1]))
    }
}

pub broadcast proof fn lemma_boxes_view(boxes: Seq<LayoutBox>)
    ensures
        (#[trigger] boxes_view(boxes)).len() == boxes.len(),
        forall|i: int| 0 <= i < boxes.len() ==> boxes_view(boxes)[i] == box_view(boxes[i]),
    decreases boxes,
{
    if boxes.len() > 0 {
        lemma_boxes_view(boxes.subrange(0, boxes.len() - 1));
        assert(forall|i: int|
            0 <= i < boxes.len() - 1 ==> boxes.subrange(0, boxes.len() - 1)[i] == boxes[i]);
    }
}

impl View for LayoutBox {
    type V = LayoutBoxV;

    open spec fn view(&self) -> LayoutBoxV {
        box_view(*self)
    }
}

/// The one error this core raises: a root whose resolved display is
/// `none` cannot be laid out.
#[derive(Debug, PartialEq, Eq, Structural, Clone, Copy)]
pub enum LayoutError {
    UnlayoutableRoot,
}

impl LayoutBox {
    /// An empty box of the given kind.
    pub fn new(box_type: BoxType) -> (r: LayoutBox)
        ensures
            r@.box_type == box_type@,
            r@.children == Seq::<LayoutBoxV>::empty(),
            r.children@ == Seq::<LayoutBox>::empty(),
    {
        let r = LayoutBox { box_type, children: Vec::new() };
        proof {
            lemma_boxes_view(r.children@);
            assert(r@.children =~= Seq::<LayoutBoxV>::empty());
            assert(r.children@ =~= Seq::<LayoutBox>::empty());
        }
        r
    }
}

/// The styled element a styled node carries, without its children.
pub open spec fn data_of(s: StyledNodeV) -> StyledDataV {
    StyledDataV { node_type: s.node_type, css_props: s.css_props }
}

/// The kind of box a styled node gets: block for `display: block`,
/// inline otherwise.
pub open spec fn root_box_type(s: StyledNodeV) -> BoxTypeV
    recommends
        spec_display(s.css_props) != Display::NoBox,
{
    if spec_display(s.css_props) == Display::Block {
        BoxTypeV::Block(data_of(s))
    } else {
        BoxTypeV::Inline(data_of(s))
    }
}

/// Where a built inline box goes: straight under an inline or anonymous
/// parent; under a block parent, into the trailing anonymous block if
/// one stands there, else into a fresh one.
pub open spec fn place_inline(
    parent: BoxTypeV,
    cs: Seq<LayoutBoxV>,
    ib: LayoutBoxV,
) -> Seq<LayoutBoxV> {
    match parent {
        BoxTypeV::Block(_) => {
            if cs.len() > 0 && cs.last().box_type is AnonymousBlock {
                cs.update(
                    cs.len() - 1,
                    LayoutBoxV {
                        box_type: BoxTypeV::AnonymousBlock,
                        children: cs.last().children.push(ib),
                    },
                )
            } else {
                cs.push(LayoutBoxV { box_type: BoxTypeV::AnonymousBlock, children: seq![ib] })
            }
        },
        _ => cs.push(ib),
    }
}

/// The box a styled node builds, defined only when its display is not
/// `none`.
pub open spec fn build_box_spec(s: StyledNodeV) -> LayoutBoxV
    recommends
        spec_display(s.css_props) != Display::NoBox,
    decreases s, 1int,
{
    let parent = root_box_type(s);
    LayoutBoxV {
        box_type: parent,
        children: build_children_boxes(parent, Seq::empty(), s.children),
    }
}

/// The child boxes after processing `children` in order, starting from
/// the boxes `acc`: `display: none` children are skipped whole, block
/// children appended, inline children placed per `place_inline`.
pub open spec fn build_children_boxes(
    parent: BoxTypeV,
    acc: Seq<LayoutBoxV>,
    children: Seq<StyledNodeV>,
) -> Seq<LayoutBoxV>
    decreases children, 0int,
{
    if children.len() == 0 {
        acc
    } else {
        let child = children[0];
        let acc2 = if spec_display(child.css_props) == Display::NoBox {
            acc
        } else if spec_display(child.css_props) == Display::Block {
            acc.push(build_box_spec(child))
        } else {
            place_inline(parent, acc, build_box_spec(child))
        };
        build_children_boxes(parent, acc2, children.subrange(1, children.len() as int))
    }
}

/// Which way an inline child is attached under this box.
enum BoxGen {
    Root,
    LastChild,
    NewBox,
}

/// Decides where an inline child box goes, from the parent box alone.
fn inline_boxgen(layout_box: &LayoutBox) -> (r: BoxGen)
    ensures
        r is Root <==> !(layout_box@.box_type is Block),
        r is LastChild <==> (layout_box@.box_type is Block && layout_box@.children.len() > 0
            && layout_box@.children.last().box_type is AnonymousBlock),
        r is NewBox <==> (layout_box@.box_type is Block && !(layout_box@.children.len() > 0
            && layout_box@.children.last().box_type is AnonymousBlock)),
{
    proof {
        lemma_boxes_view(layout_box.children@);
    }
    match &layout_box.box_type {
        BoxType::Inline(_) => BoxGen::Root,
        BoxType::AnonymousBlock => BoxGen::Root,
        BoxType::Block(_) => {
            if layout_box.children.len() == 0 {
                BoxGen::NewBox
            } else {
                match &layout_box.children[layout_box.children.len() - 1].box_type {
                    BoxType::AnonymousBlock => BoxGen::LastChild,
                    _ => BoxGen::NewBox,
                }
            }
        },
    }
}

/// Builds the box of a styled node whose display is block or inline,
/// recursively: children in order, `none` children pruned, inline runs
/// under a block box grouped into anonymous blocks.
pub fn build_box(style_node: &StyledNode) -> (r: LayoutBox)
    requires
        spec_display(style_node@.css_props) != Display::NoBox,
    ensures
        r@ == build_box_spec(style_node@),
    decreases *style_node,
{
    let ghost sv = style_node@;
    let display = style_node.display();
    let data = StyledData {
        node_type: clone_node_type(&style_node.node_type),
        css_props: style_node.css_props.duplicate(),
    };
    let box_type = match display {
        Display::Block => BoxType::Block(data),
        _ => BoxType::Inline(data),
    };
    proof {
        assert(box_type@ == root_box_type(sv));
    }
    let ghost parent = box_type@;
    let mut root = LayoutBox::new(box_type);
    let mut i: usize = 0;
    proof {
        lemma_styleds_view(style_node.children@);
        assert(sv.children.subrange(0, sv.children.len() as int) =~= sv.children);
    }
    while i < style_node.children.len()
        invariant
            spec_display(sv.css_props) != Display::NoBox,
            sv == style_node@,
            i <= style_node.children@.len(),
            sv.children.len() == style_node.children@.len(),
            root@.box_type == parent,
            parent == root_box_type(sv),
            build_children_boxes(parent, boxes_view(root.children@), sv.children.subrange(i as int, sv.children.len() as int))
                == build_children_boxes(parent, Seq::empty(), sv.children),
        decreases style_node.children@.len() - i,
    {
        let ghost suffix = sv.children.subrange(i as int, sv.children.len() as int);
        proof {
            lemma_styleds_view(style_node.children@);
            assert(suffix[0] == sv.children[i as int]);
            assert(sv.children[i as int] == style_node.children@[i as int]@);
            assert(suffix.subrange(1, suffix.len() as int) =~= sv.children.subrange(
                i + 1,
                sv.children.len() as int,
            ));
        }
        let child_display = style_node.children[i].display();
        match child_display {
            Display::NoBox => {},
            Display::Block => {
                proof {
                    assert(decreases_to!(*style_node => style_node.children));
                    assert(decreases_to!(style_node.children => style_node.children@));
                    assert(decreases_to!(style_node.children@ => style_node.children@[i as int]));
                }
                let built = build_box(&style_node.children[i]);
                let ghost before = root.children@;
                root.children.push(built);
                proof {
                    assert(root.children@.subrange(0, root.children@.len() - 1) =~= before);
                    assert(boxes_view(root.children@) == boxes_view(before).push(built@));
                }
            },
            Display::Inline => {
                proof {
                    assert(decreases_to!(*style_node => style_node.children));
                    assert(decreases_to!(style_node.children => style_node.children@));
                    assert(decreases_to!(style_node.children@ => style_node.children@[i as int]));
                }
                let built = build_box(&style_node.children[i]);
                let placement = inline_boxgen(&root);
                match placement {
                    BoxGen::Root => {
                        let ghost before = root.children@;
                        root.children.push(built);
                        proof {
                            assert(root.children@.subrange(0, root.children@.len() - 1)
                                =~= before);
                            assert(boxes_view(root.children@) == boxes_view(before).push(built@));
                            assert(place_inline(parent, boxes_view(before), built@)
                                == boxes_view(before).push(built@));
                        }
                    },
                    BoxGen::LastChild => {
                        let ghost before = root.children@;
                        proof {
                            lemma_boxes_view(before);
                        }
                        let mut last = root.children.pop().unwrap();
                        let ghost last_before = last;
                        let ghost inner_before = last.children@;
                        last.children.push(built);
                        proof {
                            assert(last.children@.subrange(0, last.children@.len() - 1)
                                =~= inner_before);
                            assert(boxes_view(last.children@) == boxes_view(inner_before).push(
                                built@,
                            ));
                            assert(box_view(last) == LayoutBoxV {
                                box_type: BoxTypeV::AnonymousBlock,
                                children: box_view(last_before).children.push(built@),
                            });
                        }
                        let ghost popped = root.children@;
                        root.children.push(last);
                        proof {
                            assert(root.children@.subrange(0, root.children@.len() - 1)
                                =~= popped);
                            assert(popped =~= before.subrange(0, before.len() - 1));
                            assert(boxes_view(root.children@) == boxes_view(popped).push(
                                box_view(last),
                            ));
                            lemma_boxes_view(popped);
                            lemma_boxes_view(root.children@);
                            let cs = boxes_view(before);
                            assert(cs.last() == box_view(before[before.len() - 1]));
                            assert(boxes_view(root.children@) =~= place_inline(
                                parent,
                                cs,
                                built@,
                            )) by {
                                assert(forall|j: int|
                                    0 <= j < popped.len() ==> boxes_view(popped)[j] == cs.update(
                                        cs.len() - 1,
                                        LayoutBoxV {
                                            box_type: BoxTypeV::AnonymousBlock,
                                            children: cs.last().children.push(built@),
                                        },
                                    )[j]);
                            }
                        }
                    },
                    BoxGen::NewBox => {
                        let mut anonymous_block = LayoutBox::new(BoxType::AnonymousBlock);
                        anonymous_block.children.push(built);
                        proof {
                            lemma_boxes_view(anonymous_block.children@);
                            assert(anonymous_block.children@ =~= seq![built]);
                            assert(boxes_view(anonymous_block.children@) =~= seq![built@]);
                            assert(box_view(anonymous_block) == LayoutBoxV {
                                box_type: BoxTypeV::AnonymousBlock,
                                children: seq![built@],
                            });
                        }
                        let ghost before = root.children@;
                        root.children.push(anonymous_block);
                        proof {
                            assert(root.children@.subrange(0, root.children@.len() - 1)
                                =~= before);
                            assert(boxes_view(root.children@) == boxes_view(before).push(
                                box_view(anonymous_block),
                            ));
                            assert(place_inline(parent, boxes_view(before), built@)
                                == boxes_view(before).push(
                                LayoutBoxV {
                                    box_type: BoxTypeV::AnonymousBlock,
                                    children: seq![built@],
                                },
                            ));
                        }
                    },
                }
            },
        }
        i = i + 1;
    }
    proof {
        assert(sv.children.subrange(sv.children.len() as int, sv.children.len() as int)
            =~= Seq::<StyledNodeV>::empty());
        assert(boxes_view(root.children@) == build_children_boxes(parent, Seq::empty(), sv.children));
    }
    root
}

/// The box-tree invariant: an anonymous block is nonempty and holds
/// only inline boxes; a block box's children are block or anonymous
/// boxes only, never a bare inline box; and no two anonymous blocks
/// stand adjacent under a block box — adjacent inline runs coalesce
/// into one wrapper.
pub open spec fn box_wf(b: LayoutBoxV) -> bool
    decreases b,
{
    &&& (b.box_type is AnonymousBlock ==> b.children.len() > 0 && (forall|i: int|
        0 <= i < b.children.len() ==> (#[trigger] b.children[i]).box_type is Inline))
    &&& (b.box_type is Block ==> forall|i: int|
        0 <= i < b.children.len() ==> ((#[trigger] b.children[i]).box_type is Block
            || b.children[i].box_type is AnonymousBlock))
    &&& (b.box_type is Block ==> forall|i: int|
        0 <= i < b.children.len() - 1 ==> !((#[trigger] b.children[i]).box_type is AnonymousBlock
            && b.children[i + 1].box_type is AnonymousBlock))
    &&& (forall|i: int| 0 <= i < b.children.len() ==> box_wf(#[trigger] b.children[i]))
}

/// What holds of a box list standing under a box of kind `parent`.
spec fn children_ok(parent: BoxTypeV, cs: Seq<LayoutBoxV>) -> bool {
    &&& (forall|i: int| 0 <= i < cs.len() ==> box_wf(#[trigger] cs[i]))
    &&& (parent is Block ==> forall|i: int|
        0 <= i < cs.len() ==> ((#[trigger] cs[i]).box_type is Block
            || cs[i].box_type is AnonymousBlock))
    &&& (parent is Block ==> forall|i: int|
        0 <= i < cs.len() - 1 ==> !((#[trigger] cs[i]).box_type is AnonymousBlock
            && cs[i + 1].box_type is AnonymousBlock))
}

proof fn lemma_build_children_wf(parent: BoxTypeV, acc: Seq<LayoutBoxV>, children: Seq<StyledNodeV>)
    requires
        !(parent is AnonymousBlock),
        children_ok(parent, acc),
    ensures
        children_ok(parent, build_children_boxes(parent, acc, children)),
    decreases children, 0int,
{
    if children.len() > 0 {
        let child = children[0];
        let acc2 = if spec_display(child.css_props) == Display::NoBox {
            acc
        } else if spec_display(child.css_props) == Display::Block {
            acc.push(build_box_spec(child))
        } else {
            place_inline(parent, acc, build_box_spec(child))
        };
        if spec_display(child.css_props) == Display::NoBox {
        } else {
            lemma_build_wf(child);
            let cb = build_box_spec(child);
            if spec_display(child.css_props) == Display::Block {
                assert(cb.box_type is Block);
                assert(children_ok(parent, acc2)) by {
                    assert(forall|i: int| 0 <= i < acc.len() ==> acc2[i] == acc[i]);
                    assert(acc2[acc.len() as int] == cb);
                }
            } else {
                assert(cb.box_type is Inline);
                match parent {
                    BoxTypeV::Block(_) => {
                        if acc.len() > 0 && acc.last().box_type is AnonymousBlock {
                            let old_last = acc.last();
                            let new_last = LayoutBoxV {
                                box_type: BoxTypeV::AnonymousBlock,
                                children: old_last.children.push(cb),
                            };
                            assert(box_wf(old_last));
                            assert(box_wf(new_last)) by {
                                assert(forall|i: int|
                                    0 <= i < old_last.children.len() ==> new_last.children[i]
                                        == old_last.children[i]);
                                assert(new_last.children[old_last.children.len() as int] == cb);
                            }
                            assert(children_ok(parent, acc2)) by {
                                assert(acc2 == acc.update(acc.len() - 1, new_last));
                                assert(forall|i: int|
                                    0 <= i < acc.len() - 1 ==> acc2[i] == acc[i]);
                                assert(acc2[acc.len() - 1] == new_last);
                                assert(acc2.len() == acc.len());
                            }
                        } else {
                            let anon = LayoutBoxV {
                                box_type: BoxTypeV::AnonymousBlock,
                                children: seq![cb],
                            };
                            assert(box_wf(anon)) by {
                                assert(anon.children[0] == cb);
                            }
                            assert(children_ok(parent, acc2)) by {
                                assert(forall|i: int| 0 <= i < acc.len() ==> acc2[i] == acc[i]);
                                assert(acc2[acc.len() as int] == anon);
                            }
                        }
                    },
                    _ => {
                        assert(children_ok(parent, acc2)) by {
                            assert(forall|i: int| 0 <= i < acc.len() ==> acc2[i] == acc[i]);
                            assert(acc2[acc.len() as int] == cb);
                        }
                    },
                }
            }
        }
        lemma_build_children_wf(parent, acc2, children.subrange(1, children.len() as int));
    }
}

/// Every box the builder produces satisfies the box-tree invariant,
/// and the box built for the root is never anonymous.
pub proof fn lemma_build_wf(s: StyledNodeV)
    requires
        spec_display(s.css_props) != Display::NoBox,
    ensures
        box_wf(build_box_spec(s)),
        !(build_box_spec(s).box_type is AnonymousBlock),
    decreases s, 1int,
{
    let parent = root_box_type(s);
    lemma_build_children_wf(parent, Seq::empty(), s.children);
}

/// Pruning: a child whose resolved display is `none` contributes no
/// box, whatever its subtree holds — dropping it from the child list
/// leaves the built boxes unchanged.
pub proof fn lemma_none_child_pruned(
    parent: BoxTypeV,
    acc: Seq<LayoutBoxV>,
    children: Seq<StyledNodeV>,
    i: int,
)
    requires
        0 <= i < children.len(),
        spec_display(children[i].css_props) == Display::NoBox,
    ensures
        build_children_boxes(parent, acc, children.remove(i)) == build_children_boxes(
            parent,
            acc,
            children,
        ),
    decreases children.len(),
{
    if i == 0 {
        assert(children.remove(0) =~= children.subrange(1, children.len() as int));
    } else {
        let child = children[0];
        let acc2 = if spec_display(child.css_props) == Display::NoBox {
            acc
        } else if spec_display(child.css_props) == Display::Block {
            acc.push(build_box_spec(child))
        } else {
            place_inline(parent, acc, build_box_spec(child))
        };
        let rest = children.subrange(1, children.len() as int);
        assert(children.remove(i)[0] == children[0]);
        assert(children.remove(i).subrange(1, children.remove(i).len() as int) =~= rest.remove(
            i - 1,
        ));
        assert(rest[i - 1] == children[i]);
        lemma_none_child_pruned(parent, acc2, rest, i - 1);
    }
}

/// Pruning at the root: a document node styled `display: none` among
/// the children produces no box for itself or any descendant — the box
/// tree is the one built with that child absent.
pub proof fn lemma_display_none_pruning(s: StyledNodeV, i: int)
    requires
        spec_display(s.css_props) != Display::NoBox,
        0 <= i < s.children.len(),
        spec_display(s.children[i].css_props) == Display::NoBox,
    ensures
        build_box_spec(StyledNodeV { children: s.children.remove(i), ..s }) == build_box_spec(s),
{
    let pruned = StyledNodeV { children: s.children.remove(i), ..s };
    assert(root_box_type(pruned) == root_box_type(s));
    lemma_none_child_pruned(root_box_type(s), Seq::empty(), s.children, i);
}

/// The node a path of child indices leads to.
pub open spec fn node_at(s: StyledNodeV, path: Seq<int>) -> StyledNodeV
    decreases path.len(),
{
    if path.len() == 0 {
        s
    } else {
        node_at(s.children[path[0]], path.subrange(1, path.len() as int))
    }
}

/// Whether each step of a path names a child.
pub open spec fn valid_path(s: StyledNodeV, path: Seq<int>) -> bool
    decreases path.len(),
{
    path.len() == 0 || (0 <= path[0] < s.children.len() && valid_path(
        s.children[path[0]],
        path.subrange(1, path.len() as int),
    ))
}

/// The tree with child `i` of the node at `path` removed, subtree and
/// all.
pub open spec fn prune_at(s: StyledNodeV, path: Seq<int>, i: int) -> StyledNodeV
    decreases path.len(),
{
    if path.len() == 0 {
        StyledNodeV { children: s.children.remove(i), ..s }
    } else {
        StyledNodeV {
            children: s.children.update(
                path[0],
                prune_at(s.children[path[0]], path.subrange(1, path.len() as int), i),
            ),
            ..s
        }
    }
}

/// Child lists that differ in one position, where the properties agree
/// and the built boxes agree, build the same boxes.
proof fn lemma_children_one_changed(
    parent: BoxTypeV,
    acc: Seq<LayoutBoxV>,
    cs1: Seq<StyledNodeV>,
    cs2: Seq<StyledNodeV>,
    j: int,
)
    requires
        cs1.len() == cs2.len(),
        0 <= j < cs1.len(),
        forall|k: int| 0 <= k < cs1.len() && k != j ==> cs1[k] == cs2[k],
        cs1[j].css_props == cs2[j].css_props,
        build_box_spec(cs1[j]) == build_box_spec(cs2[j]),
    ensures
        build_children_boxes(parent, acc, cs1) == build_children_boxes(parent, acc, cs2),
    decreases cs1.len(),
{
    let acc2 = if spec_display(cs1[0].css_props) == Display::NoBox {
        acc
    } else if spec_display(cs1[0].css_props) == Display::Block {
        acc.push(build_box_spec(cs1[0]))
    } else {
        place_inline(parent, acc, build_box_spec(cs1[0]))
    };
    let acc2b = if spec_display(cs2[0].css_props) == Display::NoBox {
        acc
    } else if spec_display(cs2[0].css_props) == Display::Block {
        acc.push(build_box_spec(cs2[0]))
    } else {
        place_inline(parent, acc, build_box_spec(cs2[0]))
    };
    assert(acc2 == acc2b);
    let rest1 = cs1.subrange(1, cs1.len() as int);
    let rest2 = cs2.subrange(1, cs2.len() as int);
    if j == 0 {
        assert(rest1 =~= rest2);
    } else {
        assert(forall|k: int| 0 <= k < rest1.len() && k != j - 1 ==> rest1[k] == rest2[k]);
        assert(rest1[j - 1] == cs1[j] && rest2[j - 1] == cs2[j]);
        lemma_children_one_changed(parent, acc2, rest1, rest2, j - 1);
    }
}

/// Pruning at any depth: a node whose resolved display is `none`
/// produces no box for itself or any descendant, wherever it stands in
/// the tree and whatever its own subtree holds — removing it from its
/// parent's children leaves the whole box tree unchanged.
pub proof fn lemma_display_none_pruned_at_depth(s: StyledNodeV, path: Seq<int>, i: int)
    requires
        valid_path(s, path),
        0 <= i < node_at(s, path).children.len(),
        spec_display(node_at(s, path).children[i].css_props) == Display::NoBox,
    ensures
        build_box_spec(prune_at(s, path, i)) == build_box_spec(s),
    decreases path.len(),
{
    if path.len() == 0 {
        lemma_none_child_pruned(root_box_type(s), Seq::empty(), s.children, i);
    } else {
        let j = path[0];
        let rest = path.subrange(1, path.len() as int);
        let child = s.children[j];
        let child2 = prune_at(child, rest, i);
        lemma_display_none_pruned_at_depth(child, rest, i);
        assert(child2.css_props == child.css_props);
        lemma_children_one_changed(
            root_box_type(s),
            Seq::empty(),
            s.children.update(j, child2),
            s.children,
            j,
        );
        assert(prune_at(s, path, i).css_props == s.css_props);
        assert(root_box_type(prune_at(s, path, i)) == root_box_type(s));
    }
}

/// Builds the box tree of a styled root. The single fatal error: a root
/// resolving to `display: none` has nothing to lay out; every other
/// `none` stands on a child and is silently pruned.
pub fn build_layout_tree(style_node: &StyledNode) -> (r: Result<LayoutBox, LayoutError>)
    ensures
        r is Ok <==> spec_display(style_node@.css_props) != Display::NoBox,
        r matches Ok(root) ==> root@ == build_box_spec(style_node@),
        r matches Err(e) ==> e == LayoutError::UnlayoutableRoot,
{
    match style_node.display() {
        Display::NoBox => Err(LayoutError::UnlayoutableRoot),
        _ => Ok(build_box(style_node)),
    }
}

} // verus!
