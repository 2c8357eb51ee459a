//! The box-tree builder: pruning, anonymous block coalescing, the
//! fatal none-display root, and determinism.

use boxtree::css::Value;
use boxtree::layout::{build_layout_tree, BoxType, LayoutBox, LayoutError};
use boxtree::style::{Display, PropertyMap, StyledNode};

fn styled(display: Option<&str>, children: Vec<StyledNode>) -> StyledNode {
    let mut props = PropertyMap::new();
    if let Some(word) = display {
        props.insert(
            String::from("display"),
            Value::Keyword(String::from(word)),
        );
    }
    StyledNode {
        node_type: boxtree::dom::NodeType::Text(String::from("")),
        css_props: props,
        children,
    }
}

fn kinds(boxes: &[LayoutBox]) -> Vec<&'static str> {
    boxes
        .iter()
        .map(|b| match b.box_type {
            BoxType::Block(_) => "block",
            BoxType::Inline(_) => "inline",
            BoxType::AnonymousBlock => "anonymous",
        })
        .collect()
}

#[test]
fn display_resolution() {
    assert!(matches!(styled(Some("block"), vec![]).display(), Display::Block));
    assert!(matches!(styled(Some("none"), vec![]).display(), Display::NoBox));
    assert!(matches!(styled(Some("inline"), vec![]).display(), Display::Inline));
    // absent or unrecognized keywords default to inline
    assert!(matches!(styled(None, vec![]).display(), Display::Inline));
    assert!(matches!(styled(Some("flex"), vec![]).display(), Display::Inline));
}

#[test]
fn non_keyword_display_value_means_inline() {
    let mut props = PropertyMap::new();
    props.insert(
        String::from("display"),
        Value::Length(
            boxtree::css::Number { negative: false, mantissa: 1, scale: 0 },
            boxtree::css::Unit::Px,
        ),
    );
    let node = StyledNode {
        node_type: boxtree::dom::NodeType::Text(String::from("")),
        css_props: props,
        children: vec![],
    };
    assert!(matches!(node.display(), Display::Inline));
}

#[test]
fn root_display_none_is_fatal() {
    let root = styled(Some("none"), vec![styled(Some("block"), vec![])]);
    let result = build_layout_tree(&root);
    assert_eq!(result, Err(LayoutError::UnlayoutableRoot));
}

#[test]
fn display_none_child_is_pruned_whole() {
    // a none-display div with children leaves no box at all,
    // whatever its descendants' own display values say
    let hidden = styled(
        Some("none"),
        vec![
            styled(Some("block"), vec![]),
            styled(Some("inline"), vec![]),
        ],
    );
    let root = styled(Some("block"), vec![styled(Some("block"), vec![]), hidden]);
    let tree = build_layout_tree(&root).unwrap();
    assert_eq!(kinds(&tree.children), vec!["block"]);
}

#[test]
fn display_none_is_pruned_at_depth() {
    // the hidden node stands two levels down; neither it nor its
    // children leave any box
    let hidden = styled(Some("none"), vec![styled(Some("block"), vec![])]);
    let middle = styled(Some("block"), vec![styled(Some("inline"), vec![]), hidden]);
    let root = styled(Some("block"), vec![middle]);
    let tree = build_layout_tree(&root).unwrap();
    assert_eq!(kinds(&tree.children), vec!["block"]);
    assert_eq!(kinds(&tree.children[0].children), vec!["anonymous"]);
    assert_eq!(kinds(&tree.children[0].children[0].children), vec!["inline"]);
}

#[test]
fn anonymous_block_coalesces_adjacent_inline_runs() {
    // children [Block, Inline, Inline, Block] give
    // [Block, Anonymous[Inline, Inline], Block]: one wrapper, not two
    let root = styled(
        Some("block"),
        vec![
            styled(Some("block"), vec![]),
            styled(Some("inline"), vec![]),
            styled(Some("inline"), vec![]),
            styled(Some("block"), vec![]),
        ],
    );
    let tree = build_layout_tree(&root).unwrap();
    assert_eq!(kinds(&tree.children), vec!["block", "anonymous", "block"]);
    assert_eq!(kinds(&tree.children[1].children), vec!["inline", "inline"]);
}

#[test]
fn separated_inline_runs_get_separate_wrappers() {
    let root = styled(
        Some("block"),
        vec![
            styled(Some("inline"), vec![]),
            styled(Some("block"), vec![]),
            styled(Some("inline"), vec![]),
        ],
    );
    let tree = build_layout_tree(&root).unwrap();
    assert_eq!(kinds(&tree.children), vec!["anonymous", "block", "anonymous"]);
    assert_eq!(kinds(&tree.children[0].children), vec!["inline"]);
    assert_eq!(kinds(&tree.children[2].children), vec!["inline"]);
}

#[test]
fn inline_parent_holds_children_directly() {
    let root = styled(
        Some("inline"),
        vec![styled(Some("inline"), vec![]), styled(Some("block"), vec![])],
    );
    let tree = build_layout_tree(&root).unwrap();
    assert!(matches!(tree.box_type, BoxType::Inline(_)));
    assert_eq!(kinds(&tree.children), vec!["inline", "block"]);
}

#[test]
fn block_box_never_holds_bare_inline() {
    let root = styled(
        Some("block"),
        vec![
            styled(Some("inline"), vec![]),
            styled(Some("inline"), vec![]),
        ],
    );
    let tree = build_layout_tree(&root).unwrap();
    assert_eq!(kinds(&tree.children), vec!["anonymous"]);
    assert_eq!(kinds(&tree.children[0].children), vec!["inline", "inline"]);
}

#[test]
fn building_twice_yields_identical_trees() {
    let root = styled(
        Some("block"),
        vec![
            styled(Some("inline"), vec![styled(Some("inline"), vec![])]),
            styled(Some("block"), vec![styled(Some("none"), vec![])]),
        ],
    );
    let first = build_layout_tree(&root).unwrap();
    let second = build_layout_tree(&root).unwrap();
    assert_eq!(first, second);
}

#[test]
fn box_carries_the_styled_element() {
    let root = styled(Some("block"), vec![]);
    let tree = build_layout_tree(&root).unwrap();
    match tree.box_type {
        BoxType::Block(data) => {
            match data.css_props.get("display") {
                Some(Value::Keyword(word)) => assert_eq!(word.as_str(), "block"),
                _ => panic!("display property lost"),
            }
        },
        _ => panic!("root should be a block box"),
    }
}
