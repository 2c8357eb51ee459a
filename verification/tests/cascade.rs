//! The cascade: specificity ordering, overrides, tie-breaks, and
//! selector matching.

use boxtree::css::{Declaration, Rule, Selector, SimpleSelector, StyleSheet, Value};
use boxtree::dom::{AttrMap, Node};
use boxtree::style::{matches_simple_selector, style_tree, StyledNode};

fn simple(tag: Option<&str>, id: Option<&str>, classes: &[&str]) -> SimpleSelector {
    SimpleSelector {
        tag_name: tag.map(|t| String::from(t)),
        id: id.map(|i| String::from(i)),
        classes: classes.iter().map(|c| String::from(*c)).collect(),
    }
}

fn keyword_rule(selectors: Vec<Selector>, name: &str, value: &str) -> Rule {
    Rule {
        selectors,
        declarations: vec![Declaration {
            name: String::from(name),
            value: Value::Keyword(String::from(value)),
        }],
    }
}

fn elem_with(tag: &str, attrs: &[(&str, &str)]) -> Node {
    let mut map = AttrMap::new();
    for (name, value) in attrs {
        map.insert(String::from(*name), String::from(*value));
    }
    Node::elem(String::from(tag), map, Vec::new())
}

fn resolved_keyword(styled: &StyledNode, name: &str) -> Option<String> {
    match styled.value(name) {
        Some(Value::Keyword(word)) => Some(word),
        _ => None,
    }
}

#[test]
fn specificity_counts() {
    // #a -> (1,0,0); .b.c -> (0,2,0); div -> (0,0,1)
    let id_sel = Selector::Simple(simple(None, Some("a"), &[]));
    let class_sel = Selector::Simple(simple(None, None, &["b", "c"]));
    let tag_sel = Selector::Simple(simple(Some("div"), None, &[]));
    assert_eq!(id_sel.specificity(), (1, 0, 0));
    assert_eq!(class_sel.specificity(), (0, 2, 0));
    assert_eq!(tag_sel.specificity(), (0, 0, 1));
}

#[test]
fn specificity_ordering_is_lexicographic() {
    // id outranks classes outranks tags
    let id_sel = Selector::Simple(simple(None, Some("a"), &[])).specificity();
    let class_sel = Selector::Simple(simple(None, None, &["b", "c"])).specificity();
    let tag_sel = Selector::Simple(simple(Some("div"), None, &[])).specificity();
    assert!(boxtree::css::specificity_lt(class_sel, id_sel));
    assert!(boxtree::css::specificity_lt(tag_sel, class_sel));
    assert!(boxtree::css::specificity_lt(tag_sel, id_sel));
    assert!(!boxtree::css::specificity_lt(id_sel, class_sel));
    assert!(!boxtree::css::specificity_lt(id_sel, id_sel));
}

#[test]
fn cascade_override_higher_specificity_wins() {
    // div { color: red; } then .note { color: blue; } on <div class="note">
    let sheet = StyleSheet {
        rules: vec![
            keyword_rule(vec![Selector::Simple(simple(Some("div"), None, &[]))], "color", "red"),
            keyword_rule(vec![Selector::Simple(simple(None, None, &["note"]))], "color", "blue"),
        ],
    };
    let node = elem_with("div", &[("class", "note")]);
    let styled = style_tree(&node, &sheet);
    assert_eq!(resolved_keyword(&styled, "color"), Some(String::from("blue")));
}

#[test]
fn cascade_override_wins_regardless_of_declaration_order() {
    // .note first, div second: the class selector still wins.
    let sheet = StyleSheet {
        rules: vec![
            keyword_rule(vec![Selector::Simple(simple(None, None, &["note"]))], "color", "blue"),
            keyword_rule(vec![Selector::Simple(simple(Some("div"), None, &[]))], "color", "red"),
        ],
    };
    let node = elem_with("div", &[("class", "note")]);
    let styled = style_tree(&node, &sheet);
    assert_eq!(resolved_keyword(&styled, "color"), Some(String::from("blue")));
}

#[test]
fn cascade_tie_break_later_rule_wins() {
    // p { color: red; } then p { color: blue; }: equal specificity, later wins.
    let sheet = StyleSheet {
        rules: vec![
            keyword_rule(vec![Selector::Simple(simple(Some("p"), None, &[]))], "color", "red"),
            keyword_rule(vec![Selector::Simple(simple(Some("p"), None, &[]))], "color", "blue"),
        ],
    };
    let node = elem_with("p", &[]);
    let styled = style_tree(&node, &sheet);
    assert_eq!(resolved_keyword(&styled, "color"), Some(String::from("blue")));
}

#[test]
fn later_declaration_in_same_rule_wins() {
    let sheet = StyleSheet {
        rules: vec![Rule {
            selectors: vec![Selector::Simple(simple(Some("p"), None, &[]))],
            declarations: vec![
                Declaration {
                    name: String::from("color"),
                    value: Value::Keyword(String::from("red")),
                },
                Declaration {
                    name: String::from("color"),
                    value: Value::Keyword(String::from("blue")),
                },
            ],
        }],
    };
    let node = elem_with("p", &[]);
    let styled = style_tree(&node, &sheet);
    assert_eq!(resolved_keyword(&styled, "color"), Some(String::from("blue")));
}

#[test]
fn matching_exact_on_tag_and_id_intersective_on_classes() {
    // <span class="a b"> matches .a and .a.b but not .a.c
    let span = elem_with("span", &[("class", "a b")]);
    let data = match &span.node_type {
        boxtree::dom::NodeType::Element(data) => data,
        _ => unreachable!(),
    };
    assert!(matches_simple_selector(data, &simple(None, None, &["a"])));
    assert!(matches_simple_selector(data, &simple(None, None, &["a", "b"])));
    assert!(!matches_simple_selector(data, &simple(None, None, &["a", "c"])));
    assert!(boxtree::style::matches(data, &Selector::Simple(simple(Some("span"), None, &[]))));
    assert!(!boxtree::style::matches(data, &Selector::Simple(simple(Some("div"), None, &[]))));
}

#[test]
fn matching_id_requires_equal_id_attribute() {
    let with_id = elem_with("p", &[("id", "x")]);
    let without_id = elem_with("p", &[]);
    let data_with = match &with_id.node_type {
        boxtree::dom::NodeType::Element(data) => data,
        _ => unreachable!(),
    };
    let data_without = match &without_id.node_type {
        boxtree::dom::NodeType::Element(data) => data,
        _ => unreachable!(),
    };
    let sel = simple(None, Some("x"), &[]);
    let other = simple(None, Some("y"), &[]);
    assert!(matches_simple_selector(data_with, &sel));
    assert!(!matches_simple_selector(data_with, &other));
    assert!(!matches_simple_selector(data_without, &sel));
}

#[test]
fn empty_selector_matches_everything() {
    let node = elem_with("article", &[]);
    let data = match &node.node_type {
        boxtree::dom::NodeType::Element(data) => data,
        _ => unreachable!(),
    };
    let unconstrained = simple(None, None, &[]);
    assert!(matches_simple_selector(data, &unconstrained));
    assert_eq!(Selector::Simple(simple(None, None, &[])).specificity(), (0, 0, 0));
}

#[test]
fn text_and_comment_nodes_get_empty_properties() {
    let sheet = StyleSheet {
        rules: vec![keyword_rule(
            vec![Selector::Simple(simple(None, None, &[]))],
            "color",
            "red",
        )],
    };
    let text = Node::text(String::from("hello"));
    let comment = Node::comment(String::from("aside"));
    let styled_text = style_tree(&text, &sheet);
    let styled_comment = style_tree(&comment, &sheet);
    assert!(styled_text.value("color").is_none());
    assert!(styled_comment.value("color").is_none());
}

#[test]
fn resolution_is_idempotent() {
    // the same (document, stylesheet) pair resolves to identical trees
    let sheet = StyleSheet {
        rules: vec![
            keyword_rule(vec![Selector::Simple(simple(Some("div"), None, &[]))], "color", "red"),
            keyword_rule(vec![Selector::Simple(simple(None, None, &["note"]))], "color", "blue"),
        ],
    };
    let child = elem_with("span", &[("class", "note")]);
    let node = Node::elem(
        String::from("div"),
        AttrMap::new(),
        vec![child, Node::text(String::from("words"))],
    );
    let first = style_tree(&node, &sheet);
    let second = style_tree(&node, &sheet);
    assert_eq!(first, second);
}

#[test]
fn unknown_properties_are_stored_opaquely() {
    let sheet = StyleSheet {
        rules: vec![keyword_rule(
            vec![Selector::Simple(simple(Some("div"), None, &[]))],
            "mystery-prop",
            "whatever",
        )],
    };
    let node = elem_with("div", &[]);
    let styled = style_tree(&node, &sheet);
    assert_eq!(
        resolved_keyword(&styled, "mystery-prop"),
        Some(String::from("whatever"))
    );
    // an unknown property never affects display
    assert!(matches!(styled.display(), boxtree::style::Display::Inline));
}
