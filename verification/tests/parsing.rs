//! The two parsers and the source cursor: documents, stylesheets,
//! numbers, and malformed input.

use boxtree::css::{Color, Number, Selector, Unit, Value};
use boxtree::dom::{Node, NodeType};
use boxtree::source::Source;

fn parse_html(text: &str) -> Option<Node> {
    let mut parser = boxtree::html::Parser::new(String::from(text));
    parser.parse()
}

fn parse_css(text: &str) -> Option<boxtree::css::StyleSheet> {
    let mut parser = boxtree::css::Parser::new(String::from(text));
    parser.parse()
}

#[test]
fn source_cursor_basics() {
    let mut src = Source::new(String::from("ab cd"));
    assert!(!src.eof());
    assert_eq!(src.peek(), 'a');
    assert!(src.starts_with("ab"));
    assert!(!src.starts_with("ab d"));
    assert_eq!(src.consume_char(), 'a');
    assert_eq!(src.consume_char(), 'b');
    src.consume_whitespace();
    assert_eq!(src.peek(), 'c');
    let rest = src.consume_while(|c: char| c != 'd');
    assert_eq!(rest.as_str(), "c");
    assert_eq!(src.consume_char(), 'd');
    assert!(src.eof());
}

#[test]
fn source_consume_until_stops_before_the_stop_character() {
    let mut src = Source::new(String::from("value;rest"));
    let taken = src.consume_until(';');
    assert_eq!(taken.as_str(), "value");
    assert_eq!(src.peek(), ';');
}

#[test]
fn html_single_element() {
    let node = parse_html("<div class='note'>Hi</div>").unwrap();
    match &node.node_type {
        NodeType::Element(data) => {
            assert_eq!(data.tag_name().as_str(), "div");
            let classes = data.classes();
            assert_eq!(classes.len(), 1);
            assert_eq!(classes[0].as_str(), "note");
        },
        _ => panic!("expected an element"),
    }
    assert_eq!(node.children.len(), 1);
    match &node.children[0].node_type {
        NodeType::Text(text) => assert_eq!(text.as_str(), "Hi"),
        _ => panic!("expected a text child"),
    }
}

#[test]
fn html_nested_elements_and_attributes() {
    let node = parse_html("<div><span class=\"a b\" id=\"x\">Ok</span></div>").unwrap();
    assert_eq!(node.children.len(), 1);
    match &node.children[0].node_type {
        NodeType::Element(data) => {
            assert_eq!(data.tag_name().as_str(), "span");
            assert_eq!(data.id().unwrap().as_str(), "x");
            let classes = data.classes();
            assert_eq!(classes.len(), 2);
            assert_eq!(classes[0].as_str(), "a");
            assert_eq!(classes[1].as_str(), "b");
        },
        _ => panic!("expected an element"),
    }
}

#[test]
fn html_several_roots_get_wrapped() {
    let node = parse_html("<p>one</p><p>two</p>").unwrap();
    match &node.node_type {
        NodeType::Element(data) => assert_eq!(data.tag_name().as_str(), "html"),
        _ => panic!("expected a wrapping element"),
    }
    assert_eq!(node.children.len(), 2);
}

#[test]
fn html_mismatched_closing_tag_is_rejected() {
    assert!(parse_html("<div>text</span>").is_none());
    assert!(parse_html("<div>text").is_none());
    assert!(parse_html("<div a=b>text</div>").is_none());
}

#[test]
fn css_rule_with_lengths_and_colors() {
    let sheet = parse_css("div.note { margin-bottom: 20px; padding: 1.5px; color: #cc0000; background: auto; }").unwrap();
    assert_eq!(sheet.rules.len(), 1);
    let rule = &sheet.rules[0];
    assert_eq!(rule.declarations.len(), 4);
    assert_eq!(rule.declarations[0].name.as_str(), "margin-bottom");
    assert_eq!(
        rule.declarations[0].value,
        Value::Length(Number { negative: false, mantissa: 20, scale: 0 }, Unit::Px)
    );
    assert_eq!(
        rule.declarations[1].value,
        Value::Length(Number { negative: false, mantissa: 15, scale: 1 }, Unit::Px)
    );
    assert_eq!(
        rule.declarations[2].value,
        Value::ColorValue(Color::Hex(String::from("cc0000")))
    );
    assert_eq!(rule.declarations[3].value, Value::Keyword(String::from("auto")));
}

#[test]
fn css_negative_length() {
    let sheet = parse_css("p { margin: -5px; }").unwrap();
    assert_eq!(
        sheet.rules[0].declarations[0].value,
        Value::Length(Number { negative: true, mantissa: 5, scale: 0 }, Unit::Px)
    );
}

#[test]
fn css_selector_pieces() {
    let sheet = parse_css("div.note.wide { color: red; }").unwrap();
    let Selector::Simple(simple) = &sheet.rules[0].selectors[0];
    assert_eq!(simple.tag_name.as_ref().unwrap().as_str(), "div");
    assert!(simple.id.is_none());
    assert_eq!(simple.classes.len(), 2);
    assert_eq!(simple.classes[0].as_str(), "note");
    assert_eq!(simple.classes[1].as_str(), "wide");
}

#[test]
fn css_selectors_sorted_by_descending_specificity() {
    let sheet = parse_css("h1, h3.main, #top { color: red; }").unwrap();
    let specs: Vec<(usize, usize, usize)> = sheet.rules[0]
        .selectors
        .iter()
        .map(|s| s.specificity())
        .collect();
    assert_eq!(specs, vec![(1, 0, 0), (0, 1, 1), (0, 0, 1)]);
}

#[test]
fn css_malformed_sheets_are_rejected() {
    // missing space or comma before the brace
    assert!(parse_css("a{ color: red; }").is_none());
    // missing semicolon
    assert!(parse_css("a { color: red }").is_none());
    // a length whose digits no mantissa can hold
    assert!(parse_css("a { margin: 99999999999999999999999999px; }").is_none());
    // a length with two points
    assert!(parse_css("a { margin: 1.2.3px; }").is_none());
    // a length with no digits
    assert!(parse_css("a { margin: px; }").is_none());
    // unterminated rule
    assert!(parse_css("a { color: red;").is_none());
}

#[test]
fn css_length_point_edge_cases() {
    // a trailing point reads as a whole number
    let sheet = parse_css("p { margin: 5.px; }").unwrap();
    assert_eq!(
        sheet.rules[0].declarations[0].value,
        Value::Length(Number { negative: false, mantissa: 5, scale: 0 }, Unit::Px)
    );
    // a leading point reads as a pure fraction
    let sheet = parse_css("p { margin: .5px; }").unwrap();
    assert_eq!(
        sheet.rules[0].declarations[0].value,
        Value::Length(Number { negative: false, mantissa: 5, scale: 1 }, Unit::Px)
    );
}

#[test]
fn css_identifier_characters() {
    assert!(boxtree::css::Parser::is_valid_identifier('a'));
    assert!(boxtree::css::Parser::is_valid_identifier('Z'));
    assert!(boxtree::css::Parser::is_valid_identifier('7'));
    assert!(boxtree::css::Parser::is_valid_identifier('-'));
    assert!(!boxtree::css::Parser::is_valid_identifier('{'));
    assert!(!boxtree::css::Parser::is_valid_identifier(' '));
    assert!(!boxtree::css::Parser::is_valid_identifier('.'));
}

#[test]
fn pretty_print_text_and_comment_nodes() {
    let text = Node::text(String::from("plain words"));
    assert_eq!(text.pretty_print().as_str(), "plain words\n");
    let comment = Node::comment(String::from("an aside"));
    assert_eq!(comment.pretty_print().as_str(), "an aside\n");
}

#[test]
fn css_empty_sheet_parses() {
    let sheet = parse_css("").unwrap();
    assert_eq!(sheet.rules.len(), 0);
}

#[test]
fn attr_map_lookup_and_override() {
    let mut map = boxtree::dom::AttrMap::new();
    map.insert(String::from("id"), String::from("first"));
    map.insert(String::from("class"), String::from("x"));
    map.insert(String::from("id"), String::from("second"));
    assert_eq!(map.get("id").unwrap().as_str(), "second");
    assert_eq!(map.get("class").unwrap().as_str(), "x");
    assert!(map.get("missing").is_none());
}

#[test]
fn classes_split_on_every_space() {
    let mut map = boxtree::dom::AttrMap::new();
    map.insert(String::from("class"), String::from("a  b"));
    let node = Node::elem(String::from("p"), map, Vec::new());
    match &node.node_type {
        NodeType::Element(data) => {
            let classes: Vec<String> = data.classes();
            // two adjacent spaces yield an empty piece between them
            assert_eq!(classes.len(), 3);
            assert_eq!(classes[0].as_str(), "a");
            assert_eq!(classes[1].as_str(), "");
            assert_eq!(classes[2].as_str(), "b");
        },
        _ => unreachable!(),
    }
}

#[test]
fn pretty_print_renders_indented_lines() {
    let node = parse_html("<div class='note'><p>Hi</p></div>").unwrap();
    let rendered = node.pretty_print();
    assert_eq!(
        rendered.as_str(),
        "<div class=\"note\">\n  <p>\n    Hi\n  </p>\n</div>\n"
    );
}

#[test]
fn whole_pipeline_from_text_to_boxes() {
    let dom = parse_html(
        "<div>Hello <div class='note'>Note this</div> <span class='test' id='id1'>Ok</span></div>",
    )
    .unwrap();
    let sheet = parse_css(
        "div { display: block; } div.note { margin-bottom: 20px; } #id1, h1 { display: none; }",
    )
    .unwrap();
    let styled = boxtree::style::style_tree(&dom, &sheet);
    let tree = boxtree::layout::build_layout_tree(&styled).unwrap();
    // the span resolves to display none and is pruned; the note div is a
    // block; the leading text run is wrapped in an anonymous block
    let kinds: Vec<&str> = tree
        .children
        .iter()
        .map(|b| match b.box_type {
            boxtree::layout::BoxType::Block(_) => "block",
            boxtree::layout::BoxType::Inline(_) => "inline",
            boxtree::layout::BoxType::AnonymousBlock => "anonymous",
        })
        .collect();
    assert_eq!(kinds, vec!["anonymous", "block"]);
    // the leading text run stands inline inside the wrapper
    assert!(matches!(
        tree.children[0].children[0].box_type,
        boxtree::layout::BoxType::Inline(_)
    ));
}
