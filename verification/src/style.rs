//! The style cascade: which rules match an element, how conflicts are
//! resolved by specificity and source order, and the styled tree that
//! mirrors the document tree with the resolved properties of each node.

use vstd::prelude::*;

verus! {

use crate::css::{
    lex3_lt, spec3, spec_specificity, Rule, RuleV, Selector, SelectorV, SimpleSelector,
    Specificity, StyleSheet, Value, ValueV, clone_value,
};
use crate::dom::{
    clone_node_type, spec_classes, spec_id, ElementData, ElementDataV, Node, NodeType, NodeTypeV,
    NodeV, lemma_nodes_view,
};
use crate::text::string_eq_str;

broadcast use vstd::std_specs::vec::group_vec_axioms;

/// Resolved properties of one element: names to values. Later insertions
/// of the same name replace earlier ones.
#[derive(Debug, PartialEq)]
pub struct PropertyMap {
    pub entries: Vec<(String, Value)>,
}

/// The mapping an entry list denotes: entries folded left to right,
/// so the latest entry for a name wins.
pub open spec fn props_of(entries: Seq<(String, Value)>) -> Map<Seq<char>, ValueV>
    decreases entries.len(),
{
    if entries.len() == 0 {
        Map::empty()
    } else {
        props_of(entries.drop_last()).insert(entries.last().0@, entries.last().1@)
    }
}

impl View for PropertyMap {
    type V = Map<Seq<char>, ValueV>;

    open spec fn view(&self) -> Map<Seq<char>, ValueV> {
        props_of(self.entries@)
    }
}

proof fn lemma_props_of_absent(entries: Seq<(String, Value)>, name: Seq<char>)
    requires
        forall|i: int| 0 <= i < entries.len() ==> (#[trigger] entries[i]).0@ != name,
    ensures
        !props_of(entries).contains_key(name),
    decreases entries.len(),
{
    if entries.len() > 0 {
        assert(forall|i: int|
            0 <= i < entries.drop_last().len() ==> (#[trigger] entries.drop_last()[i]).0@
                != name) by {
            assert(forall|i: int|
                0 <= i < entries.drop_last().len() ==> entries.drop_last()[i] == entries[i]);
        }
        lemma_props_of_absent(entries.drop_last(), name);
    }
}

proof fn lemma_props_of_found(entries: Seq<(String, Value)>, i: int)
    requires
        0 <= i < entries.len(),
        forall|j: int| i < j < entries.len() ==> (#[trigger] entries[j]).0@ != entries[i].0@,
    ensures
        props_of(entries).contains_key(entries[i].0@),
        props_of(entries)[entries[i].0@] == entries[i].1@,
    decreases entries.len(),
{
    if i == entries.len() - 1 {
    } else {
        assert(entries.drop_last()[i] == entries[i]);
        assert(forall|j: int|
            i < j < entries.drop_last().len() ==> (#[trigger] entries.drop_last()[j]).0@
                != entries.drop_last()[i].0@) by {
            assert(forall|j: int|
                0 <= j < entries.drop_last().len() ==> entries.drop_last()[j] == entries[j]);
        }
        lemma_props_of_found(entries.drop_last(), i);
        assert(entries.last().0@ != entries[i].0@);
    }
}

impl PropertyMap {
    pub fn new() -> (r: PropertyMap)
        ensures
            r@ == Map::<Seq<char>, ValueV>::empty(),
    {
        PropertyMap { entries: Vec::new() }
    }

    /// Binds a name to a value, replacing any earlier binding.
    pub fn insert(&mut self, name: String, value: Value)
        ensures
            final(self)@ == old(self)@.insert(name@, value@),
    {
        let ghost before = self.entries@;
        self.entries.push((name, value));
        proof {
            assert(self.entries@.drop_last() =~= before);
        }
    }

    /// Looks a name up.
    pub fn get(&self, name: &str) -> (r: Option<&Value>)
        ensures
            match r {
                Some(value) => self@.contains_key(name@) && value@ == self@[name@],
                None => !self@.contains_key(name@),
            },
    {
        let mut i: usize = self.entries.len();
        while i > 0
            invariant
                i <= self.entries@.len(),
                forall|j: int| i <= j < self.entries@.len() ==> (#[trigger] self.entries@[j]).0@
                    != name@,
            decreases i,
        {
            i = i - 1;
            if string_eq_str(&self.entries[i].0, name) {
                proof {
                    lemma_props_of_found(self.entries@, i as int);
                }
                return Some(&self.entries[i].1);
            }
        }
        proof {
            lemma_props_of_absent(self.entries@, name@);
        }
        None
    }

    /// A copy with the same mapping.
    pub fn duplicate(&self) -> (r: PropertyMap)
        ensures
            r@ == self@,
    {
        let mut entries: Vec<(String, Value)> = Vec::new();
        let mut i: usize = 0;
        while i < self.entries.len()
            invariant
                i <= self.entries@.len(),
                entries@.len() == i,
                forall|j: int| 0 <= j < i ==> (#[trigger] entries@[j]).0@ == self.entries@[j].0@
                    && entries@[j].1@ == self.entries@[j].1@,
            decreases self.entries@.len() - i,
        {
            let name = self.entries[i].0.clone();
            let value = clone_value(&self.entries[i].1);
            entries.push((name, value));
            i = i + 1;
        }
        let r = PropertyMap { entries };
        proof {
            lemma_props_of_congruent(r.entries@, self.entries@);
        }
        r
    }
}

proof fn lemma_props_of_congruent(a: Seq<(String, Value)>, b: Seq<(String, Value)>)
    requires
        a.len() == b.len(),
        forall|i: int| 0 <= i < a.len() ==> (#[trigger] a[i]).0@ == b[i].0@ && a[i].1@ == b[i].1@,
    ensures
        props_of(a) == props_of(b),
    decreases a.len(),
{
    if a.len() > 0 {
        assert(forall|i: int|
            0 <= i < a.drop_last().len() ==> (#[trigger] a.drop_last()[i]).0@ == b.drop_last()[i].0@
                && a.drop_last()[i].1@ == b.drop_last()[i].1@) by {
            assert(forall|i: int| 0 <= i < a.drop_last().len() ==> a.drop_last()[i] == a[i]);
            assert(forall|i: int| 0 <= i < b.drop_last().len() ==> b.drop_last()[i] == b[i]);
        }
        lemma_props_of_congruent(a.drop_last(), b.drop_last());
    }
}

/// A node of the styled tree: the node's own data, its resolved
/// properties, and its styled children, mirroring the document tree.
#[derive(Debug, PartialEq)]
pub struct StyledNode {
    pub node_type: NodeType,
    pub css_props: PropertyMap,
    pub children: Vec<StyledNode>,
}

/// The mathematical shape of a styled node.
pub struct StyledNodeV {
    pub node_type: NodeTypeV,
    pub css_props: Map<Seq<char>, ValueV>,
    pub children: Seq<StyledNodeV>,
}

/// The shape of a styled node, child views in order.
pub open spec fn styled_view(node: StyledNode) -> StyledNodeV
    decreases node,
{
    StyledNodeV {
        node_type: node.node_type@,
        css_props: node.css_props@,
        children: styleds_view(node.children@),
    }
}

/// The shapes of a sequence of styled nodes, in order.
pub open spec fn styleds_view(nodes: Seq<StyledNode>) -> Seq<StyledNodeV>
    decreases nodes,
{
    if nodes.len() == 0 {
        Seq::empty()
    } else {
        styleds_view(nodes.subrange(0, nodes.len() - 1)).push(styled_view(nodes[nodes.len() - 1]))
    }
}

pub broadcast proof fn lemma_styleds_view(nodes: Seq<StyledNode>)
    ensures
        (#[trigger] styleds_view(nodes)).len() == nodes.len(),
        forall|i: int| 0 <= i < nodes.len() ==> styleds_view(nodes)[i] == styled_view(nodes[i]),
    decreases nodes,
{
    if nodes.len() > 0 {
        lemma_styleds_view(nodes.subrange(0, nodes.len() - 1));
        assert(forall|i: int|
            0 <= i < nodes.len() - 1 ==> nodes.subrange(0, nodes.len() - 1)[i] == nodes[i]);
    }
}

impl View for StyledNode {
    type V = StyledNodeV;

    open spec fn view(&self) -> StyledNodeV {
        styled_view(*self)
    }
}

/// How a box is laid out: as a block, inline, or not at all (`NoBox`
/// stands for the `none` keyword: the element generates no box).
#[derive(PartialEq, Eq, Structural, Clone, Copy, Debug)]
pub enum Display {
    Block,
    Inline,
    NoBox,
}

/// The display mode a property map resolves to: the `display` keyword if
/// it says `block` or `none`, and inline in every other case.
pub open spec fn spec_display(props: Map<Seq<char>, ValueV>) -> Display {
    if props.contains_key("display"@) {
        match props["display"@] {
            ValueV::Keyword(word) => {
                if word == "block"@ {
                    Display::Block
                } else if word == "none"@ {
                    Display::NoBox
                } else {
                    Display::Inline
                }
            },
            _ => Display::Inline,
        }
    } else {
        Display::Inline
    }
}

impl StyledNode {
    /// The resolved value of a property, if any.
    pub fn value(&self, name: &str) -> (r: Option<Value>)
        ensures
            match r {
                Some(value) => self@.css_props.contains_key(name@) && value@ == self@.css_props[
                    name@
                ],
                None => !self@.css_props.contains_key(name@),
            },
    {
        match self.css_props.get(name) {
            Some(value) => Some(clone_value(value)),
            None => None,
        }
    }

    /// The node's display mode, per its resolved `display` property.
    pub fn display(&self) -> (r: Display)
        ensures
            r == spec_display(self@.css_props),
    {
        match self.css_props.get("display") {
            Some(value) => match value {
                Value::Keyword(word) => {
                    if string_eq_str(word, "block") {
                        Display::Block
                    } else if string_eq_str(word, "none") {
                        Display::NoBox
                    } else {
                        Display::Inline
                    }
                },
                _ => Display::Inline,
            },
            None => Display::Inline,
        }
    }
}

/// Whether a simple selector matches an element: the tag name, if given,
/// equals the element's; the id, if given, equals the element's id
/// attribute; and every class given is among the element's classes.
pub open spec fn sel_matches(e: ElementDataV, s: SelectorV) -> bool {
    match s {
        SelectorV::Simple(sel) => {
            &&& (sel.tag_name matches Option::Some(t) ==> e.tag_name == t)
            &&& (sel.id matches Option::Some(i) ==> spec_id(e) == Option::Some(i))
            &&& (forall|k: int|
                0 <= k < sel.classes.len() ==> spec_classes(e).contains(#[trigger] sel.classes[k]))
        },
    }
}

/// Whether a string is among a list of strings.
pub fn contains_string(list: &Vec<String>, wanted: &String) -> (r: bool)
    ensures
        r == list@.map_values(|p: String| p@).contains(wanted@),
{
    let ghost views = list@.map_values(|p: String| p@);
    let mut i: usize = 0;
    while i < list.len()
        invariant
            i <= list@.len(),
            views == list@.map_values(|p: String| p@),
            forall|j: int| 0 <= j < i ==> views[j] != wanted@,
        decreases list@.len() - i,
    {
        if string_eq_str(wanted, list[i].as_str()) {
            assert(views[i as int] == wanted@);
            return true;
        }
        i = i + 1;
    }
    false
}

/// Whether a simple selector matches an element.
pub fn matches_simple_selector(elem: &ElementData, selector: &SimpleSelector) -> (r: bool)
    ensures
        r == sel_matches(elem@, SelectorV::Simple(selector@)),
{
    if let Option::Some(tag) = &selector.tag_name {
        if !(*tag == *elem.tag_name()) {
            return false;
        }
    }
    if let Option::Some(selector_id) = &selector.id {
        match elem.id() {
            Option::Some(elem_id) => {
                if !(*selector_id == *elem_id) {
                    return false;
                }
            },
            Option::None => {
                return false;
            },
        }
    }
    let elem_classes = elem.classes();
    let mut k: usize = 0;
    while k < selector.classes.len()
        invariant
            k <= selector.classes@.len(),
            elem_classes@.map_values(|p: String| p@) == spec_classes(elem@),
            forall|j: int| 0 <= j < k ==> spec_classes(elem@).contains(
                #[trigger] selector.classes@[j]@,
            ),
        decreases selector.classes@.len() - k,
    {
        if !contains_string(&elem_classes, &selector.classes[k]) {
            assert(!sel_matches(elem@, SelectorV::Simple(selector@))) by {
                assert(selector@.classes[k as int] == selector.classes@[k as int]@);
            }
            return false;
        }
        k = k + 1;
    }
    assert(sel_matches(elem@, SelectorV::Simple(selector@))) by {
        assert(forall|j: int|
            0 <= j < selector@.classes.len() ==> spec_classes(elem@).contains(
                #[trigger] selector@.classes[j],
            )) by {
            assert(forall|j: int|
                0 <= j < selector.classes@.len() ==> selector@.classes[j]
                    == selector.classes@[j]@);
        }
    }
    true
}

/// Whether a selector matches an element.
pub fn matches(elem: &ElementData, selector: &Selector) -> (r: bool)
    ensures
        r == sel_matches(elem@, selector@),
{
    match selector {
        Selector::Simple(simple) => matches_simple_selector(elem, simple),
    }
}

/// Whether any selector of a rule matches the element.
pub open spec fn rule_matches(e: ElementDataV, r: RuleV) -> bool {
    exists|i: int| 0 <= i < r.selectors.len() && sel_matches(e, #[trigger] r.selectors[i])
}

/// The specificity of the first selector in list order that matches.
pub open spec fn first_match_specificity(e: ElementDataV, sels: Seq<SelectorV>) -> (int, int, int)
    decreases sels.len(),
{
    if sels.len() == 0 {
        (0int, 0int, 0int)
    } else if sel_matches(e, sels[0]) {
        spec_specificity(sels[0])
    } else {
        first_match_specificity(e, sels.subrange(1, sels.len() as int))
    }
}

/// The specificity a rule has against an element it matches.
pub open spec fn rule_specificity(e: ElementDataV, r: RuleV) -> (int, int, int) {
    first_match_specificity(e, r.selectors)
}

/// Declaration `di` of rule `ri` binds `name` for the element.
pub open spec fn is_candidate(
    e: ElementDataV,
    rules: Seq<RuleV>,
    name: Seq<char>,
    ri: int,
    di: int,
) -> bool {
    &&& 0 <= ri < rules.len()
    &&& rule_matches(e, rules[ri])
    &&& 0 <= di < rules[ri].declarations.len()
    &&& rules[ri].declarations[di].name == name
}

/// The order in which candidate declarations take effect: by rule
/// specificity, then rule position, then declaration position; the
/// later one wins.
pub open spec fn cand_le(
    e: ElementDataV,
    rules: Seq<RuleV>,
    ri: int,
    di: int,
    rj: int,
    dj: int,
) -> bool {
    ||| lex3_lt(rule_specificity(e, rules[ri]), rule_specificity(e, rules[rj]))
    ||| (rule_specificity(e, rules[ri]) == rule_specificity(e, rules[rj]) && (ri < rj || (ri == rj
        && di <= dj)))
}

/// The candidate that wins `name`: it takes effect after every other.
pub open spec fn decl_wins(
    e: ElementDataV,
    rules: Seq<RuleV>,
    name: Seq<char>,
    ri: int,
    di: int,
) -> bool {
    &&& is_candidate(e, rules, name, ri, di)
    &&& forall|rj: int, dj: int|
        #[trigger] is_candidate(e, rules, name, rj, dj) ==> cand_le(e, rules, rj, dj, ri, di)
}

/// The resolved properties of an element against a rule list: each name
/// some matching rule declares is bound to the value of the winning
/// declaration — the higher specificity wins, and on ties the later
/// rule, and within a rule the later declaration.
pub open spec fn resolved(e: ElementDataV, rules: Seq<RuleV>) -> Map<Seq<char>, ValueV> {
    Map::new(
        |name: Seq<char>| exists|ri: int, di: int| is_candidate(e, rules, name, ri, di),
        |name: Seq<char>|
            {
                let (ri, di) = choose|ri: int, di: int| decl_wins(e, rules, name, ri, di);
                rules[ri].declarations[di].value
            },
    )
}

/// The winning candidate is what the resolved map holds for its name.
pub proof fn lemma_cascade_winner(
    e: ElementDataV,
    rules: Seq<RuleV>,
    name: Seq<char>,
    ri: int,
    di: int,
)
    requires
        decl_wins(e, rules, name, ri, di),
    ensures
        resolved(e, rules).contains_key(name),
        resolved(e, rules)[name] == rules[ri].declarations[di].value,
{
    let (rj, dj) = choose|rj: int, dj: int| decl_wins(e, rules, name, rj, dj);
    assert(decl_wins(e, rules, name, rj, dj));
    lemma_winner_unique(e, rules, name, ri, di, rj, dj);
}

/// Cascade override and tie-break: the winner of a name outranks every
/// other candidate — no candidate's rule has strictly higher
/// specificity, and among rules of equal specificity the winner's rule
/// stands latest, so the later rule wins ties.
pub proof fn lemma_winner_outranks(
    e: ElementDataV,
    rules: Seq<RuleV>,
    name: Seq<char>,
    ri: int,
    di: int,
    rj: int,
    dj: int,
)
    requires
        decl_wins(e, rules, name, ri, di),
        is_candidate(e, rules, name, rj, dj),
    ensures
        !lex3_lt(rule_specificity(e, rules[ri]), rule_specificity(e, rules[rj])),
        rule_specificity(e, rules[ri]) == rule_specificity(e, rules[rj]) && ri != rj ==> rj < ri,
        ri == rj ==> dj <= di,
{
    assert(cand_le(e, rules, rj, dj, ri, di));
}

/// At most one candidate wins a name.
pub proof fn lemma_winner_unique(
    e: ElementDataV,
    rules: Seq<RuleV>,
    name: Seq<char>,
    ri: int,
    di: int,
    rj: int,
    dj: int,
)
    requires
        decl_wins(e, rules, name, ri, di),
        decl_wins(e, rules, name, rj, dj),
    ensures
        ri == rj && di == dj,
{
    assert(cand_le(e, rules, ri, di, rj, dj));
    assert(cand_le(e, rules, rj, dj, ri, di));
}

proof fn lemma_first_match(e: ElementDataV, sels: Seq<SelectorV>, i: int)
    requires
        0 <= i < sels.len(),
        sel_matches(e, sels[i]),
        forall|j: int| 0 <= j < i ==> !sel_matches(e, #[trigger] sels[j]),
    ensures
        first_match_specificity(e, sels) == spec_specificity(sels[i]),
    decreases i,
{
    if i == 0 {
    } else {
        let tail = sels.subrange(1, sels.len() as int);
        assert(forall|j: int| 0 <= j < i - 1 ==> !sel_matches(e, #[trigger] tail[j])) by {
            assert(forall|j: int| 0 <= j < i - 1 ==> tail[j] == sels[j + 1]);
        }
        assert(tail[i - 1] == sels[i]);
        lemma_first_match(e, tail, i - 1);
    }
}

/// A matched rule: its specificity against the element, and its
/// position in the stylesheet.
pub type MatchedRule = (Specificity, usize);

/// What a matched-rule pair says, and that it says it truly.
pub open spec fn matched_about(e: ElementDataV, rules: Seq<RuleV>, m: MatchedRule) -> bool {
    &&& (m.1 as int) < rules.len()
    &&& rule_matches(e, rules[m.1 as int])
    &&& spec3(m.0) == rule_specificity(e, rules[m.1 as int])
}

/// Matches a rule against an element: the specificity of the first
/// selector that matches, or nothing when none does.
pub fn match_rule(elem: &ElementData, rule: &Rule) -> (r: Option<Specificity>)
    ensures
        r is Some <==> rule_matches(elem@, rule@),
        r matches Some(s) ==> spec3(s) == rule_specificity(elem@, rule@),
{
    let mut i: usize = 0;
    while i < rule.selectors.len()
        invariant
            i <= rule.selectors@.len(),
            forall|j: int| 0 <= j < i ==> !sel_matches(elem@, #[trigger] rule@.selectors[j]),
        decreases rule.selectors@.len() - i,
    {
        let is_match = matches(elem, &rule.selectors[i]);
        proof {
            assert(rule@.selectors[i as int] == rule.selectors@[i as int]@);
        }
        if is_match {
            let s = rule.selectors[i].specificity();
            proof {
                lemma_first_match(elem@, rule@.selectors, i as int);
            }
            return Some(s);
        }
        i = i + 1;
    }
    None
}

/// Every matching rule of the stylesheet with its specificity, in
/// stylesheet order.
pub fn matching_rules(elem: &ElementData, stylesheet: &StyleSheet) -> (r: Vec<MatchedRule>)
    ensures
        forall|k: int|
            0 <= k < r@.len() ==> matched_about(elem@, stylesheet@.rules, #[trigger] r@[k]),
        forall|k1: int, k2: int| 0 <= k1 < k2 < r@.len() ==> r@[k1].1 < r@[k2].1,
        forall|ri: int|
            0 <= ri < stylesheet@.rules.len() && rule_matches(elem@, #[trigger] stylesheet@.rules[ri])
                ==> exists|k: int| 0 <= k < r@.len() && (#[trigger] r@[k]).1 == ri,
{
    let mut r: Vec<MatchedRule> = Vec::new();
    let mut i: usize = 0;
    while i < stylesheet.rules.len()
        invariant
            i <= stylesheet.rules@.len(),
            forall|k: int|
                0 <= k < r@.len() ==> matched_about(elem@, stylesheet@.rules, #[trigger] r@[k]),
            forall|k: int| 0 <= k < r@.len() ==> (#[trigger] r@[k]).1 < i,
            forall|k1: int, k2: int| 0 <= k1 < k2 < r@.len() ==> r@[k1].1 < r@[k2].1,
            forall|ri: int|
                0 <= ri < i && rule_matches(elem@, #[trigger] stylesheet@.rules[ri]) ==> exists|
                    k: int,
                |
                    0 <= k < r@.len() && (#[trigger] r@[k]).1 == ri,
        decreases stylesheet.rules@.len() - i,
    {
        let matched = match_rule(elem, &stylesheet.rules[i]);
        proof {
            assert(stylesheet@.rules[i as int] == stylesheet.rules@[i as int]@);
        }
        match matched {
            Some(s) => {
                let ghost before = r@;
                r.push((s, i));
                proof {
                    assert(forall|k: int| 0 <= k < before.len() ==> r@[k] == before[k]);
                    assert(r@[before.len() as int] == (s, i));
                }
            },
            None => {},
        }
        i = i + 1;
    }
    r
}

/// The order in which matched rules are applied: ascending specificity,
/// then ascending stylesheet position.
pub open spec fn matched_lt(a: MatchedRule, b: MatchedRule) -> bool {
    lex3_lt(spec3(a.0), spec3(b.0)) || (spec3(a.0) == spec3(b.0) && a.1 < b.1)
}

fn matched_before(a: &MatchedRule, b: &MatchedRule) -> (r: bool)
    ensures
        r == matched_lt(*a, *b),
{
    crate::css::specificity_lt(a.0, b.0) || (a.0.0 == b.0.0 && a.0.1 == b.0.1 && a.0.2 == b.0.2
        && a.1 < b.1)
}

/// Sorts matched rules into application order. Stylesheet positions are
/// distinct, so the order is strict and the result unique.
fn sort_matched(input: Vec<MatchedRule>) -> (r: Vec<MatchedRule>)
    requires
        forall|k1: int, k2: int| 0 <= k1 < k2 < input@.len() ==> input@[k1].1 < input@[k2].1,
    ensures
        r@.len() == input@.len(),
        forall|x: MatchedRule| r@.contains(x) <==> input@.contains(x),
        forall|k1: int, k2: int|
            0 <= k1 < k2 < r@.len() ==> matched_lt(#[trigger] r@[k1], #[trigger] r@[k2]),
{
    let mut out: Vec<MatchedRule> = Vec::new();
    let mut i: usize = 0;
    while i < input.len()
        invariant
            forall|k1: int, k2: int| 0 <= k1 < k2 < input@.len() ==> input@[k1].1 < input@[k2].1,
            i <= input@.len(),
            out@.len() == i,
            forall|x: MatchedRule| out@.contains(x) <==> input@.subrange(0, i as int).contains(x),
            forall|j: int|
                0 <= j < out@.len() ==> exists|k: int| 0 <= k < i && #[trigger] out@[j] == input@[k],
            forall|k1: int, k2: int|
                0 <= k1 < k2 < out@.len() ==> matched_lt(#[trigger] out@[k1], #[trigger] out@[k2]),
        decreases input@.len() - i,
    {
        let x = input[i];
        proof {
            assert(forall|j: int| 0 <= j < out@.len() ==> (#[trigger] out@[j]).1 < x.1);
        }
        let mut p: usize = 0;
        while p < out.len() && matched_before(&out[p], &x)
            invariant
                p <= out@.len(),
                forall|j: int| 0 <= j < p ==> matched_lt(#[trigger] out@[j], x),
            decreases out@.len() - p,
        {
            p = p + 1;
        }
        proof {
            if p < out@.len() {
                assert(!matched_lt(out@[p as int], x));
                assert(out@[p as int].1 < x.1);
                assert(matched_lt(x, out@[p as int]));
            }
            assert(forall|j: int| p <= j < out@.len() ==> matched_lt(x, #[trigger] out@[j])) by {
                if p < out@.len() {
                    assert(forall|j: int|
                        p < j < out@.len() ==> matched_lt(out@[p as int], #[trigger] out@[j]));
                }
            }
        }
        let ghost before = out@;
        out.insert(p, x);
        i = i + 1;
        proof {
            before.insert_ensures(p as int, x);
            assert(forall|k1: int, k2: int|
                0 <= k1 < k2 < out@.len() ==> matched_lt(#[trigger] out@[k1], #[trigger] out@[k2]))
                by {
                assert(forall|j: int| 0 <= j < p ==> out@[j] == before[j]);
                assert(out@[p as int] == x);
                assert(forall|j: int| p <= j < before.len() ==> out@[j + 1] == before[j]);
                assert(forall|j: int| p < j < out@.len() ==> out@[j] == before[j - 1]);
            }
            assert(forall|x2: MatchedRule| out@.contains(x2) <==> input@.subrange(
                0,
                i as int,
            ).contains(x2)) by {
                assert(forall|j: int| 0 <= j < p ==> out@[j] == before[j]);
                assert(out@[p as int] == x);
                assert(forall|j: int| p < j < out@.len() ==> out@[j] == before[j - 1]);
                assert(forall|j: int|
                    0 <= j < i - 1 ==> input@.subrange(0, i as int)[j] == input@.subrange(
                        0,
                        i - 1,
                    )[j]);
                assert(input@.subrange(0, i as int)[i - 1] == input@[i - 1]);
                assert forall|x2: MatchedRule| out@.contains(x2) implies input@.subrange(
                    0,
                    i as int,
                ).contains(x2) by {
                    let j = choose|j: int| 0 <= j < out@.len() && out@[j] == x2;
                    if j < p {
                        assert(before.contains(x2));
                        let k = choose|k: int|
                            0 <= k < before.len() && #[trigger] before[k] == x2;
                        assert(input@.subrange(0, i - 1).contains(x2));
                        let k2 = choose|k2: int|
                            0 <= k2 < i - 1 && #[trigger] input@.subrange(0, i - 1)[k2] == x2;
                        assert(input@.subrange(0, i as int)[k2] == x2);
                    } else if j == p {
                        assert(input@.subrange(0, i as int)[i - 1] == x2);
                    } else {
                        assert(before.contains(x2));
                        let k = choose|k: int|
                            0 <= k < before.len() && #[trigger] before[k] == x2;
                        assert(input@.subrange(0, i - 1).contains(x2));
                        let k2 = choose|k2: int|
                            0 <= k2 < i - 1 && #[trigger] input@.subrange(0, i - 1)[k2] == x2;
                        assert(input@.subrange(0, i as int)[k2] == x2);
                    }
                }
                assert forall|x2: MatchedRule| input@.subrange(0, i as int).contains(x2) implies
                    out@.contains(x2) by {
                    let k = choose|k: int|
                        0 <= k < i && #[trigger] input@.subrange(0, i as int)[k] == x2;
                    if k == i - 1 {
                        assert(out@[p as int] == x2);
                    } else {
                        assert(input@.subrange(0, i - 1)[k] == x2);
                        assert(before.contains(x2));
                        let j = choose|j: int|
                            0 <= j < before.len() && #[trigger] before[j] == x2;
                        if j < p {
                            assert(out@[j] == x2);
                        } else {
                            assert(out@[j + 1] == x2);
                        }
                    }
                }
            }
            assert(forall|j: int|
                0 <= j < out@.len() ==> exists|k: int|
                    0 <= k < i && #[trigger] out@[j] == input@[k]) by {
                assert(forall|j: int| 0 <= j < p ==> out@[j] == before[j]);
                assert(out@[p as int] == x && x == input@[i - 1]);
                assert(forall|j: int| p < j < out@.len() ==> out@[j] == before[j - 1]);
            }
        }
    }
    proof {
        assert(input@.subrange(0, input@.len() as int) =~= input@);
    }
    out
}

/// The candidates already applied after `k` whole matched rules and the
/// first `d` declarations of matched rule `k`.
spec fn prefix_has(S: Seq<MatchedRule>, k: int, d: int, ri: int, di: int) -> bool {
    (exists|j: int| 0 <= j < k && (#[trigger] S[j]).1 == ri) || (0 <= k < S.len() && S[k].1 == ri
        && di < d)
}

/// Candidate `(ri, di)` wins `name` among the candidates applied so far.
spec fn winner_within(
    e: ElementDataV,
    rules: Seq<RuleV>,
    S: Seq<MatchedRule>,
    k: int,
    d: int,
    name: Seq<char>,
    ri: int,
    di: int,
) -> bool {
    &&& is_candidate(e, rules, name, ri, di)
    &&& prefix_has(S, k, d, ri, di)
    &&& forall|rj: int, dj: int|
        #[trigger] is_candidate(e, rules, name, rj, dj) && prefix_has(S, k, d, rj, dj) ==> cand_le(
            e,
            rules,
            rj,
            dj,
            ri,
            di,
        )
}

/// The map holds exactly the names some applied candidate binds, each to
/// the value of the winner so far.
spec fn cascade_step_inv(
    e: ElementDataV,
    rules: Seq<RuleV>,
    S: Seq<MatchedRule>,
    k: int,
    d: int,
    m: Map<Seq<char>, ValueV>,
) -> bool {
    &&& forall|name: Seq<char>| #[trigger]
        m.contains_key(name) ==> exists|ri: int, di: int|
            winner_within(e, rules, S, k, d, name, ri, di) && m[name]
                == rules[ri].declarations[di].value
    &&& forall|name: Seq<char>, ri: int, di: int|
        #[trigger] is_candidate(e, rules, name, ri, di) && prefix_has(S, k, d, ri, di)
            ==> m.contains_key(name)
}

/// A correctly sorted list of exactly the matching rules.
spec fn sorted_matches(e: ElementDataV, rules: Seq<RuleV>, S: Seq<MatchedRule>) -> bool {
    &&& forall|k: int| 0 <= k < S.len() ==> matched_about(e, rules, #[trigger] S[k])
    &&& forall|k1: int, k2: int|
        0 <= k1 < k2 < S.len() ==> matched_lt(#[trigger] S[k1], #[trigger] S[k2])
    &&& forall|ri: int|
        0 <= ri < rules.len() && rule_matches(e, #[trigger] rules[ri]) ==> exists|j: int|
            0 <= j < S.len() && (#[trigger] S[j]).1 == ri
}

proof fn lemma_cascade_insert(
    e: ElementDataV,
    rules: Seq<RuleV>,
    S: Seq<MatchedRule>,
    k: int,
    d: int,
    m: Map<Seq<char>, ValueV>,
)
    requires
        sorted_matches(e, rules, S),
        0 <= k < S.len(),
        0 <= d < rules[S[k].1 as int].declarations.len(),
        cascade_step_inv(e, rules, S, k, d, m),
    ensures
        cascade_step_inv(
            e,
            rules,
            S,
            k,
            d + 1,
            m.insert(
                rules[S[k].1 as int].declarations[d].name,
                rules[S[k].1 as int].declarations[d].value,
            ),
        ),
{
    let ri = S[k].1 as int;
    let nm = rules[ri].declarations[d].name;
    let vl = rules[ri].declarations[d].value;
    let m2 = m.insert(nm, vl);
    assert(matched_about(e, rules, S[k]));
    assert(is_candidate(e, rules, nm, ri, d));
    assert(prefix_has(S, k, d + 1, ri, d));
    assert forall|rj: int, dj: int|
        #[trigger] is_candidate(e, rules, nm, rj, dj) && prefix_has(
            S,
            k,
            d + 1,
            rj,
            dj,
        ) implies cand_le(e, rules, rj, dj, ri, d) by {
        if exists|j: int| 0 <= j < k && (#[trigger] S[j]).1 == rj {
            let j = choose|j: int| 0 <= j < k && (#[trigger] S[j]).1 == rj;
            assert(matched_about(e, rules, S[j]));
            assert(matched_lt(S[j], S[k]));
        } else {
            assert(rj == ri && dj <= d);
        }
    }
    assert forall|name: Seq<char>| #[trigger] m2.contains_key(name) implies exists|
        ri2: int,
        di2: int,
    |
        winner_within(e, rules, S, k, d + 1, name, ri2, di2) && m2[name]
            == rules[ri2].declarations[di2].value by {
        if name == nm {
            assert(winner_within(e, rules, S, k, d + 1, nm, ri, d) && m2[nm]
                == rules[ri].declarations[d].value);
        } else {
            assert(m.contains_key(name));
            let (ri0, di0) = choose|ri0: int, di0: int|
                winner_within(e, rules, S, k, d, name, ri0, di0) && m[name]
                    == rules[ri0].declarations[di0].value;
            assert(winner_within(e, rules, S, k, d, name, ri0, di0));
            assert(prefix_has(S, k, d + 1, ri0, di0));
            assert forall|rj: int, dj: int|
                #[trigger] is_candidate(e, rules, name, rj, dj) && prefix_has(
                    S,
                    k,
                    d + 1,
                    rj,
                    dj,
                ) implies cand_le(e, rules, rj, dj, ri0, di0) by {
                if prefix_has(S, k, d, rj, dj) {
                } else {
                    assert(rj == ri && dj == d);
                    assert(rules[rj].declarations[dj].name == nm);
                    assert(false);
                }
            }
            assert(winner_within(e, rules, S, k, d + 1, name, ri0, di0) && m2[name]
                == rules[ri0].declarations[di0].value);
        }
    }
    assert forall|name: Seq<char>, rj: int, dj: int|
        #[trigger] is_candidate(e, rules, name, rj, dj) && prefix_has(
            S,
            k,
            d + 1,
            rj,
            dj,
        ) implies m2.contains_key(name) by {
        if prefix_has(S, k, d, rj, dj) {
            assert(m.contains_key(name));
        } else {
            assert(rj == ri && dj == d);
            assert(name == nm);
        }
    }
}

proof fn lemma_cascade_advance(
    e: ElementDataV,
    rules: Seq<RuleV>,
    S: Seq<MatchedRule>,
    k: int,
    m: Map<Seq<char>, ValueV>,
)
    requires
        sorted_matches(e, rules, S),
        0 <= k < S.len(),
        cascade_step_inv(e, rules, S, k, rules[S[k].1 as int].declarations.len() as int, m),
    ensures
        cascade_step_inv(e, rules, S, k + 1, 0, m),
{
    let big = rules[S[k].1 as int].declarations.len() as int;
    assert forall|name: Seq<char>, rj: int, dj: int| #[trigger] is_candidate(
        e,
        rules,
        name,
        rj,
        dj,
    ) implies (prefix_has(S, k, big, rj, dj) <==> prefix_has(S, k + 1, 0, rj, dj)) by {
        if prefix_has(S, k + 1, 0, rj, dj) {
            let j = choose|j: int| 0 <= j < k + 1 && (#[trigger] S[j]).1 == rj;
            if j < k {
                assert(prefix_has(S, k, big, rj, dj));
            } else {
                assert(S[k].1 == rj);
                assert(dj < big);
                assert(prefix_has(S, k, big, rj, dj));
            }
        }
        if prefix_has(S, k, big, rj, dj) {
            if exists|j: int| 0 <= j < k && (#[trigger] S[j]).1 == rj {
                let j = choose|j: int| 0 <= j < k && (#[trigger] S[j]).1 == rj;
                assert(0 <= j < k + 1 && S[j].1 == rj);
            } else {
                assert(S[k].1 == rj);
                assert(0 <= k < k + 1 && S[k].1 == rj);
            }
            assert(prefix_has(S, k + 1, 0, rj, dj));
        }
    }
    assert forall|name: Seq<char>| #[trigger] m.contains_key(name) implies exists|
        ri2: int,
        di2: int,
    |
        winner_within(e, rules, S, k + 1, 0, name, ri2, di2) && m[name]
            == rules[ri2].declarations[di2].value by {
        let (ri0, di0) = choose|ri0: int, di0: int|
            winner_within(e, rules, S, k, big, name, ri0, di0) && m[name]
                == rules[ri0].declarations[di0].value;
        assert(winner_within(e, rules, S, k, big, name, ri0, di0));
        assert(winner_within(e, rules, S, k + 1, 0, name, ri0, di0));
    }
}

proof fn lemma_cascade_finish(
    e: ElementDataV,
    rules: Seq<RuleV>,
    S: Seq<MatchedRule>,
    m: Map<Seq<char>, ValueV>,
)
    requires
        sorted_matches(e, rules, S),
        cascade_step_inv(e, rules, S, S.len() as int, 0, m),
    ensures
        m == resolved(e, rules),
{
    let rsv = resolved(e, rules);
    assert forall|name: Seq<char>, ri: int, di: int| #[trigger] is_candidate(
        e,
        rules,
        name,
        ri,
        di,
    ) implies prefix_has(S, S.len() as int, 0, ri, di) by {
        assert(rule_matches(e, rules[ri]));
        let j = choose|j: int| 0 <= j < S.len() && (#[trigger] S[j]).1 == ri;
        assert(0 <= j < S.len() && S[j].1 == ri);
    }
    assert forall|name: Seq<char>| #[trigger]
        m.contains_key(name) == rsv.contains_key(name) by {
        if m.contains_key(name) {
            let (ri0, di0) = choose|ri0: int, di0: int|
                winner_within(e, rules, S, S.len() as int, 0, name, ri0, di0) && m[name]
                    == rules[ri0].declarations[di0].value;
            assert(winner_within(e, rules, S, S.len() as int, 0, name, ri0, di0));
            assert(is_candidate(e, rules, name, ri0, di0));
            assert(rsv.contains_key(name));
        }
        if rsv.contains_key(name) {
            let (ri0, di0) = choose|ri0: int, di0: int| is_candidate(e, rules, name, ri0, di0);
            assert(is_candidate(e, rules, name, ri0, di0));
            assert(m.contains_key(name));
        }
    }
    assert forall|name: Seq<char>| #[trigger] m.contains_key(name) implies m[name]
        == rsv[name] by {
        let (ri0, di0) = choose|ri0: int, di0: int|
            winner_within(e, rules, S, S.len() as int, 0, name, ri0, di0) && m[name]
                == rules[ri0].declarations[di0].value;
        assert(winner_within(e, rules, S, S.len() as int, 0, name, ri0, di0));
        assert(decl_wins(e, rules, name, ri0, di0));
        let (ri1, di1) = choose|ri1: int, di1: int| decl_wins(e, rules, name, ri1, di1);
        assert(decl_wins(e, rules, name, ri1, di1));
        lemma_winner_unique(e, rules, name, ri0, di0, ri1, di1);
        assert(rsv[name] == rules[ri1].declarations[di1].value);
    }
    assert(m =~= rsv);
}

/// Merges the declarations of every matching rule into the element's
/// property map, in ascending order of specificity and stylesheet
/// position, so that the winner of each name is what remains.
pub fn element_properties(elem: &ElementData, stylesheet: &StyleSheet) -> (r: PropertyMap)
    ensures
        r@ == resolved(elem@, stylesheet@.rules),
{
    let ghost e = elem@;
    let ghost rules = stylesheet@.rules;
    let matched = matching_rules(elem, stylesheet);
    let sorted = sort_matched(matched);
    let ghost bigs = sorted@;
    proof {
        assert forall|k: int| 0 <= k < bigs.len() implies matched_about(
            e,
            rules,
            #[trigger] bigs[k],
        ) by {
            assert(bigs.contains(bigs[k]));
            assert(matched@.contains(bigs[k]));
            let j = choose|j: int| 0 <= j < matched@.len() && #[trigger] matched@[j] == bigs[k];
        }
        assert forall|ri: int|
            0 <= ri < rules.len() && rule_matches(e, #[trigger] rules[ri]) implies exists|j: int|
            0 <= j < bigs.len() && (#[trigger] bigs[j]).1 == ri by {
            let k = choose|k: int| 0 <= k < matched@.len() && (#[trigger] matched@[k]).1 == ri;
            assert(matched@.contains(matched@[k]));
            assert(bigs.contains(matched@[k]));
            let j = choose|j: int| 0 <= j < bigs.len() && #[trigger] bigs[j] == matched@[k];
            assert(bigs[j].1 == ri);
        }
        assert(sorted_matches(e, rules, bigs));
    }
    let mut properties = PropertyMap::new();
    proof {
        assert(cascade_step_inv(e, rules, bigs, 0, 0, properties@));
    }
    let mut k: usize = 0;
    while k < sorted.len()
        invariant
            sorted@ == bigs,
            stylesheet@.rules == rules,
            elem@ == e,
            k <= bigs.len(),
            sorted_matches(e, rules, bigs),
            cascade_step_inv(e, rules, bigs, k as int, 0, properties@),
        decreases bigs.len() - k,
    {
        let ri = sorted[k].1;
        proof {
            assert(matched_about(e, rules, bigs[k as int]));
        }
        let rule = &stylesheet.rules[ri];
        let ghost rv = rules[ri as int];
        proof {
            assert(rule@ == stylesheet.rules@[ri as int]@);
            assert(rv == rule@);
        }
        let mut d: usize = 0;
        while d < rule.declarations.len()
            invariant
                sorted@ == bigs,
                stylesheet@.rules == rules,
                elem@ == e,
                k < bigs.len(),
                bigs[k as int].1 == ri,
                sorted_matches(e, rules, bigs),
                rv == rules[ri as int],
                rule@ == rv,
                d <= rv.declarations.len(),
                cascade_step_inv(e, rules, bigs, k as int, d as int, properties@),
            decreases rv.declarations.len() - d,
        {
            let name = rule.declarations[d].name.clone();
            let value = clone_value(&rule.declarations[d].value);
            proof {
                assert(rule.declarations@[d as int]@ == rv.declarations[d as int]);
                lemma_cascade_insert(e, rules, bigs, k as int, d as int, properties@);
            }
            properties.insert(name, value);
            d = d + 1;
        }
        proof {
            lemma_cascade_advance(e, rules, bigs, k as int, properties@);
        }
        k = k + 1;
    }
    proof {
        lemma_cascade_finish(e, rules, bigs, properties@);
    }
    properties
}

/// The styled tree of a document node: the node's own data, its
/// resolved properties (empty for text and comments), and its styled
/// children, mirroring the document tree's shape one for one.
pub open spec fn styled_spec(n: NodeV, rules: Seq<RuleV>) -> StyledNodeV
    decreases n,
{
    StyledNodeV {
        node_type: n.node_type,
        css_props: match n.node_type {
            NodeTypeV::Element(e) => resolved(e, rules),
            _ => Map::empty(),
        },
        children: styled_children_spec(n.children, rules),
    }
}

/// The styled trees of a sequence of nodes, in order.
pub open spec fn styled_children_spec(children: Seq<NodeV>, rules: Seq<RuleV>) -> Seq<StyledNodeV>
    decreases children,
{
    if children.len() == 0 {
        Seq::empty()
    } else {
        styled_children_spec(children.subrange(0, children.len() - 1), rules).push(
            styled_spec(children[children.len() - 1], rules),
        )
    }
}

pub broadcast proof fn lemma_styled_children_spec(children: Seq<NodeV>, rules: Seq<RuleV>)
    ensures
        (#[trigger] styled_children_spec(children, rules)).len() == children.len(),
        forall|i: int|
            0 <= i < children.len() ==> styled_children_spec(children, rules)[i] == styled_spec(
                children[i],
                rules,
            ),
    decreases children,
{
    if children.len() > 0 {
        lemma_styled_children_spec(children.subrange(0, children.len() - 1), rules);
        assert(forall|i: int|
            0 <= i < children.len() - 1 ==> children.subrange(0, children.len() - 1)[i]
                == children[i]);
    }
}

/// Resolving one (document, stylesheet) pair always gives one styled
/// tree: resolution is a pure function of its inputs, so resolving the
/// same pair twice yields structurally identical trees.
pub proof fn lemma_resolution_deterministic(
    a: StyledNodeV,
    b: StyledNodeV,
    n: NodeV,
    rules: Seq<RuleV>,
)
    requires
        a == styled_spec(n, rules),
        b == styled_spec(n, rules),
    ensures
        a == b,
{
}

/// Walks the document tree and resolves every node's style against the
/// stylesheet, building the styled tree.
pub fn style_tree(root: &Node, stylesheet: &StyleSheet) -> (r: StyledNode)
    ensures
        r@ == styled_spec(root@, stylesheet@.rules),
    decreases *root,
{
    let ghost rules = stylesheet@.rules;
    let css_props = match &root.node_type {
        NodeType::Element(data) => element_properties(data, stylesheet),
        _ => PropertyMap::new(),
    };
    proof {
        assert(css_props@ == match root@.node_type {
            NodeTypeV::Element(e) => resolved(e, rules),
            _ => Map::<Seq<char>, ValueV>::empty(),
        });
    }
    let ghost propsv = css_props@;
    let mut children: Vec<StyledNode> = Vec::new();
    let mut i: usize = 0;
    proof {
        lemma_nodes_view(root.children@);
        assert(root@.children.subrange(0, 0) =~= Seq::<NodeV>::empty());
    }
    while i < root.children.len()
        invariant
            rules == stylesheet@.rules,
            i <= root.children@.len(),
            css_props@ == propsv,
            styleds_view(children@) == styled_children_spec(
                root@.children.subrange(0, i as int),
                rules,
            ),
            children@.len() == i,
        decreases root.children@.len() - i,
    {
        proof {
            assert(decreases_to!(*root => root.children));
            assert(decreases_to!(root.children => root.children@));
            assert(decreases_to!(root.children@ => root.children@[i as int]));
        }
        let child = style_tree(&root.children[i], stylesheet);
        let ghost children_before = children@;
        children.push(child);
        i = i + 1;
        proof {
            lemma_nodes_view(root.children@);
            lemma_styleds_view(children@);
            lemma_styleds_view(children_before);
            assert(children@.subrange(0, children@.len() - 1) =~= children_before);
            assert(styleds_view(children@) == styleds_view(children_before).push(child@));
            let prefix = root@.children.subrange(0, i as int);
            assert(prefix.subrange(0, prefix.len() - 1) =~= root@.children.subrange(
                0,
                i - 1,
            ));
            assert(prefix[prefix.len() - 1] == root@.children[i - 1]);
            assert(root@.children[i - 1] == (&root.children[i - 1])@);
            assert(styled_children_spec(prefix, rules) == styled_children_spec(
                root@.children.subrange(0, i - 1),
                rules,
            ).push(styled_spec(root@.children[i - 1], rules)));
        }
    }
    let r = StyledNode {
        node_type: clone_node_type(&root.node_type),
        css_props,
        children,
    };
    proof {
        assert(root@.children.subrange(0, root@.children.len() as int) =~= root@.children);
        assert(r@.children == styled_children_spec(root@.children, rules));
        assert(r@ == styled_spec(root@, rules));
    }
    r
}

} // verus!
