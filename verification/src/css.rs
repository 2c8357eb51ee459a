//! The stylesheet model: rules made of simple selectors and declarations,
//! declaration values, and selector specificity, with the parser that
//! reads a stylesheet from text.

use vstd::prelude::*;

verus! {

use crate::source::Source;
use crate::text::{space_run, until_run};
use vstd::multiset::Multiset;

/// An ordered list of rules.
#[derive(Debug, PartialEq)]
pub struct StyleSheet {
    pub rules: Vec<Rule>,
}

/// Selectors (any of which may match) and their shared declarations.
#[derive(Debug, PartialEq)]
pub struct Rule {
    pub selectors: Vec<Selector>,
    pub declarations: Vec<Declaration>,
}

/// A selector; only simple selectors exist here.
#[derive(Debug, PartialEq)]
pub enum Selector {
    Simple(SimpleSelector),
}

/// A simple selector: optional tag name, optional id, and classes that
/// must all be present.
#[derive(Debug, PartialEq)]
pub struct SimpleSelector {
    pub tag_name: Option<String>,
    pub id: Option<String>,
    pub classes: Vec<String>,
}

/// One `name: value` pair.
#[derive(Debug, PartialEq)]
pub struct Declaration {
    pub name: String,
    pub value: Value,
}

/// A declaration value: an opaque keyword, a length, or a color.
#[derive(Debug, PartialEq)]
pub enum Value {
    Keyword(String),
    Length(Number, Unit),
    ColorValue(Color),
}

/// A decimal number, read exactly: the digits with the point removed,
/// how many of them stand after the point, and the sign.
#[derive(PartialEq, Eq, Structural, Clone, Copy, Debug)]
pub struct Number {
    pub negative: bool,
    pub mantissa: u64,
    pub scale: u64,
}

/// A length unit; only pixels are recognized.
#[derive(PartialEq, Eq, Structural, Clone, Copy, Debug)]
pub enum Unit {
    Px,
}

/// A color: resolved channels, or the digits of an unresolved hex literal.
#[derive(Debug, PartialEq)]
pub enum Color {
    Rgba(u8, u8, u8, u8),
    Hex(String),
}

/// The mathematical shape of a simple selector.
pub struct SimpleSelectorV {
    pub tag_name: Option<Seq<char>>,
    pub id: Option<Seq<char>>,
    pub classes: Seq<Seq<char>>,
}

/// The mathematical shape of a selector.
pub enum SelectorV {
    Simple(SimpleSelectorV),
}

/// The mathematical shape of a color.
pub enum ColorV {
    Rgba(u8, u8, u8, u8),
    Hex(Seq<char>),
}

/// The mathematical shape of a value.
pub enum ValueV {
    Keyword(Seq<char>),
    Length(Number, Unit),
    ColorValue(ColorV),
}

/// The mathematical shape of a declaration.
pub struct DeclarationV {
    pub name: Seq<char>,
    pub value: ValueV,
}

/// The mathematical shape of a rule.
pub struct RuleV {
    pub selectors: Seq<SelectorV>,
    pub declarations: Seq<DeclarationV>,
}

/// The mathematical shape of a stylesheet.
pub struct StyleSheetV {
    pub rules: Seq<RuleV>,
}

impl View for SimpleSelector {
    type V = SimpleSelectorV;

    open spec fn view(&self) -> SimpleSelectorV {
        SimpleSelectorV {
            tag_name: match self.tag_name {
                Option::Some(t) => Option::Some(t@),
                Option::None => Option::None,
            },
            id: match self.id {
                Option::Some(t) => Option::Some(t@),
                Option::None => Option::None,
            },
            classes: Seq::new(self.classes@.len(), |i: int| self.classes@[i]@),
        }
    }
}

impl View for Selector {
    type V = SelectorV;

    open spec fn view(&self) -> SelectorV {
        match self {
            Selector::Simple(simple) => SelectorV::Simple(simple@),
        }
    }
}

impl View for Color {
    type V = ColorV;

    open spec fn view(&self) -> ColorV {
        match self {
            Color::Rgba(r, g, b, a) => ColorV::Rgba(*r, *g, *b, *a),
            Color::Hex(digits) => ColorV::Hex(digits@),
        }
    }
}

impl View for Value {
    type V = ValueV;

    open spec fn view(&self) -> ValueV {
        match self {
            Value::Keyword(word) => ValueV::Keyword(word@),
            Value::Length(number, unit) => ValueV::Length(*number, *unit),
            Value::ColorValue(color) => ValueV::ColorValue(color@),
        }
    }
}

impl View for Declaration {
    type V = DeclarationV;

    open spec fn view(&self) -> DeclarationV {
        DeclarationV { name: self.name@, value: self.value@ }
    }
}

impl View for Rule {
    type V = RuleV;

    open spec fn view(&self) -> RuleV {
        RuleV {
            selectors: Seq::new(self.selectors@.len(), |i: int| self.selectors@[i]@),
            declarations: Seq::new(self.declarations@.len(), |i: int| self.declarations@[i]@),
        }
    }
}

impl View for StyleSheet {
    type V = StyleSheetV;

    open spec fn view(&self) -> StyleSheetV {
        StyleSheetV { rules: Seq::new(self.rules@.len(), |i: int| self.rules@[i]@) }
    }
}

/// A specificity: id count, class count, tag count.
pub type Specificity = (usize, usize, usize);

/// The specificity of a selector: how many ids, classes and tags it names.
pub open spec fn spec_specificity(s: SelectorV) -> (int, int, int) {
    match s {
        SelectorV::Simple(simple) => (
            if simple.id is Some {
                1int
            } else {
                0int
            },
            simple.classes.len() as int,
            if simple.tag_name is Some {
                1int
            } else {
                0int
            },
        ),
    }
}

/// A specificity triple as mathematical integers.
pub open spec fn spec3(s: Specificity) -> (int, int, int) {
    (s.0 as int, s.1 as int, s.2 as int)
}

/// Lexicographic order on specificities: ids dominate classes dominate tags.
pub open spec fn lex3_lt(a: (int, int, int), b: (int, int, int)) -> bool {
    a.0 < b.0 || (a.0 == b.0 && (a.1 < b.1 || (a.1 == b.1 && a.2 < b.2)))
}

/// One selector outranks another exactly when its counts are
/// lexicographically greater; the order is strict and total.
pub proof fn lemma_specificity_order(a: (int, int, int), b: (int, int, int), c: (int, int, int))
    ensures
        !lex3_lt(a, a),
        lex3_lt(a, b) && lex3_lt(b, c) ==> lex3_lt(a, c),
        lex3_lt(a, b) || lex3_lt(b, a) || a == b,
        !(lex3_lt(a, b) && lex3_lt(b, a)),
{
}

/// Whether one specificity is lexicographically below another.
pub fn specificity_lt(a: Specificity, b: Specificity) -> (r: bool)
    ensures
        r == lex3_lt(spec3(a), spec3(b)),
{
    a.0 < b.0 || (a.0 == b.0 && (a.1 < b.1 || (a.1 == b.1 && a.2 < b.2)))
}

/// The value of a run of digit characters, most significant first.
pub open spec fn digits_val(s: Seq<char>) -> int
    decreases s.len(),
{
    if s.len() == 0 {
        0
    } else {
        digits_val(s.drop_last()) * 10 + (s.last() as u32 - '0' as u32)
    }
}

/// How many times a character occurs in a sequence.
pub open spec fn count_char(s: Seq<char>, c: char) -> int
    decreases s.len(),
{
    if s.len() == 0 {
        0
    } else {
        count_char(s.drop_last(), c) + if s.last() == c {
            1int
        } else {
            0int
        }
    }
}

/// A well-formed decimal body: at least one digit, at most one point,
/// nothing else.
pub open spec fn wf_decimal(s: Seq<char>) -> bool {
    &&& s.len() >= 1
    &&& forall|i: int| 0 <= i < s.len() ==> (crate::text::is_digit(#[trigger] s[i]) || s[i] == '.')
    &&& count_char(s, '.') <= 1
    &&& !(s.len() == 1 && s[0] == '.')
}

/// The digit characters of a decimal body: the point, if any, removed.
pub open spec fn decimal_digits(s: Seq<char>) -> Seq<char> {
    let d = crate::text::first_index_of(s, '.');
    if d < 0 {
        s
    } else {
        s.remove(d)
    }
}

/// The body of a number: what follows the sign, if one stands first.
pub open spec fn number_body(s: Seq<char>) -> Seq<char> {
    if s.len() > 0 && s[0] == '-' {
        s.subrange(1, s.len() as int)
    } else {
        s
    }
}

/// Whether a number reads a character sequence exactly: its sign, the
/// value of its digits with the point removed, and how many digits
/// stand after the point.
pub open spec fn number_repr(s: Seq<char>, n: Number) -> bool {
    &&& n.negative == (s.len() > 0 && s[0] == '-')
    &&& wf_decimal(number_body(s))
    &&& n.mantissa == digits_val(decimal_digits(number_body(s)))
    &&& n.scale == if crate::text::first_index_of(number_body(s), '.') < 0 {
        0int
    } else {
        number_body(s).len() - 1 - crate::text::first_index_of(number_body(s), '.')
    }
}

proof fn lemma_count_char_none(s: Seq<char>, c: char)
    requires
        forall|i: int| 0 <= i < s.len() ==> s[i] != c,
    ensures
        count_char(s, c) == 0,
    decreases s.len(),
{
    if s.len() > 0 {
        assert(forall|i: int| 0 <= i < s.drop_last().len() ==> s.drop_last()[i] == s[i]);
        lemma_count_char_none(s.drop_last(), c);
    }
}

proof fn lemma_count_char_one(s: Seq<char>, c: char, d: int)
    requires
        0 <= d < s.len(),
        s[d] == c,
        forall|i: int| 0 <= i < s.len() && i != d ==> s[i] != c,
    ensures
        count_char(s, c) == 1,
    decreases s.len(),
{
    if d == s.len() - 1 {
        assert(forall|i: int| 0 <= i < s.drop_last().len() ==> s.drop_last()[i] == s[i]);
        lemma_count_char_none(s.drop_last(), c);
    } else {
        assert(forall|i: int| 0 <= i < s.drop_last().len() ==> s.drop_last()[i] == s[i]);
        lemma_count_char_one(s.drop_last(), c, d);
    }
}

proof fn lemma_count_char_two(s: Seq<char>, c: char, d1: int, d2: int)
    requires
        0 <= d1 < d2 < s.len(),
        s[d1] == c,
        s[d2] == c,
    ensures
        count_char(s, c) >= 2,
    decreases s.len(),
{
    assert(forall|i: int| 0 <= i < s.drop_last().len() ==> s.drop_last()[i] == s[i]);
    if d2 == s.len() - 1 {
        lemma_count_char_at(s.drop_last(), c, d1);
    } else {
        lemma_count_char_two(s.drop_last(), c, d1, d2);
    }
}

proof fn lemma_count_char_at(s: Seq<char>, c: char, d: int)
    requires
        0 <= d < s.len(),
        s[d] == c,
    ensures
        count_char(s, c) >= 1,
    decreases s.len(),
{
    assert(forall|i: int| 0 <= i < s.drop_last().len() ==> s.drop_last()[i] == s[i]);
    if d < s.len() - 1 {
        lemma_count_char_at(s.drop_last(), c, d);
    } else {
        lemma_count_char_nonneg(s.drop_last(), c);
    }
}

proof fn lemma_count_char_nonneg(s: Seq<char>, c: char)
    ensures
        count_char(s, c) >= 0,
    decreases s.len(),
{
    if s.len() > 0 {
        lemma_count_char_nonneg(s.drop_last(), c);
    }
}

/// Digit runs have nonnegative values, and a prefix never exceeds the
/// whole.
proof fn lemma_digits_val_prefix(s: Seq<char>, k: int)
    requires
        0 <= k <= s.len(),
        forall|i: int| 0 <= i < s.len() ==> crate::text::is_digit(#[trigger] s[i]),
    ensures
        digits_val(s) >= 0,
        digits_val(s.subrange(0, k)) >= 0,
        digits_val(s.subrange(0, k)) <= digits_val(s),
    decreases s.len(),
{
    if s.len() == 0 {
        assert(s.subrange(0, k) =~= s);
    } else if k == s.len() {
        assert(s.subrange(0, k) =~= s);
        assert(forall|i: int| 0 <= i < s.drop_last().len() ==> s.drop_last()[i] == s[i]);
        lemma_digits_val_prefix(s.drop_last(), s.len() - 1);
    } else {
        assert(forall|i: int| 0 <= i < s.drop_last().len() ==> s.drop_last()[i] == s[i]);
        lemma_digits_val_prefix(s.drop_last(), k);
        assert(s.subrange(0, k) =~= s.drop_last().subrange(0, k));
    }
}

/// Reads a decimal number, with an optional leading minus sign, from a
/// range of characters. Nothing is returned when the range is not a
/// well-formed decimal or its digits exceed what a mantissa can hold.
pub fn parse_number(chars: &Vec<char>, from: usize, to: usize) -> (r: Option<Number>)
    requires
        from <= to <= chars@.len(),
    ensures
        r matches Some(n) ==> number_repr(chars@.subrange(from as int, to as int), n),
        r is Some <==> (wf_decimal(number_body(chars@.subrange(from as int, to as int)))
            && digits_val(decimal_digits(number_body(chars@.subrange(from as int, to as int))))
            <= u64::MAX),
{
    let ghost s = chars@.subrange(from as int, to as int);
    let negative = to > from && chars[from] == '-';
    let start: usize = if negative {
        from + 1
    } else {
        from
    };
    let body = crate::text::sub_chars(chars, start, to);
    proof {
        assert(body@ =~= number_body(s));
        assert(body@ == number_body(chars@.subrange(from as int, to as int)));
    }
    let ghost bv = body@;
    let mut mantissa: u64 = 0;
    let mut dot: Option<usize> = None;
    let ghost mut digits_far = Seq::<char>::empty();
    let mut j: usize = 0;
    proof {
        assert(digits_far =~= bv.subrange(0, 0));
    }
    let mut digits_seen: usize = 0;
    while j < body.len()
        invariant
            bv == body@,
            bv == number_body(chars@.subrange(from as int, to as int)),
            j <= bv.len(),
            bv.len() <= usize::MAX,
            forall|i: int|
                0 <= i < j ==> (crate::text::is_digit(#[trigger] bv[i]) || bv[i] == '.'),
            match dot {
                Some(d) => d < j && bv[d as int] == '.' && (forall|i: int|
                    0 <= i < j && i != d ==> bv[i] != '.') && digits_far =~= bv.subrange(
                    0,
                    j as int,
                ).remove(d as int),
                None => (forall|i: int| 0 <= i < j ==> bv[i] != '.') && digits_far =~= bv.subrange(
                    0,
                    j as int,
                ),
            },
            forall|i: int| 0 <= i < digits_far.len() ==> crate::text::is_digit(
                #[trigger] digits_far[i],
            ),
            mantissa == digits_val(digits_far),
            digits_seen == digits_far.len(),
            digits_seen <= j,
        decreases bv.len() - j,
    {
        let c = body[j];
        if crate::text::is_digit_char(c) {
            let d: u64 = (c as u32 - '0' as u32) as u64;
            if mantissa > (u64::MAX - d) / 10 {
                proof {
                    assert((mantissa as int) * 10 + d > u64::MAX) by {
                        assert(mantissa as int >= (u64::MAX - d) / 10 + 1);
                        assert(((u64::MAX - d) / 10 + 1) * 10 > u64::MAX - d) by (nonlinear_arith);
                    }
                    lemma_parse_number_overflow(bv, j as int, dot, digits_far);
                }
                return None;
            }
            proof {
                assert((mantissa as int) * 10 + d <= u64::MAX) by {
                    assert(mantissa as int <= (u64::MAX - d) / 10);
                    assert(((u64::MAX - d) / 10) * 10 <= u64::MAX - d) by (nonlinear_arith);
                }
            }
            mantissa = mantissa * 10 + d;
            proof {
                let new_digits = digits_far.push(c);
                assert(new_digits.drop_last() =~= digits_far);
                assert(digits_val(new_digits) == digits_val(digits_far) * 10 + (c as u32 - '0'
                    as u32));
                match dot {
                    Some(dd) => {
                        assert(bv.subrange(0, j + 1).remove(dd as int) =~= digits_far.push(c));
                    },
                    None => {
                        assert(bv.subrange(0, j + 1) =~= digits_far.push(c));
                    },
                }
            }
            digits_seen = digits_seen + 1;
            proof {
                digits_far = digits_far.push(c);
            }
        } else if c == '.' {
            match dot {
                Some(dd) => {
                    proof {
                        lemma_count_char_two(bv, '.', dd as int, j as int);
                    }
                    return None;
                },
                None => {},
            }
            dot = Some(j);
            proof {
                assert(bv.subrange(0, j + 1).remove(j as int) =~= bv.subrange(0, j as int));
            }
        } else {
            return None;
        }
        j = j + 1;
    }
    proof {
        assert(bv.subrange(0, bv.len() as int) =~= bv);
    }
    if digits_seen == 0 {
        proof {
            if wf_decimal(bv) {
                match dot {
                    Some(d) => {
                        assert(digits_far =~= bv.remove(d as int));
                        assert(bv.len() == 1);
                        assert(d == 0 && bv[0] == '.');
                        assert(false);
                    },
                    None => {
                        assert(digits_far =~= bv);
                        assert(bv.len() == 0);
                        assert(false);
                    },
                }
            }
        }
        return None;
    }
    let scale: u64 = match dot {
        Some(d) => {
            proof {
                lemma_count_char_one(bv, '.', d as int);
                crate::text::lemma_first_index_of_at(bv, '.', d as int);
            }
            (body.len() - 1 - d) as u64
        },
        None => {
            proof {
                lemma_count_char_none(bv, '.');
                crate::text::lemma_first_index_of(bv, '.');
            }
            0
        },
    };
    let n = Number { negative, mantissa, scale };
    proof {
        assert(number_repr(s, n));
    }
    Some(n)
}

/// When the digits read so far already exceed the mantissa, no number
/// reads the whole body.
proof fn lemma_parse_number_overflow(
    bv: Seq<char>,
    j: int,
    dot: Option<usize>,
    digits_far: Seq<char>,
)
    requires
        0 <= j < bv.len(),
        crate::text::is_digit(bv[j]),
        forall|i: int| 0 <= i < j ==> (crate::text::is_digit(#[trigger] bv[i]) || bv[i] == '.'),
        match dot {
            Some(d) => (d as int) < j && bv[d as int] == '.' && (forall|i: int|
                0 <= i < j && i != d ==> bv[i] != '.') && digits_far == bv.subrange(0, j).remove(
                d as int,
            ),
            None => (forall|i: int| 0 <= i < j ==> bv[i] != '.') && digits_far == bv.subrange(0, j),
        },
        forall|i: int| 0 <= i < digits_far.len() ==> crate::text::is_digit(
            #[trigger] digits_far[i],
        ),
        digits_val(digits_far) * 10 + (bv[j] as u32 - '0' as u32) > u64::MAX,
    ensures
        wf_decimal(bv) ==> digits_val(decimal_digits(bv)) > u64::MAX,
{
    if wf_decimal(bv) {
        let full = decimal_digits(bv);
        crate::text::lemma_first_index_of(bv, '.');
        let fd = crate::text::first_index_of(bv, '.');
        let ext = digits_far.push(bv[j]);
        assert(ext.drop_last() =~= digits_far);
        assert(digits_val(ext) > u64::MAX);
        match dot {
            Some(d) => {
                assert(fd == d) by {
                    crate::text::lemma_first_index_of_at(bv, '.', d as int);
                }
                assert(ext =~= full.subrange(0, j));
                assert(forall|i: int| 0 <= i < full.len() ==> crate::text::is_digit(
                    #[trigger] full[i],
                )) by {
                    lemma_remove_digits(bv, d as int);
                }
                lemma_digits_val_prefix(full, j);
            },
            None => {
                if fd >= 0 {
                    assert(fd > j);
                    assert(ext =~= full.subrange(0, j + 1));
                    assert(forall|i: int| 0 <= i < full.len() ==> crate::text::is_digit(
                        #[trigger] full[i],
                    )) by {
                        lemma_remove_digits(bv, fd);
                    }
                    lemma_digits_val_prefix(full, j + 1);
                } else {
                    assert(ext =~= full.subrange(0, j + 1));
                    lemma_digits_val_prefix(full, j + 1);
                }
            },
        }
    }
}

/// With its one point removed, a well-formed body is all digits.
proof fn lemma_remove_digits(bv: Seq<char>, d: int)
    requires
        0 <= d < bv.len(),
        bv[d] == '.',
        count_char(bv, '.') <= 1,
        forall|i: int| 0 <= i < bv.len() ==> (crate::text::is_digit(#[trigger] bv[i]) || bv[i]
            == '.'),
    ensures
        forall|i: int| 0 <= i < bv.remove(d).len() ==> crate::text::is_digit(
            #[trigger] bv.remove(d)[i],
        ),
{
    assert forall|i: int| 0 <= i < bv.remove(d).len() implies crate::text::is_digit(
        bv.remove(d)[i],
    ) by {
        bv.remove_ensures(d);
        if i < d {
            assert(bv.remove(d)[i] == bv[i]);
            if bv[i] == '.' {
                lemma_count_char_two(bv, '.', i, d);
            }
        } else {
            assert(bv.remove(d)[i] == bv[i + 1]);
            if bv[i + 1] == '.' {
                lemma_count_char_two(bv, '.', d, i + 1);
            }
        }
    }
}

/// A copy of a value with the same shape.
pub fn clone_value(value: &Value) -> (r: Value)
    ensures
        r@ == value@,
{
    match value {
        Value::Keyword(word) => Value::Keyword(word.clone()),
        Value::Length(number, unit) => Value::Length(*number, *unit),
        Value::ColorValue(color) => Value::ColorValue(
            match color {
                Color::Rgba(red, green, blue, alpha) => Color::Rgba(*red, *green, *blue, *alpha),
                Color::Hex(digits) => Color::Hex(digits.clone()),
            },
        ),
    }
}

/// An identifier character: a letter, a digit, or a hyphen.
pub open spec fn is_ident_char(c: char) -> bool {
    crate::text::is_letter(c) || crate::text::is_digit(c) || c == '-'
}

/// Every character of the sequence may stand in an identifier.
pub open spec fn ident_seq(s: Seq<char>) -> bool {
    forall|i: int| 0 <= i < s.len() ==> is_ident_char(#[trigger] s[i])
}

/// The pieces of a parsed selector are identifiers: a nonempty tag
/// name, and an id and classes of identifier characters.
pub open spec fn selector_pieces_wf(s: SelectorV) -> bool {
    match s {
        SelectorV::Simple(sv) => {
            &&& (sv.tag_name matches Option::Some(t) ==> t.len() > 0 && ident_seq(t))
            &&& (sv.id matches Option::Some(i) ==> ident_seq(i))
            &&& (forall|k: int| 0 <= k < sv.classes.len() ==> ident_seq(#[trigger] sv.classes[k]))
        },
    }
}

/// A rule's selectors stand sorted by descending specificity, so the
/// first selector that matches is as specific as any that matches.
pub open spec fn selectors_sorted(r: RuleV) -> bool {
    forall|i: int, j: int|
        0 <= i < j < r.selectors.len() ==> !lex3_lt(
            spec_specificity(#[trigger] r.selectors[i]),
            spec_specificity(#[trigger] r.selectors[j]),
        )
}


/// The shapes of a sequence of selectors, in order.
pub open spec fn views_of(v: Seq<Selector>) -> Seq<SelectorV> {
    Seq::new(v.len(), |i: int| v[i]@)
}

/// The shapes of a sequence of declarations, in order.
pub open spec fn decls_views(v: Seq<Declaration>) -> Seq<DeclarationV> {
    Seq::new(v.len(), |i: int| v[i]@)
}

/// How many consecutive identifier characters stand at a position.
pub open spec fn ident_run(s: Seq<char>, pos: int) -> nat
    decreases s.len() - pos,
{
    if pos < 0 || pos >= s.len() || !is_ident_char(s[pos]) {
        0
    } else {
        1 + ident_run(s, pos + 1)
    }
}

/// An identifier run never passes the end of the text.
pub proof fn lemma_ident_run_bound(s: Seq<char>, pos: int)
    requires
        0 <= pos <= s.len(),
    ensures
        pos + ident_run(s, pos) <= s.len(),
    decreases s.len() - pos,
{
    if pos < s.len() && is_ident_char(s[pos]) {
        lemma_ident_run_bound(s, pos + 1);
    }
}

/// A position that skips exactly the identifier characters is
/// `pos + ident_run`.
pub proof fn lemma_ident_run_is(s: Seq<char>, pos: int, q: int)
    requires
        0 <= pos <= q <= s.len(),
        forall|i: int| pos <= i < q ==> is_ident_char(#[trigger] s[i]),
        q < s.len() ==> !is_ident_char(s[q]),
    ensures
        pos + ident_run(s, pos) == q,
    decreases q - pos,
{
    if pos < q {
        lemma_ident_run_is(s, pos + 1, q);
    }
}

/// The number a well-formed decimal text denotes: its sign, its digits
/// with the point removed, and its count of digits after the point.
pub open spec fn number_of(s: Seq<char>) -> Number {
    Number {
        negative: s.len() > 0 && s[0] == '-',
        mantissa: digits_val(decimal_digits(number_body(s))) as u64,
        scale: (if crate::text::first_index_of(number_body(s), '.') < 0 {
            0int
        } else {
            number_body(s).len() - 1 - crate::text::first_index_of(number_body(s), '.')
        }) as u64,
    }
}

/// The selector pieces read from a position: an identifier after `.`
/// joins the classes, one after `#` replaces the id, a bare identifier
/// (which must be nonempty) replaces the tag name, until a comma or a
/// space; nothing at the end of the text.
pub open spec fn spec_selector_pieces(s: Seq<char>, pos: int, acc: SimpleSelectorV) -> Option<
    (SimpleSelectorV, int),
>
    decreases s.len() - pos,
    via spec_selector_pieces_decreases
{
    if pos < 0 || pos >= s.len() {
        None
    } else if s[pos] == ',' || s[pos] == ' ' {
        Some((acc, pos))
    } else if s[pos] == '.' {
        let e = pos + 1 + ident_run(s, pos + 1);
        spec_selector_pieces(
            s,
            e,
            SimpleSelectorV { classes: acc.classes.push(s.subrange(pos + 1, e)), ..acc },
        )
    } else if s[pos] == '#' {
        let e = pos + 1 + ident_run(s, pos + 1);
        spec_selector_pieces(
            s,
            e,
            SimpleSelectorV { id: Option::Some(s.subrange(pos + 1, e)), ..acc },
        )
    } else {
        let e = pos + ident_run(s, pos);
        if e == pos {
            None
        } else {
            spec_selector_pieces(
                s,
                e,
                SimpleSelectorV { tag_name: Option::Some(s.subrange(pos, e)), ..acc },
            )
        }
    }
}

#[via_fn]
proof fn spec_selector_pieces_decreases(s: Seq<char>, pos: int, acc: SimpleSelectorV) {
    if 0 <= pos < s.len() {
        if pos + 1 <= s.len() {
            lemma_ident_run_bound(s, pos + 1);
        }
        lemma_ident_run_bound(s, pos);
    }
}

/// One selector from a position: its pieces, then one comma (if a
/// comma ended them) and any whitespace consumed.
pub open spec fn spec_parse_selector(s: Seq<char>, pos: int) -> Option<(SelectorV, int)> {
    match spec_selector_pieces(
        s,
        pos,
        SimpleSelectorV { tag_name: Option::None, id: Option::None, classes: Seq::empty() },
    ) {
        Option::None => Option::None,
        Option::Some((sel, p)) => {
            let p2 = if s[p] == ',' {
                p + 1
            } else {
                p
            };
            Option::Some((SelectorV::Simple(sel), p2 + space_run(s, p2)))
        },
    }
}

/// The selectors before the opening brace, in source order.
pub open spec fn spec_selectors_list(s: Seq<char>, pos: int, acc: Seq<SelectorV>) -> Option<
    (Seq<SelectorV>, int),
>
    decreases s.len() - pos,
{
    if pos < 0 || pos >= s.len() {
        None
    } else if s[pos] == '{' {
        Some((acc, pos))
    } else {
        match spec_parse_selector(s, pos) {
            Option::None => Option::None,
            Option::Some((sel, p)) => {
                // a parsed selector consumes text, so this guard cannot
                // fire; it keeps the recursion visibly bounded
                if p <= pos || p > s.len() {
                    None
                } else {
                    spec_selectors_list(s, p, acc.push(sel))
                }
            },
        }
    }
}

/// A parsed selector list ends at the opening brace.
proof fn lemma_selectors_list_at_brace(s: Seq<char>, pos: int, acc: Seq<SelectorV>)
    ensures
        spec_selectors_list(s, pos, acc) matches Some(pair) ==> 0 <= pair.1 < s.len()
            && s[pair.1] == '{',
    decreases s.len() - pos,
{
    if 0 <= pos < s.len() && s[pos] != '{' {
        match spec_parse_selector(s, pos) {
            Option::None => {},
            Option::Some((sel, p)) => {
                if pos < p <= s.len() {
                    lemma_selectors_list_at_brace(s, p, acc.push(sel));
                }
            },
        }
    }
}

/// The value a raw declaration text denotes: a pixel length for a `px`
/// suffix, a hex color for a leading `#`, an opaque keyword otherwise;
/// nothing for a `px` value whose prefix is not a well-formed decimal
/// within the mantissa.
pub open spec fn spec_value_of(raw: Seq<char>) -> Option<ValueV> {
    if raw.len() >= 2 && raw[raw.len() - 2] == 'p' && raw[raw.len() - 1] == 'x' {
        let digits = raw.subrange(0, raw.len() - 2);
        if wf_decimal(number_body(digits)) && digits_val(decimal_digits(number_body(digits)))
            <= u64::MAX {
            Some(ValueV::Length(number_of(digits), Unit::Px))
        } else {
            None
        }
    } else if raw.len() >= 1 && raw[0] == '#' {
        Some(ValueV::ColorValue(ColorV::Hex(raw.subrange(1, raw.len() as int))))
    } else {
        Some(ValueV::Keyword(raw))
    }
}

/// One declaration from a position: whitespace, the name, a colon,
/// whitespace, the raw value up to a semicolon, then the semicolon and
/// trailing whitespace consumed; nothing where the colon or the
/// semicolon is missing or the value is a malformed length.
pub open spec fn spec_parse_declaration(s: Seq<char>, pos: int) -> Option<(DeclarationV, int)> {
    let p1 = pos + space_run(s, pos);
    let e = p1 + ident_run(s, p1);
    if e >= s.len() || s[e] != ':' {
        None
    } else {
        let p2 = (e + 1) + space_run(s, e + 1);
        let q = p2 + until_run(s, p2, ';');
        if q >= s.len() {
            None
        } else {
            match spec_value_of(s.subrange(p2, q)) {
                Option::None => Option::None,
                Option::Some(value) => Option::Some(
                    (
                        DeclarationV { name: s.subrange(p1, e), value },
                        (q + 1) + space_run(s, q + 1),
                    ),
                ),
            }
        }
    }
}

/// The declarations up to the closing brace, which is consumed with
/// its trailing whitespace.
pub open spec fn spec_declarations_list(s: Seq<char>, pos: int, acc: Seq<DeclarationV>) -> Option<
    (Seq<DeclarationV>, int),
>
    decreases s.len() - pos,
{
    if pos < 0 || pos >= s.len() {
        None
    } else if s[pos] == '}' {
        Some((acc, (pos + 1) + space_run(s, pos + 1)))
    } else {
        match spec_parse_declaration(s, pos) {
            Option::None => Option::None,
            Option::Some((declaration, p)) => {
                // a parsed declaration consumes text, so this guard
                // cannot fire; it keeps the recursion visibly bounded
                if p <= pos || p > s.len() {
                    None
                } else {
                    spec_declarations_list(s, p, acc.push(declaration))
                }
            },
        }
    }
}

/// One rule from a position: its selectors in source order, the brace,
/// its declarations in source order.
pub open spec fn spec_parse_rule(s: Seq<char>, pos: int) -> Option<
    ((Seq<SelectorV>, Seq<DeclarationV>), int),
> {
    match spec_selectors_list(s, pos, Seq::empty()) {
        Option::None => Option::None,
        Option::Some((selectors, p)) => match spec_declarations_list(s, p + 1, Seq::empty()) {
            Option::None => Option::None,
            Option::Some((declarations, q)) => Option::Some(((selectors, declarations), q)),
        },
    }
}

/// The rules of the whole text, in source order, each with its
/// selectors and declarations in source order; nothing for text that
/// is not a well-formed stylesheet.
pub open spec fn spec_parse_stylesheet(
    s: Seq<char>,
    pos: int,
    acc: Seq<(Seq<SelectorV>, Seq<DeclarationV>)>,
) -> Option<Seq<(Seq<SelectorV>, Seq<DeclarationV>)>>
    decreases s.len() - pos,
{
    if pos >= s.len() {
        Some(acc)
    } else {
        match spec_parse_rule(s, pos) {
            Option::None => Option::None,
            Option::Some((rule, p)) => {
                // a parsed rule consumes text, so this guard cannot
                // fire; it keeps the recursion visibly bounded
                if p <= pos || p > s.len() {
                    None
                } else {
                    spec_parse_stylesheet(s, p, acc.push(rule))
                }
            },
        }
    }
}

/// Sorts selectors by descending specificity; among equal
/// specificities any order serves, since matching reads every selector
/// and equal specificities resolve ties alike.
fn sort_selectors(input: Vec<Selector>) -> (r: Vec<Selector>)
    ensures
        r@.len() == input@.len(),
        forall|x: Selector| r@.contains(x) <==> input@.contains(x),
        views_of(r@).to_multiset() == views_of(input@).to_multiset(),
        forall|i: int, j: int|
            0 <= i < j < r@.len() ==> !lex3_lt(
                spec_specificity(#[trigger] r@[i]@),
                spec_specificity(#[trigger] r@[j]@),
            ),
{
    broadcast use vstd::seq_lib::group_to_multiset_ensures, vstd::multiset::group_multiset_axioms;

    let ghost orig = input@;
    let mut input = input;
    let mut out: Vec<Selector> = Vec::new();
    while input.len() > 0
        invariant
            out@.len() + input@.len() == orig.len(),
            views_of(out@).to_multiset().add(views_of(input@).to_multiset()) == views_of(
                orig,
            ).to_multiset(),
            forall|x: Selector| orig.contains(x) <==> (out@.contains(x) || input@.contains(x)),
            forall|x: Selector| out@.contains(x) ==> orig.contains(x),
            forall|x: Selector| input@.contains(x) ==> orig.contains(x),
            forall|i: int, j: int|
                0 <= i < j < out@.len() ==> !lex3_lt(
                    spec_specificity(#[trigger] out@[i]@),
                    spec_specificity(#[trigger] out@[j]@),
                ),
        decreases input@.len(),
    {
        let ghost input_before = input@;
        let x = input.remove(0);
        proof {
            assert(input@ =~= input_before.subrange(1, input_before.len() as int));
            assert(input_before[0] == x);
            assert(views_of(input@) =~= views_of(input_before).remove(0));
            assert(views_of(input_before)[0] == x@);
            views_of(input_before).to_multiset_ensures();
            assert(views_of(input_before).remove(0).to_multiset() =~= views_of(
                input_before,
            ).to_multiset().remove(x@));
            assert(views_of(input@).to_multiset() =~= views_of(input_before).to_multiset().remove(
                x@,
            ));
            assert(views_of(input_before).contains(x@));
            assert(views_of(input_before).to_multiset().count(x@) > 0);
            assert(views_of(input_before).to_multiset() =~= views_of(
                input@,
            ).to_multiset().insert(x@));
        }
        let sx = x.specificity();
        let mut p: usize = 0;
        while p < out.len() && !specificity_lt(out[p].specificity(), sx)
            invariant
                p <= out@.len(),
                spec3(sx) == spec_specificity(x@),
                forall|j: int| 0 <= j < p ==> !lex3_lt(
                    spec_specificity(#[trigger] out@[j]@),
                    spec_specificity(x@),
                ),
            decreases out@.len() - p,
        {
            p = p + 1;
        }
        proof {
            if p < out@.len() {
                assert(lex3_lt(spec_specificity(out@[p as int]@), spec_specificity(x@)));
            }
            assert forall|j: int| p <= j < out@.len() implies !lex3_lt(
                spec_specificity(x@),
                spec_specificity(out@[j]@),
            ) by {
                if lex3_lt(spec_specificity(x@), spec_specificity(out@[j]@)) {
                    if j > p {
                        lemma_specificity_order(
                            spec_specificity(out@[p as int]@),
                            spec_specificity(out@[j]@),
                            spec_specificity(x@),
                        );
                    }
                    lemma_specificity_order(
                        spec_specificity(out@[p as int]@),
                        spec_specificity(x@),
                        spec_specificity(out@[j]@),
                    );
                }
            }
        }
        let ghost before = out@;
        out.insert(p, x);
        proof {
            before.insert_ensures(p as int, x);
            assert(forall|j: int| 0 <= j < p ==> out@[j] == before[j]);
            assert(out@[p as int] == x);
            assert(forall|j: int| p < j < out@.len() ==> out@[j] == before[j - 1]);
            assert forall|y: Selector| out@.contains(y) implies (before.contains(y) || y
                == x) by {
                let j = choose|j: int| 0 <= j < out@.len() && out@[j] == y;
            }
            assert forall|y: Selector| before.contains(y) implies out@.contains(y) by {
                let j = choose|j: int| 0 <= j < before.len() && #[trigger] before[j] == y;
                if j < p {
                    assert(out@[j] == y);
                } else {
                    assert(out@[j + 1] == y);
                }
            }
            assert forall|y: Selector| input_before.contains(y) implies (input@.contains(y) || y
                == x) by {
                let j = choose|j: int| 0 <= j < input_before.len() && #[trigger] input_before[j]
                    == y;
                if j > 0 {
                    assert(input@[j - 1] == y);
                }
            }
            assert(forall|y: Selector| input@.contains(y) ==> input_before.contains(y)) by {
                assert(forall|j: int|
                    0 <= j < input@.len() ==> #[trigger] input@[j] == input_before[j + 1]);
            }
            assert(input_before.contains(x));
            assert(views_of(out@).remove(p as int) =~= views_of(before));
            assert(views_of(out@)[p as int] == x@);
            views_of(out@).to_multiset_ensures();
            assert(views_of(out@).remove(p as int).to_multiset() =~= views_of(
                out@,
            ).to_multiset().remove(x@));
            assert(views_of(before).to_multiset() =~= views_of(out@).to_multiset().remove(x@));
            assert(views_of(out@).contains(x@));
            assert(views_of(out@).to_multiset().count(x@) > 0);
            assert(views_of(out@).to_multiset() =~= views_of(before).to_multiset().insert(x@));
        }
    }
    proof {
        assert(views_of(input@).to_multiset() =~= Multiset::<SelectorV>::empty()) by {
            assert(views_of(input@) =~= Seq::<SelectorV>::empty());
            views_of(input@).to_multiset_ensures();
        }
        assert(views_of(out@).to_multiset() =~= views_of(orig).to_multiset());
    }
    out
}

impl Selector {
    /// How many ids, classes and tag names the selector mentions.
    pub fn specificity(&self) -> (r: Specificity)
        ensures
            spec3(r) == spec_specificity(self@),
    {
        let Selector::Simple(simple) = self;
        let a: usize = if simple.id.is_some() {
            1
        } else {
            0
        };
        let b: usize = simple.classes.len();
        let c: usize = if simple.tag_name.is_some() {
            1
        } else {
            0
        };
        (a, b, c)
    }
}

/// Reads a stylesheet from text: rules of selectors and declarations.
/// Malformed text yields nothing rather than a partial sheet.
pub struct Parser {
    pub src: Source,
}

impl Parser {
    pub fn new(source: String) -> (r: Parser)
        ensures
            r.src.wf(),
            r.src.source@ == source@,
            r.src.pos == 0,
    {
        Parser { src: Source::new(source) }
    }

    /// A letter, a digit or a hyphen may stand in an identifier.
    pub fn is_valid_identifier(c: char) -> (r: bool)
        ensures
            r == is_ident_char(c),
    {
        crate::text::is_letter_char(c) || crate::text::is_digit_char(c) || c == '-'
    }

    /// The identifier at the cursor: its longest run of identifier
    /// characters, possibly empty.
    fn consume_identifier(&mut self) -> (r: String)
        requires
            old(self).src.wf(),
        ensures
            final(self).src.wf(),
            final(self).src.source@ == old(self).src.source@,
            old(self).src.pos <= final(self).src.pos,
            r@ == old(self).src.source@.subrange(
                old(self).src.pos as int,
                final(self).src.pos as int,
            ),
            forall|i: int|
                old(self).src.pos <= i < final(self).src.pos ==> is_ident_char(
                    #[trigger] old(self).src.source@[i],
                ),
            !final(self).src.spec_eof() ==> !is_ident_char(
                final(self).src.source@[final(self).src.pos as int],
            ),
            final(self).src.pos == old(self).src.pos + ident_run(
                old(self).src.source@,
                old(self).src.pos as int,
            ),
    {
        let r = self.src.consume_while(Self::is_valid_identifier);
        proof {
            assert(forall|i: int|
                old(self).src.pos <= i < self.src.pos ==> is_ident_char(
                    #[trigger] old(self).src.source@[i],
                ));
            if !self.src.spec_eof() {
                assert(!is_ident_char(self.src.source@[self.src.pos as int]));
            }
            lemma_ident_run_is(self.src.source@, old(self).src.pos as int, self.src.pos as int);
        }
        r
    }

    /// One selector: classes after `.`, an id after `#`, a tag name
    /// otherwise, up to a comma or space, which is consumed too.
    fn parse_selector(&mut self) -> (r: Option<Selector>)
        requires
            old(self).src.wf(),
        ensures
            final(self).src.wf(),
            final(self).src.source@ == old(self).src.source@,
            old(self).src.pos <= final(self).src.pos,
            r is Some ==> old(self).src.pos < final(self).src.pos,
            r matches Some(selector) ==> selector_pieces_wf(selector@),
            r is None <==> spec_parse_selector(
                old(self).src.source@,
                old(self).src.pos as int,
            ) is None,
            r matches Some(selector) ==> spec_parse_selector(
                old(self).src.source@,
                old(self).src.pos as int,
            ) == Some((selector@, final(self).src.pos as int)),
    {
        let ghost s = old(self).src.source@;
        let ghost pos0 = old(self).src.pos as int;
        let ghost target = spec_selector_pieces(
            s,
            pos0,
            SimpleSelectorV { tag_name: Option::None, id: Option::None, classes: Seq::empty() },
        );
        let mut tag_name: Option<String> = None;
        let mut id: Option<String> = None;
        let mut classes: Vec<String> = Vec::new();
        proof {
            assert((SimpleSelector { tag_name, id, classes })@ == SimpleSelectorV {
                tag_name: Option::None,
                id: Option::None,
                classes: Seq::empty(),
            }) by {
                assert(Seq::new(classes@.len(), |i: int| classes@[i]@) =~= Seq::<Seq<char>>::empty());
            }
        }
        loop
            invariant
                self.src.wf(),
                self.src.source@ == s,
                s == old(self).src.source@,
                pos0 == old(self).src.pos as int,
                old(self).src.pos <= self.src.pos,
                target == spec_selector_pieces(
                    s,
                    pos0,
                    SimpleSelectorV {
                        tag_name: Option::None,
                        id: Option::None,
                        classes: Seq::empty(),
                    },
                ),
                spec_selector_pieces(
                    s,
                    self.src.pos as int,
                    (SimpleSelector { tag_name, id, classes })@,
                ) == target,
                tag_name matches Option::Some(t) ==> t@.len() > 0 && ident_seq(t@),
                id matches Option::Some(i) ==> ident_seq(i@),
                forall|k: int| 0 <= k < classes@.len() ==> ident_seq(#[trigger] classes@[k]@),
            ensures
                self.src.wf(),
                self.src.source@ == old(self).src.source@,
                old(self).src.pos <= self.src.pos,
                !self.src.spec_eof(),
                self.src.source@[self.src.pos as int] == ',' || self.src.source@[self.src.pos as int] == ' ',
                target == Some(
                    ((SimpleSelector { tag_name, id, classes })@, self.src.pos as int),
                ),
                tag_name matches Option::Some(t) ==> t@.len() > 0 && ident_seq(t@),
                id matches Option::Some(i) ==> ident_seq(i@),
                forall|k: int| 0 <= k < classes@.len() ==> ident_seq(#[trigger] classes@[k]@),
            decreases self.src.source@.len() - self.src.pos,
        {
            if self.src.eof() {
                return None;
            }
            let c = self.src.peek();
            if c == ',' || c == ' ' {
                break;
            }
            let ghost acc_before = (SimpleSelector { tag_name, id, classes })@;
            let ghost p_before = self.src.pos as int;
            if c == '.' {
                let _ = self.src.consume_char();
                let class_name = self.consume_identifier();
                classes.push(class_name);
                proof {
                    let acc_after = (SimpleSelector { tag_name, id, classes })@;
                    assert(acc_after.classes =~= acc_before.classes.push(
                        s.subrange(p_before + 1, self.src.pos as int),
                    ));
                    assert(acc_after == SimpleSelectorV {
                        classes: acc_before.classes.push(
                            s.subrange(p_before + 1, self.src.pos as int),
                        ),
                        ..acc_before
                    });
                    assert(spec_selector_pieces(s, p_before, acc_before)
                        == spec_selector_pieces(s, self.src.pos as int, acc_after));
                }
            } else if c == '#' {
                let _ = self.src.consume_char();
                id = Some(self.consume_identifier());
                proof {
                    let acc_after = (SimpleSelector { tag_name, id, classes })@;
                    assert(acc_after == SimpleSelectorV {
                        id: Option::Some(s.subrange(p_before + 1, self.src.pos as int)),
                        ..acc_before
                    });
                    assert(spec_selector_pieces(s, p_before, acc_before)
                        == spec_selector_pieces(s, self.src.pos as int, acc_after));
                }
            } else {
                let name = self.consume_identifier();
                if name.as_str().is_empty() {
                    proof {
                        assert(spec_selector_pieces(s, p_before, acc_before) is None);
                    }
                    return None;
                }
                tag_name = Some(name);
                proof {
                    let acc_after = (SimpleSelector { tag_name, id, classes })@;
                    assert(acc_after == SimpleSelectorV {
                        tag_name: Option::Some(s.subrange(p_before, self.src.pos as int)),
                        ..acc_before
                    });
                    assert(spec_selector_pieces(s, p_before, acc_before)
                        == spec_selector_pieces(s, self.src.pos as int, acc_after));
                }
            }
        }
        let ghost p_stop = self.src.pos as int;
        if self.src.peek() == ',' {
            let _ = self.src.consume_char();
        } else {
            let ghost pos_before = self.src.pos;
            self.src.consume_whitespace();
            proof {
                if self.src.pos == pos_before {
                    assert(crate::text::is_space(self.src.source@[pos_before as int]));
                }
            }
        }
        self.src.consume_whitespace();
        let selector = Selector::Simple(SimpleSelector { tag_name, id, classes });
        proof {
            assert(selector_pieces_wf(selector@)) by {
                match selector {
                    Selector::Simple(sv) => {
                        assert(forall|k: int|
                            0 <= k < sv.classes@.len() ==> #[trigger] sv@.classes[k]
                                == sv.classes@[k]@);
                    },
                }
            }
            assert(spec_parse_selector(s, pos0) == Some((selector@, self.src.pos as int)));
        }
        Some(selector)
    }

    /// The selectors of one rule, up to the opening brace, sorted by
    /// descending specificity.
    fn parse_selectors(&mut self) -> (r: Option<Vec<Selector>>)
        requires
            old(self).src.wf(),
        ensures
            final(self).src.wf(),
            final(self).src.source@ == old(self).src.source@,
            old(self).src.pos <= final(self).src.pos,
            r matches Some(sels) ==> forall|i: int, j: int|
                0 <= i < j < sels@.len() ==> !lex3_lt(
                    spec_specificity(#[trigger] sels@[i]@),
                    spec_specificity(#[trigger] sels@[j]@),
                ),
            r matches Some(sels) ==> forall|i: int|
                0 <= i < sels@.len() ==> selector_pieces_wf(#[trigger] sels@[i]@),
            r is None <==> spec_selectors_list(
                old(self).src.source@,
                old(self).src.pos as int,
                Seq::empty(),
            ) is None,
            r matches Some(sels) ==> (spec_selectors_list(
                old(self).src.source@,
                old(self).src.pos as int,
                Seq::empty(),
            ) matches Some(pair) && final(self).src.pos == pair.1 && views_of(
                sels@,
            ).to_multiset() == pair.0.to_multiset()),
            r is Some ==> !final(self).src.spec_eof()
                && final(self).src.source@[final(self).src.pos as int] == '{',
    {
        let ghost s = old(self).src.source@;
        let ghost pos0 = old(self).src.pos as int;
        let ghost target = spec_selectors_list(s, pos0, Seq::empty());
        let mut selectors: Vec<Selector> = Vec::new();
        proof {
            assert(views_of(selectors@) =~= Seq::<SelectorV>::empty());
        }
        loop
            invariant
                self.src.wf(),
                self.src.source@ == s,
                s == old(self).src.source@,
                pos0 == old(self).src.pos as int,
                old(self).src.pos <= self.src.pos,
                target == spec_selectors_list(s, pos0, Seq::empty()),
                spec_selectors_list(s, self.src.pos as int, views_of(selectors@)) == target,
                forall|k: int| 0 <= k < selectors@.len() ==> selector_pieces_wf(
                    #[trigger] selectors@[k]@,
                ),
            ensures
                self.src.wf(),
                self.src.source@ == old(self).src.source@,
                old(self).src.pos <= self.src.pos,
                target == Some((views_of(selectors@), self.src.pos as int)),
                forall|k: int| 0 <= k < selectors@.len() ==> selector_pieces_wf(
                    #[trigger] selectors@[k]@,
                ),
            decreases self.src.source@.len() - self.src.pos,
        {
            if self.src.eof() {
                return None;
            }
            if self.src.peek() == '{' {
                break;
            }
            match self.parse_selector() {
                Some(selector) => {
                    let ghost before = selectors@;
                    selectors.push(selector);
                    proof {
                        assert(views_of(selectors@) =~= views_of(before).push(selector@));
                    }
                },
                None => {
                    return None;
                },
            }
        }
        let sorted = sort_selectors(selectors);
        proof {
            lemma_selectors_list_at_brace(s, pos0, Seq::empty());
            assert forall|i: int| 0 <= i < sorted@.len() implies selector_pieces_wf(
                #[trigger] sorted@[i]@,
            ) by {
                assert(sorted@.contains(sorted@[i]));
                let j = choose|j: int|
                    0 <= j < selectors@.len() && #[trigger] selectors@[j] == sorted@[i];
            }
        }
        Some(sorted)
    }

    /// One `name: value;` declaration; the value is a pixel length when
    /// it ends in `px`, a hex color when it starts with `#`, and an
    /// opaque keyword otherwise.
    fn parse_declaration(&mut self) -> (r: Option<Declaration>)
        requires
            old(self).src.wf(),
        ensures
            final(self).src.wf(),
            final(self).src.source@ == old(self).src.source@,
            old(self).src.pos <= final(self).src.pos,
            r is Some ==> old(self).src.pos < final(self).src.pos,
            r matches Some(declaration) ==> ident_seq(declaration@.name),
            r is None <==> spec_parse_declaration(
                old(self).src.source@,
                old(self).src.pos as int,
            ) is None,
            r matches Some(declaration) ==> spec_parse_declaration(
                old(self).src.source@,
                old(self).src.pos as int,
            ) == Some((declaration@, final(self).src.pos as int)),
    {
        let ghost s = old(self).src.source@;
        let ghost pos0 = old(self).src.pos as int;
        self.src.consume_whitespace();
        let ghost p1 = self.src.pos as int;
        let name = self.consume_identifier();
        let ghost e = self.src.pos as int;
        if self.src.eof() {
            proof {
                assert(spec_parse_declaration(s, pos0) is None);
            }
            return None;
        }
        let c = self.src.consume_char();
        if c != ':' {
            proof {
                assert(spec_parse_declaration(s, pos0) is None);
            }
            return None;
        }
        self.src.consume_whitespace();
        let ghost p2 = self.src.pos as int;
        let raw_value = self.src.consume_until(';');
        let ghost q = self.src.pos as int;
        let ghost raw = s.subrange(p2, q);
        let chars = crate::text::chars_of(raw_value.as_str());
        let value: Value;
        if chars.len() >= 2 && chars[chars.len() - 2] == 'p' && chars[chars.len() - 1] == 'x' {
            proof {
                assert(chars@.subrange(0, chars@.len() - 2) =~= raw.subrange(0, raw.len() - 2));
            }
            match parse_number(&chars, 0, chars.len() - 2) {
                Some(number) => {
                    proof {
                        assert(number == number_of(raw.subrange(0, raw.len() - 2)));
                    }
                    value = Value::Length(number, Unit::Px);
                },
                None => {
                    proof {
                        assert(spec_value_of(raw) is None);
                        assert(spec_parse_declaration(s, pos0) is None);
                    }
                    return None;
                },
            }
        } else if chars.len() >= 1 && chars[0] == '#' {
            let digits = crate::text::sub_chars(&chars, 1, chars.len());
            value = Value::ColorValue(Color::Hex(crate::text::string_of(&digits)));
        } else {
            value = Value::Keyword(raw_value);
        }
        proof {
            assert(spec_value_of(raw) == Some(value@));
        }
        if self.src.eof() {
            proof {
                assert(spec_parse_declaration(s, pos0) is None);
            }
            return None;
        }
        let c2 = self.src.consume_char();
        if c2 != ';' {
            return None;
        }
        self.src.consume_whitespace();
        let declaration = Declaration { name, value };
        proof {
            assert(spec_parse_declaration(s, pos0) == Some(
                (declaration@, self.src.pos as int),
            ));
        }
        Some(declaration)
    }

    /// The declarations of one rule, up to and including the closing
    /// brace.
    fn parse_declarations(&mut self) -> (r: Option<Vec<Declaration>>)
        requires
            old(self).src.wf(),
        ensures
            final(self).src.wf(),
            final(self).src.source@ == old(self).src.source@,
            old(self).src.pos <= final(self).src.pos,
            r matches Some(declarations) ==> forall|k: int|
                0 <= k < declarations@.len() ==> ident_seq((#[trigger] declarations@[k]@).name),
            r is None <==> spec_declarations_list(
                old(self).src.source@,
                old(self).src.pos as int,
                Seq::empty(),
            ) is None,
            r matches Some(declarations) ==> spec_declarations_list(
                old(self).src.source@,
                old(self).src.pos as int,
                Seq::empty(),
            ) == Some((decls_views(declarations@), final(self).src.pos as int)),
    {
        let ghost s = old(self).src.source@;
        let ghost pos0 = old(self).src.pos as int;
        let ghost target = spec_declarations_list(s, pos0, Seq::empty());
        let mut declarations: Vec<Declaration> = Vec::new();
        proof {
            assert(decls_views(declarations@) =~= Seq::<DeclarationV>::empty());
        }
        loop
            invariant
                self.src.wf(),
                self.src.source@ == s,
                old(self).src.pos <= self.src.pos,
                target == spec_declarations_list(s, pos0, Seq::empty()),
                s == old(self).src.source@,
                pos0 == old(self).src.pos as int,
                spec_declarations_list(s, self.src.pos as int, decls_views(declarations@))
                    == target,
                forall|k: int| 0 <= k < declarations@.len() ==> ident_seq(
                    (#[trigger] declarations@[k]@).name,
                ),
            ensures
                self.src.wf(),
                self.src.source@ == old(self).src.source@,
                old(self).src.pos <= self.src.pos,
                !self.src.spec_eof(),
                self.src.source@[self.src.pos as int] == '}',
                spec_declarations_list(s, self.src.pos as int, decls_views(declarations@))
                    == target,
                forall|k: int| 0 <= k < declarations@.len() ==> ident_seq(
                    (#[trigger] declarations@[k]@).name,
                ),
            decreases self.src.source@.len() - self.src.pos,
        {
            if self.src.eof() {
                return None;
            }
            if self.src.peek() == '}' {
                break;
            }
            match self.parse_declaration() {
                Some(declaration) => {
                    let ghost before = declarations@;
                    declarations.push(declaration);
                    proof {
                        assert(decls_views(declarations@) =~= decls_views(before).push(
                            declaration@,
                        ));
                    }
                },
                None => {
                    return None;
                },
            }
        }
        let _ = self.src.consume_char();
        self.src.consume_whitespace();
        proof {
            assert(target == Some((decls_views(declarations@), self.src.pos as int)));
        }
        Some(declarations)
    }

    /// One rule: its selectors, a brace, its declarations.
    fn parse_rule(&mut self) -> (r: Option<Rule>)
        requires
            old(self).src.wf(),
        ensures
            final(self).src.wf(),
            final(self).src.source@ == old(self).src.source@,
            old(self).src.pos <= final(self).src.pos,
            r is Some ==> old(self).src.pos < final(self).src.pos,
            r matches Some(rule) ==> selectors_sorted(rule@),
            r matches Some(rule) ==> forall|i: int|
                0 <= i < rule@.selectors.len() ==> selector_pieces_wf(
                    #[trigger] rule@.selectors[i],
                ),
            r matches Some(rule) ==> forall|i: int|
                0 <= i < rule@.declarations.len() ==> ident_seq(
                    (#[trigger] rule@.declarations[i]).name,
                ),
            r is None <==> spec_parse_rule(old(self).src.source@, old(self).src.pos as int)
                is None,
            r matches Some(rule) ==> (spec_parse_rule(
                old(self).src.source@,
                old(self).src.pos as int,
            ) matches Some(pair) && final(self).src.pos == pair.1 && rule@.declarations
                == pair.0.1 && rule@.selectors.to_multiset() == pair.0.0.to_multiset()),
    {
        let ghost s = old(self).src.source@;
        let ghost pos0 = old(self).src.pos as int;
        proof {
            lemma_selectors_list_at_brace(s, pos0, Seq::empty());
        }
        let selectors = match self.parse_selectors() {
            Some(selectors) => selectors,
            None => {
                return None;
            },
        };
        if self.src.eof() {
            return None;
        }
        let c = self.src.consume_char();
        if c != '{' {
            return None;
        }
        let declarations = match self.parse_declarations() {
            Some(declarations) => declarations,
            None => {
                return None;
            },
        };
        let rule = Rule { selectors, declarations };
        proof {
            assert(forall|i: int|
                0 <= i < rule.selectors@.len() ==> #[trigger] rule@.selectors[i]
                    == rule.selectors@[i]@);
            assert(rule@.selectors =~= views_of(rule.selectors@));
            assert(forall|i: int|
                0 <= i < rule.declarations@.len() ==> #[trigger] rule@.declarations[i]
                    == rule.declarations@[i]@);
            assert(rule@.declarations =~= decls_views(rule.declarations@));
        }
        Some(rule)
    }

    /// The whole stylesheet: rules until the text ends. Nothing is
    /// returned for text that is not a well-formed stylesheet; every
    /// rule of a parsed sheet has its selectors sorted by descending
    /// specificity.
    pub fn parse(&mut self) -> (r: Option<StyleSheet>)
        requires
            old(self).src.wf(),
        ensures
            final(self).src.wf(),
            r is Some ==> final(self).src.spec_eof(),
            r matches Some(sheet) ==> forall|ri: int|
                0 <= ri < sheet@.rules.len() ==> selectors_sorted(#[trigger] sheet@.rules[ri]),
            r matches Some(sheet) ==> forall|ri: int, i: int|
                0 <= ri < sheet@.rules.len() && 0 <= i < sheet@.rules[ri].selectors.len()
                    ==> selector_pieces_wf(#[trigger] sheet@.rules[ri].selectors[i]),
            r is None <==> spec_parse_stylesheet(
                old(self).src.source@,
                old(self).src.pos as int,
                Seq::empty(),
            ) is None,
            r matches Some(sheet) ==> (spec_parse_stylesheet(
                old(self).src.source@,
                old(self).src.pos as int,
                Seq::empty(),
            ) matches Some(raw) && sheet@.rules.len() == raw.len() && (forall|ri: int|
                0 <= ri < raw.len() ==> (#[trigger] sheet@.rules[ri]).declarations == raw[ri].1)
                && (forall|ri: int|
                0 <= ri < raw.len() ==> (#[trigger] sheet@.rules[ri]).selectors.to_multiset()
                    == raw[ri].0.to_multiset())),
    {
        let ghost s = old(self).src.source@;
        let ghost pos0 = old(self).src.pos as int;
        let ghost target = spec_parse_stylesheet(s, pos0, Seq::empty());
        let mut rules: Vec<Rule> = Vec::new();
        let ghost mut raws: Seq<(Seq<SelectorV>, Seq<DeclarationV>)> = Seq::empty();
        loop
            invariant
                self.src.wf(),
                self.src.source@ == s,
                s == old(self).src.source@,
                pos0 == old(self).src.pos as int,
                target == spec_parse_stylesheet(s, pos0, Seq::empty()),
                spec_parse_stylesheet(s, self.src.pos as int, raws) == target,
                raws.len() == rules@.len(),
                forall|k: int| 0 <= k < raws.len() ==> (#[trigger] rules@[k]@).declarations
                    == raws[k].1,
                forall|k: int| 0 <= k < raws.len() ==> (#[trigger] rules@[k]@).selectors.to_multiset()
                    == raws[k].0.to_multiset(),
                forall|k: int| 0 <= k < rules@.len() ==> selectors_sorted(#[trigger] rules@[k]@),
                forall|k: int, i: int|
                    0 <= k < rules@.len() && 0 <= i < rules@[k]@.selectors.len()
                        ==> selector_pieces_wf(#[trigger] rules@[k]@.selectors[i]),
            ensures
                self.src.wf(),
                self.src.spec_eof(),
                target == Some(raws),
                raws.len() == rules@.len(),
                forall|k: int| 0 <= k < raws.len() ==> (#[trigger] rules@[k]@).declarations
                    == raws[k].1,
                forall|k: int| 0 <= k < raws.len() ==> (#[trigger] rules@[k]@).selectors.to_multiset()
                    == raws[k].0.to_multiset(),
                forall|k: int| 0 <= k < rules@.len() ==> selectors_sorted(#[trigger] rules@[k]@),
                forall|k: int, i: int|
                    0 <= k < rules@.len() && 0 <= i < rules@[k]@.selectors.len()
                        ==> selector_pieces_wf(#[trigger] rules@[k]@.selectors[i]),
            decreases self.src.source@.len() - self.src.pos,
        {
            if self.src.eof() {
                break;
            }
            let ghost pos_before = self.src.pos as int;
            match self.parse_rule() {
                Some(rule) => {
                    let ghost before = rules@;
                    proof {
                        let pair = choose|pair: ((Seq<SelectorV>, Seq<DeclarationV>), int)|
                            spec_parse_rule(s, pos_before) == Some(pair);
                        assert(spec_parse_rule(s, pos_before) == Some(pair));
                        raws = raws.push(pair.0);
                    }
                    rules.push(rule);
                },
                None => {
                    return None;
                },
            }
        }
        let sheet = StyleSheet { rules };
        proof {
            assert(forall|ri: int|
                0 <= ri < sheet.rules@.len() ==> #[trigger] sheet@.rules[ri]
                    == sheet.rules@[ri]@);
        }
        Some(sheet)
    }
}

} // verus!
