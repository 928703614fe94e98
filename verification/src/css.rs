//! The style sheet model: rules, selectors, declarations and values.

use vstd::prelude::*;
use crate::parser::{
    is_digit, is_identifier_char, lemma_run_end_bounds, run_end, CharClass, ParseError, Parser,
};

verus! {

/// An ordered list of rules.
#[derive(Debug)]
pub struct Stylesheet {
    pub rules: Vec<Rule>,
}

/// A rule applies its declarations to every element that one of its
/// selectors matches.
#[derive(Debug)]
pub struct Rule {
    pub selectors: Vec<Selector>,
    pub declarations: Vec<Declaration>,
}

#[derive(Debug)]
pub enum Selector {
    Simple(SimpleSelector),
}

/// A simple selector: every part that is present has to match.
#[derive(Debug)]
pub struct SimpleSelector {
    pub tag_name: Option<String>,
    pub id: Option<String>,
    pub class: Vec<String>,
}

/// One `name: value` pair of a rule.
#[derive(Debug)]
pub struct Declaration {
    pub name: String,
    pub value: Value,
}

/// A property value. Lengths are whole numbers of the given unit.
#[derive(Debug, PartialEq)]
pub enum Value {
    Keyword(String),
    Length(i64, Unit),
    ColorValue(Color),
}

#[derive(Debug, Clone, Copy, PartialEq, Eq)]
pub enum Unit {
    Px,
}

#[derive(Debug, Clone, Copy, PartialEq, Eq, Default)]
pub struct Color {
    pub r: u8,
    pub g: u8,
    pub b: u8,
    pub a: u8,
}

/// The weight of a selector: the number of ids, of classes and of tag names
/// in it. Weights are ordered lexicographically.
pub type Specificity = (usize, usize, usize);

/// The lexicographic order on weights: `a` comes strictly before `b`.
pub open spec fn specificity_lt(a: Specificity, b: Specificity) -> bool {
    a.0 < b.0 || (a.0 == b.0 && (a.1 < b.1 || (a.1 == b.1 && a.2 < b.2)))
}

/// Whether `a` comes strictly before `b` in the lexicographic order.
pub fn specificity_less(a: Specificity, b: Specificity) -> (r: bool)
    ensures
        r == specificity_lt(a, b),
{
    a.0 < b.0 || (a.0 == b.0 && (a.1 < b.1 || (a.1 == b.1 && a.2 < b.2)))
}

impl Selector {
    /// The weight of this selector, as a mathematical triple.
    pub open spec fn spec_specificity(&self) -> Specificity {
        match *self {
            Selector::Simple(simple) => (
                if simple.id is Some { 1usize } else { 0usize },
                simple.class@.len() as usize,
                if simple.tag_name is Some { 1usize } else { 0usize },
            ),
        }
    }

    /// The weight of this selector: one for an id, the number of classes,
    /// one for a tag name.
    pub fn specificity(&self) -> (r: Specificity)
        ensures
            r == self.spec_specificity(),
            (r.0 as int, r.1 as int, r.2 as int) == weight(self@),
    {
        match self {
            Selector::Simple(simple) => {
                let a: usize = if simple.id.is_some() { 1 } else { 0 };
                let b: usize = simple.class.len();
                let c: usize = if simple.tag_name.is_some() { 1 } else { 0 };
                (a, b, c)
            },
        }
    }
}

impl Clone for Value {
    fn clone(&self) -> (r: Self)
        ensures
            r == *self,
    {
        match self {
            Value::Keyword(k) => Value::Keyword(k.clone()),
            Value::Length(n, u) => Value::Length(*n, *u),
            Value::ColorValue(c) => Value::ColorValue(*c),
        }
    }
}

impl Value {
    /// The length in pixels that this value stands for.
    pub open spec fn px(&self) -> int {
        match *self {
            Value::Length(n, Unit::Px) => n as int,
            _ => 0,
        }
    }

    /// The length in pixels, or zero for a value that is no length.
    pub fn to_px(&self) -> (r: i64)
        ensures
            r == self.px(),
    {
        match self {
            Value::Length(n, Unit::Px) => *n,
            _ => 0,
        }
    }

    /// Whether this value is the keyword spelled `word`.
    pub open spec fn is_keyword(&self, word: Seq<char>) -> bool {
        match *self {
            Value::Keyword(k) => k@ == word,
            _ => false,
        }
    }

    /// Whether this value is the keyword spelled `word`.
    pub fn is_word(&self, word: &str) -> (r: bool)
        ensures
            r == self.is_keyword(word@),
    {
        match self {
            Value::Keyword(k) => {
                let w: String = word.to_owned();
                *k == w
            },
            _ => false,
        }
    }
}

/// A value as a mathematical value.
pub ghost enum ValueModel {
    Keyword(Seq<char>),
    Length(int),
    Color(Color),
}

/// A simple selector as a mathematical value.
pub ghost struct SelectorModel {
    pub tag_name: Option<Seq<char>>,
    pub id: Option<Seq<char>>,
    pub class: Seq<Seq<char>>,
}

pub ghost struct DeclarationModel {
    pub name: Seq<char>,
    pub value: ValueModel,
}

pub ghost struct RuleModel {
    pub selectors: Seq<SelectorModel>,
    pub declarations: Seq<DeclarationModel>,
}

pub open spec fn class_names(classes: Seq<String>) -> Seq<Seq<char>> {
    Seq::new(classes.len(), |i: int| classes[i]@)
}

pub open spec fn selector_models(selectors: Seq<Selector>) -> Seq<SelectorModel> {
    Seq::new(selectors.len(), |i: int| selectors[i]@)
}

pub open spec fn declaration_models(declarations: Seq<Declaration>) -> Seq<DeclarationModel> {
    Seq::new(declarations.len(), |i: int| declarations[i]@)
}

pub open spec fn rule_models(rules: Seq<Rule>) -> Seq<RuleModel> {
    Seq::new(rules.len(), |i: int| rules[i]@)
}

impl View for Value {
    type V = ValueModel;

    open spec fn view(&self) -> ValueModel {
        match *self {
            Value::Keyword(k) => ValueModel::Keyword(k@),
            Value::Length(n, _) => ValueModel::Length(n as int),
            Value::ColorValue(c) => ValueModel::Color(c),
        }
    }
}

impl View for SimpleSelector {
    type V = SelectorModel;

    open spec fn view(&self) -> SelectorModel {
        SelectorModel {
            tag_name: match self.tag_name {
                Some(t) => Some(t@),
                None => None,
            },
            id: match self.id {
                Some(t) => Some(t@),
                None => None,
            },
            class: class_names(self.class@),
        }
    }
}

impl View for Selector {
    type V = SelectorModel;

    open spec fn view(&self) -> SelectorModel {
        match *self {
            Selector::Simple(simple) => simple@,
        }
    }
}

impl View for Declaration {
    type V = DeclarationModel;

    open spec fn view(&self) -> DeclarationModel {
        DeclarationModel { name: self.name@, value: self.value@ }
    }
}

impl View for Rule {
    type V = RuleModel;

    open spec fn view(&self) -> RuleModel {
        RuleModel {
            selectors: selector_models(self.selectors@),
            declarations: declaration_models(self.declarations@),
        }
    }
}

impl View for Stylesheet {
    type V = Seq<RuleModel>;

    open spec fn view(&self) -> Seq<RuleModel> {
        rule_models(self.rules@)
    }
}

/// The weight of a selector, over the integers.
pub open spec fn weight(selector: SelectorModel) -> (int, int, int) {
    (
        if selector.id is Some { 1int } else { 0int },
        selector.class.len() as int,
        if selector.tag_name is Some { 1int } else { 0int },
    )
}

pub open spec fn weight_lt(a: (int, int, int), b: (int, int, int)) -> bool {
    a.0 < b.0 || (a.0 == b.0 && (a.1 < b.1 || (a.1 == b.1 && a.2 < b.2)))
}

/// The place of a selector of weight `w` in a list that is ordered from the
/// heaviest down: before the first selector at or after `from` that weighs
/// less, and so behind those of its own weight.
pub open spec fn slot(sorted: Seq<SelectorModel>, w: (int, int, int), from: int) -> int
    decreases sorted.len() - from,
{
    if from < 0 || from >= sorted.len() {
        sorted.len() as int
    } else if weight_lt(weight(sorted[from]), w) {
        from
    } else {
        slot(sorted, w, from + 1)
    }
}

/// The list with the selector put in its place.
pub open spec fn with_selector(sorted: Seq<SelectorModel>, selector: SelectorModel) -> Seq<
    SelectorModel,
> {
    sorted.insert(slot(sorted, weight(selector), 0), selector)
}

proof fn lemma_slot_bounds(sorted: Seq<SelectorModel>, w: (int, int, int), from: int)
    requires
        0 <= from <= sorted.len(),
    ensures
        from <= slot(sorted, w, from) <= sorted.len(),
    decreases sorted.len() - from,
{
    if from < sorted.len() && !weight_lt(weight(sorted[from]), w) {
        lemma_slot_bounds(sorted, w, from + 1);
    }
}

/// Whether the selectors are ordered from the heaviest down.
pub open spec fn ordered(selectors: Seq<SelectorModel>) -> bool {
    forall|i: int, j: int|
        0 <= i < j < selectors.len() ==> !weight_lt(
            weight(#[trigger] selectors[i]),
            weight(#[trigger] selectors[j]),
        )
}

proof fn lemma_slot_divides(sorted: Seq<SelectorModel>, w: (int, int, int), from: int)
    requires
        0 <= from <= sorted.len(),
    ensures
        forall|i: int|
            from <= i < slot(sorted, w, from) ==> !weight_lt(weight(#[trigger] sorted[i]), w),
        slot(sorted, w, from) < sorted.len() ==> weight_lt(
            weight(sorted[slot(sorted, w, from)]),
            w,
        ),
    decreases sorted.len() - from,
{
    if from < sorted.len() && !weight_lt(weight(sorted[from]), w) {
        lemma_slot_divides(sorted, w, from + 1);
    }
}

/// A selector put in its place leaves the list ordered.
pub proof fn lemma_with_selector_keeps_order(sorted: Seq<SelectorModel>, selector: SelectorModel)
    requires
        ordered(sorted),
    ensures
        ordered(with_selector(sorted, selector)),
{
    let w = weight(selector);
    let at = slot(sorted, w, 0);
    lemma_slot_bounds(sorted, w, 0);
    lemma_slot_divides(sorted, w, 0);
    let now = with_selector(sorted, selector);
    assert forall|i: int, j: int| 0 <= i < j < now.len() implies !weight_lt(
        weight(#[trigger] now[i]),
        weight(#[trigger] now[j]),
    ) by {
        if j < at {
            assert(now[i] == sorted[i] && now[j] == sorted[j]);
        } else if j == at {
            assert(now[i] == sorted[i]);
        } else if i < at {
            assert(now[i] == sorted[i] && now[j] == sorted[j - 1]);
        } else if i == at {
            assert(now[j] == sorted[j - 1]);
            assert(!weight_lt(weight(sorted[at]), weight(sorted[j - 1])) || at == j - 1);
        } else {
            assert(now[i] == sorted[i - 1] && now[j] == sorted[j - 1]);
        }
    }
}

/// The selectors of a rule are read into a list that is ordered from the
/// heaviest down.
pub proof fn lemma_selectors_are_ordered(input: Seq<char>, pos: int, found: Seq<SelectorModel>)
    requires
        ordered(found),
    ensures
        selectors_from(input, pos, found) matches Some(read) ==> ordered(read.0),
    decreases input.len() - pos,
{
    let (selector, end) = simple_selector_from(input, pos, empty_selector());
    let all = with_selector(found, selector);
    lemma_with_selector_keeps_order(found, selector);
    let next = run_end(input, end, CharClass::Space);
    if 0 <= pos <= next < input.len() && input[next] == ',' {
        let start = run_end(input, next + 1, CharClass::Space);
        if !(start <= pos || start > input.len()) {
            lemma_selectors_are_ordered(input, start, all);
        }
    }
}

/// An id outweighs any number of classes, and a class outweighs a tag
/// name.
pub proof fn lemma_weight_order(a: SelectorModel, b: SelectorModel)
    ensures
        a.id is Some && b.id is None ==> weight_lt(weight(b), weight(a)),
        (a.id is Some <==> b.id is Some) && a.class.len() > b.class.len() ==> weight_lt(
            weight(b),
            weight(a),
        ),
        (a.id is Some <==> b.id is Some) && a.class.len() == b.class.len() && a.tag_name is Some
            && b.tag_name is None ==> weight_lt(weight(b), weight(a)),
{
}

/// A simple selector from `pos`, its parts added to `found`: `#` and an
/// id, `.` and a class, `*`, or a tag name, one after the other without
/// space between them.
pub open spec fn simple_selector_from(input: Seq<char>, pos: int, found: SelectorModel) -> (
    SelectorModel,
    int,
)
    decreases input.len() - pos,
{
    if !(0 <= pos < input.len()) {
        (found, pos)
    } else if input[pos] == '#' || input[pos] == '.' {
        let end = run_end(input, pos + 1, CharClass::Identifier);
        let name = input.subrange(pos + 1, end);
        if end <= pos || end > input.len() {
            (found, pos)
        } else if input[pos] == '#' {
            simple_selector_from(
                input,
                end,
                SelectorModel { tag_name: found.tag_name, id: Some(name), class: found.class },
            )
        } else {
            simple_selector_from(
                input,
                end,
                SelectorModel {
                    tag_name: found.tag_name,
                    id: found.id,
                    class: found.class.push(name),
                },
            )
        }
    } else if input[pos] == '*' {
        simple_selector_from(input, pos + 1, found)
    } else if is_identifier_char(input[pos]) {
        let end = run_end(input, pos, CharClass::Identifier);
        if end <= pos || end > input.len() {
            (found, pos)
        } else {
            simple_selector_from(
                input,
                end,
                SelectorModel {
                    tag_name: Some(input.subrange(pos, end)),
                    id: found.id,
                    class: found.class,
                },
            )
        }
    } else {
        (found, pos)
    }
}

/// The selector that has no part.
pub open spec fn empty_selector() -> SelectorModel {
    SelectorModel { tag_name: None, id: None, class: Seq::empty() }
}

/// The selectors of a rule from `pos`, separated by commas, up to the `{`,
/// each put in its place among `found`. The position given is that of the
/// `{`.
pub open spec fn selectors_from(input: Seq<char>, pos: int, found: Seq<SelectorModel>) -> Option<
    (Seq<SelectorModel>, int),
>
    decreases input.len() - pos,
{
    let (selector, end) = simple_selector_from(input, pos, empty_selector());
    let all = with_selector(found, selector);
    let next = run_end(input, end, CharClass::Space);
    if !(0 <= pos <= next < input.len()) {
        None
    } else if input[next] == ',' {
        let start = run_end(input, next + 1, CharClass::Space);
        if start <= pos || start > input.len() {
            None
        } else {
            selectors_from(input, start, all)
        }
    } else if input[next] == '{' {
        Some((all, next))
    } else {
        None
    }
}

pub open spec fn digit_value(c: char) -> int {
    c as u32 as int - 48
}

/// The number that decimal digits stand for.
pub open spec fn decimal(digits: Seq<char>) -> int
    decreases digits.len(),
{
    if digits.len() == 0 {
        0
    } else {
        decimal(digits.drop_last()) * 10 + digit_value(digits.last())
    }
}

pub open spec fn all_digits(s: Seq<char>) -> bool {
    forall|i: int| 0 <= i < s.len() ==> is_digit(#[trigger] s[i])
}

/// The whole number of pixels that the text gives: decimal digits whose
/// number fits in `i64`. A text with a `.` in it gives none.
pub open spec fn whole_number(s: Seq<char>) -> Option<int> {
    if all_digits(s) && decimal(s) <= i64::MAX {
        Some(decimal(s))
    } else {
        None
    }
}

/// Whether the text is the unit `px`, in either case.
pub open spec fn is_px(s: Seq<char>) -> bool {
    s.len() == 2 && (s[0] == 'p' || s[0] == 'P') && (s[1] == 'x' || s[1] == 'X')
}

pub open spec fn is_hex_digit(c: char) -> bool {
    is_digit(c) || ('a' <= c && c <= 'f') || ('A' <= c && c <= 'F')
}

pub open spec fn hex_value(c: char) -> int {
    if is_digit(c) {
        c as u32 as int - 48
    } else if 'a' <= c && c <= 'f' {
        c as u32 as int - 87
    } else {
        c as u32 as int - 55
    }
}

/// The byte that two hexadecimal digits at `pos` stand for.
pub open spec fn hex_pair_at(input: Seq<char>, pos: int) -> Option<int> {
    if 0 <= pos && pos + 1 < input.len() && is_hex_digit(input[pos]) && is_hex_digit(
        input[pos + 1],
    ) {
        Some(hex_value(input[pos]) * 16 + hex_value(input[pos + 1]))
    } else {
        None
    }
}

/// A value at `pos`: a length where a digit stands, a colour where a `#`
/// stands, else a keyword.
pub open spec fn value_at(input: Seq<char>, pos: int) -> Option<(ValueModel, int)> {
    if !(0 <= pos < input.len()) {
        None
    } else if is_digit(input[pos]) {
        let end = run_end(input, pos, CharClass::Number);
        let unit_end = run_end(input, end, CharClass::Identifier);
        match whole_number(input.subrange(pos, end)) {
            Some(n) => if is_px(input.subrange(end, unit_end)) {
                Some((ValueModel::Length(n), unit_end))
            } else {
                None
            },
            None => None,
        }
    } else if input[pos] == '#' {
        match (hex_pair_at(input, pos + 1), hex_pair_at(input, pos + 3), hex_pair_at(input, pos + 5)) {
            (Some(r), Some(g), Some(b)) => Some(
                (
                    ValueModel::Color(Color { r: r as u8, g: g as u8, b: b as u8, a: 255 }),
                    pos + 7,
                ),
            ),
            _ => None,
        }
    } else {
        let end = run_end(input, pos, CharClass::Identifier);
        Some((ValueModel::Keyword(input.subrange(pos, end)), end))
    }
}

/// A declaration at `pos`: a name, `:`, a value and `;`, with space
/// allowed between them.
pub open spec fn declaration_at(input: Seq<char>, pos: int) -> Option<(DeclarationModel, int)> {
    let name_end = run_end(input, pos, CharClass::Identifier);
    let colon = run_end(input, name_end, CharClass::Space);
    if 0 <= pos && 0 <= colon < input.len() && input[colon] == ':' {
        match value_at(input, run_end(input, colon + 1, CharClass::Space)) {
            Some((value, value_end)) => {
                let semicolon = run_end(input, value_end, CharClass::Space);
                if 0 <= semicolon < input.len() && input[semicolon] == ';' {
                    Some(
                        (
                            DeclarationModel { name: input.subrange(pos, name_end), value: value },
                            semicolon + 1,
                        ),
                    )
                } else {
                    None
                }
            },
            None => None,
        }
    } else {
        None
    }
}

/// The declarations from `pos` up to the `}` that ends the rule, added to
/// `found`. The position given is behind the `}`.
pub open spec fn declarations_from(input: Seq<char>, pos: int, found: Seq<DeclarationModel>) -> Option<
    (Seq<DeclarationModel>, int),
>
    decreases input.len() - pos,
{
    let start = run_end(input, pos, CharClass::Space);
    if !(0 <= pos <= start < input.len()) {
        None
    } else if input[start] == '}' {
        Some((found, start + 1))
    } else {
        match declaration_at(input, start) {
            Some((declaration, next)) => if next <= start || next > input.len() {
                None
            } else {
                declarations_from(input, next, found.push(declaration))
            },
            None => None,
        }
    }
}

/// A rule at `pos`: selectors, and declarations between `{` and `}`.
pub open spec fn rule_at(input: Seq<char>, pos: int) -> Option<(RuleModel, int)> {
    match selectors_from(input, pos, Seq::empty()) {
        Some((selectors, brace)) => match declarations_from(input, brace + 1, Seq::empty()) {
            Some((declarations, end)) => Some(
                (RuleModel { selectors: selectors, declarations: declarations }, end),
            ),
            None => None,
        },
        None => None,
    }
}

/// The rules from `pos` to the end of the input, added to `found`.
pub open spec fn rules_from(input: Seq<char>, pos: int, found: Seq<RuleModel>) -> Option<
    Seq<RuleModel>,
>
    decreases input.len() - pos,
{
    let start = run_end(input, pos, CharClass::Space);
    if start < pos || pos < 0 {
        None
    } else if start >= input.len() {
        Some(found)
    } else {
        match rule_at(input, start) {
            Some((rule, next)) => if next <= start || next > input.len() {
                None
            } else {
                rules_from(input, next, found.push(rule))
            },
            None => None,
        }
    }
}

/// The style sheet that the input holds.
pub open spec fn stylesheet_of(input: Seq<char>) -> Option<Seq<RuleModel>> {
    rules_from(input, 0, Seq::empty())
}

/// Whether the character can stand in an identifier.
pub fn valid_identifier_char(c: char) -> (r: bool)
    ensures
        r == is_identifier_char(c),
{
    CharClass::Identifier.holds(c)
}

/// The digits of a longer number stand for at least as much.
proof fn lemma_decimal_grows(s: Seq<char>, k: int)
    requires
        all_digits(s),
        0 <= k <= s.len(),
    ensures
        0 <= decimal(s.subrange(0, k)) <= decimal(s),
    decreases s.len() - k,
{
    lemma_decimal_nonnegative(s.subrange(0, k));
    if k < s.len() {
        lemma_decimal_grows(s, k + 1);
        let longer = s.subrange(0, k + 1);
        assert(longer.drop_last() =~= s.subrange(0, k));
        assert(is_digit(s[k]));
        assert(longer.last() == s[k]);
    } else {
        assert(s.subrange(0, k) =~= s);
    }
}

proof fn lemma_decimal_nonnegative(s: Seq<char>)
    requires
        all_digits(s),
    ensures
        0 <= decimal(s),
    decreases s.len(),
{
    if s.len() > 0 {
        assert(is_digit(s.last()));
        lemma_decimal_nonnegative(s.drop_last());
    }
}

/// The whole number that the text gives, if it gives one.
fn number_of(s: &str) -> (r: Result<i64, ParseError>)
    ensures
        match r {
            Ok(n) => whole_number(s@) == Some(n as int),
            Err(_) => whole_number(s@) is None,
        },
{
    let n: usize = s.unicode_len();
    let mut value: i64 = 0;
    let mut i: usize = 0;
    while i < n
        invariant
            n == s@.len(),
            i <= n,
            all_digits(s@.subrange(0, i as int)),
            0 <= value,
            value == decimal(s@.subrange(0, i as int)),
        decreases n - i,
    {
        let c: char = s.get_char(i);
        let ghost longer = s@.subrange(0, i + 1);
        assert(longer.drop_last() =~= s@.subrange(0, i as int));
        assert(longer.last() == c);
        if !('0' <= c && c <= '9') {
            assert(!is_digit(s@[i as int]));
            return Err(ParseError::Malformed);
        }
        let d: i64 = (c as u32 - 48) as i64;
        if value > (i64::MAX - d) / 10 {
            proof {
                if all_digits(s@) {
                    lemma_decimal_grows(s@, i + 1);
                }
            }
            return Err(ParseError::Malformed);
        }
        value = value * 10 + d;
        i += 1;
    }
    assert(s@.subrange(0, n as int) =~= s@);
    Ok(value)
}

/// The place of a selector of weight `w` in the ordered list.
fn insertion_slot(selectors: &Vec<Selector>, w: Specificity) -> (r: usize)
    ensures
        r <= selectors@.len(),
        r == slot(selector_models(selectors@), (w.0 as int, w.1 as int, w.2 as int), 0),
{
    let n: usize = selectors.len();
    let ghost models = selector_models(selectors@);
    let ghost target = (w.0 as int, w.1 as int, w.2 as int);
    let mut i: usize = 0;
    while i < n
        invariant
            n == selectors@.len(),
            models == selector_models(selectors@),
            target == (w.0 as int, w.1 as int, w.2 as int),
            i <= n,
            slot(models, target, 0) == slot(models, target, i as int),
        decreases n - i,
    {
        let held: Specificity = selectors[i].specificity();
        if specificity_less(held, w) {
            return i;
        }
        i += 1;
    }
    n
}

impl Parser {
    /// Reads an identifier: letters, digits, `-` and `_`.
    pub fn parse_identifier(&mut self) -> (r: String)
        ensures
            final(self).input == old(self).input,
            final(self).pos == run_end(old(self).input@, old(self).pos as int, CharClass::Identifier),
            final(self).pos >= old(self).pos,
            old(self).pos <= old(self).input@.len() ==> final(self).pos <= old(self).input@.len()
                && r@ == old(self).input@.subrange(old(self).pos as int, final(self).pos as int),
    {
        self.consume_while(CharClass::Identifier)
    }

    /// Reads a simple selector.
    pub fn parse_simple_selector(&mut self) -> (r: SimpleSelector)
        requires
            old(self).pos <= old(self).input@.len(),
        ensures
            final(self).input == old(self).input,
            old(self).pos <= final(self).pos <= old(self).input@.len(),
            simple_selector_from(old(self).input@, old(self).pos as int, empty_selector()) == (
                r@,
                final(self).pos as int,
            ),
    {
        let mut selector = SimpleSelector { tag_name: None, id: None, class: Vec::new() };
        let ghost input = self.input@;
        let ghost start = self.pos as int;
        assert(selector@.class =~= Seq::empty());
        let mut done: bool = false;
        while !done && !self.eof()
            invariant
                self.input == old(self).input,
                input == self.input@,
                start == old(self).pos,
                start <= self.pos <= input.len(),
                simple_selector_from(input, start, empty_selector()) == simple_selector_from(
                    input,
                    self.pos as int,
                    selector@,
                ),
                done ==> simple_selector_from(input, self.pos as int, selector@) == (
                    selector@,
                    self.pos as int,
                ),
            decreases input.len() - self.pos + (if done { 0int } else { 1int }),
        {
            let c: char = self.next_char();
            let ghost held = selector@;
            if c == '#' {
                self.consume_char();
                proof {
                    lemma_run_end_bounds(input, self.pos as int, CharClass::Identifier);
                }
                selector.id = Some(self.parse_identifier());
            } else if c == '.' {
                self.consume_char();
                proof {
                    lemma_run_end_bounds(input, self.pos as int, CharClass::Identifier);
                }
                let name: String = self.parse_identifier();
                selector.class.push(name);
                assert(selector@.class =~= held.class.push(name@));
            } else if c == '*' {
                self.consume_char();
            } else if valid_identifier_char(c) {
                proof {
                    lemma_run_end_bounds(input, self.pos as int, CharClass::Identifier);
                }
                selector.tag_name = Some(self.parse_identifier());
            } else {
                done = true;
            }
        }
        selector
    }

    /// Reads the selectors of a rule, up to its `{`, and orders them from
    /// the heaviest down.
    pub fn parse_selectors(&mut self) -> (r: Result<Vec<Selector>, ParseError>)
        requires
            old(self).pos <= old(self).input@.len(),
        ensures
            final(self).input == old(self).input,
            match r {
                Ok(selectors) => selectors_from(old(self).input@, old(self).pos as int, Seq::empty())
                    == Some((selector_models(selectors@), final(self).pos as int)) && old(self).pos <= final(self).pos < old(self).input@.len() && old(self).input@[final(self).pos as int] == '{',
                Err(_) => selectors_from(old(self).input@, old(self).pos as int, Seq::empty()) is None,
            },
    {
        let mut selectors: Vec<Selector> = Vec::new();
        let ghost input = self.input@;
        let ghost start = self.pos as int;
        assert(selector_models(selectors@) =~= Seq::empty());
        loop
            invariant
                self.input == old(self).input,
                input == self.input@,
                start == old(self).pos,
                start <= self.pos <= input.len(),
                selectors_from(input, start, Seq::empty()) == selectors_from(
                    input,
                    self.pos as int,
                    selector_models(selectors@),
                ),
            decreases input.len() - self.pos,
        {
            let ghost found = selector_models(selectors@);
            let selector = Selector::Simple(self.parse_simple_selector());
            let w: Specificity = selector.specificity();
            let at: usize = insertion_slot(&selectors, w);
            let ghost model = selector@;
            selectors.insert(at, selector);
            assert(selector_models(selectors@) =~= with_selector(found, model));
            self.consume_whitespace();
            if self.eof() {
                return Err(ParseError::Malformed);
            }
            let c: char = self.next_char();
            if c == ',' {
                self.consume_char();
                proof {
                    lemma_run_end_bounds(input, self.pos as int, CharClass::Space);
                }
                self.consume_whitespace();
            } else if c == '{' {
                return Ok(selectors);
            } else {
                return Err(ParseError::Malformed);
            }
        }
    }

    /// Reads a whole number of pixels.
    pub fn parse_number(&mut self) -> (r: Result<i64, ParseError>)
        requires
            old(self).pos <= old(self).input@.len(),
        ensures
            final(self).input == old(self).input,
            final(self).pos == run_end(old(self).input@, old(self).pos as int, CharClass::Number),
            old(self).pos <= final(self).pos <= old(self).input@.len(),
            match r {
                Ok(n) => whole_number(
                    old(self).input@.subrange(old(self).pos as int, final(self).pos as int),
                ) == Some(n as int),
                Err(_) => whole_number(
                    old(self).input@.subrange(old(self).pos as int, final(self).pos as int),
                ) is None,
            },
    {
        let s: String = self.consume_while(CharClass::Number);
        number_of(s.as_str())
    }

    /// Reads the unit of a length, which has to be `px`.
    pub fn parse_unit(&mut self) -> (r: Result<Unit, ParseError>)
        requires
            old(self).pos <= old(self).input@.len(),
        ensures
            final(self).input == old(self).input,
            final(self).pos == run_end(old(self).input@, old(self).pos as int, CharClass::Identifier),
            old(self).pos <= final(self).pos <= old(self).input@.len(),
            r is Ok <==> is_px(
                old(self).input@.subrange(old(self).pos as int, final(self).pos as int),
            ),
    {
        let s: String = self.parse_identifier();
        let text: &str = s.as_str();
        if text.unicode_len() != 2 {
            return Err(ParseError::Malformed);
        }
        let p: char = text.get_char(0);
        let x: char = text.get_char(1);
        if (p == 'p' || p == 'P') && (x == 'x' || x == 'X') {
            Ok(Unit::Px)
        } else {
            Err(ParseError::Malformed)
        }
    }

    /// Reads a length: a whole number and the unit `px`.
    pub fn parse_length(&mut self) -> (r: Result<Value, ParseError>)
        requires
            old(self).pos < old(self).input@.len(),
            is_digit(old(self).input@[old(self).pos as int]),
        ensures
            final(self).input == old(self).input,
            match r {
                Ok(value) => value_at(old(self).input@, old(self).pos as int) == Some(
                    (value@, final(self).pos as int),
                ) && old(self).pos <= final(self).pos <= old(self).input@.len(),
                Err(_) => value_at(old(self).input@, old(self).pos as int) is None,
            },
    {
        let number: Result<i64, ParseError> = self.parse_number();
        let unit: Result<Unit, ParseError> = self.parse_unit();
        match (number, unit) {
            (Ok(n), Ok(u)) => Ok(Value::Length(n, u)),
            _ => Err(ParseError::Malformed),
        }
    }

    /// Reads two hexadecimal digits.
    pub fn parse_hex_pair(&mut self) -> (r: Result<u8, ParseError>)
        ensures
            final(self).input == old(self).input,
            match r {
                Ok(byte) => hex_pair_at(old(self).input@, old(self).pos as int) == Some(byte as int)
                    && final(self).pos == old(self).pos + 2,
                Err(_) => hex_pair_at(old(self).input@, old(self).pos as int) is None,
            },
    {
        let high: u8 = self.parse_hex_digit()?;
        let low: u8 = self.parse_hex_digit()?;
        Ok(high * 16 + low)
    }

    /// Reads one hexadecimal digit.
    fn parse_hex_digit(&mut self) -> (r: Result<u8, ParseError>)
        ensures
            final(self).input == old(self).input,
            match r {
                Ok(d) => old(self).pos < old(self).input@.len() && is_hex_digit(
                    old(self).input@[old(self).pos as int],
                ) && d == hex_value(old(self).input@[old(self).pos as int]) && d < 16 && final(self).pos == old(self).pos + 1,
                Err(_) => final(self).pos == old(self).pos && !(old(self).pos < old(self).input@.len() && is_hex_digit(old(self).input@[old(self).pos as int])),
            },
    {
        if self.eof() {
            return Err(ParseError::Malformed);
        }
        let c: char = self.next_char();
        let d: u32 = if '0' <= c && c <= '9' {
            c as u32 - 48
        } else if 'a' <= c && c <= 'f' {
            c as u32 - 87
        } else if 'A' <= c && c <= 'F' {
            c as u32 - 55
        } else {
            return Err(ParseError::Malformed);
        };
        self.consume_char();
        Ok(d as u8)
    }

    /// Reads a colour: `#` and three pairs of hexadecimal digits.
    pub fn parse_color(&mut self) -> (r: Result<Value, ParseError>)
        requires
            old(self).pos < old(self).input@.len(),
            old(self).input@[old(self).pos as int] == '#',
        ensures
            final(self).input == old(self).input,
            match r {
                Ok(value) => value_at(old(self).input@, old(self).pos as int) == Some(
                    (value@, final(self).pos as int),
                ) && old(self).pos <= final(self).pos <= old(self).input@.len(),
                Err(_) => value_at(old(self).input@, old(self).pos as int) is None,
            },
    {
        self.consume_char();
        let r: u8 = self.parse_hex_pair()?;
        let g: u8 = self.parse_hex_pair()?;
        let b: u8 = self.parse_hex_pair()?;
        Ok(Value::ColorValue(Color { r, g, b, a: 255 }))
    }

    /// Reads a value: a length, a colour or a keyword.
    pub fn parse_value(&mut self) -> (r: Result<Value, ParseError>)
        ensures
            final(self).input == old(self).input,
            match r {
                Ok(value) => value_at(old(self).input@, old(self).pos as int) == Some(
                    (value@, final(self).pos as int),
                ) && old(self).pos <= final(self).pos <= old(self).input@.len(),
                Err(_) => value_at(old(self).input@, old(self).pos as int) is None,
            },
    {
        if self.eof() {
            return Err(ParseError::Malformed);
        }
        let c: char = self.next_char();
        if '0' <= c && c <= '9' {
            self.parse_length()
        } else if c == '#' {
            self.parse_color()
        } else {
            Ok(Value::Keyword(self.parse_identifier()))
        }
    }

    /// Reads a declaration: `name: value;`.
    pub fn parse_declaration(&mut self) -> (r: Result<Declaration, ParseError>)
        requires
            old(self).pos <= old(self).input@.len(),
        ensures
            final(self).input == old(self).input,
            match r {
                Ok(declaration) => declaration_at(old(self).input@, old(self).pos as int) == Some(
                    (declaration@, final(self).pos as int),
                ) && old(self).pos < final(self).pos <= old(self).input@.len(),
                Err(_) => declaration_at(old(self).input@, old(self).pos as int) is None,
            },
    {
        let name: String = self.parse_identifier();
        self.consume_whitespace();
        self.expect(':')?;
        self.consume_whitespace();
        let value: Value = self.parse_value()?;
        self.consume_whitespace();
        self.expect(';')?;
        Ok(Declaration { name: name, value: value })
    }

    /// Reads the declarations of a rule, from its `{` to its `}`.
    pub fn parse_declarations(&mut self) -> (r: Result<Vec<Declaration>, ParseError>)
        requires
            old(self).pos < old(self).input@.len(),
            old(self).input@[old(self).pos as int] == '{',
        ensures
            final(self).input == old(self).input,
            match r {
                Ok(declarations) => declarations_from(
                    old(self).input@,
                    old(self).pos + 1,
                    Seq::empty(),
                ) == Some((declaration_models(declarations@), final(self).pos as int)) && old(self).pos < final(self).pos <= old(self).input@.len(),
                Err(_) => declarations_from(old(self).input@, old(self).pos + 1, Seq::empty()) is None,
            },
    {
        self.consume_char();
        let mut declarations: Vec<Declaration> = Vec::new();
        let ghost input = self.input@;
        let ghost start = self.pos as int;
        assert(declaration_models(declarations@) =~= Seq::empty());
        loop
            invariant
                self.input == old(self).input,
                input == self.input@,
                start == old(self).pos + 1,
                start <= self.pos <= input.len(),
                declarations_from(input, start, Seq::empty()) == declarations_from(
                    input,
                    self.pos as int,
                    declaration_models(declarations@),
                ),
            decreases input.len() - self.pos,
        {
            let ghost found = declaration_models(declarations@);
            self.consume_whitespace();
            if self.eof() {
                return Err(ParseError::Malformed);
            }
            if self.next_char() == '}' {
                self.consume_char();
                return Ok(declarations);
            }
            let declaration: Declaration = self.parse_declaration()?;
            declarations.push(declaration);
            assert(declaration_models(declarations@) =~= found.push(declaration@));
        }
    }

    /// Reads a rule: selectors and declarations.
    pub fn parse_rule(&mut self) -> (r: Result<Rule, ParseError>)
        requires
            old(self).pos <= old(self).input@.len(),
        ensures
            final(self).input == old(self).input,
            match r {
                Ok(rule) => rule_at(old(self).input@, old(self).pos as int) == Some(
                    (rule@, final(self).pos as int),
                ) && old(self).pos < final(self).pos <= old(self).input@.len(),
                Err(_) => rule_at(old(self).input@, old(self).pos as int) is None,
            },
    {
        let selectors: Vec<Selector> = self.parse_selectors()?;
        let declarations: Vec<Declaration> = self.parse_declarations()?;
        Ok(Rule { selectors: selectors, declarations: declarations })
    }

    /// Reads rules to the end of the input.
    pub fn parse_rules(&mut self) -> (r: Result<Vec<Rule>, ParseError>)
        requires
            old(self).pos <= old(self).input@.len(),
        ensures
            final(self).input == old(self).input,
            match r {
                Ok(rules) => rules_from(old(self).input@, old(self).pos as int, Seq::empty())
                    == Some(rule_models(rules@)),
                Err(_) => rules_from(old(self).input@, old(self).pos as int, Seq::empty()) is None,
            },
    {
        let mut rules: Vec<Rule> = Vec::new();
        let ghost input = self.input@;
        let ghost start = self.pos as int;
        assert(rule_models(rules@) =~= Seq::empty());
        loop
            invariant
                self.input == old(self).input,
                input == self.input@,
                start == old(self).pos,
                start <= self.pos <= input.len(),
                rules_from(input, start, Seq::empty()) == rules_from(
                    input,
                    self.pos as int,
                    rule_models(rules@),
                ),
            decreases input.len() - self.pos,
        {
            let ghost found = rule_models(rules@);
            self.consume_whitespace();
            if self.eof() {
                return Ok(rules);
            }
            let rule: Rule = self.parse_rule()?;
            rules.push(rule);
            assert(rule_models(rules@) =~= found.push(rule@));
        }
    }
}

/// Parses a style sheet.
pub fn parse(source: String) -> (r: Result<Stylesheet, ParseError>)
    ensures
        match r {
            Ok(sheet) => stylesheet_of(source@) == Some(sheet@),
            Err(_) => stylesheet_of(source@) is None,
        },
{
    let mut parser = Parser { pos: 0, input: source };
    let rules: Vec<Rule> = parser.parse_rules()?;
    Ok(Stylesheet { rules: rules })
}

} // verus!
