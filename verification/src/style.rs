//! The style resolver: selector matching, the cascade, and the tree of
//! styled nodes.

use vstd::prelude::*;
use crate::css::{Rule, Selector, SimpleSelector, Specificity, Stylesheet, Value, specificity_lt, specificity_less};
use crate::dom::{ElementData, Node, NodeType};
use crate::strmap::StringMap;

verus! {

/// The resolved properties of one node, by name.
pub type PropertyMap = StringMap<Value>;

/// A rule that matches an element, with the weight of the selector that
/// matched.
pub type MatchedRule<'a> = (Specificity, &'a Rule);

/// A simple selector matches an element when each part that it has matches:
/// the tag name, the id, and every class.
pub open spec fn simple_selects(elem: &ElementData, selector: &SimpleSelector) -> bool {
    &&& (selector.tag_name matches Some(t) ==> elem.tag_name@ == t@)
    &&& (selector.id matches Some(id) ==> elem.spec_id() == Some(id@))
    &&& forall|k: int|
        0 <= k < selector.class@.len() ==> elem.spec_has_class((#[trigger] selector.class@[k])@)
}

/// Whether the selector matches the element.
pub open spec fn selects(elem: &ElementData, selector: &Selector) -> bool {
    match *selector {
        Selector::Simple(simple) => simple_selects(elem, &simple),
    }
}

/// Whether the simple selector matches the element.
pub fn matches_simple_selector(elem: &ElementData, selector: &SimpleSelector) -> (r: bool)
    ensures
        r == simple_selects(elem, selector),
{
    match &selector.tag_name {
        Some(t) => {
            if elem.tag_name != *t {
                return false;
            }
        },
        None => {},
    }
    match &selector.id {
        Some(id) => {
            match elem.id() {
                Some(own) => {
                    if *own != *id {
                        return false;
                    }
                },
                None => {
                    return false;
                },
            }
        },
        None => {},
    }
    let n: usize = selector.class.len();
    let mut k: usize = 0;
    while k < n
        invariant
            n == selector.class@.len(),
            k <= n,
            forall|q: int| 0 <= q < k ==> elem.spec_has_class((#[trigger] selector.class@[q])@),
        decreases n - k,
    {
        if !elem.has_class(selector.class[k].as_str()) {
            return false;
        }
        k += 1;
    }
    true
}

/// Whether the selector matches the element.
pub fn matches(elem: &ElementData, selector: &Selector) -> (r: bool)
    ensures
        r == selects(elem, selector),
{
    match selector {
        Selector::Simple(simple) => matches_simple_selector(elem, simple),
    }
}

/// The position of the first selector at or after `from` that matches.
pub open spec fn first_match(elem: &ElementData, selectors: Seq<Selector>, from: int) -> Option<int>
    decreases selectors.len() - from,
{
    if from < 0 || from >= selectors.len() {
        None
    } else if selects(elem, &selectors[from]) {
        Some(from)
    } else {
        first_match(elem, selectors, from + 1)
    }
}

/// The weight with which a rule applies to an element: that of the first of
/// its selectors that matches, and `None` where none does.
pub open spec fn rule_rank(elem: &ElementData, rule: &Rule) -> Option<Specificity> {
    match first_match(elem, rule.selectors@, 0) {
        Some(k) => Some(rule.selectors@[k].spec_specificity()),
        None => None,
    }
}

/// A rule applies to an element exactly when one of its selectors matches.
pub proof fn lemma_rule_applies_iff_some_selector_matches(elem: &ElementData, rule: &Rule)
    ensures
        rule_rank(elem, rule) is Some <==> exists|k: int|
            0 <= k < rule.selectors@.len() && selects(elem, &#[trigger] rule.selectors@[k]),
{
    lemma_first_match(elem, rule.selectors@, 0);
}

proof fn lemma_first_match(elem: &ElementData, selectors: Seq<Selector>, from: int)
    requires
        0 <= from,
    ensures
        first_match(elem, selectors, from) is Some <==> exists|k: int|
            from <= k < selectors.len() && selects(elem, &#[trigger] selectors[k]),
    decreases selectors.len() - from,
{
    if from < selectors.len() {
        lemma_first_match(elem, selectors, from + 1);
        if !selects(elem, &selectors[from]) {
            if exists|k: int| from <= k < selectors.len() && selects(elem, &#[trigger] selectors[k]) {
                let k = choose|k: int| from <= k < selectors.len() && selects(elem, &#[trigger] selectors[k]);
                assert(from + 1 <= k);
            }
        }
    }
}

/// The rule with the weight of its first matching selector, or `None` where
/// no selector of the rule matches the element.
pub fn match_rule<'a>(elem: &ElementData, rule: &'a Rule) -> (r: Option<MatchedRule<'a>>)
    ensures
        match r {
            Some(m) => rule_rank(elem, rule) == Some(m.0) && *m.1 == *rule,
            None => rule_rank(elem, rule) is None,
        },
{
    let n: usize = rule.selectors.len();
    let mut k: usize = 0;
    while k < n
        invariant
            n == rule.selectors@.len(),
            k <= n,
            first_match(elem, rule.selectors@, 0) == first_match(elem, rule.selectors@, k as int),
        decreases n - k,
    {
        if matches(elem, &rule.selectors[k]) {
            return Some((rule.selectors[k].specificity(), rule));
        }
        k += 1;
    }
    None
}

/// The matching rules among the first `n` rules, in their order.
pub open spec fn matched<'a>(elem: &ElementData, rules: Seq<Rule>, n: int) -> Seq<MatchedRule<'a>>
    decreases n,
{
    if n <= 0 || n > rules.len() {
        Seq::empty()
    } else {
        match rule_rank(elem, &rules[n - 1]) {
            Some(rank) => matched(elem, rules, n - 1).push((rank, &rules[n - 1])),
            None => matched(elem, rules, n - 1),
        }
    }
}

/// The rules of the style sheet that match the element, in source order,
/// each with its weight.
pub fn matching_rules<'a>(elem: &ElementData, stylesheet: &'a Stylesheet) -> (r: Vec<MatchedRule<'a>>)
    ensures
        r@ == matched(elem, stylesheet.rules@, stylesheet.rules@.len() as int),
{
    let mut found: Vec<MatchedRule<'a>> = Vec::new();
    let n: usize = stylesheet.rules.len();
    let mut i: usize = 0;
    while i < n
        invariant
            n == stylesheet.rules@.len(),
            i <= n,
            found@ == matched(elem, stylesheet.rules@, i as int),
        decreases n - i,
    {
        match match_rule(elem, &stylesheet.rules[i]) {
            Some(m) => {
                found.push(m);
            },
            None => {},
        }
        i += 1;
    }
    found
}

/// Declaration `j` of matched rule `i` sets the property `name`.
pub open spec fn is_candidate(m: Seq<MatchedRule>, name: Seq<char>, i: int, j: int) -> bool {
    &&& 0 <= i < m.len()
    &&& 0 <= j < m[i].1.declarations@.len()
    &&& m[i].1.declarations@[j].name@ == name
}

/// Declaration `(i2, j2)` takes precedence over declaration `(i, j)`: its
/// rule weighs more, or weighs the same and the declaration comes later.
pub open spec fn outranks(m: Seq<MatchedRule>, i2: int, j2: int, i: int, j: int) -> bool {
    specificity_lt(m[i].0, m[i2].0) || (m[i].0 == m[i2].0 && (i < i2 || (i == i2 && j < j2)))
}

/// Declaration `(i, j)` sets `name`, and no declaration that sets `name`
/// takes precedence over it.
pub open spec fn is_winner(m: Seq<MatchedRule>, name: Seq<char>, i: int, j: int) -> bool {
    &&& is_candidate(m, name, i, j)
    &&& forall|i2: int, j2: int| #[trigger]
        is_candidate(m, name, i2, j2) ==> !outranks(m, i2, j2, i, j)
}

/// The cascade: each property that some declaration of a matched rule sets
/// has the value of the declaration that takes precedence over all others.
pub open spec fn cascade(m: Seq<MatchedRule>) -> Map<Seq<char>, Value> {
    Map::new(
        |name: Seq<char>| exists|i: int, j: int| is_candidate(m, name, i, j),
        |name: Seq<char>|
            {
                let (i, j) = choose|i: int, j: int| is_winner(m, name, i, j);
                m[i].1.declarations@[j].value
            },
    )
}

/// Declaration `(i, j)` comes before position `(pi, pj)`.
spec fn before(i: int, j: int, pi: int, pj: int) -> bool {
    i < pi || (i == pi && j < pj)
}

/// Declaration `(i, j)` wins among the declarations before `(pi, pj)`.
spec fn wins_before(m: Seq<MatchedRule>, name: Seq<char>, i: int, j: int, pi: int, pj: int) -> bool {
    &&& is_candidate(m, name, i, j)
    &&& before(i, j, pi, pj)
    &&& forall|i2: int, j2: int|
        (#[trigger] is_candidate(m, name, i2, j2) && before(i2, j2, pi, pj)) ==> !outranks(
            m,
            i2,
            j2,
            i,
            j,
        )
}

/// The state of the cascade after the declarations before `(pi, pj)`.
spec fn applied(
    m: Seq<MatchedRule>,
    values: Map<Seq<char>, Value>,
    ranks: Map<Seq<char>, Specificity>,
    w: Map<Seq<char>, (int, int)>,
    pi: int,
    pj: int,
) -> bool {
    &&& values.dom() =~= w.dom()
    &&& ranks.dom() =~= w.dom()
    &&& forall|name: Seq<char>| #[trigger]
        w.contains_key(name) ==> {
            &&& wins_before(m, name, w[name].0, w[name].1, pi, pj)
            &&& values[name] == m[w[name].0].1.declarations@[w[name].1].value
            &&& ranks[name] == m[w[name].0].0
        }
    &&& forall|name: Seq<char>, i: int, j: int|
        (#[trigger] is_candidate(m, name, i, j) && before(i, j, pi, pj)) ==> w.contains_key(name)
}

/// There is one winner at most.
proof fn lemma_winner_unique(m: Seq<MatchedRule>, name: Seq<char>, i: int, j: int, i2: int, j2: int)
    requires
        is_winner(m, name, i, j),
        is_winner(m, name, i2, j2),
    ensures
        i == i2 && j == j2,
{
}

/// The properties of an element: the cascade over the rules of the style
/// sheet that match it.
pub fn specified_values(elem: &ElementData, stylesheet: &Stylesheet) -> (values: PropertyMap)
    ensures
        values@ == cascade(matched(elem, stylesheet.rules@, stylesheet.rules@.len() as int)),
{
    let rules: Vec<MatchedRule> = matching_rules(elem, stylesheet);
    let mut values: PropertyMap = StringMap::new();
    let mut ranks: StringMap<Specificity> = StringMap::new();
    let ghost m = rules@;
    let ghost mut w: Map<Seq<char>, (int, int)> = Map::empty();
    let n: usize = rules.len();
    let mut i: usize = 0;
    while i < n
        invariant
            rules@ == m,
            n == m.len(),
            i <= n,
            applied(m, values@, ranks@, w, i as int, 0),
        decreases n - i,
    {
        let rank: Specificity = rules[i].0;
        let rule: &Rule = rules[i].1;
        let count: usize = rule.declarations.len();
        let mut j: usize = 0;
        while j < count
            invariant
                rules@ == m,
                n == m.len(),
                i < n,
                rank == m[i as int].0,
                *rule == *m[i as int].1,
                count == rule.declarations@.len(),
                j <= count,
                applied(m, values@, ranks@, w, i as int, j as int),
            decreases count - j,
        {
            let declaration = &rule.declarations[j];
            let ghost name = declaration.name@;
            let ghost w0 = w;
            assert(is_candidate(m, name, i as int, j as int));
            let keep: bool = match ranks.get(declaration.name.as_str()) {
                Some(held) => specificity_less(rank, *held),
                None => false,
            };
            if !keep {
                values.insert(declaration.name.clone(), declaration.value.clone());
                ranks.insert(declaration.name.clone(), rank);
                proof {
                    w = w.insert(name, (i as int, j as int));
                }
            }
            proof {
                assert forall|q: Seq<char>| #[trigger] w.contains_key(q) implies wins_before(
                    m,
                    q,
                    w[q].0,
                    w[q].1,
                    i as int,
                    j + 1,
                ) by {
                    if q != name {
                        assert(w0.contains_key(q));
                        assert(wins_before(m, q, w0[q].0, w0[q].1, i as int, j as int));
                    } else if keep {
                        assert(wins_before(m, q, w0[q].0, w0[q].1, i as int, j as int));
                    } else {
                        if w0.contains_key(q) {
                            assert(wins_before(m, q, w0[q].0, w0[q].1, i as int, j as int));
                        }
                        assert forall|i2: int, j2: int|
                            (#[trigger] is_candidate(m, q, i2, j2) && before(
                                i2,
                                j2,
                                i as int,
                                j + 1,
                            )) implies !outranks(m, i2, j2, i as int, j as int) by {
                            if before(i2, j2, i as int, j as int) {
                                assert(w0.contains_key(q));
                            }
                        }
                    }
                }
                assert(applied(m, values@, ranks@, w, i as int, j + 1));
            }
            j += 1;
        }
        proof {
            assert forall|q: Seq<char>| #[trigger] w.contains_key(q) implies wins_before(
                m,
                q,
                w[q].0,
                w[q].1,
                i + 1,
                0,
            ) by {
                assert(wins_before(m, q, w[q].0, w[q].1, i as int, count as int));
            }
            assert(applied(m, values@, ranks@, w, i + 1, 0));
        }
        i += 1;
    }
    proof {
        let c = cascade(m);
        assert forall|q: Seq<char>| values@.contains_key(q) <==> c.contains_key(q) by {
            if values@.contains_key(q) {
                assert(w.contains_key(q));
                assert(is_candidate(m, q, w[q].0, w[q].1));
            }
            if c.contains_key(q) {
                let (a, b) = choose|a: int, b: int| is_candidate(m, q, a, b);
                assert(is_candidate(m, q, a, b) && before(a, b, n as int, 0));
            }
        }
        assert forall|q: Seq<char>| values@.contains_key(q) implies values@[q] == c[q] by {
            assert(w.contains_key(q));
            assert(wins_before(m, q, w[q].0, w[q].1, n as int, 0));
            assert forall|i2: int, j2: int| #[trigger]
                is_candidate(m, q, i2, j2) implies !outranks(m, i2, j2, w[q].0, w[q].1) by {
                assert(before(i2, j2, n as int, 0));
            }
            assert(is_winner(m, q, w[q].0, w[q].1));
            let (a, b) = choose|a: int, b: int| is_winner(m, q, a, b);
            lemma_winner_unique(m, q, a, b, w[q].0, w[q].1);
        }
        assert(values@ =~= c);
    }
    values
}

/// The declaration that takes precedence over all others gives the
/// property its value.
pub proof fn lemma_winner_is_resolved(m: Seq<MatchedRule>, name: Seq<char>, i: int, j: int)
    requires
        is_winner(m, name, i, j),
    ensures
        cascade(m).contains_key(name),
        cascade(m)[name] == m[i].1.declarations@[j].value,
{
    let (a, b) = choose|a: int, b: int| is_winner(m, name, a, b);
    lemma_winner_unique(m, name, a, b, i, j);
}

/// Where the rule that weighs most sets a property, the property has the
/// value of that rule's last declaration for it, wherever the rule stands
/// among the others.
pub proof fn lemma_higher_specificity_wins(m: Seq<MatchedRule>, name: Seq<char>, i: int, j: int)
    requires
        is_candidate(m, name, i, j),
        forall|i2: int, j2: int| #[trigger]
            is_candidate(m, name, i2, j2) ==> (if i2 == i {
                j2 <= j
            } else {
                specificity_lt(m[i2].0, m[i].0)
            }),
    ensures
        cascade(m).contains_key(name),
        cascade(m)[name] == m[i].1.declarations@[j].value,
{
    lemma_winner_is_resolved(m, name, i, j);
}

/// Where all the rules that set a property weigh the same, the property has
/// the value of the declaration that comes last.
pub proof fn lemma_later_declaration_wins(m: Seq<MatchedRule>, name: Seq<char>, i: int, j: int)
    requires
        is_candidate(m, name, i, j),
        forall|i2: int, j2: int| #[trigger]
            is_candidate(m, name, i2, j2) ==> m[i2].0 == m[i].0 && (i2 < i || (i2 == i && j2
                <= j)),
    ensures
        cascade(m).contains_key(name),
        cascade(m)[name] == m[i].1.declarations@[j].value,
{
    lemma_winner_is_resolved(m, name, i, j);
}

/// Of two rules that match an element with different weights, the heavier
/// one decides a property that it sets, whichever of the two comes first in
/// the style sheet.
pub proof fn lemma_heavier_of_two_rules_wins(
    elem: &ElementData,
    stylesheet: &Stylesheet,
    name: Seq<char>,
    heavy: int,
    j: int,
)
    requires
        stylesheet.rules@.len() == 2,
        0 <= heavy < 2,
        rule_rank(elem, &stylesheet.rules@[heavy]) is Some,
        rule_rank(elem, &stylesheet.rules@[1 - heavy]) is Some,
        specificity_lt(
            rule_rank(elem, &stylesheet.rules@[1 - heavy])->0,
            rule_rank(elem, &stylesheet.rules@[heavy])->0,
        ),
        0 <= j < stylesheet.rules@[heavy].declarations@.len(),
        stylesheet.rules@[heavy].declarations@[j].name@ == name,
        forall|k: int|
            j < k < stylesheet.rules@[heavy].declarations@.len() ==> (
            #[trigger] stylesheet.rules@[heavy].declarations@[k]).name@ != name,
    ensures
        cascade(matched(elem, stylesheet.rules@, 2)).contains_key(name),
        cascade(matched(elem, stylesheet.rules@, 2))[name]
            == stylesheet.rules@[heavy].declarations@[j].value,
{
    reveal_with_fuel(matched, 3);
    let m = matched(elem, stylesheet.rules@, 2);
    assert(m.len() == 2);
    assert(*m[0].1 == stylesheet.rules@[0] && *m[1].1 == stylesheet.rules@[1]);
    assert(is_candidate(m, name, heavy, j));
    lemma_higher_specificity_wins(m, name, heavy, j);
}

/// Of two rules that match an element with the same weight, the one that
/// comes later in the style sheet decides a property that it sets.
pub proof fn lemma_later_of_two_rules_wins(
    elem: &ElementData,
    stylesheet: &Stylesheet,
    name: Seq<char>,
    j: int,
)
    requires
        stylesheet.rules@.len() == 2,
        rule_rank(elem, &stylesheet.rules@[0]) is Some,
        rule_rank(elem, &stylesheet.rules@[0]) == rule_rank(elem, &stylesheet.rules@[1]),
        0 <= j < stylesheet.rules@[1].declarations@.len(),
        stylesheet.rules@[1].declarations@[j].name@ == name,
        forall|k: int|
            j < k < stylesheet.rules@[1].declarations@.len() ==> (
            #[trigger] stylesheet.rules@[1].declarations@[k]).name@ != name,
    ensures
        cascade(matched(elem, stylesheet.rules@, 2)).contains_key(name),
        cascade(matched(elem, stylesheet.rules@, 2))[name]
            == stylesheet.rules@[1].declarations@[j].value,
{
    reveal_with_fuel(matched, 3);
    let m = matched(elem, stylesheet.rules@, 2);
    assert(m.len() == 2);
    assert(*m[0].1 == stylesheet.rules@[0] && *m[1].1 == stylesheet.rules@[1]);
    assert(is_candidate(m, name, 1, j));
    lemma_later_declaration_wins(m, name, 1, j);
}

/// How a node takes part in layout.
#[derive(Clone, Copy, PartialEq, Eq, Debug)]
pub enum Display {
    Inline,
    Block,
    Hidden,
}

/// A node of the document with its resolved properties. The tree of styled
/// nodes has the shape of the document tree.
#[derive(Debug)]
pub struct StyledNode<'a> {
    pub node: &'a Node,
    pub specified_values: PropertyMap,
    pub children: Vec<StyledNode<'a>>,
}

/// The value that a property map gives under `name`, else under `fallback`,
/// else `default`.
pub open spec fn looked_up(
    values: Map<Seq<char>, Value>,
    name: Seq<char>,
    fallback: Seq<char>,
    default: Value,
) -> Value {
    if values.contains_key(name) {
        values[name]
    } else if values.contains_key(fallback) {
        values[fallback]
    } else {
        default
    }
}

/// The display mode that a property map asks for: `block` and `none` by
/// their keywords, `inline` for anything else.
pub open spec fn display_of(values: Map<Seq<char>, Value>) -> Display {
    if values.contains_key("display"@) {
        if values["display"@].is_keyword("block"@) {
            Display::Block
        } else if values["display"@].is_keyword("none"@) {
            Display::Hidden
        } else {
            Display::Inline
        }
    } else {
        Display::Inline
    }
}

impl<'a> StyledNode<'a> {
    /// The value of the property `name`, if it is set.
    pub fn value(&self, name: &str) -> (r: Option<Value>)
        ensures
            r == (if self.specified_values@.contains_key(name@) {
                Some(self.specified_values@[name@])
            } else {
                None
            }),
    {
        match self.specified_values.get(name) {
            Some(v) => Some(v.clone()),
            None => None,
        }
    }

    /// The value of the property `name`, else of `fallback_name`, else
    /// `default`.
    pub fn lookup(&self, name: &str, fallback_name: &str, default: &Value) -> (r: Value)
        ensures
            r == looked_up(self.specified_values@, name@, fallback_name@, *default),
    {
        match self.value(name) {
            Some(v) => v,
            None => match self.value(fallback_name) {
                Some(v) => v,
                None => default.clone(),
            },
        }
    }

    /// The display mode of the node.
    pub fn display(&self) -> (r: Display)
        ensures
            r == display_of(self.specified_values@),
    {
        match self.specified_values.get("display") {
            Some(v) => {
                if v.is_word("block") {
                    Display::Block
                } else if v.is_word("none") {
                    Display::Hidden
                } else {
                    Display::Inline
                }
            },
            None => Display::Inline,
        }
    }
}

/// The properties that a node of the document resolves to: the cascade for
/// an element, nothing for a text node.
pub open spec fn node_values(node: &Node, stylesheet: &Stylesheet) -> Map<Seq<char>, Value> {
    match node.node_type {
        NodeType::Element(elem) => cascade(
            matched(&elem, stylesheet.rules@, stylesheet.rules@.len() as int),
        ),
        NodeType::Text(_) => Map::empty(),
    }
}

/// The styled tree has the shape of the document tree: as many children, at
/// every level.
pub open spec fn same_shape(styled: &StyledNode, node: &Node) -> bool
    decreases styled,
{
    &&& styled.children@.len() == node.children@.len()
    &&& forall|i: int|
        0 <= i < styled.children@.len() ==> same_shape(
            &#[trigger] styled.children@[i],
            &node.children@[i],
        )
}

/// `styled` is the styled tree of the document tree `node` under the style
/// sheet: node by node, it refers to the document node and carries the
/// properties that the node resolves to, and its children are the styled
/// trees of the node's children, in order.
pub open spec fn styles(styled: &StyledNode, node: &Node, stylesheet: &Stylesheet) -> bool
    decreases styled,
{
    &&& *styled.node == *node
    &&& styled.specified_values@ == node_values(node, stylesheet)
    &&& styled.children@.len() == node.children@.len()
    &&& forall|i: int|
        0 <= i < styled.children@.len() ==> styles(
            &#[trigger] styled.children@[i],
            &node.children@[i],
            stylesheet,
        )
}

/// The styled tree of a document tree has the document tree's shape.
pub proof fn lemma_styles_same_shape(styled: &StyledNode, node: &Node, stylesheet: &Stylesheet)
    requires
        styles(styled, node, stylesheet),
    ensures
        same_shape(styled, node),
    decreases styled,
{
    assert forall|i: int| 0 <= i < styled.children@.len() implies same_shape(
        &#[trigger] styled.children@[i],
        &node.children@[i],
    ) by {
        lemma_styles_same_shape(&styled.children@[i], &node.children@[i], stylesheet);
    }
}

/// Resolves the style sheet against the document tree: one styled node for
/// each node of the document, in the same shape.
pub fn style_tree<'a>(root: &'a Node, stylesheet: &'a Stylesheet) -> (styled: StyledNode<'a>)
    ensures
        styles(&styled, root, stylesheet),
        same_shape(&styled, root),
    decreases root,
{
    let values: PropertyMap = match &root.node_type {
        NodeType::Element(elem) => specified_values(elem, stylesheet),
        NodeType::Text(_) => StringMap::new(),
    };
    let mut children: Vec<StyledNode<'a>> = Vec::new();
    let n: usize = root.children.len();
    let mut i: usize = 0;
    while i < n
        invariant
            n == root.children@.len(),
            i <= n,
            children@.len() == i,
            forall|k: int|
                0 <= k < i ==> styles(&#[trigger] children@[k], &root.children@[k], stylesheet),
            forall|k: int| 0 <= k < i ==> same_shape(&#[trigger] children@[k], &root.children@[k]),
        decreases n - i,
    {
        let child: StyledNode<'a> = style_tree(&root.children[i], stylesheet);
        children.push(child);
        i += 1;
    }
    StyledNode { node: root, specified_values: values, children: children }
}

} // verus!
