use stylebox::css::{
    specificity_less, Color, Declaration, Rule, Selector, SimpleSelector, Stylesheet, Unit, Value,
};
use stylebox::dom::{
    elem, has_token, is_whitespace, text, AttrMap, ElementData, Node, NodeType,
};
use stylebox::strmap::StringMap;
use stylebox::style::{
    match_rule, matches_simple_selector, matching_rules, specified_values, style_tree,
    Display, StyledNode,
};

fn attrs(pairs: &[(&str, &str)]) -> AttrMap {
    let mut map: AttrMap = StringMap::new();
    for (k, v) in pairs {
        map.insert(k.to_string(), v.to_string());
    }
    map
}

fn element(tag: &str, pairs: &[(&str, &str)]) -> ElementData {
    ElementData { tag_name: tag.to_string(), attributes: attrs(pairs) }
}

fn selector(tag: Option<&str>, id: Option<&str>, classes: &[&str]) -> Selector {
    Selector::Simple(SimpleSelector {
        tag_name: tag.map(|t| t.to_string()),
        id: id.map(|t| t.to_string()),
        class: classes.iter().map(|c| c.to_string()).collect(),
    })
}

fn simple(tag: Option<&str>, id: Option<&str>, classes: &[&str]) -> SimpleSelector {
    match selector(tag, id, classes) {
        Selector::Simple(s) => s,
    }
}

fn decl(name: &str, value: Value) -> Declaration {
    Declaration { name: name.to_string(), value }
}

fn px(n: i64) -> Value {
    Value::Length(n, Unit::Px)
}

fn word(w: &str) -> Value {
    Value::Keyword(w.to_string())
}

fn rule(selectors: Vec<Selector>, declarations: Vec<Declaration>) -> Rule {
    Rule { selectors, declarations }
}

#[test]
fn specificity_counts_ids_classes_and_tags() {
    assert_eq!(selector(None, Some("a"), &[]).specificity(), (1, 0, 0));
    assert_eq!(selector(None, None, &["b", "c"]).specificity(), (0, 2, 0));
    assert_eq!(selector(Some("div"), None, &[]).specificity(), (0, 0, 1));
    assert_eq!(selector(None, None, &[]).specificity(), (0, 0, 0));
    assert_eq!(selector(Some("p"), Some("x"), &["a", "b", "c"]).specificity(), (1, 3, 1));
}

#[test]
fn specificity_is_ordered_lexicographically() {
    let id = selector(None, Some("a"), &[]).specificity();
    let classes = selector(None, None, &["b", "c"]).specificity();
    let tag = selector(Some("div"), None, &[]).specificity();
    let any = selector(None, None, &[]).specificity();
    assert!(specificity_less(classes, id));
    assert!(specificity_less(tag, classes));
    assert!(specificity_less(any, tag));
    assert!(!specificity_less(id, classes));
    assert!(!specificity_less(id, id));
    assert!(id > classes && classes > tag && tag > any);
}

#[test]
fn to_px_is_zero_for_what_is_no_length() {
    assert_eq!(px(12).to_px(), 12);
    assert_eq!(px(-3).to_px(), -3);
    assert_eq!(word("auto").to_px(), 0);
    assert_eq!(Value::ColorValue(Color { r: 1, g: 2, b: 3, a: 255 }).to_px(), 0);
}

#[test]
fn is_word_compares_keywords() {
    assert!(word("auto").is_word("auto"));
    assert!(!word("auto").is_word("aut"));
    assert!(!word("Auto").is_word("auto"));
    assert!(!px(0).is_word("auto"));
}

#[test]
fn value_clone_is_equal() {
    for v in [px(7), word("block"), Value::ColorValue(Color { r: 9, g: 8, b: 7, a: 6 })] {
        assert_eq!(v.clone(), v);
    }
}

#[test]
fn string_map_replaces_on_collision() {
    let mut m: StringMap<i64> = StringMap::new();
    assert_eq!(m.get("a"), None);
    assert!(!m.contains_key("a"));
    m.insert("a".to_string(), 1);
    m.insert("b".to_string(), 2);
    m.insert("a".to_string(), 3);
    assert_eq!(m.get("a"), Some(&3));
    assert_eq!(m.get("b"), Some(&2));
    assert_eq!(m.get("c"), None);
    assert!(m.contains_key("b"));
}

#[test]
fn class_tokens_are_separated_by_whitespace() {
    assert!(has_token("note", "note"));
    assert!(has_token("a note b", "note"));
    assert!(has_token("a\tnote\nb", "note"));
    assert!(has_token("a\u{3000}note\u{a0}b", "note"));
    assert!(!has_token("a\u{200b}note", "note"));
    assert!(has_token("  note", "note"));
    assert!(has_token("note  ", "note"));
    assert!(!has_token("notes", "note"));
    assert!(!has_token("anote", "note"));
    assert!(!has_token("a-note", "note"));
    assert!(!has_token("", "note"));
    assert!(!has_token("a b", ""));
    assert!(!has_token("a b", "a b"));
    assert!(!has_token("no", "note"));
}

#[test]
fn id_and_class_queries() {
    let e = element("div", &[("id", "main"), ("class", "x y")]);
    assert_eq!(e.id(), Some(&"main".to_string()));
    assert!(e.has_class("x"));
    assert!(e.has_class("y"));
    assert!(!e.has_class("x y"));
    assert!(!e.has_class("z"));
    let bare = element("div", &[]);
    assert_eq!(bare.id(), None);
    assert!(!bare.has_class("x"));
}

#[test]
fn id_selector_matches_only_the_exact_id() {
    let e = element("div", &[("id", "a")]);
    assert!(matches_simple_selector(&e, &simple(None, Some("a"), &[])));
    assert!(!matches_simple_selector(&e, &simple(None, Some("ab"), &[])));
    assert!(!matches_simple_selector(&e, &simple(None, Some("A"), &[])));
    let no_id = element("div", &[]);
    assert!(!matches_simple_selector(&no_id, &simple(None, Some("a"), &[])));
}

#[test]
fn class_selector_matches_a_token_of_the_class_attribute() {
    let e = element("p", &[("class", "intro note")]);
    assert!(matches_simple_selector(&e, &simple(None, None, &["note"])));
    assert!(matches_simple_selector(&e, &simple(None, None, &["note", "intro"])));
    assert!(!matches_simple_selector(&e, &simple(None, None, &["note", "other"])));
    assert!(!matches_simple_selector(&e, &simple(None, None, &["not"])));
}

#[test]
fn compound_selector_needs_every_part() {
    let e = element("div", &[("id", "a"), ("class", "b c")]);
    assert!(matches_simple_selector(&e, &simple(Some("div"), Some("a"), &["b", "c"])));
    assert!(!matches_simple_selector(&e, &simple(Some("p"), Some("a"), &["b", "c"])));
    assert!(!matches_simple_selector(&e, &simple(Some("div"), Some("x"), &["b", "c"])));
    assert!(!matches_simple_selector(&e, &simple(Some("div"), Some("a"), &["b", "d"])));
    assert!(matches_simple_selector(&e, &simple(None, None, &[])));
    assert!(stylebox::style::matches(&e, &selector(Some("div"), None, &[])));
    assert!(!stylebox::style::matches(&e, &selector(Some("span"), None, &[])));
}

#[test]
fn rule_matches_with_its_first_matching_selector() {
    let e = element("div", &[("class", "b")]);
    let r = rule(
        vec![selector(None, Some("zz"), &[]), selector(None, None, &["b"]), selector(Some("div"), None, &[])],
        vec![],
    );
    let m = match_rule(&e, &r).expect("the rule matches");
    assert_eq!(m.0, (0, 1, 0));
    let other = rule(vec![selector(Some("p"), None, &[])], vec![]);
    assert!(match_rule(&e, &other).is_none());
    let empty = rule(vec![], vec![]);
    assert!(match_rule(&e, &empty).is_none());
}

#[test]
fn matching_rules_keep_source_order() {
    let e = element("div", &[("class", "b")]);
    let sheet = Stylesheet {
        rules: vec![
            rule(vec![selector(Some("div"), None, &[])], vec![decl("a", px(1))]),
            rule(vec![selector(Some("p"), None, &[])], vec![decl("a", px(2))]),
            rule(vec![selector(None, None, &["b"])], vec![decl("a", px(3))]),
        ],
    };
    let found = matching_rules(&e, &sheet);
    assert_eq!(found.len(), 2);
    assert_eq!(found[0].0, (0, 0, 1));
    assert_eq!(found[0].1.declarations[0].value, px(1));
    assert_eq!(found[1].0, (0, 1, 0));
    assert_eq!(found[1].1.declarations[0].value, px(3));
}

#[test]
fn higher_specificity_wins_in_either_order() {
    let e = element("div", &[("id", "a"), ("class", "b")]);
    let by_id = || rule(vec![selector(None, Some("a"), &[])], vec![decl("width", px(100))]);
    let by_class = || rule(vec![selector(None, None, &["b"])], vec![decl("width", px(50))]);
    let first = Stylesheet { rules: vec![by_id(), by_class()] };
    let second = Stylesheet { rules: vec![by_class(), by_id()] };
    assert_eq!(specified_values(&e, &first).get("width"), Some(&px(100)));
    assert_eq!(specified_values(&e, &second).get("width"), Some(&px(100)));
}

#[test]
fn later_rule_wins_among_equal_specificity() {
    let e = element("div", &[("class", "x y")]);
    let sheet = Stylesheet {
        rules: vec![
            rule(vec![selector(None, None, &["x"])], vec![decl("color", word("red"))]),
            rule(vec![selector(None, None, &["y"])], vec![decl("color", word("blue"))]),
        ],
    };
    assert_eq!(specified_values(&e, &sheet).get("color"), Some(&word("blue")));
    let swapped = Stylesheet {
        rules: vec![
            rule(vec![selector(None, None, &["y"])], vec![decl("color", word("blue"))]),
            rule(vec![selector(None, None, &["x"])], vec![decl("color", word("red"))]),
        ],
    };
    assert_eq!(specified_values(&e, &swapped).get("color"), Some(&word("red")));
}

#[test]
fn later_declaration_wins_within_a_rule() {
    let e = element("div", &[]);
    let sheet = Stylesheet {
        rules: vec![rule(
            vec![selector(Some("div"), None, &[])],
            vec![decl("width", px(1)), decl("height", px(5)), decl("width", px(2))],
        )],
    };
    let values = specified_values(&e, &sheet);
    assert_eq!(values.get("width"), Some(&px(2)));
    assert_eq!(values.get("height"), Some(&px(5)));
    assert_eq!(values.get("margin"), None);
}

#[test]
fn class_rule_overrides_tag_rule_through_the_shorthand() {
    let root = elem("h1".to_string(), attrs(&[("class", "note")]), vec![]);
    let sheet = Stylesheet {
        rules: vec![
            rule(vec![selector(Some("h1"), None, &[])], vec![decl("margin", px(10))]),
            rule(vec![selector(None, None, &["note"])], vec![decl("margin", px(20))]),
        ],
    };
    let styled = style_tree(&root, &sheet);
    let zero = px(0);
    for edge in ["margin-left", "margin-right", "margin-top", "margin-bottom"] {
        assert_eq!(styled.lookup(edge, "margin", &zero), px(20));
    }
    let swapped = Stylesheet {
        rules: vec![
            rule(vec![selector(None, None, &["note"])], vec![decl("margin", px(20))]),
            rule(vec![selector(Some("h1"), None, &[])], vec![decl("margin", px(10))]),
        ],
    };
    let styled = style_tree(&root, &swapped);
    assert_eq!(styled.lookup("margin-top", "margin", &zero), px(20));
}

#[test]
fn lookup_prefers_the_longhand_then_the_shorthand_then_the_default() {
    let root = elem("div".to_string(), attrs(&[]), vec![]);
    let sheet = Stylesheet {
        rules: vec![rule(
            vec![selector(Some("div"), None, &[])],
            vec![decl("margin", px(4)), decl("margin-left", px(9))],
        )],
    };
    let styled = style_tree(&root, &sheet);
    let zero = px(0);
    assert_eq!(styled.lookup("margin-left", "margin", &zero), px(9));
    assert_eq!(styled.lookup("margin-right", "margin", &zero), px(4));
    assert_eq!(styled.lookup("padding-left", "padding", &zero), px(0));
    assert_eq!(styled.value("margin"), Some(px(4)));
    assert_eq!(styled.value("padding"), None);
}

fn displayed(value: Option<Value>) -> Display {
    let root = elem("div".to_string(), attrs(&[]), vec![]);
    let declarations = match value {
        Some(v) => vec![decl("display", v)],
        None => vec![],
    };
    let sheet = Stylesheet { rules: vec![rule(vec![selector(None, None, &[])], declarations)] };
    style_tree(&root, &sheet).display()
}

#[test]
fn display_defaults_to_inline() {
    assert_eq!(displayed(Some(word("block"))), Display::Block);
    assert_eq!(displayed(Some(word("none"))), Display::Hidden);
    assert_eq!(displayed(Some(word("inline"))), Display::Inline);
    assert_eq!(displayed(Some(word("flex"))), Display::Inline);
    assert_eq!(displayed(Some(px(3))), Display::Inline);
    assert_eq!(displayed(None), Display::Inline);
}

fn same_shape(styled: &StyledNode, node: &Node) -> bool {
    styled.children.len() == node.children.len()
        && std::ptr::eq(styled.node, node)
        && styled.children.iter().zip(node.children.iter()).all(|(s, n)| same_shape(s, n))
}

#[test]
fn styled_tree_has_the_shape_of_the_document() {
    let doc = elem(
        "html".to_string(),
        attrs(&[]),
        vec![
            elem(
                "div".to_string(),
                attrs(&[("class", "gone")]),
                vec![text("a".to_string()), elem("p".to_string(), attrs(&[]), vec![])],
            ),
            text("b".to_string()),
            elem("span".to_string(), attrs(&[]), vec![text("c".to_string())]),
        ],
    );
    let sheet = Stylesheet {
        rules: vec![rule(vec![selector(None, None, &["gone"])], vec![decl("display", word("none"))])],
    };
    let styled = style_tree(&doc, &sheet);
    assert!(same_shape(&styled, &doc));
    assert_eq!(styled.children.len(), 3);
    assert_eq!(styled.children[0].children.len(), 2);
    assert_eq!(styled.children[0].display(), Display::Hidden);
    assert_eq!(styled.children[0].value("display"), Some(word("none")));
}

#[test]
fn text_nodes_have_no_properties() {
    let doc = elem("p".to_string(), attrs(&[]), vec![text("hello".to_string())]);
    let sheet = Stylesheet {
        rules: vec![rule(vec![selector(None, None, &[])], vec![decl("color", word("red"))])],
    };
    let styled = style_tree(&doc, &sheet);
    assert_eq!(styled.value("color"), Some(word("red")));
    assert_eq!(styled.children[0].value("color"), None);
    assert!(matches!(styled.children[0].node.node_type, NodeType::Text(_)));
}

#[test]
fn text_and_elem_build_nodes() {
    let t = text("hi".to_string());
    assert!(t.children.is_empty());
    match &t.node_type {
        NodeType::Text(s) => assert_eq!(s, "hi"),
        NodeType::Element(_) => panic!("a text node was asked for"),
    }
    let e = elem("div".to_string(), attrs(&[("id", "x")]), vec![t]);
    assert_eq!(e.children.len(), 1);
    match &e.node_type {
        NodeType::Element(data) => {
            assert_eq!(data.tag_name, "div");
            assert_eq!(data.attributes.get("id"), Some(&"x".to_string()));
        },
        NodeType::Text(_) => panic!("an element was asked for"),
    }
}

#[test]
fn white_space_is_what_the_standard_library_says() {
    for code in 0u32..0x3100 {
        if let Some(c) = char::from_u32(code) {
            assert_eq!(is_whitespace(c), c.is_whitespace(), "{:x}", code);
        }
    }
    assert!(!is_whitespace('\u{feff}'));
}
