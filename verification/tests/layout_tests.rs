use stylebox::css::{Declaration, Rule, Selector, SimpleSelector, Stylesheet, Unit, Value};
use stylebox::dom::{elem, AttrMap, Node};
use stylebox::layout::{
    build_layout_tree, BoxType, Dimensions, EdgeSizes, LayoutBox, LayoutError, Rect,
};
use stylebox::strmap::StringMap;
use stylebox::style::style_tree;

fn node(tag: &str, class: &str, children: Vec<Node>) -> Node {
    let mut attrs: AttrMap = StringMap::new();
    if !class.is_empty() {
        attrs.insert("class".to_string(), class.to_string());
    }
    elem(tag.to_string(), attrs, children)
}

fn px(n: i64) -> Value {
    Value::Length(n, Unit::Px)
}

fn word(w: &str) -> Value {
    Value::Keyword(w.to_string())
}

fn class_rule(class: &str, declarations: Vec<(&str, Value)>) -> Rule {
    Rule {
        selectors: vec![Selector::Simple(SimpleSelector {
            tag_name: None,
            id: None,
            class: vec![class.to_string()],
        })],
        declarations: declarations
            .into_iter()
            .map(|(name, value)| Declaration { name: name.to_string(), value })
            .collect(),
    }
}

fn display_rules() -> Vec<Rule> {
    vec![
        class_rule("block", vec![("display", word("block"))]),
        class_rule("inline", vec![("display", word("inline"))]),
        class_rule("none", vec![("display", word("none"))]),
    ]
}

fn viewport(width: i64) -> Dimensions {
    let mut d = Dimensions::default();
    d.content.width = width;
    d
}

fn kind(b: &LayoutBox) -> &'static str {
    match b.box_type {
        BoxType::BlockNode(_) => "block",
        BoxType::InlineNode(_) => "inline",
        BoxType::AnonymousBlock => "anonymous",
    }
}

fn count_boxes(b: &LayoutBox) -> usize {
    1 + b.children.iter().map(count_boxes).sum::<usize>()
}

/// Lays out one block with the given declarations in a viewport.
fn lay_out_single(declarations: Vec<(&str, Value)>, width: i64) -> Result<Dimensions, LayoutError> {
    let doc = node("div", "block box", vec![]);
    let mut rules = display_rules();
    rules.push(class_rule("box", declarations));
    let sheet = Stylesheet { rules };
    let styled = style_tree(&doc, &sheet);
    let mut root = build_layout_tree(&styled)?;
    root.layout(viewport(width))?;
    Ok(root.dimensions)
}

#[test]
fn default_dimensions_are_zero() {
    let d = Dimensions::default();
    assert_eq!(d.content, Rect { x: 0, y: 0, width: 0, height: 0 });
    assert_eq!(d.padding, EdgeSizes { left: 0, right: 0, top: 0, bottom: 0 });
    assert_eq!(d.border, EdgeSizes::default());
    assert_eq!(d.margin, EdgeSizes::default());
    assert_eq!(Rect::default(), Rect { x: 0, y: 0, width: 0, height: 0 });
}

#[test]
fn expanded_by_grows_outwards() {
    let r = Rect { x: 10, y: 20, width: 100, height: 50 };
    let e = EdgeSizes { left: 1, right: 2, top: 3, bottom: 4 };
    assert_eq!(r.expanded_by(e), Ok(Rect { x: 9, y: 17, width: 103, height: 57 }));
}

#[test]
fn expanded_by_refuses_what_does_not_fit() {
    let r = Rect { x: i64::MIN, y: 0, width: 0, height: 0 };
    let e = EdgeSizes { left: 1, right: 0, top: 0, bottom: 0 };
    assert_eq!(r.expanded_by(e), Err(LayoutError::LengthOverflow));
    let wide = Rect { x: 0, y: 0, width: i64::MAX, height: 0 };
    let back = EdgeSizes { left: 5, right: -5, top: 0, bottom: 0 };
    assert_eq!(wide.expanded_by(back), Ok(Rect { x: -5, y: 0, width: i64::MAX, height: 0 }));
}

#[test]
fn boxes_nest_content_padding_border_margin() {
    let d = Dimensions {
        content: Rect { x: 100, y: 200, width: 30, height: 40 },
        padding: EdgeSizes { left: 1, right: 2, top: 3, bottom: 4 },
        border: EdgeSizes { left: 10, right: 20, top: 30, bottom: 40 },
        margin: EdgeSizes { left: 5, right: 6, top: 7, bottom: 8 },
    };
    assert_eq!(d.padding_box(), Ok(Rect { x: 99, y: 197, width: 33, height: 47 }));
    assert_eq!(d.border_box(), Ok(Rect { x: 89, y: 167, width: 63, height: 117 }));
    assert_eq!(d.margin_box(), Ok(Rect { x: 84, y: 160, width: 74, height: 132 }));
}

#[test]
fn border_box_fits_where_the_padding_box_would_not() {
    let d = Dimensions {
        content: Rect { x: 0, y: 0, width: i64::MAX, height: 0 },
        padding: EdgeSizes { left: 0, right: 1, top: 0, bottom: 0 },
        border: EdgeSizes { left: 0, right: -1, top: 0, bottom: 0 },
        margin: EdgeSizes::default(),
    };
    assert_eq!(d.padding_box(), Err(LayoutError::LengthOverflow));
    assert_eq!(d.border_box(), Ok(Rect { x: 0, y: 0, width: i64::MAX, height: 0 }));
    assert_eq!(d.margin_box(), Ok(Rect { x: 0, y: 0, width: i64::MAX, height: 0 }));
}

#[test]
fn new_box_is_empty_and_zero() {
    let b = LayoutBox::new(BoxType::AnonymousBlock);
    assert_eq!(b.dimensions, Dimensions::default());
    assert!(b.children.is_empty());
    assert_eq!(kind(&b), "anonymous");
}

#[test]
fn anonymous_block_has_no_style_node() {
    let b = LayoutBox::new(BoxType::AnonymousBlock);
    assert_eq!(b.get_style_node().err(), Some(LayoutError::AnonymousBoxStyleAccess));
    let doc = node("div", "block", vec![]);
    let sheet = Stylesheet { rules: display_rules() };
    let styled = style_tree(&doc, &sheet);
    let block = LayoutBox::new(BoxType::BlockNode(&styled));
    assert!(std::ptr::eq(block.get_style_node().unwrap(), &styled));
    let inline = LayoutBox::new(BoxType::InlineNode(&styled));
    assert!(std::ptr::eq(inline.get_style_node().unwrap(), &styled));
}

#[test]
fn root_that_is_not_displayed_is_refused() {
    let doc = node("div", "none", vec![node("p", "block", vec![])]);
    let sheet = Stylesheet { rules: display_rules() };
    let styled = style_tree(&doc, &sheet);
    assert_eq!(build_layout_tree(&styled).err(), Some(LayoutError::RootDisplayNone));
}

#[test]
fn root_box_type_follows_display() {
    let sheet = Stylesheet { rules: display_rules() };
    let block = node("div", "block", vec![]);
    let styled = style_tree(&block, &sheet);
    assert_eq!(kind(&build_layout_tree(&styled).unwrap()), "block");
    let inline = node("span", "", vec![]);
    let styled = style_tree(&inline, &sheet);
    let b = build_layout_tree(&styled).unwrap();
    assert_eq!(kind(&b), "inline");
    assert_eq!(b.dimensions, Dimensions::default());
}

#[test]
fn inline_runs_share_one_anonymous_block() {
    let doc = node(
        "div",
        "block",
        vec![
            node("a", "inline", vec![]),
            node("b", "inline", vec![]),
            node("p", "block", vec![]),
            node("c", "inline", vec![]),
        ],
    );
    let sheet = Stylesheet { rules: display_rules() };
    let styled = style_tree(&doc, &sheet);
    let root = build_layout_tree(&styled).unwrap();
    let kinds: Vec<&str> = root.children.iter().map(kind).collect();
    assert_eq!(kinds, vec!["anonymous", "block", "anonymous"]);
    assert_eq!(root.children.iter().filter(|c| kind(c) == "anonymous").count(), 2);
    assert_eq!(root.children[0].children.len(), 2);
    assert_eq!(kind(&root.children[0].children[0]), "inline");
    assert_eq!(kind(&root.children[0].children[1]), "inline");
    assert!(std::ptr::eq(root.children[0].children[0].get_style_node().unwrap(), &styled.children[0]));
    assert!(std::ptr::eq(root.children[0].children[1].get_style_node().unwrap(), &styled.children[1]));
    assert!(std::ptr::eq(root.children[1].get_style_node().unwrap(), &styled.children[2]));
    assert_eq!(root.children[2].children.len(), 1);
    assert!(std::ptr::eq(root.children[2].children[0].get_style_node().unwrap(), &styled.children[3]));
}

#[test]
fn hidden_node_does_not_end_an_inline_run() {
    let doc = node(
        "div",
        "block",
        vec![node("a", "inline", vec![]), node("x", "none", vec![]), node("b", "inline", vec![])],
    );
    let sheet = Stylesheet { rules: display_rules() };
    let styled = style_tree(&doc, &sheet);
    let root = build_layout_tree(&styled).unwrap();
    assert_eq!(root.children.len(), 1);
    assert_eq!(kind(&root.children[0]), "anonymous");
    assert_eq!(root.children[0].children.len(), 2);
}

#[test]
fn inline_parent_takes_children_directly() {
    let doc = node(
        "span",
        "inline",
        vec![node("a", "inline", vec![]), node("p", "block", vec![]), node("b", "", vec![])],
    );
    let sheet = Stylesheet { rules: display_rules() };
    let styled = style_tree(&doc, &sheet);
    let root = build_layout_tree(&styled).unwrap();
    let kinds: Vec<&str> = root.children.iter().map(kind).collect();
    assert_eq!(kinds, vec!["inline", "block", "inline"]);
}

#[test]
fn hidden_subtree_gives_no_boxes() {
    let doc = node(
        "div",
        "block",
        vec![
            node("p", "block", vec![]),
            node("section", "none", vec![node("p", "block", vec![node("i", "inline", vec![])])]),
            node("q", "block", vec![]),
        ],
    );
    let sheet = Stylesheet { rules: display_rules() };
    let styled = style_tree(&doc, &sheet);
    assert_eq!(styled.children.len(), 3);
    assert_eq!(styled.children[1].children.len(), 1);
    assert_eq!(styled.children[1].children[0].value("display"), Some(word("block")));
    let root = build_layout_tree(&styled).unwrap();
    assert_eq!(count_boxes(&root), 3);
    assert_eq!(root.children.len(), 2);
    assert!(std::ptr::eq(root.children[0].get_style_node().unwrap(), &styled.children[0]));
    assert!(std::ptr::eq(root.children[1].get_style_node().unwrap(), &styled.children[2]));
}

#[test]
fn inline_container_is_reused() {
    let doc = node("div", "block", vec![]);
    let sheet = Stylesheet { rules: display_rules() };
    let styled = style_tree(&doc, &sheet);
    let mut root = LayoutBox::new(BoxType::BlockNode(&styled));
    assert_eq!(kind(root.get_inline_container()), "anonymous");
    assert_eq!(root.children.len(), 1);
    root.get_inline_container().children.push(LayoutBox::new(BoxType::InlineNode(&styled)));
    assert_eq!(root.children.len(), 1);
    assert_eq!(root.children[0].children.len(), 1);
    root.children.push(LayoutBox::new(BoxType::BlockNode(&styled)));
    root.get_inline_container();
    assert_eq!(root.children.len(), 3);
    let mut inline = LayoutBox::new(BoxType::InlineNode(&styled));
    assert_eq!(kind(inline.get_inline_container()), "inline");
    assert!(inline.children.is_empty());
    let mut anonymous = LayoutBox::new(BoxType::AnonymousBlock);
    assert_eq!(kind(anonymous.get_inline_container()), "anonymous");
    assert!(anonymous.children.is_empty());
}

#[test]
fn auto_width_takes_the_rest() {
    let d = lay_out_single(
        vec![("margin", px(10)), ("padding", px(5)), ("border-width", px(1))],
        200,
    )
    .unwrap();
    assert_eq!(d.content.width, 200 - 2 * (10 + 5 + 1));
    assert_eq!(d.margin.left, 10);
    assert_eq!(d.margin.right, 10);
    assert_eq!(d.padding.left, 5);
    assert_eq!(d.padding.right, 5);
    assert_eq!(d.border.left, 1);
    assert_eq!(d.border.right, 1);
    assert_eq!(d.content.x, 16);
    assert_eq!(d.content.y, 16);
    assert_eq!(d.margin_box().unwrap().width, 200);
}

#[test]
fn auto_width_treats_auto_margins_as_zero() {
    let d = lay_out_single(vec![("width", word("auto")), ("margin", word("auto"))], 300).unwrap();
    assert_eq!(d.content.width, 300);
    assert_eq!(d.margin.left, 0);
    assert_eq!(d.margin.right, 0);
    assert_eq!(d.margin.top, 0);
    assert_eq!(d.margin.bottom, 0);
}

#[test]
fn two_auto_margins_share_the_rest() {
    let d = lay_out_single(vec![("width", px(100)), ("margin", word("auto"))], 300).unwrap();
    assert_eq!(d.content.width, 100);
    assert_eq!(d.margin.left, 100);
    assert_eq!(d.margin.right, 100);
    assert_eq!(d.content.x, 100);
    let odd = lay_out_single(vec![("width", px(100)), ("margin", word("auto"))], 301).unwrap();
    assert_eq!(odd.margin.left, 100);
    assert_eq!(odd.margin.right, 101);
}

#[test]
fn one_auto_margin_takes_the_rest() {
    let d = lay_out_single(
        vec![("width", px(100)), ("margin-left", word("auto")), ("margin-right", px(20))],
        300,
    )
    .unwrap();
    assert_eq!((d.margin.left, d.content.width, d.margin.right), (180, 100, 20));
    let d = lay_out_single(
        vec![("width", px(100)), ("margin-left", px(20)), ("margin-right", word("auto"))],
        300,
    )
    .unwrap();
    assert_eq!((d.margin.left, d.content.width, d.margin.right), (20, 100, 180));
}

#[test]
fn given_width_and_margins_are_kept_where_they_fit() {
    let d = lay_out_single(
        vec![("width", px(100)), ("margin-left", px(20)), ("margin-right", px(30))],
        300,
    )
    .unwrap();
    assert_eq!((d.margin.left, d.content.width, d.margin.right), (20, 100, 30));
}

#[test]
fn excess_goes_to_an_auto_right_margin() {
    let d = lay_out_single(
        vec![("width", px(400)), ("margin-left", px(10)), ("margin-right", word("auto"))],
        300,
    )
    .unwrap();
    assert_eq!((d.margin.left, d.content.width, d.margin.right), (10, 400, -110));
    let both = lay_out_single(vec![("width", px(400)), ("margin", word("auto"))], 300).unwrap();
    assert_eq!((both.margin.left, both.content.width, both.margin.right), (0, 400, -100));
}

#[test]
fn excess_goes_to_the_width_otherwise() {
    let d = lay_out_single(
        vec![("width", px(400)), ("margin-left", px(10)), ("margin-right", px(20))],
        300,
    )
    .unwrap();
    assert_eq!((d.margin.left, d.content.width, d.margin.right), (10, 270, 20));
    let auto_left = lay_out_single(
        vec![("width", px(400)), ("margin-left", word("auto")), ("margin-right", px(20))],
        300,
    )
    .unwrap();
    assert_eq!((auto_left.margin.left, auto_left.content.width, auto_left.margin.right), (0, 280, 20));
    let negative = lay_out_single(vec![("padding", px(200))], 300).unwrap();
    assert_eq!(negative.content.width, -100);
}

#[test]
fn explicit_height_overrides_the_children() {
    let doc = node(
        "div",
        "block tall",
        vec![node("p", "block child", vec![]), node("p", "block child", vec![])],
    );
    let mut rules = display_rules();
    rules.push(class_rule("tall", vec![("height", px(30))]));
    rules.push(class_rule("child", vec![("height", px(100))]));
    let sheet = Stylesheet { rules };
    let styled = style_tree(&doc, &sheet);
    let mut root = build_layout_tree(&styled).unwrap();
    assert_eq!(root.layout(viewport(500)), Ok(()));
    assert_eq!(root.dimensions.content.height, 30);
    assert_eq!(root.children[0].dimensions.content.height, 100);
    assert_eq!(root.children[1].dimensions.content.y, 100);
    let empty = lay_out_single(vec![("height", px(77))], 100).unwrap();
    assert_eq!(empty.content.height, 77);
}

#[test]
fn auto_height_is_the_sum_of_the_children() {
    let doc = node(
        "div",
        "block",
        vec![
            node("p", "block a", vec![]),
            node("p", "block b", vec![node("i", "block a", vec![])]),
            node("p", "block c", vec![]),
        ],
    );
    let mut rules = display_rules();
    rules.push(class_rule("a", vec![("height", px(10)), ("margin", px(1)), ("padding", px(2))]));
    rules.push(class_rule("b", vec![("border-width", px(3)), ("height", word("auto"))]));
    rules.push(class_rule("c", vec![("height", px(5)), ("margin-top", px(7))]));
    let sheet = Stylesheet { rules };
    let styled = style_tree(&doc, &sheet);
    let mut root = build_layout_tree(&styled).unwrap();
    assert_eq!(root.layout(viewport(500)), Ok(()));
    let heights: Vec<i64> =
        root.children.iter().map(|c| c.dimensions.margin_box().unwrap().height).collect();
    assert_eq!(heights, vec![16, 22, 12]);
    assert_eq!(root.dimensions.content.height, 50);
    assert_eq!(root.children[1].dimensions.content.height, 16);
    assert_eq!(root.children[1].children[0].dimensions.content.y, 16 + 3 + 1 + 2);
}

#[test]
fn siblings_stack_without_overlap() {
    let doc = node(
        "div",
        "block",
        vec![
            node("p", "block a", vec![]),
            node("p", "block b", vec![]),
            node("p", "block a", vec![]),
        ],
    );
    let mut rules = display_rules();
    rules.push(class_rule("a", vec![("height", px(10)), ("margin", px(4)), ("padding", px(2))]));
    rules.push(class_rule("b", vec![("height", px(20)), ("border-width", px(3))]));
    let sheet = Stylesheet { rules };
    let styled = style_tree(&doc, &sheet);
    let mut root = build_layout_tree(&styled).unwrap();
    let mut start = viewport(200);
    start.content.x = 7;
    start.content.y = 11;
    assert_eq!(root.layout(start), Ok(()));
    for pair in root.children.windows(2) {
        let first = pair[0].dimensions.margin_box().unwrap();
        let second = pair[1].dimensions.margin_box().unwrap();
        assert_eq!(second.y, first.y + first.height);
        assert!(pair[1].dimensions.content.y >= first.y + first.height);
    }
    assert_eq!(root.dimensions.content.y, 11);
    assert_eq!(root.dimensions.content.x, 7);
    assert_eq!(root.children[0].dimensions.content.y, 11 + 6);
    assert_eq!(root.children[0].dimensions.content.x, 7 + 6);
    assert_eq!(root.children[1].dimensions.content.y, 11 + 22 + 3);
    assert_eq!(root.children[2].dimensions.content.y, 11 + 22 + 26 + 6);
    assert_eq!(root.children[1].dimensions.content.width, 200 - 6);
}

#[test]
fn box_is_placed_below_what_the_containing_block_holds() {
    let doc = node("div", "block", vec![]);
    let sheet = Stylesheet { rules: display_rules() };
    let styled = style_tree(&doc, &sheet);
    let mut root = build_layout_tree(&styled).unwrap();
    let mut start = viewport(100);
    start.content.y = 5;
    start.content.height = 40;
    assert_eq!(root.layout(start), Ok(()));
    assert_eq!(root.dimensions.content.y, 45);
    assert_eq!(root.dimensions.content.width, 100);
    assert_eq!(root.dimensions.content.height, 0);
}

#[test]
fn inline_and_anonymous_boxes_are_left_as_they_are() {
    let doc = node("div", "block", vec![node("a", "inline w", vec![node("p", "block w", vec![])])]);
    let mut rules = display_rules();
    rules.push(class_rule("w", vec![("height", px(10)), ("margin", px(3))]));
    let sheet = Stylesheet { rules };
    let styled = style_tree(&doc, &sheet);
    let mut root = build_layout_tree(&styled).unwrap();
    assert_eq!(root.layout(viewport(100)), Ok(()));
    assert_eq!(root.dimensions.content.height, 0);
    let anonymous = &root.children[0];
    assert_eq!(anonymous.dimensions, Dimensions::default());
    assert_eq!(anonymous.children[0].dimensions, Dimensions::default());
    assert_eq!(anonymous.children[0].children[0].dimensions, Dimensions::default());
    let inline_doc = node("span", "", vec![]);
    let styled = style_tree(&inline_doc, &sheet);
    let mut inline_root = build_layout_tree(&styled).unwrap();
    assert_eq!(inline_root.layout(viewport(100)), Ok(()));
    assert_eq!(inline_root.dimensions, Dimensions::default());
}

#[test]
fn layout_refuses_lengths_that_do_not_fit() {
    let wide = lay_out_single(vec![("margin-left", px(i64::MIN))], i64::MAX);
    assert_eq!(wide.err(), Some(LayoutError::LengthOverflow));
    let low = lay_out_single(vec![("margin-top", px(i64::MAX)), ("padding-top", px(1))], 10);
    assert_eq!(low.err(), Some(LayoutError::LengthOverflow));
    let doc = node(
        "div",
        "block",
        vec![node("p", "block huge", vec![]), node("p", "block huge", vec![])],
    );
    let mut rules = display_rules();
    rules.push(class_rule("huge", vec![("height", px(i64::MAX))]));
    let sheet = Stylesheet { rules };
    let styled = style_tree(&doc, &sheet);
    let mut root = build_layout_tree(&styled).unwrap();
    assert_eq!(root.layout(viewport(10)), Err(LayoutError::LengthOverflow));
    let fine = lay_out_single(vec![("height", px(i64::MAX))], 10).unwrap();
    assert_eq!(fine.content.height, i64::MAX);
}
