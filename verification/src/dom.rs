//! The document model: a tree of text and element nodes.

use vstd::prelude::*;
use crate::strmap::StringMap;

verus! {

/// The attributes of an element, by name.
pub type AttrMap = StringMap<String>;

#[derive(Debug)]
pub struct ElementData {
    pub tag_name: String,
    pub attributes: AttrMap,
}

#[derive(Debug)]
pub enum NodeType {
    Text(String),
    Element(ElementData),
}

#[derive(Debug)]
pub struct Node {
    pub children: Vec<Node>,
    pub node_type: NodeType,
}

/// White space: the characters with the Unicode property `White_Space`.
pub open spec fn is_space(c: char) -> bool {
    ('\u{9}' <= c && c <= '\u{D}') || c == ' ' || c == '\u{85}' || c == '\u{A0}' || c == '\u{1680}'
        || ('\u{2000}' <= c && c <= '\u{200A}') || c == '\u{2028}' || c == '\u{2029}' || c
        == '\u{202F}' || c == '\u{205F}' || c == '\u{3000}'
}

/// A token is a non-empty run of characters without white space in it.
pub open spec fn is_token(token: Seq<char>) -> bool {
    token.len() > 0 && forall|j: int| 0 <= j < token.len() ==> !is_space(#[trigger] token[j])
}

/// `token` stands in `list` at position `i`, with white space or an end of
/// the list on either side.
pub open spec fn token_at(list: Seq<char>, token: Seq<char>, i: int) -> bool {
    &&& 0 <= i
    &&& i + token.len() <= list.len()
    &&& list.subrange(i, i + token.len()) == token
    &&& (i == 0 || is_space(list[i - 1]))
    &&& (i + token.len() == list.len() || is_space(list[i + token.len()]))
}

/// `token` is one of the tokens of `list`, which white space separates.
pub open spec fn lists_token(list: Seq<char>, token: Seq<char>) -> bool {
    is_token(token) && exists|i: int| token_at(list, token, i)
}

/// Whether the character is white space.
pub fn is_whitespace(c: char) -> (r: bool)
    ensures
        r == is_space(c),
{
    ('\u{9}' <= c && c <= '\u{D}') || c == ' ' || c == '\u{85}' || c == '\u{A0}' || c == '\u{1680}'
        || ('\u{2000}' <= c && c <= '\u{200A}') || c == '\u{2028}' || c == '\u{2029}' || c
        == '\u{202F}' || c == '\u{205F}' || c == '\u{3000}'
}

/// The characters of a string, one by one.
fn chars_of(s: &str) -> (v: Vec<char>)
    ensures
        v@ == s@,
{
    let n: usize = s.unicode_len();
    let mut v: Vec<char> = Vec::new();
    let mut i: usize = 0;
    while i < n
        invariant
            n == s@.len(),
            i <= n,
            v@ == s@.subrange(0, i as int),
        decreases n - i,
    {
        v.push(s.get_char(i));
        assert(v@ =~= s@.subrange(0, i + 1));
        i += 1;
    }
    assert(v@ =~= s@);
    v
}

fn well_formed_token(token: &Vec<char>) -> (r: bool)
    ensures
        r == is_token(token@),
{
    if token.len() == 0 {
        return false;
    }
    let mut j: usize = 0;
    while j < token.len()
        invariant
            j <= token@.len(),
            forall|t: int| 0 <= t < j ==> !is_space(#[trigger] token@[t]),
        decreases token@.len() - j,
    {
        if is_whitespace(token[j]) {
            return false;
        }
        j += 1;
    }
    true
}

fn token_here(list: &Vec<char>, token: &Vec<char>, i: usize) -> (r: bool)
    requires
        i + token@.len() <= list@.len(),
    ensures
        r == token_at(list@, token@, i as int),
{
    let n: usize = token.len();
    let m: usize = list.len();
    if i > 0 && !is_whitespace(list[i - 1]) {
        return false;
    }
    if i + n < m && !is_whitespace(list[i + n]) {
        return false;
    }
    let mut j: usize = 0;
    while j < n
        invariant
            n == token@.len(),
            m == list@.len(),
            i + n <= m,
            j <= n,
            forall|t: int| 0 <= t < j ==> list@[i + t] == token@[t],
        decreases n - j,
    {
        if list[i + j] != token[j] {
            assert(list@.subrange(i as int, i + n)[j as int] != token@[j as int]);
            return false;
        }
        j += 1;
    }
    assert(list@.subrange(i as int, i + n) =~= token@);
    true
}

/// Whether `token` is one of the tokens of `list`, which white space
/// separates.
pub fn has_token(list: &str, token: &str) -> (r: bool)
    ensures
        r == lists_token(list@, token@),
{
    let l: Vec<char> = chars_of(list);
    let t: Vec<char> = chars_of(token);
    if !well_formed_token(&t) || t.len() > l.len() {
        return false;
    }
    let last: usize = l.len() - t.len();
    let mut i: usize = 0;
    while i <= last
        invariant
            l@ == list@,
            t@ == token@,
            last + t@.len() == l@.len(),
            last < usize::MAX,
            is_token(token@),
            i <= last + 1,
            forall|k: int| 0 <= k < i ==> !token_at(list@, token@, k),
        decreases last + 1 - i,
    {
        if token_here(&l, &t, i) {
            return true;
        }
        i += 1;
    }
    false
}

impl ElementData {
    /// The value of the `id` attribute, where the element has one.
    pub open spec fn spec_id(&self) -> Option<Seq<char>> {
        if self.attributes@.contains_key("id"@) {
            Some(self.attributes@["id"@]@)
        } else {
            None
        }
    }

    /// The value of the `id` attribute, where the element has one.
    pub fn id(&self) -> (r: Option<&String>)
        ensures
            match r {
                Some(s) => self.spec_id() == Some(s@),
                None => self.spec_id() is None,
            },
    {
        self.attributes.get("id")
    }

    /// `class` is one of the tokens of the element's `class` attribute.
    pub open spec fn spec_has_class(&self, class: Seq<char>) -> bool {
        self.attributes@.contains_key("class"@) && lists_token(
            self.attributes@["class"@]@,
            class,
        )
    }

    /// Whether `class` is one of the tokens of the element's `class`
    /// attribute.
    pub fn has_class(&self, class: &str) -> (r: bool)
        ensures
            r == self.spec_has_class(class@),
    {
        match self.attributes.get("class") {
            Some(list) => has_token(list.as_str(), class),
            None => false,
        }
    }
}

/// What a node of the document holds, as a mathematical value: the
/// characters of a text, or the tag name and the attributes of an element.
pub ghost enum Content {
    Text(Seq<char>),
    Element(Seq<char>, Map<Seq<char>, Seq<char>>),
}

/// A document tree as a mathematical value.
pub ghost struct Tree {
    pub content: Content,
    pub children: Seq<Tree>,
}

/// The attributes by name, each value by its characters.
pub open spec fn attr_values(attributes: Map<Seq<char>, String>) -> Map<Seq<char>, Seq<char>> {
    attributes.map_values(|s: String| s@)
}

pub open spec fn content_of(node_type: &NodeType) -> Content {
    match *node_type {
        NodeType::Text(data) => Content::Text(data@),
        NodeType::Element(e) => Content::Element(e.tag_name@, attr_values(e.attributes@)),
    }
}

/// The tree that a node and all below it stand for.
pub open spec fn node_tree(node: &Node) -> Tree
    decreases node,
{
    Tree {
        content: content_of(&node.node_type),
        children: Seq::new(
            node.children@.len(),
            |i: int|
                if 0 <= i < node.children@.len() {
                    node_tree(&node.children@[i])
                } else {
                    Tree { content: Content::Text(Seq::empty()), children: Seq::empty() }
                },
        ),
    }
}

/// The trees of a list of nodes, in order.
pub open spec fn trees(nodes: Seq<Node>) -> Seq<Tree> {
    Seq::new(nodes.len(), |i: int| node_tree(&nodes[i]))
}

impl View for Node {
    type V = Tree;

    open spec fn view(&self) -> Tree {
        node_tree(self)
    }
}

/// A text node, which has no children.
pub fn text(data: String) -> (n: Node)
    ensures
        n.node_type == NodeType::Text(data),
        n.children@.len() == 0,
        n@ == (Tree { content: Content::Text(data@), children: Seq::empty() }),
{
    let n = Node { children: Vec::new(), node_type: NodeType::Text(data) };
    assert(n@.children =~= Seq::empty());
    n
}

/// An element node with the given tag name, attributes and children.
pub fn elem(name: String, attrs: AttrMap, children: Vec<Node>) -> (n: Node)
    ensures
        n.node_type == NodeType::Element(ElementData { tag_name: name, attributes: attrs }),
        n.children == children,
        n@ == (Tree {
            content: Content::Element(name@, attr_values(attrs@)),
            children: trees(children@),
        }),
{
    let n = Node {
        children: children,
        node_type: NodeType::Element(ElementData { tag_name: name, attributes: attrs }),
    };
    assert(n@.children =~= trees(n.children@));
    n
}

} // verus!
