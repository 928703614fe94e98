//! A parser for a small subset of HTML: elements with quoted attributes,
//! and text.
//!
//! The grammar is stated by the spec functions of this module, which read a
//! sequence of characters from a position and give what was read and the
//! position after it, or `None` where the input is malformed.

use vstd::prelude::*;
use crate::dom::{attr_values, elem, text, trees, AttrMap, Content, Node, Tree};
use crate::parser::{has_prefix_at, lemma_run_end_bounds, run_end, CharClass};
pub use crate::parser::{ParseError, Parser};
use crate::strmap::StringMap;

verus! {

/// A quoted attribute value at `pos`: a quote, the characters up to the
/// next quote of the same kind, and that quote.
pub open spec fn attr_value_at(input: Seq<char>, pos: int) -> Option<(Seq<char>, int)> {
    if 0 <= pos < input.len() && (input[pos] == '"' || input[pos] == '\'') {
        let end = run_end(input, pos + 1, CharClass::Until(input[pos]));
        if end < input.len() {
            Some((input.subrange(pos + 1, end), end + 1))
        } else {
            None
        }
    } else {
        None
    }
}

/// An attribute at `pos`: a name, `=`, and a quoted value.
pub open spec fn attr_at(input: Seq<char>, pos: int) -> Option<(Seq<char>, Seq<char>, int)> {
    let end = run_end(input, pos, CharClass::Name);
    if 0 <= pos <= end < input.len() && input[end] == '=' {
        match attr_value_at(input, end + 1) {
            Some((value, next)) => Some((input.subrange(pos, end), value, next)),
            None => None,
        }
    } else {
        None
    }
}

/// The attributes from `pos` up to the `>` that ends the tag, added to
/// `found`; of two attributes with one name the later one stays. The
/// position given is that of the `>`.
pub open spec fn attrs_from(input: Seq<char>, pos: int, found: Map<Seq<char>, Seq<char>>) -> Option<
    (Map<Seq<char>, Seq<char>>, int),
>
    decreases input.len() - pos,
{
    let start = run_end(input, pos, CharClass::Space);
    if start < pos || start >= input.len() {
        None
    } else if input[start] == '>' {
        Some((found, start))
    } else {
        match attr_at(input, start) {
            Some((name, value, next)) => if next <= start || next > input.len() {
                None
            } else {
                attrs_from(input, next, found.insert(name, value))
            },
            None => None,
        }
    }
}

/// An element at `pos`: the opening tag with its attributes, the nodes
/// inside, and the closing tag of the same name.
pub open spec fn element_at(input: Seq<char>, pos: int) -> Option<(Tree, int)>
    decreases input.len() - pos, 0int,
{
    if 0 <= pos < input.len() && input[pos] == '<' {
        let name_end = run_end(input, pos + 1, CharClass::Name);
        let name = input.subrange(pos + 1, name_end);
        match attrs_from(input, name_end, Map::empty()) {
            Some((attributes, close)) => if close < pos || close >= input.len() {
                None
            } else {
                match nodes_from(input, close + 1, Seq::empty()) {
                    Some((children, end)) => {
                        let closing_end = run_end(input, end + 2, CharClass::Name);
                        if 0 <= end && end + 1 < input.len() && input[end] == '<' && input[end + 1]
                            == '/' && input.subrange(end + 2, closing_end) == name && closing_end
                            < input.len() && input[closing_end] == '>' {
                            Some(
                                (
                                    Tree {
                                        content: Content::Element(name, attributes),
                                        children: children,
                                    },
                                    closing_end + 1,
                                ),
                            )
                        } else {
                            None
                        }
                    },
                    None => None,
                }
            },
            None => None,
        }
    } else {
        None
    }
}

/// A node at `pos`, which is not the end of the input: an element where a
/// `<` stands, else the text up to the next `<`.
pub open spec fn node_at(input: Seq<char>, pos: int) -> Option<(Tree, int)>
    decreases input.len() - pos, 1int,
{
    if 0 <= pos < input.len() {
        if input[pos] == '<' {
            element_at(input, pos)
        } else {
            let end = run_end(input, pos, CharClass::Text);
            Some(
                (
                    Tree {
                        content: Content::Text(input.subrange(pos, end)),
                        children: Seq::empty(),
                    },
                    end,
                ),
            )
        }
    } else {
        None
    }
}

/// The nodes from `pos` up to the end of the input or to a closing tag,
/// added to `found`. Whitespace before a node is skipped.
pub open spec fn nodes_from(input: Seq<char>, pos: int, found: Seq<Tree>) -> Option<(Seq<Tree>, int)>
    decreases input.len() - pos, 2int,
{
    let start = run_end(input, pos, CharClass::Space);
    if start < pos {
        None
    } else if start >= input.len() || has_prefix_at(input, start, "</"@) {
        Some((found, start))
    } else {
        match node_at(input, start) {
            Some((node, next)) => if next <= start || next > input.len() {
                None
            } else {
                nodes_from(input, next, found.push(node))
            },
            None => None,
        }
    }
}

/// The document that the input holds: its one node, or an `html` element
/// around its nodes where there are none or several.
pub open spec fn document(input: Seq<char>) -> Option<Tree> {
    match nodes_from(input, 0, Seq::empty()) {
        Some((nodes, _)) => if nodes.len() == 1 {
            Some(nodes[0])
        } else {
            Some(Tree { content: Content::Element("html"@, Map::empty()), children: nodes })
        },
        None => None,
    }
}

impl Parser {
    /// Parses a document.
    pub fn parse(source: String) -> (r: Result<Node, ParseError>)
        ensures
            match r {
                Ok(node) => document(source@) == Some(node@),
                Err(_) => document(source@) is None,
            },
    {
        let mut parser = Parser { pos: 0, input: source };
        let mut nodes: Vec<Node> = parser.parse_nodes()?;
        let ghost found = trees(nodes@);
        if nodes.len() == 1 {
            assert(found[0] == nodes@[0]@);
            let node: Node = nodes.swap_remove(0);
            Ok(node)
        } else {
            let attributes: AttrMap = StringMap::new();
            assert(attr_values(attributes@) =~= Map::empty());
            Ok(elem("html".to_owned(), attributes, nodes))
        }
    }

    /// Reads a tag or attribute name: letters and digits.
    fn parse_tag_name(&mut self) -> (r: String)
        ensures
            final(self).input == old(self).input,
            final(self).pos == run_end(old(self).input@, old(self).pos as int, CharClass::Name),
            final(self).pos >= old(self).pos,
            old(self).pos <= old(self).input@.len() ==> final(self).pos <= old(self).input@.len()
                && r@ == old(self).input@.subrange(old(self).pos as int, final(self).pos as int),
    {
        self.consume_while(CharClass::Name)
    }

    /// Reads a text node: all up to the next `<`.
    fn parse_text(&mut self) -> (r: Node)
        requires
            old(self).pos < old(self).input@.len(),
            old(self).input@[old(self).pos as int] != '<',
        ensures
            final(self).input == old(self).input,
            final(self).pos > old(self).pos,
            final(self).pos <= old(self).input@.len(),
            node_at(old(self).input@, old(self).pos as int) == Some((r@, final(self).pos as int)),
    {
        proof {
            lemma_run_end_bounds(self.input@, self.pos as int, CharClass::Text);
        }
        text(self.consume_while(CharClass::Text))
    }

    /// Reads a quoted attribute value.
    fn parse_attr_value(&mut self) -> (r: Result<String, ParseError>)
        ensures
            final(self).input == old(self).input,
            match r {
                Ok(value) => attr_value_at(old(self).input@, old(self).pos as int) == Some(
                    (value@, final(self).pos as int),
                ) && final(self).pos > old(self).pos && final(self).pos <= old(self).input@.len(),
                Err(_) => attr_value_at(old(self).input@, old(self).pos as int) is None,
            },
    {
        if self.eof() {
            return Err(ParseError::Malformed);
        }
        let open_quote: char = self.consume_char();
        if !(open_quote == '"' || open_quote == '\'') {
            return Err(ParseError::Malformed);
        }
        proof {
            lemma_run_end_bounds(self.input@, self.pos as int, CharClass::Until(open_quote));
        }
        let value: String = self.consume_while(CharClass::Until(open_quote));
        self.expect(open_quote)?;
        Ok(value)
    }

    /// Reads an attribute: a name, `=`, and a quoted value.
    fn parse_attr(&mut self) -> (r: Result<(String, String), ParseError>)
        requires
            old(self).pos <= old(self).input@.len(),
        ensures
            final(self).input == old(self).input,
            match r {
                Ok(pair) => attr_at(old(self).input@, old(self).pos as int) == Some(
                    (pair.0@, pair.1@, final(self).pos as int),
                ) && final(self).pos > old(self).pos && final(self).pos <= old(self).input@.len(),
                Err(_) => attr_at(old(self).input@, old(self).pos as int) is None,
            },
    {
        let name: String = self.parse_tag_name();
        self.expect('=')?;
        let value: String = self.parse_attr_value()?;
        Ok((name, value))
    }

    /// Reads the attributes of a tag, up to its `>`.
    fn parse_attributes(&mut self) -> (r: Result<AttrMap, ParseError>)
        requires
            old(self).pos <= old(self).input@.len(),
        ensures
            final(self).input == old(self).input,
            match r {
                Ok(attributes) => attrs_from(old(self).input@, old(self).pos as int, Map::empty())
                    == Some((attr_values(attributes@), final(self).pos as int)) && final(self).pos
                    >= old(self).pos && final(self).pos < old(self).input@.len() && old(self).input@[final(self).pos as int] == '>',
                Err(_) => attrs_from(old(self).input@, old(self).pos as int, Map::empty()) is None,
            },
    {
        let mut attributes: AttrMap = StringMap::new();
        let ghost input = self.input@;
        let ghost start = self.pos as int;
        assert(attr_values(attributes@) =~= Map::empty());
        loop
            invariant
                self.input == old(self).input,
                input == self.input@,
                start == old(self).pos,
                start <= self.pos <= input.len(),
                attrs_from(input, start, Map::empty()) == attrs_from(
                    input,
                    self.pos as int,
                    attr_values(attributes@),
                ),
            decreases input.len() - self.pos,
        {
            let ghost found = attr_values(attributes@);
            self.consume_whitespace();
            if self.eof() {
                return Err(ParseError::Malformed);
            }
            if self.next_char() == '>' {
                return Ok(attributes);
            }
            let (name, value) = self.parse_attr()?;
            attributes.insert(name, value);
            assert(attr_values(attributes@) =~= found.insert(name@, value@));
        }
    }

    /// Reads an element: the opening tag, the nodes inside, and the closing
    /// tag.
    fn parse_element(&mut self) -> (r: Result<Node, ParseError>)
        requires
            old(self).pos < old(self).input@.len(),
        ensures
            final(self).input == old(self).input,
            match r {
                Ok(node) => element_at(old(self).input@, old(self).pos as int) == Some(
                    (node@, final(self).pos as int),
                ) && final(self).pos > old(self).pos && final(self).pos <= old(self).input@.len(),
                Err(_) => element_at(old(self).input@, old(self).pos as int) is None,
            },
        decreases old(self).input@.len() - old(self).pos, 0int,
    {
        self.expect('<')?;
        proof {
            lemma_run_end_bounds(self.input@, self.pos as int, CharClass::Name);
        }
        let tag_name: String = self.parse_tag_name();
        let attrs: AttrMap = self.parse_attributes()?;
        self.expect('>')?;
        let children: Vec<Node> = self.parse_nodes()?;
        self.expect('<')?;
        self.expect('/')?;
        proof {
            lemma_run_end_bounds(self.input@, self.pos as int, CharClass::Name);
        }
        let closing: String = self.parse_tag_name();
        if closing != tag_name {
            return Err(ParseError::Malformed);
        }
        self.expect('>')?;
        Ok(elem(tag_name, attrs, children))
    }

    /// Reads one node: an element or a text.
    fn parse_node(&mut self) -> (r: Result<Node, ParseError>)
        requires
            old(self).pos < old(self).input@.len(),
        ensures
            final(self).input == old(self).input,
            match r {
                Ok(node) => node_at(old(self).input@, old(self).pos as int) == Some(
                    (node@, final(self).pos as int),
                ) && final(self).pos > old(self).pos && final(self).pos <= old(self).input@.len(),
                Err(_) => node_at(old(self).input@, old(self).pos as int) is None,
            },
        decreases old(self).input@.len() - old(self).pos, 1int,
    {
        if self.next_char() == '<' {
            self.parse_element()
        } else {
            Ok(self.parse_text())
        }
    }

    /// Reads nodes up to the end of the input or to a closing tag.
    fn parse_nodes(&mut self) -> (r: Result<Vec<Node>, ParseError>)
        requires
            old(self).pos <= old(self).input@.len(),
        ensures
            final(self).input == old(self).input,
            match r {
                Ok(nodes) => nodes_from(old(self).input@, old(self).pos as int, Seq::empty())
                    == Some((trees(nodes@), final(self).pos as int)) && final(self).pos >= old(self).pos && final(self).pos <= old(self).input@.len(),
                Err(_) => nodes_from(old(self).input@, old(self).pos as int, Seq::empty()) is None,
            },
        decreases old(self).input@.len() - old(self).pos, 2int,
    {
        let mut nodes: Vec<Node> = Vec::new();
        let ghost input = self.input@;
        let ghost start = self.pos as int;
        assert(trees(nodes@) =~= Seq::empty());
        loop
            invariant
                self.input == old(self).input,
                input == self.input@,
                start == old(self).pos,
                start <= self.pos <= input.len(),
                nodes_from(input, start, Seq::empty()) == nodes_from(
                    input,
                    self.pos as int,
                    trees(nodes@),
                ),
            decreases input.len() - self.pos,
        {
            let ghost found = trees(nodes@);
            self.consume_whitespace();
            if self.eof() || self.starts_with("</") {
                return Ok(nodes);
            }
            let node: Node = self.parse_node()?;
            nodes.push(node);
            assert(trees(nodes@) =~= found.push(node@));
        }
    }
}

} // verus!
