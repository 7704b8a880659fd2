//! The reader for documents.

use vstd::prelude::*;
use crate::dom::{AttrMap, ElementDataView, Node, NodeTypeView, NodeView, elem, node_views, text};
use crate::parsing::parser::{
    CharClass, ParseError, Parser, expect, lemma_scan_bounds, scan, starts_with_at,
};
use crate::str_map::StrMap;
use crate::text::str_eq;

verus! {

/// A reader for documents.
#[derive(Debug)]
pub struct HtmlParser {
    pub p: Parser,
}

/// The text node with the given text.
pub open spec fn text_node(data: Seq<char>) -> NodeView {
    NodeView { children: Seq::<NodeView>::empty(), node_type: NodeTypeView::Text(data) }
}

/// The element node with the given tag name, attributes and children.
pub open spec fn element_node(
    tag_name: Seq<char>,
    attributes: Map<Seq<char>, Seq<char>>,
    children: Seq<NodeView>,
) -> NodeView {
    NodeView {
        children,
        node_type: NodeTypeView::Element(ElementDataView { tag_name, attributes }),
    }
}

/// The attribute value at `pos`: a text between two double or two
/// single quotes, with the position behind the closing quote.
pub open spec fn attribute_value_at(input: Seq<char>, pos: int) -> Result<
    (Seq<char>, int),
    ParseError,
> {
    if !(0 <= pos < input.len()) {
        Err(ParseError::UnexpectedEof)
    } else if input[pos] != '"' && input[pos] != '\'' {
        Err(ParseError::UnexpectedChar)
    } else {
        let end = scan(input, pos + 1, CharClass::Not(input[pos]));
        if end < input.len() {
            Ok((input.subrange(pos + 1, end), end + 1))
        } else {
            Err(ParseError::UnexpectedEof)
        }
    }
}

/// The attribute at `pos`: a name of letters and digits, an equals sign
/// and a value, with the position behind the value.
pub open spec fn attribute_at(input: Seq<char>, pos: int) -> Result<
    ((Seq<char>, Seq<char>), int),
    ParseError,
> {
    let name_end = scan(input, pos, CharClass::Standard);
    match expect(input, name_end, '=') {
        Err(e) => Err(e),
        Ok(p) => match attribute_value_at(input, p) {
            Err(e) => Err(e),
            Ok((value, end)) => Ok(((input.subrange(pos, name_end), value), end)),
        },
    }
}

/// The attributes from `pos` up to the `>` that ends the tag, added to
/// `acc`, with the position of that `>`. Of two attributes of one name
/// the later one stays.
pub open spec fn attributes_at(input: Seq<char>, pos: int, acc: Map<Seq<char>, Seq<char>>) -> Result<
    (Map<Seq<char>, Seq<char>>, int),
    ParseError,
>
    decreases input.len() - pos,
{
    let p = scan(input, pos, CharClass::Whitespace);
    if !(0 <= p < input.len()) {
        Err(ParseError::UnexpectedEof)
    } else if input[p] == '>' {
        Ok((acc, p))
    } else {
        match attribute_at(input, p) {
            Err(e) => Err(e),
            Ok(((name, value), end)) => {
                proof {
                    lemma_scan_bounds(input, pos, CharClass::Whitespace);
                    lemma_attribute_moves_on(input, p);
                }
                attributes_at(input, end, acc.insert(name, value))
            },
        }
    }
}

/// The nodes from `pos` up to the end of the input or the next closing
/// tag, added to `acc`, with the position where they end. White space
/// between nodes is left out. A node is never empty
/// ([`lemma_node_moves_on`]), so the reading always goes on behind it;
/// the test for that is what lets this definition end.
pub open spec fn nodes_at(input: Seq<char>, pos: int, acc: Seq<NodeView>) -> Result<
    (Seq<NodeView>, int),
    ParseError,
>
    decreases input.len() - pos, 2int,
{
    let p = scan(input, pos, CharClass::Whitespace);
    if !(0 <= p < input.len()) || starts_with_at(input, p, seq!['<', '/']) {
        Ok((acc, p))
    } else {
        proof {
            lemma_scan_bounds(input, pos, CharClass::Whitespace);
        }
        match node_at(input, p) {
            Err(e) => Err(e),
            Ok((n, end)) => if p < end <= input.len() {
                nodes_at(input, end, acc.push(n))
            } else {
                Ok((acc, p))
            },
        }
    }
}

/// The node at `pos`, with the position behind it: an element where the
/// input holds `<`, and else the text up to the next `<`.
pub open spec fn node_at(input: Seq<char>, pos: int) -> Result<(NodeView, int), ParseError>
    decreases input.len() - pos, 1int,
{
    if !(0 <= pos < input.len()) {
        Err(ParseError::UnexpectedEof)
    } else if input[pos] == '<' {
        element_at(input, pos)
    } else {
        let end = scan(input, pos, CharClass::Not('<'));
        Ok((text_node(input.subrange(pos, end)), end))
    }
}

/// The element at `pos`, with the position behind its closing tag: an
/// opening tag with a name and attributes, the nodes inside, and a
/// closing tag with the same name.
pub open spec fn element_at(input: Seq<char>, pos: int) -> Result<(NodeView, int), ParseError>
    decreases input.len() - pos, 0int,
{
    match expect(input, pos, '<') {
        Err(e) => Err(e),
        Ok(at1) => {
            let name_end = scan(input, at1, CharClass::Standard);
            let tag_name = input.subrange(at1, name_end);
            match attributes_at(input, name_end, Map::empty()) {
                Err(e) => Err(e),
                Ok((attributes, at2)) => match expect(input, at2, '>') {
                    Err(e) => Err(e),
                    Ok(at3) => {
                        proof {
                            lemma_scan_bounds(input, at1, CharClass::Standard);
                            lemma_attributes_move_on(input, name_end, Map::empty());
                        }
                        match nodes_at(input, at3, Seq::empty()) {
                            Err(e) => Err(e),
                            Ok((children, at4)) => closing_tag_at(
                                input,
                                at4,
                                tag_name,
                                attributes,
                                children,
                            ),
                        }
                    },
                },
            }
        },
    }
}

/// The element that the closing tag at `pos` completes, with the
/// position behind that tag. The tag has to name `tag_name`.
pub open spec fn closing_tag_at(
    input: Seq<char>,
    pos: int,
    tag_name: Seq<char>,
    attributes: Map<Seq<char>, Seq<char>>,
    children: Seq<NodeView>,
) -> Result<(NodeView, int), ParseError> {
    match expect(input, pos, '<') {
        Err(e) => Err(e),
        Ok(at1) => match expect(input, at1, '/') {
            Err(e) => Err(e),
            Ok(at2) => {
                let name_end = scan(input, at2, CharClass::Standard);
                if input.subrange(at2, name_end) != tag_name {
                    Err(ParseError::MismatchedTag)
                } else {
                    match expect(input, name_end, '>') {
                        Err(e) => Err(e),
                        Ok(end) => Ok((element_node(tag_name, attributes, children), end)),
                    }
                }
            },
        },
    }
}

/// The document that `input` holds: its only node where it holds
/// exactly one, and else an element `html` around the nodes it holds.
pub open spec fn document(input: Seq<char>) -> Result<NodeView, ParseError> {
    match nodes_at(input, 0, Seq::empty()) {
        Err(e) => Err(e),
        Ok((nodes, _)) => if nodes.len() == 1 {
            Ok(nodes[0])
        } else {
            Ok(element_node("html"@, Map::empty(), nodes))
        },
    }
}

impl HtmlParser {
    /// Whether the position of the reader lies within its input or at
    /// its end.
    pub open spec fn wf(&self) -> bool {
        self.p.wf()
    }

    /// A reader at the start of `input`.
    pub fn new(input: &str) -> (r: HtmlParser)
        ensures
            r.wf(),
            r.p.pos == 0,
            r.p.input@ == input@,
    {
        HtmlParser { p: Parser::new(input) }
    }

    /// Reads a tag name: letters and digits, as long as there are any.
    pub fn parse_tag_name(&mut self) -> (r: String)
        requires
            old(self).wf(),
        ensures
            final(self).wf(),
            final(self).p.input == old(self).p.input,
            final(self).p.pos == scan(
                old(self).p.input@,
                old(self).p.pos as int,
                CharClass::Standard,
            ),
            old(self).p.pos <= final(self).p.pos,
            r@ == old(self).p.input@.subrange(old(self).p.pos as int, final(self).p.pos as int),
    {
        proof {
            lemma_scan_bounds(self.p.input@, self.p.pos as int, CharClass::Standard);
        }
        self.p.parse_standard_word()
    }

    /// Reads a node. Where that fails, nothing is read.
    pub fn parse_node(&mut self) -> (r: Result<Node, ParseError>)
        requires
            old(self).wf(),
        ensures
            final(self).wf(),
            final(self).p.input == old(self).p.input,
            match node_at(old(self).p.input@, old(self).p.pos as int) {
                Ok((v, end)) => r matches Ok(n) && n@ == v && final(self).p.pos == end
                    && end > old(self).p.pos,
                Err(e) => r matches Err(x) && x == e && final(self).p.pos == old(self).p.pos,
            },
        decreases old(self).p.input.len() - old(self).p.pos, 1int,
    {
        if self.p.eof() {
            return Err(ParseError::UnexpectedEof);
        }
        if self.p.next_char() == '<' {
            self.parse_element()
        } else {
            let n = self.parse_text();
            proof {
                lemma_scan_bounds(self.p.input@, old(self).p.pos + 1, CharClass::Not('<'));
            }
            Ok(n)
        }
    }

    /// Reads text up to the next `<`.
    pub fn parse_text(&mut self) -> (n: Node)
        requires
            old(self).wf(),
        ensures
            final(self).wf(),
            final(self).p.input == old(self).p.input,
            final(self).p.pos == scan(
                old(self).p.input@,
                old(self).p.pos as int,
                CharClass::Not('<'),
            ),
            n@ == text_node(
                old(self).p.input@.subrange(old(self).p.pos as int, final(self).p.pos as int),
            ),
    {
        text(self.p.consume_until('<'))
    }

    /// Reads an element with everything inside it. Where that fails,
    /// nothing is read.
    pub fn parse_element(&mut self) -> (r: Result<Node, ParseError>)
        requires
            old(self).wf(),
        ensures
            final(self).wf(),
            final(self).p.input == old(self).p.input,
            match element_at(old(self).p.input@, old(self).p.pos as int) {
                Ok((v, end)) => r matches Ok(n) && n@ == v && final(self).p.pos == end
                    && end > old(self).p.pos,
                Err(e) => r matches Err(x) && x == e && final(self).p.pos == old(self).p.pos,
            },
        decreases old(self).p.input.len() - old(self).p.pos, 0int,
    {
        let start = self.p.pos;
        // The opening tag.
        match self.p.expect_char('<') {
            Err(e) => {
                return Err(e);
            },
            Ok(()) => {},
        }
        let tag_name = self.parse_tag_name();
        let attributes = match self.parse_attributes() {
            Err(e) => {
                self.p.pos = start;
                return Err(e);
            },
            Ok(a) => a,
        };
        match self.p.expect_char('>') {
            Err(e) => {
                self.p.pos = start;
                return Err(e);
            },
            Ok(()) => {},
        }
        // The nodes inside.
        let children = match self.parse_nodes() {
            Err(e) => {
                self.p.pos = start;
                return Err(e);
            },
            Ok(c) => c,
        };
        // The closing tag.
        match self.p.expect_char('<') {
            Err(e) => {
                self.p.pos = start;
                return Err(e);
            },
            Ok(()) => {},
        }
        match self.p.expect_char('/') {
            Err(e) => {
                self.p.pos = start;
                return Err(e);
            },
            Ok(()) => {},
        }
        let closing = self.parse_tag_name();
        if !str_eq(closing.as_str(), tag_name.as_str()) {
            self.p.pos = start;
            return Err(ParseError::MismatchedTag);
        }
        match self.p.expect_char('>') {
            Err(e) => {
                self.p.pos = start;
                return Err(e);
            },
            Ok(()) => {},
        }
        Ok(elem(tag_name, attributes, children))
    }

    /// Reads an attribute: a name, an equals sign and a value. Where
    /// that fails, nothing is read.
    pub fn parse_attribute(&mut self) -> (r: Result<(String, String), ParseError>)
        requires
            old(self).wf(),
        ensures
            final(self).wf(),
            final(self).p.input == old(self).p.input,
            match attribute_at(old(self).p.input@, old(self).p.pos as int) {
                Ok(((name, value), end)) => r matches Ok(a) && a.0@ == name && a.1@ == value
                    && final(self).p.pos == end && end > old(self).p.pos,
                Err(e) => r matches Err(x) && x == e && final(self).p.pos == old(self).p.pos,
            },
    {
        let start = self.p.pos;
        let key = self.p.parse_standard_word();
        proof {
            lemma_scan_bounds(self.p.input@, start as int, CharClass::Standard);
        }
        match self.p.expect_char('=') {
            Err(e) => {
                self.p.pos = start;
                return Err(e);
            },
            Ok(()) => {},
        }
        match self.parse_attribute_value() {
            Err(e) => {
                self.p.pos = start;
                Err(e)
            },
            Ok(val) => Ok((key, val)),
        }
    }

    /// Reads an attribute value: a text between two double or two
    /// single quotes. Where that fails, nothing is read.
    pub fn parse_attribute_value(&mut self) -> (r: Result<String, ParseError>)
        requires
            old(self).wf(),
        ensures
            final(self).wf(),
            final(self).p.input == old(self).p.input,
            match attribute_value_at(old(self).p.input@, old(self).p.pos as int) {
                Ok((value, end)) => r matches Ok(v) && v@ == value && final(self).p.pos == end
                    && end > old(self).p.pos,
                Err(e) => r matches Err(x) && x == e && final(self).p.pos == old(self).p.pos,
            },
    {
        let start = self.p.pos;
        if self.p.eof() {
            return Err(ParseError::UnexpectedEof);
        }
        let open_quote = self.p.consume_char();
        if open_quote != '"' && open_quote != '\'' {
            self.p.pos = start;
            return Err(ParseError::UnexpectedChar);
        }
        let val = self.p.consume_until(open_quote);
        proof {
            lemma_scan_bounds(self.p.input@, start + 1, CharClass::Not(open_quote));
        }
        if self.p.eof() {
            self.p.pos = start;
            return Err(ParseError::UnexpectedEof);
        }
        self.p.consume_char();
        Ok(val)
    }

    /// Reads the attributes of a tag, up to the `>` that ends it. Where
    /// that fails, nothing is read.
    pub fn parse_attributes(&mut self) -> (r: Result<AttrMap, ParseError>)
        requires
            old(self).wf(),
        ensures
            final(self).wf(),
            final(self).p.input == old(self).p.input,
            match attributes_at(old(self).p.input@, old(self).p.pos as int, Map::empty()) {
                Ok((attributes, end)) => r matches Ok(a) && a@ == attributes
                    && final(self).p.pos == end && end >= old(self).p.pos
                    && end < old(self).p.input.len() && old(self).p.input[end] == '>',
                Err(e) => r matches Err(x) && x == e && final(self).p.pos == old(self).p.pos,
            },
    {
        let start = self.p.pos;
        let mut attributes: AttrMap = StrMap::new();
        loop
            invariant
                self.wf(),
                self.p.input == old(self).p.input,
                start == old(self).p.pos,
                start <= self.p.pos,
                attributes_at(self.p.input@, start as int, Map::empty()) == attributes_at(
                    self.p.input@,
                    self.p.pos as int,
                    attributes@,
                ),
            decreases self.p.input.len() - self.p.pos,
        {
            let ghost here = self.p.pos;
            self.p.consume_whitespace();
            proof {
                lemma_scan_bounds(self.p.input@, here as int, CharClass::Whitespace);
            }
            if self.p.eof() {
                self.p.pos = start;
                return Err(ParseError::UnexpectedEof);
            }
            if self.p.next_char() == '>' {
                return Ok(attributes);
            }
            match self.parse_attribute() {
                Err(e) => {
                    self.p.pos = start;
                    return Err(e);
                },
                Ok((key, val)) => {
                    attributes.insert(key, val);
                },
            }
        }
    }

    /// Reads nodes up to the end of the input or the next closing tag.
    /// Where that fails, nothing is read.
    pub fn parse_nodes(&mut self) -> (r: Result<Vec<Node>, ParseError>)
        requires
            old(self).wf(),
        ensures
            final(self).wf(),
            final(self).p.input == old(self).p.input,
            match nodes_at(old(self).p.input@, old(self).p.pos as int, Seq::empty()) {
                Ok((nodes, end)) => r matches Ok(v) && node_views(v@) == nodes
                    && final(self).p.pos == end && end >= old(self).p.pos,
                Err(e) => r matches Err(x) && x == e && final(self).p.pos == old(self).p.pos,
            },
        decreases old(self).p.input.len() - old(self).p.pos, 2int,
    {
        let start = self.p.pos;
        let mut nodes: Vec<Node> = Vec::new();
        assert(node_views(nodes@) =~= Seq::<NodeView>::empty());
        loop
            invariant
                self.wf(),
                self.p.input == old(self).p.input,
                start == old(self).p.pos,
                start <= self.p.pos,
                nodes_at(self.p.input@, start as int, Seq::empty()) == nodes_at(
                    self.p.input@,
                    self.p.pos as int,
                    node_views(nodes@),
                ),
            decreases self.p.input.len() - self.p.pos,
        {
            let ghost here = self.p.pos;
            self.p.consume_whitespace();
            proof {
                lemma_scan_bounds(self.p.input@, here as int, CharClass::Whitespace);
                reveal_strlit("</");
                assert("</"@ =~= seq!['<', '/']);
            }
            if self.p.eof() || self.p.starts_with("</") {
                return Ok(nodes);
            }
            match self.parse_node() {
                Err(e) => {
                    self.p.pos = start;
                    return Err(e);
                },
                Ok(n) => {
                    let ghost before = node_views(nodes@);
                    nodes.push(n);
                    assert(node_views(nodes@) =~= before.push(n@));
                },
            }
        }
    }

    /// Reads a document.
    pub fn parse(s: String) -> (r: Result<Node, ParseError>)
        ensures
            match document(s@) {
                Ok(v) => r matches Ok(n) && n@ == v,
                Err(e) => r matches Err(x) && x == e,
            },
    {
        let mut reader = HtmlParser::new(s.as_str());
        let mut nodes = match reader.parse_nodes() {
            Err(e) => {
                return Err(e);
            },
            Ok(nodes) => nodes,
        };
        // A document with one root is that root; any other gets one.
        if nodes.len() == 1 {
            let ghost views = node_views(nodes@);
            let root = nodes.remove(0);
            assert(root@ == views[0]);
            Ok(root)
        } else {
            Ok(elem("html".to_string(), StrMap::new(), nodes))
        }
    }
}


/// An attribute takes at least one character and ends within the input.
pub proof fn lemma_attribute_moves_on(input: Seq<char>, pos: int)
    requires
        0 <= pos <= input.len(),
        attribute_at(input, pos) is Ok,
    ensures
        pos < attribute_at(input, pos)->Ok_0.1 <= input.len(),
{
    lemma_scan_bounds(input, pos, CharClass::Standard);
    let name_end = scan(input, pos, CharClass::Standard);
    lemma_scan_bounds(input, name_end + 2, CharClass::Not(input[name_end + 1]));
}

/// The attributes of a tag end at a `>` within the input.
pub proof fn lemma_attributes_move_on(input: Seq<char>, pos: int, acc: Map<Seq<char>, Seq<char>>)
    requires
        0 <= pos <= input.len(),
        attributes_at(input, pos, acc) is Ok,
    ensures
        pos <= attributes_at(input, pos, acc)->Ok_0.1 < input.len(),
        input[attributes_at(input, pos, acc)->Ok_0.1] == '>',
    decreases input.len() - pos,
{
    lemma_scan_bounds(input, pos, CharClass::Whitespace);
    let p = scan(input, pos, CharClass::Whitespace);
    if input[p] != '>' {
        lemma_attribute_moves_on(input, p);
        let ((name, value), end) = attribute_at(input, p)->Ok_0;
        lemma_attributes_move_on(input, end, acc.insert(name, value));
    }
}

/// Nodes end within the input, at or behind the place where they start.
pub proof fn lemma_nodes_move_on(input: Seq<char>, pos: int, acc: Seq<NodeView>)
    requires
        0 <= pos <= input.len(),
        nodes_at(input, pos, acc) is Ok,
    ensures
        pos <= nodes_at(input, pos, acc)->Ok_0.1 <= input.len(),
    decreases input.len() - pos, 2int,
{
    lemma_scan_bounds(input, pos, CharClass::Whitespace);
    let p = scan(input, pos, CharClass::Whitespace);
    if p < input.len() && !starts_with_at(input, p, seq!['<', '/']) {
        lemma_node_moves_on(input, p);
        let (n, end) = node_at(input, p)->Ok_0;
        lemma_nodes_move_on(input, end, acc.push(n));
    }
}

/// A node takes at least one character and ends within the input.
pub proof fn lemma_node_moves_on(input: Seq<char>, pos: int)
    requires
        0 <= pos <= input.len(),
        node_at(input, pos) is Ok,
    ensures
        pos < node_at(input, pos)->Ok_0.1 <= input.len(),
    decreases input.len() - pos, 1int,
{
    if input[pos] == '<' {
        lemma_element_moves_on(input, pos);
    } else {
        lemma_scan_bounds(input, pos + 1, CharClass::Not('<'));
    }
}

/// An element takes at least one character and ends within the input.
pub proof fn lemma_element_moves_on(input: Seq<char>, pos: int)
    requires
        0 <= pos <= input.len(),
        element_at(input, pos) is Ok,
    ensures
        pos < element_at(input, pos)->Ok_0.1 <= input.len(),
    decreases input.len() - pos, 0int,
{
    lemma_scan_bounds(input, pos + 1, CharClass::Standard);
    let name_end = scan(input, pos + 1, CharClass::Standard);
    lemma_attributes_move_on(input, name_end, Map::empty());
    let (attributes, at2) = attributes_at(input, name_end, Map::empty())->Ok_0;
    lemma_nodes_move_on(input, at2 + 1, Seq::empty());
    let (children, at4) = nodes_at(input, at2 + 1, Seq::empty())->Ok_0;
    lemma_scan_bounds(input, at4 + 2, CharClass::Standard);
}

} // verus!
