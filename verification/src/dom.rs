//! The document tree: elements with attributes, and text.

use vstd::prelude::*;
use crate::str_map::StrMap;
use crate::text::{chars_of, string_of};

verus! {

/// The attributes of an element, keyed by name.
pub type AttrMap = StrMap<String>;

/// A node of the document tree together with the nodes below it.
#[derive(Debug)]
pub struct Node {
    pub children: Vec<Node>,
    pub node_type: NodeType,
}

/// A node is either text or an element.
#[derive(Debug)]
pub enum NodeType {
    Text(String),
    Element(ElementData),
}

/// What an element carries besides its children: a tag name and attributes.
#[derive(Debug)]
pub struct ElementData {
    pub tag_name: String,
    pub attributes: AttrMap,
}

/// The mathematical value of an [`ElementData`].
pub struct ElementDataView {
    pub tag_name: Seq<char>,
    pub attributes: Map<Seq<char>, Seq<char>>,
}

/// The mathematical value of a [`NodeType`].
pub enum NodeTypeView {
    Text(Seq<char>),
    Element(ElementDataView),
}

/// The mathematical value of a [`Node`].
pub struct NodeView {
    pub children: Seq<NodeView>,
    pub node_type: NodeTypeView,
}

impl View for ElementData {
    type V = ElementDataView;

    open spec fn view(&self) -> ElementDataView {
        ElementDataView { tag_name: self.tag_name@, attributes: self.attributes@ }
    }
}

impl View for NodeType {
    type V = NodeTypeView;

    open spec fn view(&self) -> NodeTypeView {
        match self {
            NodeType::Text(t) => NodeTypeView::Text(t@),
            NodeType::Element(e) => NodeTypeView::Element(e@),
        }
    }
}

/// The mathematical value of `n`: its own data and the values of its
/// children, in order.
pub open spec fn node_view(n: Node) -> NodeView
    decreases n,
{
    NodeView {
        children: Seq::new(
            n.children@.len(),
            |i: int|
                if 0 <= i < n.children@.len() {
                    node_view(n.children@[i])
                } else {
                    arbitrary()
                },
        ),
        node_type: n.node_type@,
    }
}

impl View for Node {
    type V = NodeView;

    open spec fn view(&self) -> NodeView {
        node_view(*self)
    }
}

/// The views of a sequence of nodes, in order.
pub open spec fn node_views(s: Seq<Node>) -> Seq<NodeView> {
    Seq::new(s.len(), |i: int| s[i]@)
}

/// The views of a sequence of strings, in order.
pub open spec fn string_views(s: Seq<String>) -> Seq<Seq<char>> {
    Seq::new(s.len(), |i: int| s[i]@)
}

/// The pieces of `s` between occurrences of `sep`. Reading `s` from the
/// left, a separator opens a new piece and any other character extends
/// the last one; so there is always one piece more than there are
/// separators.
pub open spec fn split(s: Seq<char>, sep: char) -> Seq<Seq<char>>
    decreases s.len(),
{
    if s.len() == 0 {
        seq![Seq::<char>::empty()]
    } else {
        let before = split(s.drop_last(), sep);
        if s.last() == sep {
            before.push(Seq::<char>::empty())
        } else {
            before.update(before.len() - 1, before.last().push(s.last()))
        }
    }
}

/// `pieces` put together again with `sep` between neighbours.
pub open spec fn join(pieces: Seq<Seq<char>>, sep: char) -> Seq<char>
    decreases pieces.len(),
{
    if pieces.len() == 0 {
        Seq::<char>::empty()
    } else if pieces.len() == 1 {
        pieces[0]
    } else {
        join(pieces.drop_last(), sep).push(sep) + pieces.last()
    }
}

/// Splitting loses nothing: no piece holds the separator, there is at
/// least one piece, and joining the pieces gives the string back.
pub proof fn lemma_split_join(s: Seq<char>, sep: char)
    ensures
        split(s, sep).len() >= 1,
        forall|i: int| 0 <= i < split(s, sep).len() ==> !(#[trigger] split(s, sep)[i]).contains(sep),
        join(split(s, sep), sep) == s,
    decreases s.len(),
{
    if s.len() == 0 {
        assert(join(split(s, sep), sep) =~= s);
    } else {
        let before = split(s.drop_last(), sep);
        lemma_split_join(s.drop_last(), sep);
        let now = split(s, sep);
        if s.last() == sep {
            assert(now.drop_last() =~= before);
            assert(join(now, sep) =~= s);
        } else {
            let last = before.last().push(s.last());
            assert(!last.contains(sep)) by {
                if last.contains(sep) {
                    let j = choose|j: int| 0 <= j < last.len() && last[j] == sep;
                    assert(before.last()[j] == sep);
                    assert(before.last().contains(sep));
                }
            }
            if before.len() == 1 {
                assert(join(now, sep) =~= s);
            } else {
                assert(now.drop_last() =~= before.drop_last());
                let head = join(before.drop_last(), sep).push(sep);
                assert(join(before, sep) == head + before.last());
                assert(join(now, sep) == head + last);
                assert(head + last =~= (head + before.last()).push(s.last()));
                assert(s =~= s.drop_last().push(s.last()));
            }
        }
    }
}

impl ElementDataView {
    /// The value of the `id` attribute, if the element has one.
    pub open spec fn id(self) -> Option<Seq<char>> {
        if self.attributes.contains_key("id"@) {
            Some(self.attributes["id"@])
        } else {
            None
        }
    }

    /// The class names of the element: the pieces of its `class`
    /// attribute between single spaces, or none without that attribute.
    pub open spec fn classes(self) -> Seq<Seq<char>> {
        if self.attributes.contains_key("class"@) {
            split(self.attributes["class"@], ' ')
        } else {
            Seq::<Seq<char>>::empty()
        }
    }

    /// Whether `name` is among the element's class names.
    pub open spec fn has_class(self, name: Seq<char>) -> bool {
        self.classes().contains(name)
    }
}

/// Creates a text node from a string.
pub fn text(data: String) -> (n: Node)
    ensures
        n@ == (NodeView {
            children: Seq::<NodeView>::empty(),
            node_type: NodeTypeView::Text(data@),
        }),
{
    let n = Node { children: Vec::new(), node_type: NodeType::Text(data) };
    assert(n@.children =~= Seq::<NodeView>::empty());
    n
}

/// Creates an element node from a tag name, attributes and children.
pub fn elem(name: String, attributes: AttrMap, children: Vec<Node>) -> (n: Node)
    ensures
        n@ == (NodeView {
            children: node_views(children@),
            node_type: NodeTypeView::Element(
                ElementDataView { tag_name: name@, attributes: attributes@ },
            ),
        }),
{
    let n = Node {
        children,
        node_type: NodeType::Element(ElementData { tag_name: name, attributes }),
    };
    assert(n@.children =~= node_views(children@));
    n
}

/// Splits `s` at every single space.
pub fn split_on_space(s: &str) -> (pieces: Vec<String>)
    ensures
        string_views(pieces@) == split(s@, ' '),
{
    let chars = chars_of(s);
    let mut pieces: Vec<String> = Vec::new();
    let mut start: usize = 0;
    let mut i: usize = 0;
    while i < chars.len()
        invariant
            start <= i <= chars.len(),
            chars@ == s@,
            split(chars@.take(i as int), ' ').len() == pieces.len() + 1,
            split(chars@.take(i as int), ' ').drop_last() == string_views(pieces@),
            split(chars@.take(i as int), ' ').last() == chars@.subrange(start as int, i as int),
        decreases chars.len() - i,
    {
        let ghost prefix = chars@.take(i as int);
        let ghost next = chars@.take(i + 1);
        assert(next.drop_last() =~= prefix);
        assert(next.last() == chars@[i as int]);
        if chars[i] == ' ' {
            let piece = string_of(&chars, start, i);
            let ghost old_pieces = pieces@;
            pieces.push(piece);
            start = i + 1;
            assert(split(next, ' ').drop_last() =~= split(prefix, ' '));
            assert(string_views(pieces@) =~= split(prefix, ' ')) by {
                assert(split(prefix, ' ') =~= split(prefix, ' ').drop_last().push(split(prefix, ' ').last()));
            }
            assert(split(next, ' ').last() =~= chars@.subrange(start as int, i + 1));
        } else {
            assert(split(next, ' ').drop_last() =~= split(prefix, ' ').drop_last());
            assert(split(next, ' ').last() =~= chars@.subrange(start as int, i + 1));
        }
        i += 1;
    }
    let piece = string_of(&chars, start, i);
    pieces.push(piece);
    proof {
        let all = split(chars@.take(i as int), ' ');
        assert(chars@.take(i as int) =~= s@);
        assert(all =~= all.drop_last().push(all.last()));
        assert(string_views(pieces@) =~= all);
    }
    pieces
}

impl ElementData {
    /// The value of the `id` attribute, if the element has one.
    pub fn id(&self) -> (r: Option<&String>)
        ensures
            match r {
                Some(s) => self@.id() == Some(s@),
                None => self@.id() is None,
            },
    {
        self.attributes.get("id")
    }

    /// The class names of the element, one for each piece of its `class`
    /// attribute, in the order in which they are written.
    pub fn classes(&self) -> (r: Vec<String>)
        ensures
            string_views(r@) == self@.classes(),
    {
        match self.attributes.get("class") {
            Some(classes) => split_on_space(classes.as_str()),
            None => {
                let r: Vec<String> = Vec::new();
                assert(string_views(r@) =~= Seq::<Seq<char>>::empty());
                r
            },
        }
    }
}

} // verus!

