//! The document tree written out as text, one node to a line.

use vstd::prelude::*;
use vstd::string::StringExecFns;
use crate::dom::{ElementData, Node, NodeType};

verus! {

/// The text of the first `n` attributes in the order `keys`: for each a
/// space, the name, an equals sign and the value in double quotes.
pub open spec fn attributes_text(
    keys: Seq<Seq<char>>,
    attributes: Map<Seq<char>, Seq<char>>,
    n: nat,
) -> Seq<char>
    decreases n,
{
    if n == 0 || n > keys.len() {
        Seq::<char>::empty()
    } else {
        attributes_text(keys, attributes, (n - 1) as nat) + seq![' '] + keys[n - 1] + seq!['=', '"']
            + attributes[keys[n - 1]] + seq!['"']
    }
}

/// The text of an element's opening tag: the tag name and the
/// attributes, in the order in which they were first set, between `<`
/// and `>`.
pub open spec fn element_text(e: ElementData) -> Seq<char> {
    seq!['<'] + e.tag_name@ + attributes_text(
        e.attributes.keys(),
        e.attributes@,
        e.attributes.keys().len(),
    ) + seq!['>']
}

/// The text of a node without its children: the text of a text node,
/// the opening tag of an element.
pub open spec fn node_type_text(t: NodeType) -> Seq<char> {
    match t {
        NodeType::Text(s) => s@,
        NodeType::Element(e) => element_text(e),
    }
}

/// One step of indentation: four spaces.
pub open spec fn indent_step() -> Seq<char> {
    seq![' ', ' ', ' ', ' ']
}

/// The text of the tree below `n`, each line behind the indentation
/// `indent`: the node itself, its children one step further in, and for
/// an element its closing tag.
pub open spec fn node_text(n: Node, indent: Seq<char>) -> Seq<char>
    decreases n, 1int,
{
    let opening = indent + node_type_text(n.node_type) + seq!['\n'];
    let inner = nodes_text(n.children@, indent + indent_step(), n.children@.len());
    match n.node_type {
        NodeType::Text(_) => opening + inner,
        NodeType::Element(e) => opening + inner + indent + seq!['<', '/'] + e.tag_name@ + seq![
            '>',
            '\n',
        ],
    }
}

/// The texts of the trees below the first `k` of `nodes`, one after the
/// other.
pub open spec fn nodes_text(nodes: Seq<Node>, indent: Seq<char>, k: nat) -> Seq<char>
    decreases nodes, k,
{
    if k == 0 || k > nodes.len() {
        Seq::<char>::empty()
    } else {
        nodes_text(nodes, indent, (k - 1) as nat) + node_text(nodes[k - 1], indent)
    }
}

impl ElementData {
    /// The opening tag of the element as text.
    pub fn to_text(&self) -> (r: String)
        ensures
            r@ == element_text(*self),
    {
        let mut res = String::new();
        res.push('<');
        res.append(self.tag_name.as_str());
        let ghost head = res@;
        let n = self.attributes.len();
        let mut i: usize = 0;
        while i < n
            invariant
                i <= n,
                n == self.attributes.keys().len(),
                head == seq!['<'] + self.tag_name@,
                res@ == head + attributes_text(self.attributes.keys(), self.attributes@, i as nat),
            decreases n - i,
        {
            let ghost before = res@;
            res.push(' ');
            res.append(self.attributes.key_at(i).as_str());
            res.push('=');
            res.push('"');
            res.append(self.attributes.value_at(i).as_str());
            res.push('"');
            assert(res@ =~= head + attributes_text(
                self.attributes.keys(),
                self.attributes@,
                (i + 1) as nat,
            ));
            i += 1;
        }
        res.push('>');
        assert(res@ =~= element_text(*self));
        res
    }
}

impl NodeType {
    /// The node without its children as text.
    pub fn to_text(&self) -> (r: String)
        ensures
            r@ == node_type_text(*self),
    {
        match self {
            NodeType::Text(a) => a.clone(),
            NodeType::Element(e) => e.to_text(),
        }
    }
}

impl Node {
    /// Appends the text of the tree below this node to `out`, each line
    /// behind the indentation `indent`.
    fn write_text(&self, indent: &str, out: &mut String)
        ensures
            final(out)@ == old(out)@ + node_text(*self, indent@),
        decreases self,
    {
        let ghost start = out@;
        out.append(indent);
        out.append(self.node_type.to_text().as_str());
        out.push('\n');
        let ghost opening = indent@ + node_type_text(self.node_type) + seq!['\n'];
        assert(out@ =~= start + opening);

        let mut deeper = indent.to_owned();
        deeper.append("    ");
        proof {
            reveal_strlit("    ");
            assert(deeper@ =~= indent@ + indent_step());
        }
        let mut i: usize = 0;
        while i < self.children.len()
            invariant
                i <= self.children.len(),
                deeper@ == indent@ + indent_step(),
                out@ == start + opening + nodes_text(self.children@, deeper@, i as nat),
            decreases self.children.len() - i,
        {
            let ghost before = out@;
            self.children[i].write_text(deeper.as_str(), out);
            assert(out@ =~= start + opening + nodes_text(self.children@, deeper@, (i + 1) as nat));
            i += 1;
        }
        match &self.node_type {
            NodeType::Text(_) => {
                assert(out@ =~= start + node_text(*self, indent@));
            },
            NodeType::Element(e) => {
                out.append(indent);
                out.push('<');
                out.push('/');
                out.append(e.tag_name.as_str());
                out.push('>');
                out.push('\n');
                assert(out@ =~= start + node_text(*self, indent@));
            },
        }
    }

    /// The tree below this node as text, one node to a line, children
    /// four spaces further in than their parent, with an empty line at
    /// the end.
    pub fn to_text(&self) -> (r: String)
        ensures
            r@ == node_text(*self, Seq::<char>::empty()) + seq!['\n'],
    {
        let mut out = String::new();
        proof {
            reveal_strlit("");
            assert(""@ =~= Seq::<char>::empty());
        }
        self.write_text("", &mut out);
        out.push('\n');
        assert(out@ =~= node_text(*self, Seq::<char>::empty()) + seq!['\n']);
        out
    }
}

} // verus!
