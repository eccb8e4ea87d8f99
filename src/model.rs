//! The document types, their mathematical models, and the error type.
use vstd::prelude::*;
use crate::scanner::push_char;

verus! {

/// The mathematical model of a node: a text leaf or an element with its
/// name, its attributes in source order and its children in order.
pub enum NodeModel {
    Text(Seq<char>),
    Element {
        name: Seq<char>,
        attrs: Seq<(Seq<char>, Seq<char>)>,
        children: Seq<NodeModel>,
    },
}

/// The mathematical model of a parse failure.
pub enum Fault {
    MalformedTag(char),
    UnterminatedElement(Seq<char>),
    MalformedAttribute(Seq<char>),
    DuplicateAttribute(Seq<char>),
    UnterminatedTag,
    UnmatchedClosingTag(Seq<char>, Seq<char>),
    NestingTooDeep,
    TrailingContent(char),
}

/// A parsed document: declaration metadata and exactly one root node.
#[derive(Debug, PartialEq, Eq)]
pub struct XMLTree {
    pub version: String,
    pub encoding: String,
    pub root: XMLNode,
}

/// A node of the tree. It owns its children; it holds no link to its parent.
/// The children of a text node are not part of its model.
#[derive(Debug, PartialEq, Eq)]
pub struct XMLNode {
    pub node_contents: NodeType,
    pub children: Vec<XMLNode>,
}

#[derive(Debug, PartialEq, Eq)]
pub enum NodeType {
    Text(String),
    Element(ElementData),
}

/// An element's name and its attributes in source order, keys unique.
#[derive(Debug, PartialEq, Eq)]
pub struct ElementData {
    pub tag_name: String,
    pub attributes: Vec<(String, String)>,
}

/// A tag that does not begin with `<`, or lacks a name, or holds more than a
/// name in a closing tag: the offending character.
#[derive(Debug, Clone, PartialEq, Eq)]
pub struct NodeError(pub char);

/// The input ended before the closing tag of the named element.
#[derive(Debug, Clone, PartialEq, Eq)]
pub struct ClosingTagError(pub String);

#[derive(Debug, Clone, PartialEq, Eq)]
pub enum XMLError {
    NodeError(NodeError),
    ClosingTagError(ClosingTagError),
    /// An attribute token without `=`, with an empty name, or with unbalanced quotes.
    MalformedAttribute(String),
    /// The same attribute name twice in one tag.
    DuplicateAttribute(String),
    /// The input ended before the `>` of a tag.
    UnterminatedTag,
    /// A closing tag whose name is not that of the open element: expected, found.
    UnmatchedClosingTag(String, String),
    /// Elements nested deeper than the parser's limit.
    NestingTooDeep,
    /// Something other than whitespace after the root element.
    TrailingContent(char),
}

pub open spec fn attrs_view(a: Seq<(String, String)>) -> Seq<(Seq<char>, Seq<char>)> {
    a.map_values(|p: (String, String)| (p.0@, p.1@))
}

impl View for XMLNode {
    type V = NodeModel;

    open spec fn view(&self) -> NodeModel
        decreases self,
    {
        match self.node_contents {
            NodeType::Text(t) => NodeModel::Text(t@),
            NodeType::Element(e) => NodeModel::Element {
                name: e.tag_name@,
                attrs: attrs_view(e.attributes@),
                children: Seq::new(
                    self.children.len() as nat,
                    |i: int|
                        if 0 <= i < self.children.len() {
                            self.children[i].view()
                        } else {
                            NodeModel::Text(Seq::empty())
                        },
                ),
            },
        }
    }
}

/// The models of a sequence of nodes.
pub open spec fn nodes_view(v: Seq<XMLNode>) -> Seq<NodeModel> {
    v.map_values(|n: XMLNode| n@)
}

impl View for XMLError {
    type V = Fault;

    open spec fn view(&self) -> Fault {
        match self {
            XMLError::NodeError(NodeError(c)) => Fault::MalformedTag(*c),
            XMLError::ClosingTagError(ClosingTagError(n)) => Fault::UnterminatedElement(n@),
            XMLError::MalformedAttribute(t) => Fault::MalformedAttribute(t@),
            XMLError::DuplicateAttribute(k) => Fault::DuplicateAttribute(k@),
            XMLError::UnterminatedTag => Fault::UnterminatedTag,
            XMLError::UnmatchedClosingTag(e, f) => Fault::UnmatchedClosingTag(e@, f@),
            XMLError::NestingTooDeep => Fault::NestingTooDeep,
            XMLError::TrailingContent(c) => Fault::TrailingContent(*c),
        }
    }
}

/// The model of a document: version, encoding and root.
pub struct TreeModel {
    pub version: Seq<char>,
    pub encoding: Seq<char>,
    pub root: NodeModel,
}

impl View for XMLTree {
    type V = TreeModel;

    open spec fn view(&self) -> TreeModel {
        TreeModel { version: self.version@, encoding: self.encoding@, root: self.root@ }
    }
}

impl XMLNode {
    /// A text leaf.
    pub fn text(content: String) -> (r: XMLNode)
        ensures
            r@ == NodeModel::Text(content@),
            r.children@.len() == 0,
    {
        XMLNode { node_contents: NodeType::Text(content), children: Vec::new() }
    }

    /// An element with the given name, attributes and children.
    pub fn element(tag_name: String, attributes: Vec<(String, String)>, children: Vec<XMLNode>) -> (r: XMLNode)
        ensures
            r@ == (NodeModel::Element {
                name: tag_name@,
                attrs: attrs_view(attributes@),
                children: nodes_view(children@),
            }),
    {
        let r = XMLNode {
            node_contents: NodeType::Element(ElementData { tag_name, attributes }),
            children,
        };
        assert(r@->children =~= nodes_view(r.children@));
        r
    }
}

impl Default for XMLNode {
    /// An element named `Default` with no attributes and no children.
    fn default() -> (r: XMLNode)
        ensures
            r@ == (NodeModel::Element {
                name: seq!['D', 'e', 'f', 'a', 'u', 'l', 't'],
                attrs: Seq::empty(),
                children: Seq::empty(),
            }),
    {
        proof {
            reveal_strlit("Default");
        }
        let r = XMLNode::element(String::from_str("Default"), Vec::new(), Vec::new());
        assert(r@->name =~= seq!['D', 'e', 'f', 'a', 'u', 'l', 't']);
        assert(r@->attrs =~= Seq::empty());
        assert(r@->children =~= Seq::empty());
        r
    }
}

impl Default for XMLTree {
    /// Version `1.0`, encoding `UTF-8`, and an empty element named `root`.
    fn default() -> (r: XMLTree)
        ensures
            r@ == (TreeModel {
                version: seq!['1', '.', '0'],
                encoding: seq!['U', 'T', 'F', '-', '8'],
                root: NodeModel::Element {
                    name: seq!['r', 'o', 'o', 't'],
                    attrs: Seq::empty(),
                    children: Seq::empty(),
                },
            }),
    {
        proof {
            reveal_strlit("1.0");
            reveal_strlit("UTF-8");
            reveal_strlit("root");
        }
        let root = XMLNode::element(String::from_str("root"), Vec::new(), Vec::new());
        let r = XMLTree { version: String::from_str("1.0"), encoding: String::from_str("UTF-8"), root };
        assert(r@.version =~= seq!['1', '.', '0']);
        assert(r@.encoding =~= seq!['U', 'T', 'F', '-', '8']);
        assert(r@.root->name =~= seq!['r', 'o', 'o', 't']);
        assert(r@.root->attrs =~= Seq::empty());
        assert(r@.root->children =~= Seq::empty());
        r
    }
}

impl NodeError {
    /// The message for this error, ending with the offending character.
    pub fn message(&self) -> (r: String)
        ensures
            r@ == "Tag should begin and end with < and > characters. Got "@.push(self.0),
    {
        let mut r = String::from_str("Tag should begin and end with < and > characters. Got ");
        push_char(&mut r, self.0);
        r
    }
}

impl ClosingTagError {
    /// The message for this error, ending with the element's name.
    pub fn message(&self) -> (r: String)
        ensures
            r@ == "There should be an closing tag for tag "@ + self.0@,
    {
        let mut r = String::from_str("There should be an closing tag for tag ");
        r.append(self.0.as_str());
        r
    }
}

} // verus!
