//! The node graph that a document owns.
//!
//! The records follow the layout of the classic C document tree: a node has a
//! kind, a name, a textual payload, children, attributes and a namespace
//! binding. Links between records are ownership (`Vec`), so a tree is
//! well formed by construction and released as a whole with its document.

use vstd::prelude::*;

verus! {

/// The kind of a node.
#[allow(non_camel_case_types)]
#[derive(Clone, Copy, Debug, PartialEq, Eq, Structural)]
pub enum xmlElementType {
    ElementNode,
    AttributeNode,
    TextNode,
    CDataSectionNode,
    EntityRefNode,
    EntityNode,
    PINode,
    CommentNode,
    DocumentNode,
    DocumentTypeNode,
    DocumentFragNode,
    NotationNode,
    HtmlDocumentNode,
    DTDNode,
    ElementDecl,
    AttributeDecl,
    EntityDecl,
    NamespaceDecl,
    XIncludeStart,
    XIncludeEnd,
    DOCBDocumentNode,
}

/// A namespace binding: an optional prefix and the URI it stands for.
#[allow(non_camel_case_types)]
#[derive(Debug, PartialEq, Eq)]
pub struct xmlNs {
    pub href: Vec<u8>,
    pub prefix: Option<Vec<u8>>,
}

/// An attribute of an element. Its value is held by its children.
#[allow(non_camel_case_types)]
#[derive(Debug, PartialEq, Eq)]
pub struct xmlAttr {
    pub name: Option<Vec<u8>>,
    pub children: Vec<xmlNode>,
    pub ns: Option<xmlNs>,
}

/// A node of the tree.
#[allow(non_camel_case_types)]
#[allow(non_snake_case)]
#[derive(Debug, PartialEq, Eq)]
pub struct xmlNode {
    pub _type: xmlElementType,
    pub name: Option<Vec<u8>>,
    pub children: Vec<xmlNode>,
    pub ns: Option<xmlNs>,
    pub content: Option<Vec<u8>>,
    pub properties: Vec<xmlAttr>,
    pub nsDef: Vec<xmlNs>,
}

/// A whole tree: the top-level nodes and what the XML declaration said.
#[allow(non_camel_case_types)]
#[derive(Debug, PartialEq, Eq)]
pub struct xmlDoc {
    pub children: Vec<xmlNode>,
    pub version: Option<Vec<u8>>,
    pub encoding: Option<Vec<u8>>,
    pub url: Option<String>,
}

/// The mathematical value of a namespace binding.
pub struct NsView {
    pub prefix: Option<Seq<u8>>,
    pub href: Seq<u8>,
}

/// The mathematical value of an attribute.
pub struct AttrView {
    pub name: Option<Seq<u8>>,
    pub ns: Option<NsView>,
    pub children: Seq<NodeView>,
}

/// The mathematical value of a node and everything below it.
pub struct NodeView {
    pub kind: xmlElementType,
    pub name: Option<Seq<u8>>,
    pub content: Option<Seq<u8>>,
    pub ns: Option<NsView>,
    pub ns_def: Seq<NsView>,
    pub properties: Seq<AttrView>,
    pub children: Seq<NodeView>,
}

/// The mathematical value of a whole tree.
pub struct DocView {
    pub version: Option<Seq<u8>>,
    pub encoding: Option<Seq<u8>>,
    pub url: Option<Seq<char>>,
    pub children: Seq<NodeView>,
}

/// The bytes of an optional byte string.
pub open spec fn opt_bytes(o: Option<Vec<u8>>) -> Option<Seq<u8>> {
    match o {
        Some(v) => Some(v@),
        None => None,
    }
}

/// The value of an optional namespace binding.
pub open spec fn opt_ns(o: Option<xmlNs>) -> Option<NsView> {
    match o {
        Some(ns) => Some(ns@),
        None => None,
    }
}

/// The values of a list of namespace bindings, in order.
pub open spec fn ns_views(s: Seq<xmlNs>) -> Seq<NsView> {
    Seq::new(s.len(), |i: int| s[i]@)
}

/// The values of a list of nodes, in order.
pub open spec fn node_views(s: Seq<xmlNode>) -> Seq<NodeView> {
    Seq::new(s.len(), |i: int| s[i]@)
}

/// The values of a list of attributes, in order.
pub open spec fn attr_views(s: Seq<xmlAttr>) -> Seq<AttrView> {
    Seq::new(s.len(), |i: int| s[i]@)
}

impl View for xmlNs {
    type V = NsView;

    open spec fn view(&self) -> NsView {
        NsView { prefix: opt_bytes(self.prefix), href: self.href@ }
    }
}

/// The value of an attribute.
pub open spec fn attr_view(a: xmlAttr) -> AttrView
    decreases a,
{
    AttrView {
        name: opt_bytes(a.name),
        ns: opt_ns(a.ns),
        children: Seq::new(
            a.children@.len(),
            |i: int|
                if 0 <= i < a.children@.len() {
                    node_view(a.children@[i])
                } else {
                    arbitrary()
                },
        ),
    }
}

/// The value of a node and everything below it.
pub open spec fn node_view(n: xmlNode) -> NodeView
    decreases n,
{
    NodeView {
        kind: n._type,
        name: opt_bytes(n.name),
        content: opt_bytes(n.content),
        ns: opt_ns(n.ns),
        ns_def: ns_views(n.nsDef@),
        properties: Seq::new(
            n.properties@.len(),
            |i: int|
                if 0 <= i < n.properties@.len() {
                    attr_view(n.properties@[i])
                } else {
                    arbitrary()
                },
        ),
        children: Seq::new(
            n.children@.len(),
            |i: int|
                if 0 <= i < n.children@.len() {
                    node_view(n.children@[i])
                } else {
                    arbitrary()
                },
        ),
    }
}

impl View for xmlAttr {
    type V = AttrView;

    open spec fn view(&self) -> AttrView {
        attr_view(*self)
    }
}

impl View for xmlNode {
    type V = NodeView;

    open spec fn view(&self) -> NodeView {
        node_view(*self)
    }
}

impl View for xmlDoc {
    type V = DocView;

    open spec fn view(&self) -> DocView {
        DocView {
            version: opt_bytes(self.version),
            encoding: opt_bytes(self.encoding),
            url: match self.url {
                Some(u) => Some(u@),
                None => None,
            },
            children: node_views(self.children@),
        }
    }
}

/// The children of a node's value are the values of its children.
pub proof fn lemma_node_view(n: xmlNode)
    ensures
        n@.children == node_views(n.children@),
        n@.properties == attr_views(n.properties@),
{
    assert(n@.children =~= node_views(n.children@));
    assert(n@.properties =~= attr_views(n.properties@));
}

/// The children of an attribute's value are the values of its children.
pub proof fn lemma_attr_view(a: xmlAttr)
    ensures
        a@.children == node_views(a.children@),
{
    assert(a@.children =~= node_views(a.children@));
}

} // verus!
