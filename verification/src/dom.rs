//! Borrowed, read-only views of the nodes of a document.

use vstd::prelude::*;
use crate::iter::{AttributeChildrenIterator, ElementAttributeIterator, ElementChildrenIterator};
use crate::iter::{is_attribute_child, text_concat};
use crate::text::{decode_opt, decode_text, lossy_text, opt_text};
use crate::tree::{xmlAttr, xmlNode, xmlNs, AttrView, NodeView, NsView};
use crate::tree::{lemma_attr_view, lemma_node_view};

verus! {

/// An XML node that contains text.
pub trait TextNode {
    /// The text that the node holds.
    spec fn text(&self) -> Seq<char>;

    /// Decodes the node's text into an owned string.
    fn content(&self) -> (s: String)
        ensures
            s@ == self.text(),
    ;
}

/// An XML node with a name and namespace.
pub trait NamedNode {
    /// The node's name without its prefix; empty where the node has none.
    spec fn local_name(&self) -> Seq<char>;

    /// The node's namespace binding, if it has one.
    spec fn binding(&self) -> Option<NsView>;

    /// Decodes the node's name into an owned string.
    fn name(&self) -> (s: String)
        ensures
            s@ == self.local_name(),
    ;

    /// The namespace that the node is in, if any.
    fn namespace<'r>(&'r self) -> (ns: Option<BorrowedNamespace<'r>>)
        ensures
            ns is Some <==> self.binding() is Some,
            ns matches Some(b) ==> Some(b@) == self.binding(),
    ;
}

/// An attribute of element.
#[derive(Clone, Copy, Debug)]
pub struct BorrowedAttribute<'r> {
    attr: &'r xmlAttr,
}

/// A CDATA section.
#[derive(Clone, Copy, Debug)]
pub struct BorrowedCData<'r> {
    node: &'r xmlNode,
}

/// An XML comment.
#[derive(Clone, Copy, Debug)]
pub struct BorrowedComment<'r> {
    node: &'r xmlNode,
}

/// An XML element
#[derive(Clone, Copy, Debug)]
pub struct BorrowedElement<'r> {
    node: &'r xmlNode,
}

/// An XML namespace
#[derive(Clone, Copy, Debug)]
pub struct BorrowedNamespace<'r> {
    ns: &'r xmlNs,
}

/// Text inside an XML.
#[derive(Clone, Copy, Debug)]
pub struct BorrowedText<'r> {
    node: &'r xmlNode,
}

/// Possible children of an attribute.
#[derive(Clone, Copy, Debug)]
pub enum AttributeChild<'r> {
    TextAttributeChild(BorrowedText<'r>),
}

/// Possible children of an element.
#[derive(Clone, Copy, Debug)]
pub enum ElementChild<'r> {
    ElementElementChild(BorrowedElement<'r>),
    TextElementChild(BorrowedText<'r>),
    CDataElementChild(BorrowedCData<'r>),
    CommentElementChild(BorrowedComment<'r>),
}

impl<'r> View for BorrowedAttribute<'r> {
    type V = AttrView;

    closed spec fn view(&self) -> AttrView {
        self.attr@
    }
}

impl<'r> View for BorrowedCData<'r> {
    type V = NodeView;

    closed spec fn view(&self) -> NodeView {
        self.node@
    }
}

impl<'r> View for BorrowedComment<'r> {
    type V = NodeView;

    closed spec fn view(&self) -> NodeView {
        self.node@
    }
}

impl<'r> View for BorrowedElement<'r> {
    type V = NodeView;

    closed spec fn view(&self) -> NodeView {
        self.node@
    }
}

impl<'r> View for BorrowedNamespace<'r> {
    type V = NsView;

    closed spec fn view(&self) -> NsView {
        self.ns@
    }
}

impl<'r> View for BorrowedText<'r> {
    type V = NodeView;

    closed spec fn view(&self) -> NodeView {
        self.node@
    }
}

impl<'r> View for AttributeChild<'r> {
    type V = NodeView;

    open spec fn view(&self) -> NodeView {
        match self {
            AttributeChild::TextAttributeChild(t) => t@,
        }
    }
}

impl<'r> View for ElementChild<'r> {
    type V = NodeView;

    open spec fn view(&self) -> NodeView {
        match self {
            ElementChild::ElementElementChild(e) => e@,
            ElementChild::TextElementChild(t) => t@,
            ElementChild::CDataElementChild(c) => c@,
            ElementChild::CommentElementChild(c) => c@,
        }
    }
}

impl<'r> BorrowedComment<'r> {
    pub(crate) fn new(node: &'r xmlNode) -> (c: Self)
        ensures
            c@ == node@,
    {
        BorrowedComment { node }
    }

    /// Get comment contents.
    pub fn comment(&self) -> (s: String)
        ensures
            s@ == opt_text(self@.content),
    {
        decode_opt(&self.node.content)
    }
}

impl<'r> BorrowedCData<'r> {
    pub(crate) fn new(node: &'r xmlNode) -> (c: Self)
        ensures
            c@ == node@,
    {
        BorrowedCData { node }
    }
}

impl<'r> BorrowedText<'r> {
    pub(crate) fn new(node: &'r xmlNode) -> (t: Self)
        ensures
            t@ == node@,
    {
        BorrowedText { node }
    }
}

impl<'r> BorrowedAttribute<'r> {
    pub(crate) fn new(attr: &'r xmlAttr) -> (a: Self)
        ensures
            a@ == attr@,
    {
        BorrowedAttribute { attr }
    }

    /// Iterate over children
    pub fn children_iter(&self) -> (it: AttributeChildrenIterator<'r>)
        ensures
            it.siblings() == self@.children,
    {
        proof {
            lemma_attr_view(*self.attr);
        }
        AttributeChildrenIterator::new(&self.attr.children)
    }

    /// Gets the value of the attribute: the text of its text children, in
    /// document order, joined together.
    pub fn value(&self) -> (s: String)
        ensures
            s@ == text_concat(self@.children.filter(|n: NodeView| is_attribute_child(n.kind))),
    {
        let mut it = self.children_iter();
        let mut out = String::new();
        let ghost all = it.remaining();
        loop
            invariant
                all == self@.children.filter(|n: NodeView| is_attribute_child(n.kind)),
                text_concat(all) == out@ + text_concat(it.remaining()),
            decreases it.remaining().len(),
        {
            match it.next() {
                Some(AttributeChild::TextAttributeChild(t)) => {
                    let piece = t.content();
                    out.append(piece.as_str());
                    proof {
                        assert(out@ + text_concat(it.remaining()) == text_concat(all)) by {
                            let before = seq![t@] + it.remaining();
                            assert(before.drop_first() =~= it.remaining());
                        }
                    }
                },
                None => {
                    return out;
                },
            }
        }
    }
}

impl<'r> BorrowedElement<'r> {
    pub(crate) fn new(node: &'r xmlNode) -> (e: Self)
        ensures
            e@ == node@,
    {
        BorrowedElement { node }
    }

    /// Iterate over children
    pub fn children_iter(&self) -> (it: ElementChildrenIterator<'r>)
        ensures
            it.siblings() == self@.children,
    {
        proof {
            lemma_node_view(*self.node);
        }
        ElementChildrenIterator::new(&self.node.children)
    }

    pub(crate) fn node(&self) -> (n: &'r xmlNode)
        ensures
            n@ == self@,
    {
        self.node
    }

    /// Iterate over arguments.
    pub fn attribute_iter(&self) -> (it: ElementAttributeIterator<'r>)
        ensures
            it.remaining() == self@.properties,
    {
        proof {
            lemma_node_view(*self.node);
        }
        ElementAttributeIterator::new(&self.node.properties)
    }
}

impl<'r> BorrowedNamespace<'r> {
    pub(crate) fn new(ns: &'r xmlNs) -> (b: Self)
        ensures
            b@ == ns@,
    {
        BorrowedNamespace { ns }
    }

    /// Get the namespace URI
    pub fn href(&self) -> (s: String)
        ensures
            s@ == lossy_text(self@.href),
    {
        decode_text(self.ns.href.as_slice())
    }

    /// Get the namespace prefix
    pub fn prefix(&self) -> (p: Option<String>)
        ensures
            p is Some <==> self@.prefix is Some,
            p matches Some(s) ==> s@ == lossy_text(self@.prefix->0),
    {
        match &self.ns.prefix {
            Some(p) => Some(decode_text(p.as_slice())),
            None => None,
        }
    }
}

impl<'r> AttributeChild<'r> {
    /// Check if children is text
    pub fn is_text(self) -> (b: bool)
        ensures
            b == (self is TextAttributeChild),
            b,
    {
        match self {
            AttributeChild::TextAttributeChild(_) => true,
        }
    }

    /// Return text if it is text
    pub fn get_text(self) -> (t: Option<BorrowedText<'r>>)
        ensures
            t == Some(self->TextAttributeChild_0),
    {
        match self {
            AttributeChild::TextAttributeChild(t) => Some(t),
        }
    }
}

impl<'r> ElementChild<'r> {
    /// Check if child is an element.
    pub fn is_element(self) -> (b: bool)
        ensures
            b == (self is ElementElementChild),
    {
        match self {
            ElementChild::ElementElementChild(_) => true,
            _ => false,
        }
    }

    /// Check if child is text.
    pub fn is_text(self) -> (b: bool)
        ensures
            b == (self is TextElementChild),
    {
        match self {
            ElementChild::TextElementChild(_) => true,
            _ => false,
        }
    }

    /// Check if child is CDATA section
    pub fn is_cdata(self) -> (b: bool)
        ensures
            b == (self is CDataElementChild),
    {
        match self {
            ElementChild::CDataElementChild(_) => true,
            _ => false,
        }
    }

    /// Check if child is a comment.
    pub fn is_comment(self) -> (b: bool)
        ensures
            b == (self is CommentElementChild),
    {
        match self {
            ElementChild::CommentElementChild(_) => true,
            _ => false,
        }
    }

    /// Get element if it is an element.
    pub fn get_element(self) -> (e: Option<BorrowedElement<'r>>)
        ensures
            e == match self {
                ElementChild::ElementElementChild(x) => Some(x),
                _ => None,
            },
    {
        match self {
            ElementChild::ElementElementChild(e) => Some(e),
            _ => None,
        }
    }

    /// Get text if it is text.
    pub fn get_text(self) -> (t: Option<BorrowedText<'r>>)
        ensures
            t == match self {
                ElementChild::TextElementChild(x) => Some(x),
                _ => None,
            },
    {
        match self {
            ElementChild::TextElementChild(t) => Some(t),
            _ => None,
        }
    }

    /// Get cdata section if it is cdata section.
    pub fn get_cdata(self) -> (c: Option<BorrowedCData<'r>>)
        ensures
            c == match self {
                ElementChild::CDataElementChild(x) => Some(x),
                _ => None,
            },
    {
        match self {
            ElementChild::CDataElementChild(cd) => Some(cd),
            _ => None,
        }
    }

    /// Get comment if it is a comment.
    pub fn get_comment(self) -> (c: Option<BorrowedComment<'r>>)
        ensures
            c == match self {
                ElementChild::CommentElementChild(x) => Some(x),
                _ => None,
            },
    {
        match self {
            ElementChild::CommentElementChild(c) => Some(c),
            _ => None,
        }
    }
}

impl<'r> NamedNode for BorrowedAttribute<'r> {
    open spec fn local_name(&self) -> Seq<char> {
        opt_text(self@.name)
    }

    open spec fn binding(&self) -> Option<NsView> {
        self@.ns
    }

    fn name(&self) -> (s: String) {
        decode_opt(&self.attr.name)
    }

    fn namespace<'t>(&'t self) -> (ns: Option<BorrowedNamespace<'t>>) {
        match &self.attr.ns {
            Some(ns) => Some(BorrowedNamespace::new(ns)),
            None => None,
        }
    }
}

impl<'r> TextNode for BorrowedCData<'r> {
    open spec fn text(&self) -> Seq<char> {
        opt_text(self@.content)
    }

    fn content(&self) -> (s: String) {
        decode_opt(&self.node.content)
    }
}

impl<'r> NamedNode for BorrowedElement<'r> {
    open spec fn local_name(&self) -> Seq<char> {
        opt_text(self@.name)
    }

    open spec fn binding(&self) -> Option<NsView> {
        self@.ns
    }

    fn name(&self) -> (s: String) {
        decode_opt(&self.node.name)
    }

    fn namespace<'t>(&'t self) -> (ns: Option<BorrowedNamespace<'t>>) {
        match &self.node.ns {
            Some(ns) => Some(BorrowedNamespace::new(ns)),
            None => None,
        }
    }
}

impl<'r> TextNode for BorrowedText<'r> {
    open spec fn text(&self) -> Seq<char> {
        opt_text(self@.content)
    }

    fn content(&self) -> (s: String) {
        decode_opt(&self.node.content)
    }
}

} // verus!
