//! The plain view of a document: elements and text, and nothing else.
//!
//! Walking the children of an element here hands out the elements and the
//! text among them; CDATA sections, comments and nodes of every other kind
//! are passed over.

use vstd::prelude::*;
use crate::document::{document_of, first_element, opt_str};
use crate::iter::lemma_filter_first;
use crate::text::{decode_opt, opt_text};
use crate::tree::{lemma_node_view, node_views, xmlElementType, xmlNode, DocView, NodeView};

verus! {

/// An XML document.
#[derive(Debug)]
pub struct Document {
    doc: crate::document::Document,
}

/// An XML element
#[derive(Clone, Copy, Debug)]
pub struct Element<'r> {
    node: &'r xmlNode,
}

/// Iterator over children of XML element
pub struct ElementChildrenIterator<'r> {
    nodes: &'r Vec<xmlNode>,
    pos: usize,
}

/// Text inside an XML.
#[derive(Clone, Copy, Debug)]
pub struct Text<'r> {
    node: &'r xmlNode,
}

/// Possible children of an element.
#[derive(Clone, Copy, Debug)]
pub enum ElementChildren<'r> {
    ElementElementChild(Element<'r>),
    TextElementChild(Text<'r>),
}

/// The kinds that the children of an element are handed out as.
pub open spec fn is_plain_child(kind: xmlElementType) -> bool {
    kind == xmlElementType::ElementNode || kind == xmlElementType::TextNode
}

impl View for Document {
    type V = DocView;

    closed spec fn view(&self) -> DocView {
        self.doc@
    }
}

impl<'r> View for Element<'r> {
    type V = NodeView;

    closed spec fn view(&self) -> NodeView {
        self.node@
    }
}

impl<'r> View for Text<'r> {
    type V = NodeView;

    closed spec fn view(&self) -> NodeView {
        self.node@
    }
}

impl<'r> View for ElementChildren<'r> {
    type V = NodeView;

    open spec fn view(&self) -> NodeView {
        match self {
            ElementChildren::ElementElementChild(e) => e@,
            ElementChildren::TextElementChild(t) => t@,
        }
    }
}

/// Whether an element's child is wrapped as its kind demands.
pub open spec fn plain_child_typed(c: ElementChildren) -> bool {
    match c {
        ElementChildren::ElementElementChild(_) => c@.kind == xmlElementType::ElementNode,
        ElementChildren::TextElementChild(_) => c@.kind == xmlElementType::TextNode,
    }
}

/// The value of an optional document.
pub open spec fn opt_doc(o: Option<Document>) -> Option<DocView> {
    match o {
        Some(d) => Some(d@),
        None => None,
    }
}

impl Document {
    /// Find the root element, if it exists.
    pub fn get_root_element<'r>(&'r self) -> (r: Option<Element<'r>>)
        ensures
            r is Some <==> first_element(self@.children) is Some,
            r matches Some(e) ==> Some(e@) == first_element(self@.children),
    {
        match self.doc.get_root_element() {
            Some(e) => Some(Element { node: e.node() }),
            None => None,
        }
    }
}

impl<'r> Element<'r> {
    /// Gets the name of the element.
    pub fn name(&self) -> (s: String)
        ensures
            s@ == opt_text(self@.name),
    {
        decode_opt(&self.node.name)
    }

    /// Iterate over children
    pub fn children_iter(&self) -> (it: ElementChildrenIterator<'r>)
        ensures
            it.siblings() == self@.children,
    {
        proof {
            lemma_node_view(*self.node);
        }
        let it = ElementChildrenIterator { nodes: &self.node.children, pos: 0 };
        assert(it.siblings() =~= node_views(self.node.children@));
        it
    }
}

impl<'r> ElementChildrenIterator<'r> {
    #[verifier::type_invariant]
    spec fn inv(self) -> bool {
        self.pos <= self.nodes@.len()
    }

    /// The siblings from the cursor on, of whatever kind. Empty when the
    /// iterator is exhausted.
    pub closed spec fn siblings(self) -> Seq<NodeView> {
        node_views(self.nodes@).skip(self.pos as int)
    }

    /// The nodes that the iterator has yet to hand out, in order.
    pub open spec fn remaining(self) -> Seq<NodeView> {
        self.siblings().filter(|n: NodeView| is_plain_child(n.kind))
    }

    /// Hands out the next child that is an element or text, and leaves the
    /// cursor behind it. Siblings of any other kind on the way are passed
    /// over. Once nothing is left, this and every later call give `None`.
    pub fn next(&mut self) -> (r: Option<ElementChildren<'r>>)
        ensures
            old(self).remaining().len() == 0 ==> r is None && final(self).siblings().len() == 0
                && final(self).remaining().len() == 0,
            old(self).remaining().len() > 0 ==> r is Some && r->0@ == old(self).remaining()[0]
                && plain_child_typed(r->0) && final(self).remaining() == old(
                self,
            ).remaining().drop_first(),
            exists|k: int|
                0 <= k <= old(self).siblings().len() && final(self).siblings() == old(
                    self,
                ).siblings().skip(k),
    {
        proof {
            use_type_invariant(&*self);
        }
        let ghost keep = |n: NodeView| is_plain_child(n.kind);
        let ghost start = self.pos as int;
        loop
            invariant
                self.pos <= self.nodes@.len(),
                start <= self.pos,
                self.nodes == old(self).nodes,
                start == old(self).pos,
                keep == |n: NodeView| is_plain_child(n.kind),
                self.siblings().filter(keep) == old(self).siblings().filter(keep),
            decreases self.nodes@.len() - self.pos,
        {
            if self.pos >= self.nodes.len() {
                proof {
                    assert(self.siblings() =~= Seq::<NodeView>::empty());
                    assert(self.siblings().filter(keep) =~= Seq::<NodeView>::empty()) by {
                        reveal(Seq::filter);
                    }
                    assert(self.siblings() =~= old(self).siblings().skip(self.pos - start));
                    assert(self.remaining() =~= Seq::<NodeView>::empty());
                }
                return None;
            }
            let cur = &self.nodes[self.pos];
            let ghost before = self.siblings();
            self.pos = self.pos + 1;
            proof {
                assert(before.len() > 0);
                assert(before[0] == cur@);
                assert(self.siblings() =~= before.drop_first());
                lemma_filter_first(before, keep);
                assert(self.siblings() =~= old(self).siblings().skip(self.pos - start));
            }
            match cur._type {
                xmlElementType::ElementNode => {
                    proof {
                        assert(old(self).remaining().drop_first() =~= self.remaining());
                    }
                    return Some(ElementChildren::ElementElementChild(Element { node: cur }));
                },
                xmlElementType::TextNode => {
                    proof {
                        assert(old(self).remaining().drop_first() =~= self.remaining());
                    }
                    return Some(ElementChildren::TextElementChild(Text { node: cur }));
                },
                _ => {},
            }
        }
    }
}

impl<'r> Clone for ElementChildrenIterator<'r> {
    /// A second cursor at the same place, independent of the first.
    fn clone(&self) -> (it: Self)
        ensures
            it == *self,
    {
        proof {
            use_type_invariant(self);
        }
        ElementChildrenIterator { nodes: self.nodes, pos: self.pos }
    }
}

impl<'r> ElementChildren<'r> {
    /// Check if children is an element.
    pub fn is_element(self) -> (b: bool)
        ensures
            b == (self is ElementElementChild),
    {
        match self {
            ElementChildren::ElementElementChild(_) => true,
            _ => false,
        }
    }

    /// Check if children is text.
    pub fn is_text(self) -> (b: bool)
        ensures
            b == (self is TextElementChild),
    {
        match self {
            ElementChildren::TextElementChild(_) => true,
            _ => false,
        }
    }

    /// Get element if it is an element.
    pub fn get_element(self) -> (e: Option<Element<'r>>)
        ensures
            e == match self {
                ElementChildren::ElementElementChild(x) => Some(x),
                _ => None,
            },
    {
        match self {
            ElementChildren::ElementElementChild(e) => Some(e),
            _ => None,
        }
    }

    /// Get text if it is text.
    pub fn get_text(self) -> (t: Option<Text<'r>>)
        ensures
            t == match self {
                ElementChildren::TextElementChild(x) => Some(x),
                _ => None,
            },
    {
        match self {
            ElementChildren::TextElementChild(t) => Some(t),
            _ => None,
        }
    }
}

impl<'r> Text<'r> {
    /// The text that the node holds.
    pub fn content(&self) -> (s: String)
        ensures
            s@ == opt_text(self@.content),
    {
        decode_opt(&self.node.content)
    }
}

/// Reads the buffer treating it as if it came from url.
///
/// It returns the document if buffer contained valid XML.
pub fn read_memory_with_url(buffer: &[u8], url: Option<&str>) -> (r: Option<Document>)
    ensures
        opt_doc(r) == document_of(buffer@, opt_str(url)),
{
    match crate::document::read_memory_with_url(buffer, url) {
        Some(doc) => Some(Document { doc }),
        None => None,
    }
}

/// Reads the buffer and return the document if it contains valid XML.
pub fn read_memory(buffer: &[u8]) -> (r: Option<Document>)
    ensures
        opt_doc(r) == document_of(buffer@, None),
{
    read_memory_with_url(buffer, None)
}

} // verus!
