//! Lazy walks over sibling lists.
//!
//! Each iterator is a cursor into one list of siblings. A step takes the node
//! under the cursor, moves the cursor on, and hands the node out if its kind
//! is one that the iterator knows; nodes of other kinds are passed over. An
//! exhausted iterator stays exhausted. A copy of an iterator is a cursor of
//! its own.

use vstd::prelude::*;
use crate::dom::{AttributeChild, BorrowedAttribute, BorrowedCData, BorrowedComment};
use crate::dom::{BorrowedElement, BorrowedText, ElementChild};
use crate::text::opt_text;
use crate::tree::{attr_views, node_views, xmlAttr, xmlElementType, xmlNode, AttrView, NodeView};

verus! {

/// The kinds that the children of an element are handed out as.
pub open spec fn is_element_child(kind: xmlElementType) -> bool {
    kind == xmlElementType::ElementNode || kind == xmlElementType::TextNode || kind
        == xmlElementType::CDataSectionNode || kind == xmlElementType::CommentNode
}

/// The kinds that the children of an attribute are handed out as.
pub open spec fn is_attribute_child(kind: xmlElementType) -> bool {
    kind == xmlElementType::TextNode
}

/// The texts of the given nodes, joined in order.
pub open spec fn text_concat(nodes: Seq<NodeView>) -> Seq<char>
    decreases nodes.len(),
{
    if nodes.len() == 0 {
        Seq::empty()
    } else {
        opt_text(nodes[0].content) + text_concat(nodes.drop_first())
    }
}

/// Whether an element's child is wrapped as its kind demands.
pub open spec fn element_child_typed(c: ElementChild) -> bool {
    match c {
        ElementChild::ElementElementChild(_) => c@.kind == xmlElementType::ElementNode,
        ElementChild::TextElementChild(_) => c@.kind == xmlElementType::TextNode,
        ElementChild::CDataElementChild(_) => c@.kind == xmlElementType::CDataSectionNode,
        ElementChild::CommentElementChild(_) => c@.kind == xmlElementType::CommentNode,
    }
}

/// Filtering a list looks at its first item and then at the rest.
pub proof fn lemma_filter_first<A>(s: Seq<A>, keep: spec_fn(A) -> bool)
    requires
        s.len() > 0,
    ensures
        s.filter(keep) == if keep(s[0]) {
            seq![s[0]] + s.drop_first().filter(keep)
        } else {
            s.drop_first().filter(keep)
        },
{
    let head = seq![s[0]];
    assert(s =~= head + s.drop_first());
    Seq::filter_distributes_over_add(head, s.drop_first(), keep);
    reveal(Seq::filter);
    assert(head.drop_last() =~= Seq::<A>::empty());
    assert(head.drop_last().filter(keep) =~= Seq::<A>::empty());
    assert(head.filter(keep) =~= if keep(s[0]) {
        head
    } else {
        Seq::<A>::empty()
    });
}

/// Iterator over children of XML element
pub struct ElementChildrenIterator<'r> {
    nodes: &'r Vec<xmlNode>,
    pos: usize,
}

/// Iterator over children of attribute
pub struct AttributeChildrenIterator<'r> {
    nodes: &'r Vec<xmlNode>,
    pos: usize,
}

/// Iterator over attributes of XML element
pub struct ElementAttributeIterator<'r> {
    attrs: &'r Vec<xmlAttr>,
    pos: usize,
}

impl<'r> ElementChildrenIterator<'r> {
    #[verifier::type_invariant]
    spec fn inv(self) -> bool {
        self.pos <= self.nodes@.len()
    }

    /// The siblings from the cursor on, of whatever kind. Empty when the
    /// iterator is exhausted.
    pub closed spec fn siblings(self) -> Seq<NodeView> {
        node_views(self.nodes@).skip(self.pos as int)
    }

    /// The nodes that the iterator has yet to hand out, in order.
    pub open spec fn remaining(self) -> Seq<NodeView> {
        self.siblings().filter(|n: NodeView| is_element_child(n.kind))
    }

    pub(crate) fn new(nodes: &'r Vec<xmlNode>) -> (it: Self)
        ensures
            it.siblings() == node_views(nodes@),
    {
        let it = ElementChildrenIterator { nodes, pos: 0 };
        assert(it.siblings() =~= node_views(nodes@));
        it
    }

    /// Hands out the next child that is an element, text, a CDATA section or
    /// a comment, and leaves the cursor behind it. Siblings of any other kind
    /// on the way are passed over. Once nothing is left, this and every later
    /// call give `None`.
    pub fn next(&mut self) -> (r: Option<ElementChild<'r>>)
        ensures
            old(self).remaining().len() == 0 ==> r is None && final(self).siblings().len() == 0
                && final(self).remaining().len() == 0,
            old(self).remaining().len() > 0 ==> r is Some && r->0@ == old(self).remaining()[0]
                && element_child_typed(r->0) && final(self).remaining() == old(
                self,
            ).remaining().drop_first(),
            exists|k: int|
                0 <= k <= old(self).siblings().len() && final(self).siblings() == old(
                    self,
                ).siblings().skip(k),
    {
        proof {
            use_type_invariant(&*self);
        }
        let ghost keep = |n: NodeView| is_element_child(n.kind);
        let ghost start = self.pos as int;
        loop
            invariant
                self.pos <= self.nodes@.len(),
                start <= self.pos,
                self.nodes == old(self).nodes,
                start == old(self).pos,
                keep == |n: NodeView| is_element_child(n.kind),
                self.siblings().filter(keep) == old(self).siblings().filter(keep),
            decreases self.nodes@.len() - self.pos,
        {
            if self.pos >= self.nodes.len() {
                proof {
                    assert(self.siblings() =~= Seq::<NodeView>::empty());
                    assert(self.siblings().filter(keep) =~= Seq::<NodeView>::empty()) by {
                        reveal(Seq::filter);
                    }
                    assert(self.siblings() =~= old(self).siblings().skip(self.pos - start));
                    assert(self.remaining() =~= Seq::<NodeView>::empty());
                }
                return None;
            }
            let cur = &self.nodes[self.pos];
            let ghost before = self.siblings();
            self.pos = self.pos + 1;
            proof {
                assert(before.len() > 0);
                assert(before[0] == cur@);
                assert(self.siblings() =~= before.drop_first());
                lemma_filter_first(before, keep);
                assert(self.siblings() =~= old(self).siblings().skip(self.pos - start));
            }
            match cur._type {
                xmlElementType::ElementNode => {
                    proof {
                        assert(old(self).remaining().drop_first() =~= self.remaining());
                    }
                    return Some(ElementChild::ElementElementChild(BorrowedElement::new(cur)));
                },
                xmlElementType::TextNode => {
                    proof {
                        assert(old(self).remaining().drop_first() =~= self.remaining());
                    }
                    return Some(ElementChild::TextElementChild(BorrowedText::new(cur)));
                },
                xmlElementType::CDataSectionNode => {
                    proof {
                        assert(old(self).remaining().drop_first() =~= self.remaining());
                    }
                    return Some(ElementChild::CDataElementChild(BorrowedCData::new(cur)));
                },
                xmlElementType::CommentNode => {
                    proof {
                        assert(old(self).remaining().drop_first() =~= self.remaining());
                    }
                    return Some(ElementChild::CommentElementChild(BorrowedComment::new(cur)));
                },
                _ => {},
            }
        }
    }
}

impl<'r> Clone for ElementChildrenIterator<'r> {
    /// A second cursor at the same place, independent of the first.
    fn clone(&self) -> (it: Self)
        ensures
            it == *self,
    {
        proof {
            use_type_invariant(self);
        }
        ElementChildrenIterator { nodes: self.nodes, pos: self.pos }
    }
}

impl<'r> AttributeChildrenIterator<'r> {
    #[verifier::type_invariant]
    spec fn inv(self) -> bool {
        self.pos <= self.nodes@.len()
    }

    /// The siblings from the cursor on, of whatever kind. Empty when the
    /// iterator is exhausted.
    pub closed spec fn siblings(self) -> Seq<NodeView> {
        node_views(self.nodes@).skip(self.pos as int)
    }

    /// The nodes that the iterator has yet to hand out, in order.
    pub open spec fn remaining(self) -> Seq<NodeView> {
        self.siblings().filter(|n: NodeView| is_attribute_child(n.kind))
    }

    pub(crate) fn new(nodes: &'r Vec<xmlNode>) -> (it: Self)
        ensures
            it.siblings() == node_views(nodes@),
    {
        let it = AttributeChildrenIterator { nodes, pos: 0 };
        assert(it.siblings() =~= node_views(nodes@));
        it
    }

    /// Hands out the next child that is text and leaves the cursor behind it.
    /// Siblings of any other kind on the way are passed over. Once nothing is
    /// left, this and every later call give `None`.
    pub fn next(&mut self) -> (r: Option<AttributeChild<'r>>)
        ensures
            old(self).remaining().len() == 0 ==> r is None && final(self).siblings().len() == 0
                && final(self).remaining().len() == 0,
            old(self).remaining().len() > 0 ==> r is Some && r->0@ == old(self).remaining()[0]
                && r->0@.kind == xmlElementType::TextNode && final(self).remaining() == old(
                self,
            ).remaining().drop_first(),
            exists|k: int|
                0 <= k <= old(self).siblings().len() && final(self).siblings() == old(
                    self,
                ).siblings().skip(k),
    {
        proof {
            use_type_invariant(&*self);
        }
        let ghost keep = |n: NodeView| is_attribute_child(n.kind);
        let ghost start = self.pos as int;
        loop
            invariant
                self.pos <= self.nodes@.len(),
                start <= self.pos,
                self.nodes == old(self).nodes,
                start == old(self).pos,
                keep == |n: NodeView| is_attribute_child(n.kind),
                self.siblings().filter(keep) == old(self).siblings().filter(keep),
            decreases self.nodes@.len() - self.pos,
        {
            if self.pos >= self.nodes.len() {
                proof {
                    assert(self.siblings() =~= Seq::<NodeView>::empty());
                    assert(self.siblings().filter(keep) =~= Seq::<NodeView>::empty()) by {
                        reveal(Seq::filter);
                    }
                    assert(self.siblings() =~= old(self).siblings().skip(self.pos - start));
                    assert(self.remaining() =~= Seq::<NodeView>::empty());
                }
                return None;
            }
            let cur = &self.nodes[self.pos];
            let ghost before = self.siblings();
            self.pos = self.pos + 1;
            proof {
                assert(before.len() > 0);
                assert(before[0] == cur@);
                assert(self.siblings() =~= before.drop_first());
                lemma_filter_first(before, keep);
                assert(self.siblings() =~= old(self).siblings().skip(self.pos - start));
            }
            match cur._type {
                xmlElementType::TextNode => {
                    proof {
                        assert(old(self).remaining().drop_first() =~= self.remaining());
                    }
                    return Some(AttributeChild::TextAttributeChild(BorrowedText::new(cur)));
                },
                _ => {},
            }
        }
    }
}

impl<'r> Clone for AttributeChildrenIterator<'r> {
    /// A second cursor at the same place, independent of the first.
    fn clone(&self) -> (it: Self)
        ensures
            it == *self,
    {
        proof {
            use_type_invariant(self);
        }
        AttributeChildrenIterator { nodes: self.nodes, pos: self.pos }
    }
}

impl<'r> ElementAttributeIterator<'r> {
    #[verifier::type_invariant]
    spec fn inv(self) -> bool {
        self.pos <= self.attrs@.len()
    }

    /// The attributes that the iterator has yet to hand out, in order.
    pub closed spec fn remaining(self) -> Seq<AttrView> {
        attr_views(self.attrs@).skip(self.pos as int)
    }

    pub(crate) fn new(attrs: &'r Vec<xmlAttr>) -> (it: Self)
        ensures
            it.remaining() == attr_views(attrs@),
    {
        let it = ElementAttributeIterator { attrs, pos: 0 };
        assert(it.remaining() =~= attr_views(attrs@));
        it
    }

    /// Hands out the next attribute and leaves the cursor behind it. Once
    /// nothing is left, this and every later call give `None`.
    pub fn next(&mut self) -> (r: Option<BorrowedAttribute<'r>>)
        ensures
            old(self).remaining().len() == 0 ==> r is None && final(self).remaining().len() == 0,
            old(self).remaining().len() > 0 ==> r is Some && r->0@ == old(self).remaining()[0]
                && final(self).remaining() == old(self).remaining().drop_first(),
    {
        proof {
            use_type_invariant(&*self);
        }
        if self.pos >= self.attrs.len() {
            return None;
        }
        let cur = &self.attrs[self.pos];
        self.pos = self.pos + 1;
        proof {
            assert(old(self).remaining().drop_first() =~= self.remaining());
        }
        Some(BorrowedAttribute::new(cur))
    }
}

impl<'r> Clone for ElementAttributeIterator<'r> {
    /// A second cursor at the same place, independent of the first.
    fn clone(&self) -> (it: Self)
        ensures
            it == *self,
    {
        proof {
            use_type_invariant(self);
        }
        ElementAttributeIterator { attrs: self.attrs, pos: self.pos }
    }
}

/// Iterator independence, for the children of an element. A copy of an
/// iterator is a cursor of its own: it starts where the iterator stands, so
/// both have the same nodes left; and when the copy has moved on by any
/// number of steps, the iterator still has all of its own nodes left, with
/// what the copy has left as their tail. The same holds with the two
/// exchanged.
pub proof fn lemma_element_children_copy_independent(
    source: ElementChildrenIterator,
    copy: ElementChildrenIterator,
    moved: ElementChildrenIterator,
    steps: nat,
)
    requires
        copy == source,
        steps <= copy.remaining().len(),
        moved.remaining() == copy.remaining().skip(steps as int),
    ensures
        source.siblings() == copy.siblings(),
        source.remaining() == copy.remaining(),
        source.remaining().skip(steps as int) == moved.remaining(),
        source.remaining().len() == moved.remaining().len() + steps,
{
}

/// Iterator independence, for the children of an attribute.
pub proof fn lemma_attribute_children_copy_independent(
    source: AttributeChildrenIterator,
    copy: AttributeChildrenIterator,
    moved: AttributeChildrenIterator,
    steps: nat,
)
    requires
        copy == source,
        steps <= copy.remaining().len(),
        moved.remaining() == copy.remaining().skip(steps as int),
    ensures
        source.siblings() == copy.siblings(),
        source.remaining() == copy.remaining(),
        source.remaining().skip(steps as int) == moved.remaining(),
        source.remaining().len() == moved.remaining().len() + steps,
{
}

/// Iterator independence, for the attributes of an element.
pub proof fn lemma_attributes_copy_independent(
    source: ElementAttributeIterator,
    copy: ElementAttributeIterator,
    moved: ElementAttributeIterator,
    steps: nat,
)
    requires
        copy == source,
        steps <= copy.remaining().len(),
        moved.remaining() == copy.remaining().skip(steps as int),
    ensures
        source.remaining() == copy.remaining(),
        source.remaining().skip(steps as int) == moved.remaining(),
        source.remaining().len() == moved.remaining().len() + steps,
{
}

} // verus!
