//! The writer of the engine: the bytes that a tree is written as, and the
//! function that produces them.
//!
//! A document is written as an XML declaration and its top-level nodes, each
//! on a line of its own. Markup characters in text and in attribute values
//! are written as references, so that what was written reads back as the same
//! text.

use vstd::prelude::*;
use crate::syntax::push_all;
use crate::syntax::{kw_cdata_close, kw_cdata_open, kw_comment_close, kw_comment_open};
use crate::syntax::{kw_default_version, kw_empty_close, kw_end_tag, kw_pi_close, kw_pi_open};
use crate::syntax::{kw_ref_amp, kw_ref_gt, kw_ref_lt, kw_ref_quot};
use crate::syntax::{AMP, BANG, COLON, CR, DASH, DOT, EQUALS, GT, HASH, LBRACK, LF, LT, QUEST};
use crate::syntax::{QUOT, RBRACK, SEMI, SLASH, SPACE, TAB};
use crate::tree::{attr_views, lemma_attr_view, lemma_node_view, node_views, ns_views, opt_bytes};
use crate::tree::{opt_ns, xmlAttr, xmlDoc, xmlElementType, xmlNode, xmlNs};
use crate::tree::{AttrView, DocView, NodeView, NsView};

verus! {

/// `&#9;`
pub open spec fn kw_ref_tab() -> Seq<u8> {
    seq![AMP, HASH, 0x39u8, SEMI]
}

/// `&#10;`
pub open spec fn kw_ref_lf() -> Seq<u8> {
    seq![AMP, HASH, 0x31u8, 0x30u8, SEMI]
}

/// `&#13;`
pub open spec fn kw_ref_cr() -> Seq<u8> {
    seq![AMP, HASH, 0x31u8, 0x33u8, SEMI]
}

/// ` xmlns`
pub open spec fn kw_ns_attr() -> Seq<u8> {
    seq![SPACE, 0x78u8, 0x6du8, 0x6cu8, 0x6eu8, 0x73u8]
}

/// `="`
pub open spec fn kw_eq_quote() -> Seq<u8> {
    seq![EQUALS, QUOT]
}

/// `<?xml version="`
pub open spec fn kw_decl_open() -> Seq<u8> {
    seq![
        LT,
        QUEST,
        0x78u8,
        0x6du8,
        0x6cu8,
        SPACE,
        0x76u8,
        0x65u8,
        0x72u8,
        0x73u8,
        0x69u8,
        0x6fu8,
        0x6eu8,
        EQUALS,
        QUOT,
    ]
}

/// ` encoding="`
pub open spec fn kw_decl_encoding() -> Seq<u8> {
    seq![SPACE, 0x65u8, 0x6eu8, 0x63u8, 0x6fu8, 0x64u8, 0x69u8, 0x6eu8, 0x67u8, EQUALS, QUOT]
}

/// A byte of text as it is written.
pub open spec fn escape_text_byte(b: u8) -> Seq<u8> {
    if b == LT {
        kw_ref_lt()
    } else if b == GT {
        kw_ref_gt()
    } else if b == AMP {
        kw_ref_amp()
    } else if b == CR {
        kw_ref_cr()
    } else {
        seq![b]
    }
}

/// A byte of an attribute value as it is written.
pub open spec fn escape_attr_byte(b: u8) -> Seq<u8> {
    if b == LT {
        kw_ref_lt()
    } else if b == GT {
        kw_ref_gt()
    } else if b == AMP {
        kw_ref_amp()
    } else if b == QUOT {
        kw_ref_quot()
    } else if b == TAB {
        kw_ref_tab()
    } else if b == LF {
        kw_ref_lf()
    } else if b == CR {
        kw_ref_cr()
    } else {
        seq![b]
    }
}

/// Text as it is written.
pub open spec fn escape_text(s: Seq<u8>) -> Seq<u8>
    decreases s.len(),
{
    if s.len() == 0 {
        Seq::empty()
    } else {
        escape_text(s.drop_last()) + escape_text_byte(s.last())
    }
}

/// An attribute value as it is written.
pub open spec fn escape_attr(s: Seq<u8>) -> Seq<u8>
    decreases s.len(),
{
    if s.len() == 0 {
        Seq::empty()
    } else {
        escape_attr(s.drop_last()) + escape_attr_byte(s.last())
    }
}

/// The bytes of an optional byte string; none where it is absent.
pub open spec fn bytes_or_empty(o: Option<Seq<u8>>) -> Seq<u8> {
    match o {
        Some(b) => b,
        None => Seq::empty(),
    }
}

/// A name as it is written: with its prefix, where its namespace has one.
pub open spec fn qualified_name(name: Option<Seq<u8>>, ns: Option<NsView>) -> Seq<u8> {
    match ns {
        Some(b) => match b.prefix {
            Some(p) => p + seq![COLON] + bytes_or_empty(name),
            None => bytes_or_empty(name),
        },
        None => bytes_or_empty(name),
    }
}

/// A namespace declaration as it is written in a start tag.
pub open spec fn write_ns_decl(ns: NsView) -> Seq<u8> {
    kw_ns_attr() + (match ns.prefix {
        Some(p) => seq![COLON] + p,
        None => Seq::empty(),
    }) + kw_eq_quote() + escape_attr(ns.href) + seq![QUOT]
}

/// The namespace declarations of a start tag.
pub open spec fn write_ns_decls(s: Seq<NsView>) -> Seq<u8>
    decreases s.len(),
{
    if s.len() == 0 {
        Seq::empty()
    } else {
        write_ns_decls(s.drop_last()) + write_ns_decl(s.last())
    }
}

/// A child of an attribute as it is written inside the quotes: text escaped,
/// an entity reference by its name, anything else not at all.
pub open spec fn write_value_part(n: NodeView) -> Seq<u8> {
    if n.kind == xmlElementType::TextNode {
        escape_attr(bytes_or_empty(n.content))
    } else if n.kind == xmlElementType::EntityRefNode {
        seq![AMP] + bytes_or_empty(n.name) + seq![SEMI]
    } else {
        Seq::empty()
    }
}

/// The value of an attribute as it is written inside the quotes.
pub open spec fn write_value(s: Seq<NodeView>) -> Seq<u8>
    decreases s.len(),
{
    if s.len() == 0 {
        Seq::empty()
    } else {
        write_value(s.drop_last()) + write_value_part(s.last())
    }
}

/// An attribute as it is written in a start tag.
pub open spec fn write_attr(a: AttrView) -> Seq<u8> {
    seq![SPACE] + qualified_name(a.name, a.ns) + kw_eq_quote() + write_value(a.children)
        + seq![QUOT]
}

/// The attributes of a start tag.
pub open spec fn write_attrs(s: Seq<AttrView>) -> Seq<u8>
    decreases s.len(),
{
    if s.len() == 0 {
        Seq::empty()
    } else {
        write_attrs(s.drop_last()) + write_attr(s.last())
    }
}

/// A start tag up to, and without, its closing `>` or `/>`.
pub open spec fn write_tag_open(n: NodeView) -> Seq<u8> {
    seq![LT] + qualified_name(n.name, n.ns) + write_ns_decls(n.ns_def) + write_attrs(n.properties)
}

/// A processing instruction as it is written.
pub open spec fn write_pi(n: NodeView) -> Seq<u8> {
    kw_pi_open() + bytes_or_empty(n.name) + (match n.content {
        Some(data) => seq![SPACE] + data,
        None => Seq::empty(),
    }) + kw_pi_close()
}

/// A node and everything below it as they are written. Kinds that have no
/// written form give nothing.
pub open spec fn write_node(n: NodeView) -> Seq<u8>
    decreases n,
{
    match n.kind {
        xmlElementType::ElementNode => if n.children.len() == 0 {
            write_tag_open(n) + kw_empty_close()
        } else {
            write_tag_open(n) + seq![GT] + write_nodes(n.children) + kw_end_tag() + qualified_name(
                n.name,
                n.ns,
            ) + seq![GT]
        },
        xmlElementType::TextNode => escape_text(bytes_or_empty(n.content)),
        xmlElementType::CDataSectionNode => kw_cdata_open() + bytes_or_empty(n.content)
            + kw_cdata_close(),
        xmlElementType::CommentNode => kw_comment_open() + bytes_or_empty(n.content)
            + kw_comment_close(),
        xmlElementType::PINode => write_pi(n),
        xmlElementType::EntityRefNode => seq![AMP] + bytes_or_empty(n.name) + seq![SEMI],
        _ => Seq::empty(),
    }
}

/// A list of nodes as they are written, one after the other.
pub open spec fn write_nodes(s: Seq<NodeView>) -> Seq<u8>
    decreases s,
{
    if s.len() == 0 {
        Seq::empty()
    } else {
        write_nodes(s.drop_last()) + write_node(s.last())
    }
}

/// The top-level nodes of a document as they are written: each on a line of
/// its own.
pub open spec fn write_top(s: Seq<NodeView>) -> Seq<u8>
    decreases s.len(),
{
    if s.len() == 0 {
        Seq::empty()
    } else {
        write_top(s.drop_last()) + write_node(s.last()) + seq![LF]
    }
}

/// The XML declaration as it is written. A document without a version is
/// written as version 1.0.
pub open spec fn write_declaration(d: DocView) -> Seq<u8> {
    kw_decl_open() + (match d.version {
        Some(v) => v,
        None => kw_default_version(),
    }) + seq![QUOT] + (match d.encoding {
        Some(e) => kw_decl_encoding() + e + seq![QUOT],
        None => Seq::empty(),
    }) + kw_pi_close() + seq![LF]
}

/// A whole document as it is written.
pub open spec fn write_document(d: DocView) -> Seq<u8> {
    write_declaration(d) + write_top(d.children)
}

/// Adds text to `out` as it is written.
pub(crate) fn put_text(out: &mut Vec<u8>, s: &[u8])
    ensures
        final(out)@ == old(out)@ + escape_text(s@),
{
    let lt: [u8; 4] = [AMP, 0x6c, 0x74, SEMI];
    let gt: [u8; 4] = [AMP, 0x67, 0x74, SEMI];
    let amp: [u8; 5] = [AMP, 0x61, 0x6d, 0x70, SEMI];
    let cr: [u8; 5] = [AMP, HASH, 0x31, 0x33, SEMI];
    proof {
        assert(lt@ =~= kw_ref_lt());
        assert(gt@ =~= kw_ref_gt());
        assert(amp@ =~= kw_ref_amp());
        assert(cr@ =~= kw_ref_cr());
        assert(old(out)@ + escape_text(s@.take(0)) =~= old(out)@);
    }
    let mut k: usize = 0;
    while k < s.len()
        invariant
            k <= s@.len(),
            lt@ == kw_ref_lt(),
            gt@ == kw_ref_gt(),
            amp@ == kw_ref_amp(),
            cr@ == kw_ref_cr(),
            out@ == old(out)@ + escape_text(s@.take(k as int)),
        decreases s@.len() - k,
    {
        let b = s[k];
        let ghost before = out@;
        if b == LT {
            push_all(out, &lt);
        } else if b == GT {
            push_all(out, &gt);
        } else if b == AMP {
            push_all(out, &amp);
        } else if b == CR {
            push_all(out, &cr);
        } else {
            out.push(b);
            assert(out@ =~= before + seq![b]);
        }
        proof {
            let next = s@.take(k + 1);
            assert(next.drop_last() =~= s@.take(k as int));
            assert(next.last() == b);
            assert(out@ =~= old(out)@ + escape_text(next));
        }
        k = k + 1;
    }
    proof {
        assert(s@.take(s@.len() as int) =~= s@);
    }
}

/// Adds an attribute value to `out` as it is written.
pub(crate) fn put_attr_text(out: &mut Vec<u8>, s: &[u8])
    ensures
        final(out)@ == old(out)@ + escape_attr(s@),
{
    let lt: [u8; 4] = [AMP, 0x6c, 0x74, SEMI];
    let gt: [u8; 4] = [AMP, 0x67, 0x74, SEMI];
    let amp: [u8; 5] = [AMP, 0x61, 0x6d, 0x70, SEMI];
    let quot: [u8; 6] = [AMP, 0x71, 0x75, 0x6f, 0x74, SEMI];
    let tab: [u8; 4] = [AMP, HASH, 0x39, SEMI];
    let lf: [u8; 5] = [AMP, HASH, 0x31, 0x30, SEMI];
    let cr: [u8; 5] = [AMP, HASH, 0x31, 0x33, SEMI];
    proof {
        assert(lt@ =~= kw_ref_lt());
        assert(gt@ =~= kw_ref_gt());
        assert(amp@ =~= kw_ref_amp());
        assert(quot@ =~= kw_ref_quot());
        assert(tab@ =~= kw_ref_tab());
        assert(lf@ =~= kw_ref_lf());
        assert(cr@ =~= kw_ref_cr());
        assert(old(out)@ + escape_attr(s@.take(0)) =~= old(out)@);
    }
    let mut k: usize = 0;
    while k < s.len()
        invariant
            k <= s@.len(),
            lt@ == kw_ref_lt(),
            gt@ == kw_ref_gt(),
            amp@ == kw_ref_amp(),
            quot@ == kw_ref_quot(),
            tab@ == kw_ref_tab(),
            lf@ == kw_ref_lf(),
            cr@ == kw_ref_cr(),
            out@ == old(out)@ + escape_attr(s@.take(k as int)),
        decreases s@.len() - k,
    {
        let b = s[k];
        let ghost before = out@;
        if b == LT {
            push_all(out, &lt);
        } else if b == GT {
            push_all(out, &gt);
        } else if b == AMP {
            push_all(out, &amp);
        } else if b == QUOT {
            push_all(out, &quot);
        } else if b == TAB {
            push_all(out, &tab);
        } else if b == LF {
            push_all(out, &lf);
        } else if b == CR {
            push_all(out, &cr);
        } else {
            out.push(b);
            assert(out@ =~= before + seq![b]);
        }
        proof {
            let next = s@.take(k + 1);
            assert(next.drop_last() =~= s@.take(k as int));
            assert(next.last() == b);
            assert(out@ =~= old(out)@ + escape_attr(next));
        }
        k = k + 1;
    }
    proof {
        assert(s@.take(s@.len() as int) =~= s@);
    }
}

/// Adds an optional byte string to `out`.
pub(crate) fn put_opt(out: &mut Vec<u8>, o: &Option<Vec<u8>>)
    ensures
        final(out)@ == old(out)@ + bytes_or_empty(opt_bytes(*o)),
{
    match o {
        Some(b) => {
            push_all(out, b.as_slice());
        },
        None => {
            assert(out@ + Seq::<u8>::empty() =~= out@);
        },
    }
}

/// Adds one byte to `out`.
pub(crate) fn put_byte(out: &mut Vec<u8>, b: u8)
    ensures
        final(out)@ == old(out)@ + seq![b],
{
    out.push(b);
    assert(out@ =~= old(out)@ + seq![b]);
}

/// Adds a name to `out` as it is written.
pub(crate) fn put_name(out: &mut Vec<u8>, name: &Option<Vec<u8>>, ns: &Option<xmlNs>)
    ensures
        final(out)@ == old(out)@ + qualified_name(opt_bytes(*name), opt_ns(*ns)),
{
    match ns {
        Some(b) => {
            match &b.prefix {
                Some(p) => {
                    push_all(out, p.as_slice());
                    put_byte(out, COLON);
                    put_opt(out, name);
                    assert(out@ =~= old(out)@ + (p@ + seq![COLON] + bytes_or_empty(
                        opt_bytes(*name),
                    )));
                },
                None => {
                    put_opt(out, name);
                },
            }
        },
        None => {
            put_opt(out, name);
        },
    }
}

/// Adds a namespace declaration to `out` as it is written.
pub(crate) fn put_ns_decl(out: &mut Vec<u8>, ns: &xmlNs)
    ensures
        final(out)@ == old(out)@ + write_ns_decl(ns@),
{
    let attr: [u8; 6] = [SPACE, 0x78, 0x6d, 0x6c, 0x6e, 0x73];
    let eq: [u8; 2] = [EQUALS, QUOT];
    proof {
        assert(attr@ =~= kw_ns_attr());
        assert(eq@ =~= kw_eq_quote());
    }
    push_all(out, &attr);
    let ghost a = out@;
    match &ns.prefix {
        Some(p) => {
            put_byte(out, COLON);
            push_all(out, p.as_slice());
            assert(out@ =~= a + (seq![COLON] + p@));
        },
        None => {
            assert(out@ =~= a + Seq::<u8>::empty());
        },
    }
    push_all(out, &eq);
    put_attr_text(out, ns.href.as_slice());
    put_byte(out, QUOT);
    assert(out@ =~= old(out)@ + write_ns_decl(ns@));
}

/// Adds the value of an attribute to `out` as it is written inside the
/// quotes.
pub(crate) fn put_value(out: &mut Vec<u8>, children: &Vec<xmlNode>)
    ensures
        final(out)@ == old(out)@ + write_value(node_views(children@)),
{
    let ghost all = node_views(children@);
    proof {
        assert(old(out)@ + write_value(all.take(0)) =~= old(out)@);
    }
    let mut k: usize = 0;
    while k < children.len()
        invariant
            k <= children@.len(),
            all == node_views(children@),
            out@ == old(out)@ + write_value(all.take(k as int)),
        decreases children@.len() - k,
    {
        let n = &children[k];
        let ghost before = out@;
        match n._type {
            xmlElementType::TextNode => {
                match &n.content {
                    Some(c) => {
                        put_attr_text(out, c.as_slice());
                    },
                    None => {
                        let none: [u8; 0] = [];
                        put_attr_text(out, &none);
                        assert(none@ =~= Seq::<u8>::empty());
                    },
                }
            },
            xmlElementType::EntityRefNode => {
                put_byte(out, AMP);
                put_opt(out, &n.name);
                put_byte(out, SEMI);
                assert(out@ =~= before + (seq![AMP] + bytes_or_empty(n@.name) + seq![SEMI]));
            },
            _ => {
                assert(out@ =~= before + Seq::<u8>::empty());
            },
        }
        proof {
            let next = all.take(k + 1);
            assert(next.drop_last() =~= all.take(k as int));
            assert(next.last() == n@);
            assert(out@ == before + write_value_part(n@));
            assert(out@ =~= old(out)@ + write_value(next));
        }
        k = k + 1;
    }
    proof {
        assert(all.take(children@.len() as int) =~= all);
    }
}

/// Adds an attribute to `out` as it is written.
pub(crate) fn put_attr(out: &mut Vec<u8>, a: &xmlAttr)
    ensures
        final(out)@ == old(out)@ + write_attr(a@),
{
    let eq: [u8; 2] = [EQUALS, QUOT];
    proof {
        assert(eq@ =~= kw_eq_quote());
        lemma_attr_view(*a);
    }
    put_byte(out, SPACE);
    put_name(out, &a.name, &a.ns);
    push_all(out, &eq);
    put_value(out, &a.children);
    put_byte(out, QUOT);
    assert(out@ =~= old(out)@ + write_attr(a@));
}

/// Adds a start tag to `out`, up to and without its closing `>` or `/>`.
pub(crate) fn put_tag_open(out: &mut Vec<u8>, n: &xmlNode)
    ensures
        final(out)@ == old(out)@ + write_tag_open(n@),
{
    proof {
        lemma_node_view(*n);
    }
    put_byte(out, LT);
    put_name(out, &n.name, &n.ns);
    let ghost head = out@;
    let ghost decls = ns_views(n.nsDef@);
    proof {
        assert(head + write_ns_decls(decls.take(0)) =~= head);
    }
    let mut k: usize = 0;
    while k < n.nsDef.len()
        invariant
            k <= n.nsDef@.len(),
            decls == ns_views(n.nsDef@),
            out@ == head + write_ns_decls(decls.take(k as int)),
        decreases n.nsDef@.len() - k,
    {
        put_ns_decl(out, &n.nsDef[k]);
        proof {
            let next = decls.take(k + 1);
            assert(next.drop_last() =~= decls.take(k as int));
            assert(next.last() == n.nsDef@[k as int]@);
            assert(out@ =~= head + write_ns_decls(next));
        }
        k = k + 1;
    }
    proof {
        assert(decls.take(n.nsDef@.len() as int) =~= decls);
    }
    let ghost mid = out@;
    let ghost props = attr_views(n.properties@);
    proof {
        assert(mid + write_attrs(props.take(0)) =~= mid);
    }
    let mut m: usize = 0;
    while m < n.properties.len()
        invariant
            m <= n.properties@.len(),
            props == attr_views(n.properties@),
            out@ == mid + write_attrs(props.take(m as int)),
        decreases n.properties@.len() - m,
    {
        put_attr(out, &n.properties[m]);
        proof {
            let next = props.take(m + 1);
            assert(next.drop_last() =~= props.take(m as int));
            assert(next.last() == n.properties@[m as int]@);
            assert(out@ =~= mid + write_attrs(next));
        }
        m = m + 1;
    }
    proof {
        assert(props.take(n.properties@.len() as int) =~= props);
        assert(out@ =~= old(out)@ + write_tag_open(n@));
    }
}

/// Adds a node and everything below it to `out` as they are written.
pub(crate) fn put_node(out: &mut Vec<u8>, n: &xmlNode)
    ensures
        final(out)@ == old(out)@ + write_node(n@),
    decreases n,
{
    proof {
        lemma_node_view(*n);
    }
    match n._type {
        xmlElementType::ElementNode => {
            put_tag_open(out, n);
            if n.children.len() == 0 {
                let close: [u8; 2] = [SLASH, GT];
                proof {
                    assert(close@ =~= kw_empty_close());
                }
                push_all(out, &close);
                assert(out@ =~= old(out)@ + (write_tag_open(n@) + kw_empty_close()));
            } else {
                put_byte(out, GT);
                let ghost head = out@;
                let ghost kids = node_views(n.children@);
                proof {
                    assert(head + write_nodes(kids.take(0)) =~= head);
                }
                let mut k: usize = 0;
                while k < n.children.len()
                    invariant
                        k <= n.children@.len(),
                        kids == node_views(n.children@),
                        out@ == head + write_nodes(kids.take(k as int)),
                    decreases n.children@.len() - k,
                {
                    put_node(out, &n.children[k]);
                    proof {
                        let next = kids.take(k + 1);
                        assert(next.drop_last() =~= kids.take(k as int));
                        assert(next.last() == n.children@[k as int]@);
                        assert(out@ =~= head + write_nodes(next));
                    }
                    k = k + 1;
                }
                let end: [u8; 2] = [LT, SLASH];
                proof {
                    assert(end@ =~= kw_end_tag());
                    assert(kids.take(n.children@.len() as int) =~= kids);
                }
                push_all(out, &end);
                put_name(out, &n.name, &n.ns);
                put_byte(out, GT);
                assert(out@ =~= old(out)@ + (write_tag_open(n@) + seq![GT] + write_nodes(
                    n@.children,
                ) + kw_end_tag() + qualified_name(n@.name, n@.ns) + seq![GT]));
            }
        },
        xmlElementType::TextNode => {
            match &n.content {
                Some(c) => {
                    put_text(out, c.as_slice());
                },
                None => {
                    let none: [u8; 0] = [];
                    put_text(out, &none);
                    assert(none@ =~= Seq::<u8>::empty());
                },
            }
        },
        xmlElementType::CDataSectionNode => {
            let open: [u8; 9] = [LT, BANG, LBRACK, 0x43, 0x44, 0x41, 0x54, 0x41, LBRACK];
            let close: [u8; 3] = [RBRACK, RBRACK, GT];
            proof {
                assert(open@ =~= kw_cdata_open());
                assert(close@ =~= kw_cdata_close());
            }
            push_all(out, &open);
            put_opt(out, &n.content);
            push_all(out, &close);
            assert(out@ =~= old(out)@ + (kw_cdata_open() + bytes_or_empty(n@.content)
                + kw_cdata_close()));
        },
        xmlElementType::CommentNode => {
            let open: [u8; 4] = [LT, BANG, DASH, DASH];
            let close: [u8; 3] = [DASH, DASH, GT];
            proof {
                assert(open@ =~= kw_comment_open());
                assert(close@ =~= kw_comment_close());
            }
            push_all(out, &open);
            put_opt(out, &n.content);
            push_all(out, &close);
            assert(out@ =~= old(out)@ + (kw_comment_open() + bytes_or_empty(n@.content)
                + kw_comment_close()));
        },
        xmlElementType::PINode => {
            let open: [u8; 2] = [LT, QUEST];
            let close: [u8; 2] = [QUEST, GT];
            proof {
                assert(open@ =~= kw_pi_open());
                assert(close@ =~= kw_pi_close());
            }
            push_all(out, &open);
            put_opt(out, &n.name);
            let ghost head = out@;
            match &n.content {
                Some(data) => {
                    put_byte(out, SPACE);
                    push_all(out, data.as_slice());
                    assert(out@ =~= head + (seq![SPACE] + data@));
                },
                None => {
                    assert(out@ =~= head + Seq::<u8>::empty());
                },
            }
            push_all(out, &close);
            assert(out@ =~= old(out)@ + write_pi(n@));
        },
        xmlElementType::EntityRefNode => {
            put_byte(out, AMP);
            put_opt(out, &n.name);
            put_byte(out, SEMI);
            assert(out@ =~= old(out)@ + (seq![AMP] + bytes_or_empty(n@.name) + seq![SEMI]));
        },
        _ => {
            assert(out@ =~= old(out)@ + Seq::<u8>::empty());
        },
    }
}

/// The bytes that a whole document is written as.
pub fn serialize(doc: &xmlDoc) -> (out: Vec<u8>)
    ensures
        out@ == write_document(doc@),
{
    let open: [u8; 15] = [
        LT,
        QUEST,
        0x78,
        0x6d,
        0x6c,
        SPACE,
        0x76,
        0x65,
        0x72,
        0x73,
        0x69,
        0x6f,
        0x6e,
        EQUALS,
        QUOT,
    ];
    let default_version: [u8; 3] = [0x31, DOT, 0x30];
    let encoding: [u8; 11] = [SPACE, 0x65, 0x6e, 0x63, 0x6f, 0x64, 0x69, 0x6e, 0x67, EQUALS, QUOT];
    let close: [u8; 2] = [QUEST, GT];
    proof {
        assert(open@ =~= kw_decl_open());
        assert(default_version@ =~= kw_default_version());
        assert(encoding@ =~= kw_decl_encoding());
        assert(close@ =~= kw_pi_close());
    }
    let mut out: Vec<u8> = Vec::new();
    push_all(&mut out, &open);
    match &doc.version {
        Some(v) => {
            push_all(&mut out, v.as_slice());
        },
        None => {
            push_all(&mut out, &default_version);
        },
    }
    put_byte(&mut out, QUOT);
    let ghost a = out@;
    match &doc.encoding {
        Some(e) => {
            push_all(&mut out, &encoding);
            push_all(&mut out, e.as_slice());
            put_byte(&mut out, QUOT);
            assert(out@ =~= a + (kw_decl_encoding() + e@ + seq![QUOT]));
        },
        None => {
            assert(out@ =~= a + Seq::<u8>::empty());
        },
    }
    push_all(&mut out, &close);
    put_byte(&mut out, LF);
    assert(out@ =~= write_declaration(doc@));
    let ghost head = out@;
    let ghost top = node_views(doc.children@);
    proof {
        assert(head + write_top(top.take(0)) =~= head);
    }
    let mut k: usize = 0;
    while k < doc.children.len()
        invariant
            k <= doc.children@.len(),
            top == node_views(doc.children@),
            out@ == head + write_top(top.take(k as int)),
        decreases doc.children@.len() - k,
    {
        put_node(&mut out, &doc.children[k]);
        put_byte(&mut out, LF);
        proof {
            let next = top.take(k + 1);
            assert(next.drop_last() =~= top.take(k as int));
            assert(next.last() == doc.children@[k as int]@);
            assert(out@ =~= head + write_top(next));
        }
        k = k + 1;
    }
    proof {
        assert(top.take(doc.children@.len() as int) =~= top);
    }
    out
}

} // verus!
