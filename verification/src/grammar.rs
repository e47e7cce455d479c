//! What the engine reads: the grammar of a document, as a function from bytes
//! to the tree they stand for.
//!
//! A document is an optional XML declaration, then comments and processing
//! instructions, one root element, and more comments and processing
//! instructions. Elements hold attributes, text, character and predefined
//! entity references, CDATA sections, comments, processing instructions and
//! other elements. Namespace declarations are resolved while reading. A
//! document type declaration, and a reference to an entity that is not
//! predefined, are not read: such input gives no tree.
//!
//! Every function here takes the input and a position in it, and gives what
//! stands there together with the position behind it, or `None` where the
//! input is malformed.

use vstd::prelude::*;
use vstd::string::*;
use crate::syntax::{find, has_prefix, is_name_char, is_name_start, is_space, name_end, skip_spaces};
use crate::syntax::{kw_cdata_close, kw_cdata_open, kw_comment_close, kw_comment_open};
use crate::syntax::{kw_double_dash, kw_empty_close, kw_encoding, kw_end_tag, kw_pi_close};
use crate::syntax::{kw_pi_open, kw_ref_amp, kw_ref_apos, kw_ref_dec, kw_ref_gt, kw_ref_hex};
use crate::syntax::{kw_ref_lt, kw_ref_quot, kw_standalone, kw_version, kw_xml, kw_xml_decl};
use crate::syntax::{kw_xmlns, kw_xmlns_colon};
use crate::syntax::{AMP, APOS, COLON, EQUALS, GT, LT, QUOT, SEMI, SPACE};
use crate::tree::{xmlElementType, AttrView, NodeView, NsView};

verus! {

/// How deep elements may nest.
pub const MAX_DEPTH: usize = 256;

/// An attribute as it is written: its qualified name and its value with the
/// references in it replaced.
pub struct RawAttr {
    pub name: Seq<u8>,
    pub value: Seq<u8>,
}

/// What the XML declaration says.
pub struct Prolog {
    pub version: Option<Seq<u8>>,
    pub encoding: Option<Seq<u8>>,
}

/// What a document holds besides where it came from.
pub struct Parsed {
    pub prolog: Prolog,
    pub children: Seq<NodeView>,
}

/// `head` put in front of a list that was read, if one was.
pub open spec fn prepend<A>(head: Seq<A>, tail: Option<(Seq<A>, int)>) -> Option<(Seq<A>, int)> {
    match tail {
        Some((rest, end)) => Some((head + rest, end)),
        None => None,
    }
}

/// Putting two lists in front, one after the other, is putting their
/// concatenation in front.
pub proof fn lemma_prepend_twice<A>(a: Seq<A>, b: Seq<A>, tail: Option<(Seq<A>, int)>)
    ensures
        prepend(a, prepend(b, tail)) == prepend(a + b, tail),
{
    match tail {
        Some((rest, end)) => {
            assert(a + (b + rest) =~= (a + b) + rest);
        },
        None => {},
    }
}

/// Putting nothing in front changes nothing.
pub proof fn lemma_prepend_empty<A>(tail: Option<(Seq<A>, int)>)
    ensures
        prepend(Seq::<A>::empty(), tail) == tail,
{
    match tail {
        Some((rest, end)) => {
            assert(Seq::<A>::empty() + rest =~= rest);
        },
        None => {},
    }
}

/// A node that holds text and nothing else.
pub open spec fn text_node(kind: xmlElementType, content: Seq<u8>) -> NodeView {
    NodeView {
        kind,
        name: None,
        content: Some(content),
        ns: None,
        ns_def: Seq::empty(),
        properties: Seq::empty(),
        children: Seq::empty(),
    }
}

/// A processing instruction.
pub open spec fn pi_node(target: Seq<u8>, data: Option<Seq<u8>>) -> NodeView {
    NodeView {
        kind: xmlElementType::PINode,
        name: Some(target),
        content: data,
        ns: None,
        ns_def: Seq::empty(),
        properties: Seq::empty(),
        children: Seq::empty(),
    }
}

/// An element.
pub open spec fn element_node(
    name: Seq<u8>,
    ns: Option<NsView>,
    ns_def: Seq<NsView>,
    properties: Seq<AttrView>,
    children: Seq<NodeView>,
) -> NodeView {
    NodeView {
        kind: xmlElementType::ElementNode,
        name: Some(name),
        content: None,
        ns,
        ns_def,
        properties,
        children,
    }
}

// ----- character references -----

pub open spec fn is_digit(b: u8) -> bool {
    0x30 <= b <= 0x39
}

pub open spec fn is_hex_digit(b: u8) -> bool {
    is_digit(b) || (0x41 <= b <= 0x46) || (0x61 <= b <= 0x66)
}

pub open spec fn hex_digit_value(b: u8) -> int {
    if is_digit(b) {
        b - 0x30
    } else if 0x41 <= b <= 0x46 {
        b - 0x41 + 10
    } else {
        b - 0x61 + 10
    }
}

/// The first position from `i` on that holds no decimal digit.
pub open spec fn digits_end(s: Seq<u8>, i: int) -> int
    decreases s.len() - i,
{
    if 0 <= i < s.len() && is_digit(s[i]) {
        digits_end(s, i + 1)
    } else {
        i
    }
}

/// The first position from `i` on that holds no hexadecimal digit.
pub open spec fn hex_end(s: Seq<u8>, i: int) -> int
    decreases s.len() - i,
{
    if 0 <= i < s.len() && is_hex_digit(s[i]) {
        hex_end(s, i + 1)
    } else {
        i
    }
}

/// The number that the decimal digits from `from` up to `to` write.
pub open spec fn dec_value(s: Seq<u8>, from: int, to: int) -> int
    decreases to - from,
{
    if to <= from {
        0
    } else {
        dec_value(s, from, to - 1) * 10 + (s[to - 1] - 0x30)
    }
}

/// The number that the hexadecimal digits from `from` up to `to` write.
pub open spec fn hex_value(s: Seq<u8>, from: int, to: int) -> int
    decreases to - from,
{
    if to <= from {
        0
    } else {
        hex_value(s, from, to - 1) * 16 + hex_digit_value(s[to - 1])
    }
}

/// The code points that a document may hold.
pub open spec fn is_xml_char(v: int) -> bool {
    v == 0x9 || v == 0xa || v == 0xd || (0x20 <= v <= 0xd7ff) || (0xe000 <= v <= 0xfffd) || (0x10000
        <= v <= 0x10ffff)
}

/// The UTF-8 encoding of a code point.
pub open spec fn utf8_encode(v: int) -> Seq<u8> {
    if v < 0x80 {
        seq![v as u8]
    } else if v < 0x800 {
        seq![(0xc0 + v / 0x40) as u8, (0x80 + v % 0x40) as u8]
    } else if v < 0x10000 {
        seq![
            (0xe0 + v / 0x1000) as u8,
            (0x80 + (v / 0x40) % 0x40) as u8,
            (0x80 + v % 0x40) as u8,
        ]
    } else {
        seq![
            (0xf0 + v / 0x40000) as u8,
            (0x80 + (v / 0x1000) % 0x40) as u8,
            (0x80 + (v / 0x40) % 0x40) as u8,
            (0x80 + v % 0x40) as u8,
        ]
    }
}

/// A character reference whose digits run from `start` up to `end` and write
/// `value`: it must have a digit, close with `;`, and name a character that a
/// document may hold.
pub open spec fn char_ref(s: Seq<u8>, start: int, end: int, value: int) -> Option<
    (Seq<u8>, int),
> {
    if start < end < s.len() && s[end] == SEMI && is_xml_char(value) {
        Some((utf8_encode(value), end + 1))
    } else {
        None
    }
}

/// The reference at `i`: one of the five predefined entities or a character
/// reference, as the bytes it stands for.
pub open spec fn parse_reference(s: Seq<u8>, i: int) -> Option<(Seq<u8>, int)> {
    if has_prefix(s, i, kw_ref_lt()) {
        Some((seq![LT], i + 4))
    } else if has_prefix(s, i, kw_ref_gt()) {
        Some((seq![GT], i + 4))
    } else if has_prefix(s, i, kw_ref_amp()) {
        Some((seq![AMP], i + 5))
    } else if has_prefix(s, i, kw_ref_apos()) {
        Some((seq![APOS], i + 6))
    } else if has_prefix(s, i, kw_ref_quot()) {
        Some((seq![QUOT], i + 6))
    } else if has_prefix(s, i, kw_ref_hex()) {
        char_ref(s, i + 3, hex_end(s, i + 3), hex_value(s, i + 3, hex_end(s, i + 3)))
    } else if has_prefix(s, i, kw_ref_dec()) {
        char_ref(s, i + 2, digits_end(s, i + 2), dec_value(s, i + 2, digits_end(s, i + 2)))
    } else {
        None
    }
}

// ----- text and attribute values -----

/// Character data from `i` up to the next `<` or the end of the input, with
/// the references in it replaced. It may not hold `]]>`.
pub open spec fn text_body(s: Seq<u8>, i: int) -> Option<(Seq<u8>, int)>
    decreases s.len() - i,
{
    if i < 0 || i >= s.len() || s[i] == LT {
        Some((Seq::empty(), i))
    } else if s[i] == AMP {
        match parse_reference(s, i) {
            Some((bytes, k)) => if i < k <= s.len() {
                prepend(bytes, text_body(s, k))
            } else {
                None
            },
            None => None,
        }
    } else if has_prefix(s, i, kw_cdata_close()) {
        None
    } else {
        prepend(seq![s[i]], text_body(s, i + 1))
    }
}

/// A byte of an attribute value as it is kept: white space becomes a space.
pub open spec fn normalize(b: u8) -> u8 {
    if is_space(b) {
        SPACE
    } else {
        b
    }
}

/// An attribute value from `i` up to the closing `quote`, with the references
/// in it replaced and its white space normalised. The position given back is
/// behind the quote.
pub open spec fn value_body(s: Seq<u8>, i: int, quote: u8) -> Option<(Seq<u8>, int)>
    decreases s.len() - i,
{
    if i < 0 || i >= s.len() || s[i] == LT {
        None
    } else if s[i] == quote {
        Some((Seq::empty(), i + 1))
    } else if s[i] == AMP {
        match parse_reference(s, i) {
            Some((bytes, k)) => if i < k <= s.len() {
                prepend(bytes, value_body(s, k, quote))
            } else {
                None
            },
            None => None,
        }
    } else {
        prepend(seq![normalize(s[i])], value_body(s, i + 1, quote))
    }
}

/// `=` with optional white space around it, then a quoted value, from `i`.
pub open spec fn parse_eq_value(s: Seq<u8>, i: int) -> Option<(Seq<u8>, int)> {
    let q = skip_spaces(s, i);
    if 0 <= q < s.len() && s[q] == EQUALS {
        let v = skip_spaces(s, q + 1);
        if v < s.len() && (s[v] == QUOT || s[v] == APOS) {
            value_body(s, v + 1, s[v])
        } else {
            None
        }
    } else {
        None
    }
}

/// The attributes of a start tag from `i`, each led by white space. The
/// position given back is behind the white space that follows the last one.
pub open spec fn parse_attributes(s: Seq<u8>, i: int) -> Option<(Seq<RawAttr>, int)>
    decreases s.len() - i,
{
    let j = skip_spaces(s, i);
    if i < j < s.len() && is_name_start(s[j]) {
        let e = name_end(s, j);
        match parse_eq_value(s, e) {
            Some((value, k)) => if i < k <= s.len() {
                prepend(seq![RawAttr { name: s.subrange(j, e), value }], parse_attributes(s, k))
            } else {
                None
            },
            None => None,
        }
    } else {
        Some((Seq::empty(), j))
    }
}

/// Whether no two of the attributes are written with the same name.
pub open spec fn distinct_names(attrs: Seq<RawAttr>) -> bool {
    forall|i: int, j: int| 0 <= i < j < attrs.len() ==> attrs[i].name != attrs[j].name
}

// ----- namespaces -----

/// The namespace that the prefix `xml` always stands for.
pub open spec fn xml_namespace() -> Seq<u8> {
    "http://www.w3.org/XML/1998/namespace".spec_bytes()
}

/// The bindings in force outside the root element.
pub open spec fn root_scope() -> Seq<NsView> {
    seq![NsView { prefix: Some(kw_xml()), href: xml_namespace() }]
}

/// The namespace that an attribute declares, if it is a declaration:
/// `xmlns="uri"` binds the default namespace, `xmlns:p="uri"` the prefix `p`.
pub open spec fn ns_decl_of(a: RawAttr) -> Option<NsView> {
    if a.name == kw_xmlns() {
        Some(NsView { prefix: None, href: a.value })
    } else if a.name.len() > 6 && a.name.subrange(0, 6) == kw_xmlns_colon() {
        Some(NsView { prefix: Some(a.name.subrange(6, a.name.len() as int)), href: a.value })
    } else {
        None
    }
}

/// The namespaces that the attributes of a start tag declare, in order.
pub open spec fn ns_decls(attrs: Seq<RawAttr>) -> Seq<NsView>
    decreases attrs.len(),
{
    if attrs.len() == 0 {
        Seq::empty()
    } else {
        match ns_decl_of(attrs.last()) {
            Some(ns) => ns_decls(attrs.drop_last()).push(ns),
            None => ns_decls(attrs.drop_last()),
        }
    }
}

/// The binding of `prefix` in `scope`; the innermost one, which stands last.
pub open spec fn lookup(scope: Seq<NsView>, prefix: Option<Seq<u8>>) -> Option<NsView>
    decreases scope.len(),
{
    if scope.len() == 0 {
        None
    } else if scope.last().prefix == prefix {
        Some(scope.last())
    } else {
        lookup(scope.drop_last(), prefix)
    }
}

/// The position of the first `:` in `q` from `i` on, or the length of `q`.
pub open spec fn colon_index(q: Seq<u8>, i: int) -> int
    decreases q.len() - i,
{
    if 0 <= i < q.len() && q[i] != COLON {
        colon_index(q, i + 1)
    } else {
        i
    }
}

/// A qualified name parted at its first `:` into prefix and local name, where
/// both are there.
pub open spec fn split_qname(q: Seq<u8>) -> Option<(Seq<u8>, Seq<u8>)> {
    let c = colon_index(q, 0);
    if 0 < c && c + 1 < q.len() {
        Some((q.subrange(0, c), q.subrange(c + 1, q.len() as int)))
    } else {
        None
    }
}

/// The name and namespace of an element written as `q`. A bound prefix is
/// taken off the name; an unbound one stays part of it. Without a prefix the
/// default namespace applies, unless it is empty.
pub open spec fn resolve_element(q: Seq<u8>, scope: Seq<NsView>) -> (Seq<u8>, Option<NsView>) {
    match split_qname(q) {
        Some((prefix, local)) => match lookup(scope, Some(prefix)) {
            Some(ns) => (local, Some(ns)),
            None => (q, None),
        },
        None => match lookup(scope, None) {
            Some(ns) => if ns.href.len() > 0 {
                (q, Some(ns))
            } else {
                (q, None)
            },
            None => (q, None),
        },
    }
}

/// The name and namespace of an attribute written as `q`. The default
/// namespace does not apply to attributes.
pub open spec fn resolve_attribute(q: Seq<u8>, scope: Seq<NsView>) -> (Seq<u8>, Option<NsView>) {
    match split_qname(q) {
        Some((prefix, local)) => match lookup(scope, Some(prefix)) {
            Some(ns) => (local, Some(ns)),
            None => (q, None),
        },
        None => (q, None),
    }
}

/// The attribute node for an attribute as written: its value is one text
/// child.
pub open spec fn attribute_of(a: RawAttr, scope: Seq<NsView>) -> AttrView {
    AttrView {
        name: Some(resolve_attribute(a.name, scope).0),
        ns: resolve_attribute(a.name, scope).1,
        children: seq![text_node(xmlElementType::TextNode, a.value)],
    }
}

/// The attribute nodes of a start tag: every attribute that is no namespace
/// declaration, in order.
pub open spec fn attributes_of(attrs: Seq<RawAttr>, scope: Seq<NsView>) -> Seq<AttrView>
    decreases attrs.len(),
{
    if attrs.len() == 0 {
        Seq::empty()
    } else if ns_decl_of(attrs.last()) is Some {
        attributes_of(attrs.drop_last(), scope)
    } else {
        attributes_of(attrs.drop_last(), scope).push(attribute_of(attrs.last(), scope))
    }
}

// ----- comments, CDATA sections, processing instructions -----

/// The comment that opens at `i`. It ends at the first `--`, which must be
/// followed by `>`.
pub open spec fn parse_comment(s: Seq<u8>, i: int) -> Option<(NodeView, int)> {
    match find(s, i + 4, kw_double_dash()) {
        Some(j) => if has_prefix(s, j, kw_comment_close()) {
            Some((text_node(xmlElementType::CommentNode, s.subrange(i + 4, j)), j + 3))
        } else {
            None
        },
        None => None,
    }
}

/// The CDATA section that opens at `i`. It ends at the first `]]>`.
pub open spec fn parse_cdata(s: Seq<u8>, i: int) -> Option<(NodeView, int)> {
    match find(s, i + 9, kw_cdata_close()) {
        Some(j) => Some((text_node(xmlElementType::CDataSectionNode, s.subrange(i + 9, j)), j + 3)),
        None => None,
    }
}

/// Whether a processing instruction's target is `xml` in any case, which is
/// reserved.
pub open spec fn is_reserved_target(t: Seq<u8>) -> bool {
    t.len() == 3 && (t[0] == 0x78 || t[0] == 0x58) && (t[1] == 0x6d || t[1] == 0x4d) && (t[2]
        == 0x6c || t[2] == 0x4c)
}

/// The processing instruction that opens at `i`: a target, then either `?>`
/// or white space and data up to the first `?>`.
pub open spec fn parse_pi(s: Seq<u8>, i: int) -> Option<(NodeView, int)> {
    let n0 = i + 2;
    if 0 <= n0 < s.len() && is_name_start(s[n0]) {
        let n1 = name_end(s, n0);
        let target = s.subrange(n0, n1);
        if is_reserved_target(target) {
            None
        } else if has_prefix(s, n1, kw_pi_close()) {
            Some((pi_node(target, None), n1 + 2))
        } else if n1 < s.len() && is_space(s[n1]) {
            let d0 = skip_spaces(s, n1);
            match find(s, d0, kw_pi_close()) {
                Some(j) => Some((pi_node(target, Some(s.subrange(d0, j))), j + 2)),
                None => None,
            }
        } else {
            None
        }
    } else {
        None
    }
}

// ----- elements -----

/// Whether the end tag of the element written as `q` stands at `k`; if so,
/// the position behind it.
pub open spec fn parse_end_tag(s: Seq<u8>, k: int, q: Seq<u8>) -> Option<int> {
    let e = k + 2 + q.len();
    if has_prefix(s, k, kw_end_tag()) && has_prefix(s, k + 2, q) && !(e < s.len() && is_name_char(
        s[e],
    )) {
        let m = skip_spaces(s, e);
        if m < s.len() && s[m] == GT {
            Some(m + 1)
        } else {
            None
        }
    } else {
        None
    }
}

/// The element whose start tag opens at `i`, read with the namespace
/// bindings `scope` in force and `depth` more levels of nesting allowed. No
/// two of its attributes may be written with the same name, and its end tag
/// must repeat the name of its start tag.
pub open spec fn parse_element(s: Seq<u8>, i: int, scope: Seq<NsView>, depth: nat) -> Option<
    (NodeView, int),
>
    decreases depth, s.len() - i, 0nat,
{
    if 0 <= i && i + 1 < s.len() && s[i] == LT && is_name_start(s[i + 1]) {
        let e = name_end(s, i + 1);
        let q = s.subrange(i + 1, e);
        match parse_attributes(s, e) {
            Some((raw, j)) => if !distinct_names(raw) {
                None
            } else {
                let decls = ns_decls(raw);
                let inner = scope + decls;
                let name = resolve_element(q, inner).0;
                let ns = resolve_element(q, inner).1;
                let props = attributes_of(raw, inner);
                if has_prefix(s, j, kw_empty_close()) {
                    Some((element_node(name, ns, decls, props, Seq::empty()), j + 2))
                } else if 0 <= j < s.len() && s[j] == GT && depth > 0 {
                    match parse_content(s, j + 1, inner, (depth - 1) as nat) {
                        Some((children, k)) => match parse_end_tag(s, k, q) {
                            Some(end) => Some((element_node(name, ns, decls, props, children), end)),
                            None => None,
                        },
                        None => None,
                    }
                } else {
                    None
                }
            },
            None => None,
        }
    } else {
        None
    }
}

/// What stands at `i` inside an element: a comment, a CDATA section, a
/// processing instruction, an element, or text.
pub open spec fn parse_item(s: Seq<u8>, i: int, scope: Seq<NsView>, depth: nat) -> Option<
    (NodeView, int),
>
    decreases depth, s.len() - i, 1nat,
{
    if has_prefix(s, i, kw_comment_open()) {
        parse_comment(s, i)
    } else if has_prefix(s, i, kw_cdata_open()) {
        parse_cdata(s, i)
    } else if has_prefix(s, i, kw_pi_open()) {
        parse_pi(s, i)
    } else if 0 <= i < s.len() && s[i] == LT {
        parse_element(s, i, scope, depth)
    } else {
        match text_body(s, i) {
            Some((bytes, k)) => Some((text_node(xmlElementType::TextNode, bytes), k)),
            None => None,
        }
    }
}

/// The content of an element from `i` up to its end tag or the end of the
/// input.
pub open spec fn parse_content(s: Seq<u8>, i: int, scope: Seq<NsView>, depth: nat) -> Option<
    (Seq<NodeView>, int),
>
    decreases depth, s.len() - i, 2nat,
{
    if i < 0 || i >= s.len() || has_prefix(s, i, kw_end_tag()) {
        Some((Seq::empty(), i))
    } else {
        match parse_item(s, i, scope, depth) {
            Some((node, k)) => if i < k <= s.len() {
                prepend(seq![node], parse_content(s, k, scope, depth))
            } else {
                None
            },
            None => None,
        }
    }
}

// ----- documents -----

/// Comments and processing instructions from `i`, with white space between
/// them passed over. The position given back is behind the white space that
/// follows the last one.
pub open spec fn parse_misc(s: Seq<u8>, i: int) -> Option<(Seq<NodeView>, int)>
    decreases s.len() - i,
{
    let j = skip_spaces(s, i);
    if has_prefix(s, j, kw_comment_open()) {
        match parse_comment(s, j) {
            Some((node, k)) => if i < k <= s.len() {
                prepend(seq![node], parse_misc(s, k))
            } else {
                None
            },
            None => None,
        }
    } else if has_prefix(s, j, kw_pi_open()) {
        match parse_pi(s, j) {
            Some((node, k)) => if i < k <= s.len() {
                prepend(seq![node], parse_misc(s, k))
            } else {
                None
            },
            None => None,
        }
    } else {
        Some((Seq::empty(), j))
    }
}

/// `=` with optional white space around it, then a quoted literal, from `i`.
/// The literal is made of name bytes, at least one.
pub open spec fn parse_eq_literal(s: Seq<u8>, i: int) -> Option<(Seq<u8>, int)> {
    let q = skip_spaces(s, i);
    if 0 <= q < s.len() && s[q] == EQUALS {
        let v = skip_spaces(s, q + 1);
        if v < s.len() && (s[v] == QUOT || s[v] == APOS) {
            let e = name_end(s, v + 1);
            if v + 1 < e < s.len() && s[e] == s[v] {
                Some((s.subrange(v + 1, e), e + 1))
            } else {
                None
            }
        } else {
            None
        }
    } else {
        None
    }
}

/// Whether an XML declaration opens the input.
pub open spec fn has_xml_decl(s: Seq<u8>) -> bool {
    has_prefix(s, 0, kw_xml_decl()) && 5 < s.len() && is_space(s[5])
}

/// One optional part of the XML declaration, `key="..."` led by white space,
/// from `i`: its value if it is there, and the position to go on from.
pub open spec fn parse_decl_part(s: Seq<u8>, i: int, key: Seq<u8>) -> Option<
    (Option<Seq<u8>>, int),
> {
    let c = skip_spaces(s, i);
    if c > i && has_prefix(s, c, key) {
        match parse_eq_literal(s, c + key.len()) {
            Some((value, d)) => Some((Some(value), d)),
            None => None,
        }
    } else {
        Some((None, i))
    }
}

/// The XML declaration at the start of the input: the version, then
/// optionally the encoding and whether the document stands alone.
pub open spec fn parse_xml_decl(s: Seq<u8>) -> Option<(Prolog, int)> {
    let a = skip_spaces(s, 5);
    if has_prefix(s, a, kw_version()) {
        match parse_eq_literal(s, a + 7) {
            Some((version, b)) => match parse_decl_part(s, b, kw_encoding()) {
                Some((encoding, d)) => match parse_decl_part(s, d, kw_standalone()) {
                    Some((_, f)) => {
                        let g = skip_spaces(s, f);
                        if has_prefix(s, g, kw_pi_close()) {
                            Some((Prolog { version: Some(version), encoding }, g + 2))
                        } else {
                            None
                        }
                    },
                    None => None,
                },
                None => None,
            },
            None => None,
        }
    } else {
        None
    }
}

/// The declaration of a document, or none where the input does not open with
/// one.
pub open spec fn parse_prolog(s: Seq<u8>) -> Option<(Prolog, int)> {
    if has_xml_decl(s) {
        parse_xml_decl(s)
    } else {
        Some((Prolog { version: None, encoding: None }, 0))
    }
}

/// The whole of a document: declaration, root element, and the comments and
/// processing instructions around it, up to the end of the input.
pub open spec fn parse_document(s: Seq<u8>) -> Option<Parsed> {
    match parse_prolog(s) {
        Some((prolog, i)) => match parse_misc(s, i) {
            Some((before, j)) => match parse_element(s, j, root_scope(), MAX_DEPTH as nat) {
                Some((root, k)) => match parse_misc(s, k) {
                    Some((after, end)) => if end == s.len() {
                        Some(Parsed { prolog, children: before + seq![root] + after })
                    } else {
                        None
                    },
                    None => None,
                },
                None => None,
            },
            None => None,
        },
        None => None,
    }
}

} // verus!
