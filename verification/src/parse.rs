//! The reader of the engine: one function for each rule of the grammar, each
//! proved to give exactly what the grammar says stands in the input.

use vstd::prelude::*;
use vstd::string::*;
use crate::grammar::{attribute_of, attributes_of, char_ref, colon_index, dec_value, digits_end};
use crate::grammar::{distinct_names, element_node, has_xml_decl, hex_digit_value, hex_end};
use crate::grammar::{hex_value};
use crate::grammar::{is_reserved_target, is_xml_char, lemma_prepend_empty};
use crate::grammar::{lemma_prepend_twice, lookup, ns_decl_of, ns_decls, parse_attributes};
use crate::grammar::{parse_cdata, parse_comment, parse_content, parse_decl_part, parse_document};
use crate::grammar::{parse_element, parse_end_tag, parse_eq_literal, parse_eq_value, parse_item};
use crate::grammar::{parse_misc, parse_pi, parse_prolog, parse_reference, parse_xml_decl, pi_node};
use crate::grammar::{prepend, resolve_attribute, resolve_element, root_scope, split_qname};
use crate::grammar::{text_body, text_node, utf8_encode, value_body};
use crate::grammar::{Parsed, Prolog, RawAttr, MAX_DEPTH};
use crate::syntax::{copy_range, find_bytes, name_char, name_start, push_all, same_bytes, scan_name};
use crate::syntax::{skip_ws, space, starts_with};
use crate::syntax::{has_prefix};
use crate::syntax::{kw_cdata_close, kw_cdata_open, kw_comment_close, kw_comment_open};
use crate::syntax::{kw_double_dash, kw_empty_close, kw_encoding, kw_end_tag, kw_pi_close};
use crate::syntax::{kw_pi_open, kw_ref_amp, kw_ref_apos, kw_ref_dec, kw_ref_gt, kw_ref_hex};
use crate::syntax::{kw_ref_lt, kw_ref_quot, kw_standalone, kw_version, kw_xml, kw_xml_decl};
use crate::syntax::{kw_xmlns, kw_xmlns_colon};
use crate::syntax::{AMP, APOS, BANG, COLON, DASH, EQUALS, GT, HASH, LBRACK, LT, QUEST, QUOT};
use crate::syntax::{RBRACK, SEMI, SLASH, SPACE};
use crate::tree::{attr_views, lemma_attr_view, lemma_node_view, node_views, ns_views, opt_bytes};
use crate::tree::{opt_ns, xmlAttr, xmlElementType, xmlNode, xmlNs, AttrView, NodeView, NsView};

verus! {

/// Bytes that were read and the position behind them, as the grammar gives
/// them.
pub open spec fn bytes_result(r: Option<(Vec<u8>, usize)>) -> Option<(Seq<u8>, int)> {
    match r {
        Some((v, k)) => Some((v@, k as int)),
        None => None,
    }
}

/// A node that was read and the position behind it, as the grammar gives
/// them.
pub open spec fn node_result(r: Option<(xmlNode, usize)>) -> Option<(NodeView, int)> {
    match r {
        Some((n, k)) => Some((n@, k as int)),
        None => None,
    }
}

/// Nodes that were read and the position behind them, as the grammar gives
/// them.
pub open spec fn nodes_result(r: Option<(Vec<xmlNode>, usize)>) -> Option<(Seq<NodeView>, int)> {
    match r {
        Some((v, k)) => Some((node_views(v@), k as int)),
        None => None,
    }
}

/// The largest number that a character reference is read as: one more than
/// the last code point, which no document may hold.
pub const REF_LIMIT: u32 = 0x110000;

/// A number, or the limit where it lies beyond.
pub open spec fn capped(v: int) -> int {
    if v > REF_LIMIT {
        REF_LIMIT as int
    } else {
        v
    }
}

/// The UTF-8 encoding of a code point.
pub(crate) fn encode_code_point(v: u32) -> (out: Vec<u8>)
    requires
        v <= 0x10ffff,
    ensures
        out@ == utf8_encode(v as int),
        1 <= out@.len() <= 4,
{
    let mut out: Vec<u8> = Vec::new();
    if v < 0x80 {
        out.push(v as u8);
    } else if v < 0x800 {
        out.push((0xc0 + v / 0x40) as u8);
        out.push((0x80 + v % 0x40) as u8);
    } else if v < 0x10000 {
        out.push((0xe0 + v / 0x1000) as u8);
        out.push((0x80 + (v / 0x40) % 0x40) as u8);
        out.push((0x80 + v % 0x40) as u8);
    } else {
        out.push((0xf0 + v / 0x40000) as u8);
        out.push((0x80 + (v / 0x1000) % 0x40) as u8);
        out.push((0x80 + (v / 0x40) % 0x40) as u8);
        out.push((0x80 + v % 0x40) as u8);
    }
    assert(out@ =~= utf8_encode(v as int));
    out
}

/// Whether `v` is a code point that a document may hold.
pub(crate) fn xml_char(v: u32) -> (r: bool)
    ensures
        r == is_xml_char(v as int),
{
    v == 0x9 || v == 0xa || v == 0xd || (0x20 <= v && v <= 0xd7ff) || (0xe000 <= v && v <= 0xfffd)
        || (0x10000 <= v && v <= 0x10ffff)
}

/// The end of a character reference whose digits start at `start` and run up
/// to `end`, writing `value` or more than the limit.
fn finish_char_ref(s: &[u8], start: usize, end: usize, value: u32, Ghost(exact): Ghost<int>) -> (r:
    Option<(Vec<u8>, usize)>)
    requires
        start <= end <= s@.len(),
        value == capped(exact),
        0 <= exact,
    ensures
        bytes_result(r) == char_ref(s@, start as int, end as int, exact),
        r matches Some((_, k)) ==> end < k <= s@.len(),
{
    if start < end && end < s.len() && s[end] == SEMI && xml_char(value) {
        Some((encode_code_point(value), end + 1))
    } else {
        None
    }
}

/// The character reference in hexadecimal whose digits start at `start`.
fn hex_reference(s: &[u8], start: usize) -> (r: Option<(Vec<u8>, usize)>)
    requires
        start <= s@.len(),
    ensures
        bytes_result(r) == char_ref(
            s@,
            start as int,
            hex_end(s@, start as int),
            hex_value(s@, start as int, hex_end(s@, start as int)),
        ),
        r matches Some((_, k)) ==> start < k <= s@.len(),
{
    let mut e: usize = start;
    let mut acc: u32 = 0;
    while e < s.len() && ((0x30 <= s[e] && s[e] <= 0x39) || (0x41 <= s[e] && s[e] <= 0x46) || (0x61
        <= s[e] && s[e] <= 0x66))
        invariant
            start <= e <= s@.len(),
            hex_end(s@, start as int) == hex_end(s@, e as int),
            0 <= hex_value(s@, start as int, e as int),
            acc == capped(hex_value(s@, start as int, e as int)),
        decreases s@.len() - e,
    {
        let b = s[e];
        let d: u32 = if b <= 0x39 {
            (b - 0x30) as u32
        } else if b <= 0x46 {
            (b - 0x41 + 10) as u32
        } else {
            (b - 0x61 + 10) as u32
        };
        assert(d == hex_digit_value(b));
        let next: u32 = acc * 16 + d;
        acc = if next > REF_LIMIT {
            REF_LIMIT
        } else {
            next
        };
        e = e + 1;
    }
    finish_char_ref(s, start, e, acc, Ghost(hex_value(s@, start as int, e as int)))
}

/// The character reference in decimal whose digits start at `start`.
fn dec_reference(s: &[u8], start: usize) -> (r: Option<(Vec<u8>, usize)>)
    requires
        start <= s@.len(),
    ensures
        bytes_result(r) == char_ref(
            s@,
            start as int,
            digits_end(s@, start as int),
            dec_value(s@, start as int, digits_end(s@, start as int)),
        ),
        r matches Some((_, k)) ==> start < k <= s@.len(),
{
    let mut e: usize = start;
    let mut acc: u32 = 0;
    while e < s.len() && 0x30 <= s[e] && s[e] <= 0x39
        invariant
            start <= e <= s@.len(),
            digits_end(s@, start as int) == digits_end(s@, e as int),
            0 <= dec_value(s@, start as int, e as int),
            acc == capped(dec_value(s@, start as int, e as int)),
        decreases s@.len() - e,
    {
        let d: u32 = (s[e] - 0x30) as u32;
        let next: u32 = acc * 10 + d;
        acc = if next > REF_LIMIT {
            REF_LIMIT
        } else {
            next
        };
        e = e + 1;
    }
    finish_char_ref(s, start, e, acc, Ghost(dec_value(s@, start as int, e as int)))
}

/// One byte as a byte string.
fn single(b: u8) -> (v: Vec<u8>)
    ensures
        v@ == seq![b],
{
    let mut v: Vec<u8> = Vec::new();
    v.push(b);
    assert(v@ =~= seq![b]);
    v
}

/// The reference at `i`, as the bytes it stands for.
pub(crate) fn reference(s: &[u8], i: usize) -> (r: Option<(Vec<u8>, usize)>)
    requires
        i <= s@.len(),
    ensures
        bytes_result(r) == parse_reference(s@, i as int),
        r matches Some((_, k)) ==> i < k <= s@.len(),
{
    let lt: [u8; 4] = [AMP, 0x6c, 0x74, SEMI];
    let gt: [u8; 4] = [AMP, 0x67, 0x74, SEMI];
    let amp: [u8; 5] = [AMP, 0x61, 0x6d, 0x70, SEMI];
    let apos: [u8; 6] = [AMP, 0x61, 0x70, 0x6f, 0x73, SEMI];
    let quot: [u8; 6] = [AMP, 0x71, 0x75, 0x6f, 0x74, SEMI];
    let hex: [u8; 3] = [AMP, HASH, 0x78];
    let dec: [u8; 2] = [AMP, HASH];
    proof {
        assert(lt@ =~= kw_ref_lt());
        assert(gt@ =~= kw_ref_gt());
        assert(amp@ =~= kw_ref_amp());
        assert(apos@ =~= kw_ref_apos());
        assert(quot@ =~= kw_ref_quot());
        assert(hex@ =~= kw_ref_hex());
        assert(dec@ =~= kw_ref_dec());
    }
    if starts_with(s, i, &lt) {
        Some((single(LT), i + 4))
    } else if starts_with(s, i, &gt) {
        Some((single(GT), i + 4))
    } else if starts_with(s, i, &amp) {
        Some((single(AMP), i + 5))
    } else if starts_with(s, i, &apos) {
        Some((single(APOS), i + 6))
    } else if starts_with(s, i, &quot) {
        Some((single(QUOT), i + 6))
    } else if starts_with(s, i, &hex) {
        hex_reference(s, i + 3)
    } else if starts_with(s, i, &dec) {
        dec_reference(s, i + 2)
    } else {
        None
    }
}

/// Character data from `i` up to the next `<` or the end of the input.
pub(crate) fn text(s: &[u8], i: usize) -> (r: Option<(Vec<u8>, usize)>)
    requires
        i <= s@.len(),
    ensures
        bytes_result(r) == text_body(s@, i as int),
        r matches Some((_, k)) ==> i <= k <= s@.len() && (i < s@.len() && s@[i as int] != LT ==> i
            < k),
{
    let close: [u8; 3] = [RBRACK, RBRACK, GT];
    let mut acc: Vec<u8> = Vec::new();
    let mut j: usize = i;
    proof {
        assert(close@ =~= kw_cdata_close());
        lemma_prepend_empty(text_body(s@, i as int));
    }
    loop
        invariant
            i <= j <= s@.len(),
            close@ == kw_cdata_close(),
            text_body(s@, i as int) == prepend(acc@, text_body(s@, j as int)),
            i < s@.len() && s@[i as int] != LT ==> i < j || (j == i && acc@.len() == 0),
        decreases s@.len() - j,
    {
        if j >= s.len() || s[j] == LT {
            proof {
                assert(acc@ + Seq::<u8>::empty() =~= acc@);
            }
            return Some((acc, j));
        }
        if s[j] == AMP {
            match reference(s, j) {
                Some((bytes, k)) => {
                    proof {
                        lemma_prepend_twice(acc@, bytes@, text_body(s@, k as int));
                    }
                    push_all(&mut acc, bytes.as_slice());
                    j = k;
                },
                None => {
                    return None;
                },
            }
        } else if s[j] == RBRACK && starts_with(s, j, &close) {
            return None;
        } else {
            proof {
                lemma_prepend_twice(acc@, seq![s@[j as int]], text_body(s@, j + 1));
                assert(acc@.push(s@[j as int]) =~= acc@ + seq![s@[j as int]]);
            }
            acc.push(s[j]);
            j = j + 1;
        }
    }
}

/// An attribute value from `i` up to the closing `quote`.
pub(crate) fn attribute_value(s: &[u8], i: usize, quote: u8) -> (r: Option<(Vec<u8>, usize)>)
    requires
        i <= s@.len(),
    ensures
        bytes_result(r) == value_body(s@, i as int, quote),
        r matches Some((_, k)) ==> i < k <= s@.len(),
{
    let mut acc: Vec<u8> = Vec::new();
    let mut j: usize = i;
    proof {
        lemma_prepend_empty(value_body(s@, i as int, quote));
    }
    loop
        invariant
            i <= j <= s@.len(),
            value_body(s@, i as int, quote) == prepend(acc@, value_body(s@, j as int, quote)),
        decreases s@.len() - j,
    {
        if j >= s.len() || s[j] == LT {
            return None;
        }
        if s[j] == quote {
            proof {
                assert(acc@ + Seq::<u8>::empty() =~= acc@);
            }
            return Some((acc, j + 1));
        }
        if s[j] == AMP {
            match reference(s, j) {
                Some((bytes, k)) => {
                    proof {
                        lemma_prepend_twice(acc@, bytes@, value_body(s@, k as int, quote));
                    }
                    push_all(&mut acc, bytes.as_slice());
                    j = k;
                },
                None => {
                    return None;
                },
            }
        } else {
            let b: u8 = if space(s[j]) {
                SPACE
            } else {
                s[j]
            };
            proof {
                lemma_prepend_twice(acc@, seq![b], value_body(s@, j + 1, quote));
                assert(acc@.push(b) =~= acc@ + seq![b]);
            }
            acc.push(b);
            j = j + 1;
        }
    }
}

/// `=` with optional white space around it, then a quoted value, from `i`.
pub(crate) fn eq_value(s: &[u8], i: usize) -> (r: Option<(Vec<u8>, usize)>)
    requires
        i <= s@.len(),
    ensures
        bytes_result(r) == parse_eq_value(s@, i as int),
        r matches Some((_, k)) ==> i < k <= s@.len(),
{
    let q = skip_ws(s, i);
    if q < s.len() && s[q] == EQUALS {
        let v = skip_ws(s, q + 1);
        if v < s.len() && (s[v] == QUOT || s[v] == APOS) {
            attribute_value(s, v + 1, s[v])
        } else {
            None
        }
    } else {
        None
    }
}

/// An attribute as it is written.
pub struct RawAttribute {
    pub name: Vec<u8>,
    pub value: Vec<u8>,
}

impl View for RawAttribute {
    type V = RawAttr;

    open spec fn view(&self) -> RawAttr {
        RawAttr { name: self.name@, value: self.value@ }
    }
}

/// The values of a list of attributes as written, in order.
pub open spec fn raw_views(s: Seq<RawAttribute>) -> Seq<RawAttr> {
    Seq::new(s.len(), |i: int| s[i]@)
}

/// Attributes that were read and the position behind them, as the grammar
/// gives them.
pub open spec fn raw_result(r: Option<(Vec<RawAttribute>, usize)>) -> Option<(Seq<RawAttr>, int)> {
    match r {
        Some((v, k)) => Some((raw_views(v@), k as int)),
        None => None,
    }
}

/// The attributes of a start tag from `i`.
pub(crate) fn attributes(s: &[u8], i: usize) -> (r: Option<(Vec<RawAttribute>, usize)>)
    requires
        i <= s@.len(),
    ensures
        raw_result(r) == parse_attributes(s@, i as int),
        r matches Some((_, k)) ==> i <= k <= s@.len(),
{
    let mut out: Vec<RawAttribute> = Vec::new();
    let mut cur: usize = i;
    proof {
        lemma_prepend_empty(parse_attributes(s@, i as int));
        assert(raw_views(out@) =~= Seq::<RawAttr>::empty());
    }
    loop
        invariant
            i <= cur <= s@.len(),
            parse_attributes(s@, i as int) == prepend(
                raw_views(out@),
                parse_attributes(s@, cur as int),
            ),
        decreases s@.len() - cur,
    {
        let j = skip_ws(s, cur);
        if cur < j && j < s.len() && name_start(s[j]) {
            let e = scan_name(s, j);
            match eq_value(s, e) {
                Some((value, k)) => {
                    let name = copy_range(s, j, e);
                    let attr = RawAttribute { name, value };
                    proof {
                        lemma_prepend_twice(
                            raw_views(out@),
                            seq![attr@],
                            parse_attributes(s@, k as int),
                        );
                        assert(raw_views(out@.push(attr)) =~= raw_views(out@) + seq![attr@]);
                    }
                    out.push(attr);
                    cur = k;
                },
                None => {
                    return None;
                },
            }
        } else {
            proof {
                assert(raw_views(out@) + Seq::<RawAttr>::empty() =~= raw_views(out@));
            }
            return Some((out, j));
        }
    }
}

/// Whether no two of the attributes are written with the same name.
pub(crate) fn names_distinct(raw: &Vec<RawAttribute>) -> (r: bool)
    ensures
        r == distinct_names(raw_views(raw@)),
{
    let ghost all = raw_views(raw@);
    let mut j: usize = 0;
    while j < raw.len()
        invariant
            j <= raw@.len(),
            all == raw_views(raw@),
            forall|a: int, b: int| 0 <= a < b < j ==> all[a].name != all[b].name,
        decreases raw@.len() - j,
    {
        let mut i: usize = 0;
        while i < j
            invariant
                i <= j < raw@.len(),
                all == raw_views(raw@),
                forall|a: int| 0 <= a < i ==> all[a].name != all[j as int].name,
            decreases j - i,
        {
            if same_bytes(raw[i].name.as_slice(), raw[j].name.as_slice()) {
                assert(all[i as int].name == all[j as int].name);
                return false;
            }
            i = i + 1;
        }
        j = j + 1;
    }
    true
}

/// A copy of a byte string.
pub(crate) fn copy_bytes(s: &[u8]) -> (v: Vec<u8>)
    ensures
        v@ == s@,
{
    let v = copy_range(s, 0, s.len());
    assert(s@.subrange(0, s@.len() as int) =~= s@);
    v
}

/// A copy of a namespace binding.
pub(crate) fn copy_ns(ns: &xmlNs) -> (r: xmlNs)
    ensures
        r@ == ns@,
{
    let prefix = match &ns.prefix {
        Some(p) => Some(copy_bytes(p.as_slice())),
        None => None,
    };
    xmlNs { href: copy_bytes(ns.href.as_slice()), prefix }
}

/// The namespace that an attribute declares, if it is a declaration.
pub(crate) fn declared_ns(a: &RawAttribute) -> (r: Option<xmlNs>)
    ensures
        opt_ns(r) == ns_decl_of(a@),
{
    let xmlns: [u8; 5] = [0x78, 0x6d, 0x6c, 0x6e, 0x73];
    let xmlns_colon: [u8; 6] = [0x78, 0x6d, 0x6c, 0x6e, 0x73, COLON];
    proof {
        assert(xmlns@ =~= kw_xmlns());
        assert(xmlns_colon@ =~= kw_xmlns_colon());
    }
    if same_bytes(a.name.as_slice(), &xmlns) {
        Some(xmlNs { href: copy_bytes(a.value.as_slice()), prefix: None })
    } else if a.name.len() > 6 && starts_with(a.name.as_slice(), 0, &xmlns_colon) {
        let prefix = copy_range(a.name.as_slice(), 6, a.name.len());
        Some(xmlNs { href: copy_bytes(a.value.as_slice()), prefix: Some(prefix) })
    } else {
        None
    }
}

/// The namespaces that the attributes of a start tag declare, in order.
pub(crate) fn ns_declarations(raw: &Vec<RawAttribute>) -> (out: Vec<xmlNs>)
    ensures
        ns_views(out@) == ns_decls(raw_views(raw@)),
{
    let mut out: Vec<xmlNs> = Vec::new();
    let mut k: usize = 0;
    let ghost all = raw_views(raw@);
    proof {
        assert(ns_views(out@) =~= Seq::<NsView>::empty());
    }
    while k < raw.len()
        invariant
            k <= raw@.len(),
            all == raw_views(raw@),
            ns_views(out@) == ns_decls(all.take(k as int)),
        decreases raw@.len() - k,
    {
        let d = declared_ns(&raw[k]);
        proof {
            let next = all.take(k + 1);
            assert(next.drop_last() =~= all.take(k as int));
            assert(next.last() == raw@[k as int]@);
        }
        match d {
            Some(ns) => {
                proof {
                    assert(ns_views(out@.push(ns)) =~= ns_views(out@).push(ns@));
                }
                out.push(ns);
            },
            None => {},
        }
        k = k + 1;
    }
    proof {
        assert(all.take(raw@.len() as int) =~= all);
    }
    out
}

/// The bindings of `scope` followed by those of `decls`.
pub(crate) fn extend_scope(scope: &Vec<xmlNs>, decls: &Vec<xmlNs>) -> (out: Vec<xmlNs>)
    ensures
        ns_views(out@) == ns_views(scope@) + ns_views(decls@),
{
    let mut out: Vec<xmlNs> = Vec::new();
    let mut k: usize = 0;
    proof {
        assert(ns_views(out@) =~= ns_views(scope@).take(0));
    }
    while k < scope.len()
        invariant
            k <= scope@.len(),
            ns_views(out@) == ns_views(scope@).take(k as int),
        decreases scope@.len() - k,
    {
        let ns = copy_ns(&scope[k]);
        proof {
            assert(ns_views(out@.push(ns)) =~= ns_views(out@).push(ns@));
            assert(ns_views(scope@).take(k + 1) =~= ns_views(scope@).take(k as int).push(
                scope@[k as int]@,
            ));
        }
        out.push(ns);
        k = k + 1;
    }
    let mut m: usize = 0;
    proof {
        assert(ns_views(out@) =~= ns_views(scope@) + ns_views(decls@).take(0));
    }
    while m < decls.len()
        invariant
            m <= decls@.len(),
            ns_views(out@) == ns_views(scope@) + ns_views(decls@).take(m as int),
        decreases decls@.len() - m,
    {
        let ns = copy_ns(&decls[m]);
        proof {
            assert(ns_views(out@.push(ns)) =~= ns_views(out@).push(ns@));
            assert(ns_views(decls@).take(m + 1) =~= ns_views(decls@).take(m as int).push(
                decls@[m as int]@,
            ));
            assert((ns_views(scope@) + ns_views(decls@).take(m as int)).push(ns@) =~= ns_views(
                scope@,
            ) + ns_views(decls@).take(m + 1));
        }
        out.push(ns);
        m = m + 1;
    }
    proof {
        assert(ns_views(decls@).take(decls@.len() as int) =~= ns_views(decls@));
    }
    out
}

/// The bytes of an optional borrowed byte string.
pub open spec fn opt_slice(o: Option<&[u8]>) -> Option<Seq<u8>> {
    match o {
        Some(b) => Some(b@),
        None => None,
    }
}

/// Whether a binding's prefix is `prefix`.
fn same_prefix(a: &Option<Vec<u8>>, prefix: Option<&[u8]>) -> (r: bool)
    ensures
        r == (opt_bytes(*a) == opt_slice(prefix)),
{
    match (a, prefix) {
        (Some(x), Some(y)) => same_bytes(x.as_slice(), y),
        (None, None) => true,
        _ => false,
    }
}

/// The innermost binding of `prefix` in `scope`.
pub(crate) fn lookup_ns(scope: &Vec<xmlNs>, prefix: Option<&[u8]>) -> (r: Option<xmlNs>)
    ensures
        opt_ns(r) == lookup(ns_views(scope@), opt_slice(prefix)),
{
    let mut k: usize = scope.len();
    let ghost all = ns_views(scope@);
    proof {
        assert(all.take(k as int) =~= all);
    }
    while k > 0
        invariant
            k <= scope@.len(),
            all == ns_views(scope@),
            lookup(all, opt_slice(prefix)) == lookup(all.take(k as int), opt_slice(prefix)),
        decreases k,
    {
        proof {
            assert(all.take(k as int).drop_last() =~= all.take(k - 1));
            assert(all.take(k as int).last() == scope@[k - 1]@);
        }
        if same_prefix(&scope[k - 1].prefix, prefix) {
            return Some(copy_ns(&scope[k - 1]));
        }
        k = k - 1;
    }
    None
}

/// Where a qualified name parts into prefix and local name: the position of
/// its first `:`, if that is neither its first nor its last byte.
pub(crate) fn split_name(q: &[u8]) -> (r: Option<usize>)
    ensures
        match r {
            Some(c) => 0 < c && c + 1 < q@.len() && split_qname(q@) == Some(
                (q@.subrange(0, c as int), q@.subrange(c + 1, q@.len() as int)),
            ),
            None => split_qname(q@) is None,
        },
{
    let mut c: usize = 0;
    while c < q.len() && q[c] != COLON
        invariant
            c <= q@.len(),
            colon_index(q@, 0) == colon_index(q@, c as int),
        decreases q@.len() - c,
    {
        c = c + 1;
    }
    if 0 < c && c < q.len() && q.len() - c > 1 {
        Some(c)
    } else {
        None
    }
}

/// The name and namespace of an element written as `q`.
pub(crate) fn resolve_element_name(q: &[u8], scope: &Vec<xmlNs>) -> (r: (Vec<u8>, Option<xmlNs>))
    ensures
        (r.0@, opt_ns(r.1)) == resolve_element(q@, ns_views(scope@)),
{
    match split_name(q) {
        Some(c) => {
            let prefix = &q[0..c];
            match lookup_ns(scope, Some(prefix)) {
                Some(ns) => {
                    let n = q.len();
                    (copy_range(q, c + 1, n), Some(ns))
                },
                None => (copy_bytes(q), None),
            }
        },
        None => {
            match lookup_ns(scope, None) {
                Some(ns) => {
                    if ns.href.len() > 0 {
                        (copy_bytes(q), Some(ns))
                    } else {
                        (copy_bytes(q), None)
                    }
                },
                None => (copy_bytes(q), None),
            }
        },
    }
}

/// The name and namespace of an attribute written as `q`.
pub(crate) fn resolve_attribute_name(q: &[u8], scope: &Vec<xmlNs>) -> (r: (Vec<u8>, Option<xmlNs>))
    ensures
        (r.0@, opt_ns(r.1)) == resolve_attribute(q@, ns_views(scope@)),
{
    match split_name(q) {
        Some(c) => {
            let prefix = &q[0..c];
            match lookup_ns(scope, Some(prefix)) {
                Some(ns) => {
                    let n = q.len();
                    (copy_range(q, c + 1, n), Some(ns))
                },
                None => (copy_bytes(q), None),
            }
        },
        None => (copy_bytes(q), None),
    }
}

/// A node that holds text and nothing else.
pub(crate) fn make_text_node(kind: xmlElementType, content: Vec<u8>) -> (n: xmlNode)
    ensures
        n@ == text_node(kind, content@),
{
    let n = xmlNode {
        _type: kind,
        name: None,
        children: Vec::new(),
        ns: None,
        content: Some(content),
        properties: Vec::new(),
        nsDef: Vec::new(),
    };
    proof {
        lemma_node_view(n);
        assert(n@.children =~= Seq::<NodeView>::empty());
        assert(n@.properties =~= Seq::<AttrView>::empty());
        assert(n@.ns_def =~= Seq::<NsView>::empty());
    }
    n
}

/// A processing instruction.
pub(crate) fn make_pi_node(target: Vec<u8>, data: Option<Vec<u8>>) -> (n: xmlNode)
    ensures
        n@ == pi_node(target@, opt_bytes(data)),
{
    let n = xmlNode {
        _type: xmlElementType::PINode,
        name: Some(target),
        children: Vec::new(),
        ns: None,
        content: data,
        properties: Vec::new(),
        nsDef: Vec::new(),
    };
    proof {
        lemma_node_view(n);
        assert(n@.children =~= Seq::<NodeView>::empty());
        assert(n@.properties =~= Seq::<AttrView>::empty());
        assert(n@.ns_def =~= Seq::<NsView>::empty());
    }
    n
}

/// An element.
pub(crate) fn make_element(
    name: Vec<u8>,
    ns: Option<xmlNs>,
    decls: Vec<xmlNs>,
    props: Vec<xmlAttr>,
    children: Vec<xmlNode>,
) -> (n: xmlNode)
    ensures
        n@ == element_node(
            name@,
            opt_ns(ns),
            ns_views(decls@),
            attr_views(props@),
            node_views(children@),
        ),
{
    let n = xmlNode {
        _type: xmlElementType::ElementNode,
        name: Some(name),
        children,
        ns,
        content: None,
        properties: props,
        nsDef: decls,
    };
    proof {
        lemma_node_view(n);
    }
    n
}

/// The attribute node for an attribute as written.
pub(crate) fn make_attribute(a: &RawAttribute, scope: &Vec<xmlNs>) -> (r: xmlAttr)
    ensures
        r@ == attribute_of(a@, ns_views(scope@)),
{
    let (name, ns) = resolve_attribute_name(a.name.as_slice(), scope);
    let value = make_text_node(xmlElementType::TextNode, copy_bytes(a.value.as_slice()));
    let mut children: Vec<xmlNode> = Vec::new();
    children.push(value);
    let r = xmlAttr { name: Some(name), children, ns };
    proof {
        lemma_attr_view(r);
        assert(r@.children =~= seq![text_node(xmlElementType::TextNode, a@.value)]);
    }
    r
}

/// The attribute nodes of a start tag.
pub(crate) fn resolve_attributes(raw: &Vec<RawAttribute>, scope: &Vec<xmlNs>) -> (out: Vec<xmlAttr>)
    ensures
        attr_views(out@) == attributes_of(raw_views(raw@), ns_views(scope@)),
{
    let mut out: Vec<xmlAttr> = Vec::new();
    let mut k: usize = 0;
    let ghost all = raw_views(raw@);
    let ghost sc = ns_views(scope@);
    proof {
        assert(attr_views(out@) =~= Seq::<AttrView>::empty());
    }
    while k < raw.len()
        invariant
            k <= raw@.len(),
            all == raw_views(raw@),
            sc == ns_views(scope@),
            attr_views(out@) == attributes_of(all.take(k as int), sc),
        decreases raw@.len() - k,
    {
        let d = declared_ns(&raw[k]);
        proof {
            let next = all.take(k + 1);
            assert(next.drop_last() =~= all.take(k as int));
            assert(next.last() == raw@[k as int]@);
        }
        if d.is_none() {
            let a = make_attribute(&raw[k], scope);
            proof {
                assert(attr_views(out@.push(a)) =~= attr_views(out@).push(a@));
            }
            out.push(a);
        }
        k = k + 1;
    }
    proof {
        assert(all.take(raw@.len() as int) =~= all);
    }
    out
}

/// The comment that opens at `i`.
pub(crate) fn comment(s: &[u8], i: usize) -> (r: Option<(xmlNode, usize)>)
    requires
        has_prefix(s@, i as int, kw_comment_open()),
    ensures
        node_result(r) == parse_comment(s@, i as int),
        r matches Some((_, k)) ==> i < k <= s@.len(),
{
    let dashes: [u8; 2] = [DASH, DASH];
    let close: [u8; 3] = [DASH, DASH, GT];
    proof {
        assert(dashes@ =~= kw_double_dash());
        assert(close@ =~= kw_comment_close());
    }
    let n = s.len();
    match find_bytes(s, i + 4, &dashes) {
        Some(j) => {
            if starts_with(s, j, &close) {
                let body = copy_range(s, i + 4, j);
                Some((make_text_node(xmlElementType::CommentNode, body), j + 3))
            } else {
                None
            }
        },
        None => None,
    }
}

/// The CDATA section that opens at `i`.
pub(crate) fn cdata(s: &[u8], i: usize) -> (r: Option<(xmlNode, usize)>)
    requires
        has_prefix(s@, i as int, kw_cdata_open()),
    ensures
        node_result(r) == parse_cdata(s@, i as int),
        r matches Some((_, k)) ==> i < k <= s@.len(),
{
    let close: [u8; 3] = [RBRACK, RBRACK, GT];
    proof {
        assert(close@ =~= kw_cdata_close());
    }
    let n = s.len();
    match find_bytes(s, i + 9, &close) {
        Some(j) => {
            let body = copy_range(s, i + 9, j);
            Some((make_text_node(xmlElementType::CDataSectionNode, body), j + 3))
        },
        None => None,
    }
}

/// Whether a processing instruction's target is reserved.
fn reserved_target(t: &[u8]) -> (r: bool)
    ensures
        r == is_reserved_target(t@),
{
    t.len() == 3 && (t[0] == 0x78 || t[0] == 0x58) && (t[1] == 0x6d || t[1] == 0x4d) && (t[2]
        == 0x6c || t[2] == 0x4c)
}

/// The processing instruction that opens at `i`.
pub(crate) fn processing_instruction(s: &[u8], i: usize) -> (r: Option<(xmlNode, usize)>)
    requires
        has_prefix(s@, i as int, kw_pi_open()),
    ensures
        node_result(r) == parse_pi(s@, i as int),
        r matches Some((_, k)) ==> i < k <= s@.len(),
{
    let close: [u8; 2] = [QUEST, GT];
    proof {
        assert(close@ =~= kw_pi_close());
    }
    let len = s.len();
    let n0 = i + 2;
    if n0 < len && name_start(s[n0]) {
        let n1 = scan_name(s, n0);
        if reserved_target(&s[n0..n1]) {
            None
        } else if starts_with(s, n1, &close) {
            Some((make_pi_node(copy_range(s, n0, n1), None), n1 + 2))
        } else if n1 < len && space(s[n1]) {
            let d0 = skip_ws(s, n1);
            match find_bytes(s, d0, &close) {
                Some(j) => {
                    let data = copy_range(s, d0, j);
                    Some((make_pi_node(copy_range(s, n0, n1), Some(data)), j + 2))
                },
                None => None,
            }
        } else {
            None
        }
    } else {
        None
    }
}

/// Whether the end tag of the element written as `q` stands at `k`; if so,
/// the position behind it.
pub(crate) fn end_tag(s: &[u8], k: usize, q: &[u8]) -> (r: Option<usize>)
    requires
        k <= s@.len(),
    ensures
        match r {
            Some(end) => parse_end_tag(s@, k as int, q@) == Some(end as int) && k < end
                <= s@.len(),
            None => parse_end_tag(s@, k as int, q@) is None,
        },
{
    let open: [u8; 2] = [LT, SLASH];
    proof {
        assert(open@ =~= kw_end_tag());
    }
    if !starts_with(s, k, &open) {
        return None;
    }
    if !starts_with(s, k + 2, q) {
        return None;
    }
    let e = k + 2 + q.len();
    if e < s.len() && name_char(s[e]) {
        return None;
    }
    let m = skip_ws(s, e);
    if m < s.len() && s[m] == GT {
        Some(m + 1)
    } else {
        None
    }
}

/// The element whose start tag opens at `i`.
pub(crate) fn element(s: &[u8], i: usize, scope: &Vec<xmlNs>, depth: usize) -> (r: Option<
    (xmlNode, usize),
>)
    requires
        i <= s@.len(),
    ensures
        node_result(r) == parse_element(s@, i as int, ns_views(scope@), depth as nat),
        r matches Some((_, k)) ==> i < k <= s@.len(),
    decreases depth, s@.len() - i, 0nat,
{
    let len = s.len();
    if len - i < 2 || s[i] != LT || !name_start(s[i + 1]) {
        return None;
    }
    let e = scan_name(s, i + 1);
    let q = &s[i + 1..e];
    let empty_close: [u8; 2] = [SLASH, GT];
    proof {
        assert(empty_close@ =~= kw_empty_close());
    }
    match attributes(s, e) {
        Some((raw, j)) => {
            if !names_distinct(&raw) {
                return None;
            }
            let decls = ns_declarations(&raw);
            let inner = extend_scope(scope, &decls);
            let (name, ns) = resolve_element_name(q, &inner);
            let props = resolve_attributes(&raw, &inner);
            if starts_with(s, j, &empty_close) {
                let children: Vec<xmlNode> = Vec::new();
                proof {
                    assert(node_views(children@) =~= Seq::<NodeView>::empty());
                }
                Some((make_element(name, ns, decls, props, children), j + 2))
            } else if j < len && s[j] == GT && depth > 0 {
                match content(s, j + 1, &inner, depth - 1) {
                    Some((children, k)) => {
                        match end_tag(s, k, q) {
                            Some(end) => Some(
                                (make_element(name, ns, decls, props, children), end),
                            ),
                            None => None,
                        }
                    },
                    None => None,
                }
            } else {
                None
            }
        },
        None => None,
    }
}

/// What stands at `i` inside an element.
pub(crate) fn item(s: &[u8], i: usize, scope: &Vec<xmlNs>, depth: usize) -> (r: Option<(xmlNode, usize)>)
    requires
        i < s@.len(),
    ensures
        node_result(r) == parse_item(s@, i as int, ns_views(scope@), depth as nat),
        r matches Some((_, k)) ==> i < k <= s@.len(),
    decreases depth, s@.len() - i, 1nat,
{
    let comment_open: [u8; 4] = [LT, BANG, DASH, DASH];
    let cdata_open: [u8; 9] = [LT, BANG, LBRACK, 0x43, 0x44, 0x41, 0x54, 0x41, LBRACK];
    let pi_open: [u8; 2] = [LT, QUEST];
    proof {
        assert(comment_open@ =~= kw_comment_open());
        assert(cdata_open@ =~= kw_cdata_open());
        assert(pi_open@ =~= kw_pi_open());
    }
    if starts_with(s, i, &comment_open) {
        comment(s, i)
    } else if starts_with(s, i, &cdata_open) {
        cdata(s, i)
    } else if starts_with(s, i, &pi_open) {
        processing_instruction(s, i)
    } else if s[i] == LT {
        element(s, i, scope, depth)
    } else {
        match text(s, i) {
            Some((bytes, k)) => Some((make_text_node(xmlElementType::TextNode, bytes), k)),
            None => None,
        }
    }
}

/// The content of an element from `i` up to its end tag or the end of the
/// input.
pub(crate) fn content(s: &[u8], i: usize, scope: &Vec<xmlNs>, depth: usize) -> (r: Option<
    (Vec<xmlNode>, usize),
>)
    requires
        i <= s@.len(),
    ensures
        nodes_result(r) == parse_content(s@, i as int, ns_views(scope@), depth as nat),
        r matches Some((_, k)) ==> i <= k <= s@.len(),
    decreases depth, s@.len() - i, 2nat,
{
    let open: [u8; 2] = [LT, SLASH];
    let mut out: Vec<xmlNode> = Vec::new();
    let mut j: usize = i;
    let ghost sc = ns_views(scope@);
    let ghost d = depth as nat;
    proof {
        assert(open@ =~= kw_end_tag());
        lemma_prepend_empty(parse_content(s@, i as int, sc, d));
        assert(node_views(out@) =~= Seq::<NodeView>::empty());
    }
    loop
        invariant
            i <= j <= s@.len(),
            open@ == kw_end_tag(),
            sc == ns_views(scope@),
            d == depth as nat,
            parse_content(s@, i as int, sc, d) == prepend(
                node_views(out@),
                parse_content(s@, j as int, sc, d),
            ),
        decreases s@.len() - j,
    {
        if j >= s.len() || starts_with(s, j, &open) {
            proof {
                assert(node_views(out@) + Seq::<NodeView>::empty() =~= node_views(out@));
            }
            return Some((out, j));
        }
        match item(s, j, scope, depth) {
            Some((node, k)) => {
                proof {
                    lemma_prepend_twice(
                        node_views(out@),
                        seq![node@],
                        parse_content(s@, k as int, sc, d),
                    );
                    assert(node_views(out@.push(node)) =~= node_views(out@) + seq![node@]);
                }
                out.push(node);
                j = k;
            },
            None => {
                return None;
            },
        }
    }
}

/// Comments and processing instructions from `i`.
pub(crate) fn misc(s: &[u8], i: usize) -> (r: Option<(Vec<xmlNode>, usize)>)
    requires
        i <= s@.len(),
    ensures
        nodes_result(r) == parse_misc(s@, i as int),
        r matches Some((_, k)) ==> i <= k <= s@.len(),
{
    let comment_open: [u8; 4] = [LT, BANG, DASH, DASH];
    let pi_open: [u8; 2] = [LT, QUEST];
    let mut out: Vec<xmlNode> = Vec::new();
    let mut cur: usize = i;
    proof {
        assert(comment_open@ =~= kw_comment_open());
        assert(pi_open@ =~= kw_pi_open());
        lemma_prepend_empty(parse_misc(s@, i as int));
        assert(node_views(out@) =~= Seq::<NodeView>::empty());
    }
    loop
        invariant
            i <= cur <= s@.len(),
            comment_open@ == kw_comment_open(),
            pi_open@ == kw_pi_open(),
            parse_misc(s@, i as int) == prepend(node_views(out@), parse_misc(s@, cur as int)),
        decreases s@.len() - cur,
    {
        let j = skip_ws(s, cur);
        let found = if starts_with(s, j, &comment_open) {
            comment(s, j)
        } else if starts_with(s, j, &pi_open) {
            processing_instruction(s, j)
        } else {
            proof {
                assert(node_views(out@) + Seq::<NodeView>::empty() =~= node_views(out@));
            }
            return Some((out, j));
        };
        match found {
            Some((node, k)) => {
                proof {
                    lemma_prepend_twice(node_views(out@), seq![node@], parse_misc(s@, k as int));
                    assert(node_views(out@.push(node)) =~= node_views(out@) + seq![node@]);
                }
                out.push(node);
                cur = k;
            },
            None => {
                return None;
            },
        }
    }
}

/// `=` with optional white space around it, then a quoted literal, from `i`.
pub(crate) fn eq_literal(s: &[u8], i: usize) -> (r: Option<(Vec<u8>, usize)>)
    requires
        i <= s@.len(),
    ensures
        bytes_result(r) == parse_eq_literal(s@, i as int),
        r matches Some((_, k)) ==> i < k <= s@.len(),
{
    let q = skip_ws(s, i);
    if q < s.len() && s[q] == EQUALS {
        let v = skip_ws(s, q + 1);
        if v < s.len() && (s[v] == QUOT || s[v] == APOS) {
            let e = scan_name(s, v + 1);
            if v + 1 < e && e < s.len() && s[e] == s[v] {
                Some((copy_range(s, v + 1, e), e + 1))
            } else {
                None
            }
        } else {
            None
        }
    } else {
        None
    }
}

/// One optional part of the XML declaration from `i`.
fn decl_part(s: &[u8], i: usize, key: &[u8]) -> (r: Option<(Option<Vec<u8>>, usize)>)
    requires
        i <= s@.len(),
    ensures
        match r {
            Some((value, d)) => parse_decl_part(s@, i as int, key@) == Some(
                (opt_bytes(value), d as int),
            ) && i <= d <= s@.len(),
            None => parse_decl_part(s@, i as int, key@) is None,
        },
{
    let c = skip_ws(s, i);
    if c > i && starts_with(s, c, key) {
        match eq_literal(s, c + key.len()) {
            Some((value, d)) => Some((Some(value), d)),
            None => None,
        }
    } else {
        Some((None, i))
    }
}

/// What the XML declaration says, as it is kept.
pub struct Declaration {
    pub version: Option<Vec<u8>>,
    pub encoding: Option<Vec<u8>>,
}

impl View for Declaration {
    type V = Prolog;

    open spec fn view(&self) -> Prolog {
        Prolog { version: opt_bytes(self.version), encoding: opt_bytes(self.encoding) }
    }
}

/// A declaration that was read and the position behind it, as the grammar
/// gives them.
pub open spec fn decl_result(r: Option<(Declaration, usize)>) -> Option<(Prolog, int)> {
    match r {
        Some((d, k)) => Some((d@, k as int)),
        None => None,
    }
}

/// The XML declaration at the start of the input.
fn xml_decl(s: &[u8]) -> (r: Option<(Declaration, usize)>)
    requires
        has_xml_decl(s@),
    ensures
        decl_result(r) == parse_xml_decl(s@),
        r matches Some((_, k)) ==> k <= s@.len(),
{
    let version: [u8; 7] = [0x76, 0x65, 0x72, 0x73, 0x69, 0x6f, 0x6e];
    let encoding: [u8; 8] = [0x65, 0x6e, 0x63, 0x6f, 0x64, 0x69, 0x6e, 0x67];
    let standalone: [u8; 10] = [0x73, 0x74, 0x61, 0x6e, 0x64, 0x61, 0x6c, 0x6f, 0x6e, 0x65];
    let close: [u8; 2] = [QUEST, GT];
    proof {
        assert(version@ =~= kw_version());
        assert(encoding@ =~= kw_encoding());
        assert(standalone@ =~= kw_standalone());
        assert(close@ =~= kw_pi_close());
    }
    let a = skip_ws(s, 5);
    if !starts_with(s, a, &version) {
        return None;
    }
    match eq_literal(s, a + 7) {
        Some((v, b)) => {
            match decl_part(s, b, &encoding) {
                Some((enc, d)) => {
                    match decl_part(s, d, &standalone) {
                        Some((_, f)) => {
                            let g = skip_ws(s, f);
                            if starts_with(s, g, &close) {
                                Some((Declaration { version: Some(v), encoding: enc }, g + 2))
                            } else {
                                None
                            }
                        },
                        None => None,
                    }
                },
                None => None,
            }
        },
        None => None,
    }
}

/// The declaration of a document, or none where the input does not open with
/// one.
fn prolog(s: &[u8]) -> (r: Option<(Declaration, usize)>)
    ensures
        decl_result(r) == parse_prolog(s@),
        r matches Some((_, k)) ==> k <= s@.len(),
{
    let open: [u8; 5] = [LT, QUEST, 0x78, 0x6d, 0x6c];
    proof {
        assert(open@ =~= kw_xml_decl());
    }
    if starts_with(s, 0, &open) && 5 < s.len() && space(s[5]) {
        xml_decl(s)
    } else {
        Some((Declaration { version: None, encoding: None }, 0))
    }
}

/// The bindings in force outside the root element.
fn initial_scope() -> (scope: Vec<xmlNs>)
    ensures
        ns_views(scope@) == root_scope(),
{
    let xml: [u8; 3] = [0x78, 0x6d, 0x6c];
    proof {
        assert(xml@ =~= kw_xml());
    }
    let href = copy_bytes("http://www.w3.org/XML/1998/namespace".as_bytes());
    let mut scope: Vec<xmlNs> = Vec::new();
    scope.push(xmlNs { href, prefix: Some(copy_bytes(&xml)) });
    proof {
        assert(ns_views(scope@) =~= root_scope());
    }
    scope
}

/// What a document holds, as it is kept.
pub struct ParsedDocument {
    pub declaration: Declaration,
    pub children: Vec<xmlNode>,
}

impl View for ParsedDocument {
    type V = Parsed;

    open spec fn view(&self) -> Parsed {
        Parsed { prolog: self.declaration@, children: node_views(self.children@) }
    }
}

/// The tree that the bytes of a whole document stand for, or `None` where
/// they are malformed.
pub fn document(s: &[u8]) -> (r: Option<ParsedDocument>)
    ensures
        r is Some <==> parse_document(s@) is Some,
        r matches Some(d) ==> parse_document(s@) == Some(d@),
{
    let (declaration, i) = match prolog(s) {
        Some(p) => p,
        None => {
            return None;
        },
    };
    let (before, j) = match misc(s, i) {
        Some(p) => p,
        None => {
            return None;
        },
    };
    let scope = initial_scope();
    let (root, k) = match element(s, j, &scope, MAX_DEPTH) {
        Some(p) => p,
        None => {
            return None;
        },
    };
    let (after, end) = match misc(s, k) {
        Some(p) => p,
        None => {
            return None;
        },
    };
    if end != s.len() {
        return None;
    }
    let ghost wanted = node_views(before@) + seq![root@] + node_views(after@);
    let mut children = before;
    children.push(root);
    proof {
        assert(node_views(children@) =~= node_views(before@) + seq![root@]);
    }
    append_nodes(&mut children, after);
    proof {
        assert(node_views(children@) =~= wanted);
    }
    Some(ParsedDocument { declaration, children })
}

/// Moves the nodes of `more` to the end of `out`.
fn append_nodes(out: &mut Vec<xmlNode>, more: Vec<xmlNode>)
    ensures
        node_views(final(out)@) == node_views(old(out)@) + node_views(more@),
{
    let mut more = more;
    let ghost all = more@;
    out.append(&mut more);
    proof {
        assert(node_views(out@) =~= node_views(old(out)@) + node_views(all));
    }
}

} // verus!
