//! What the engine writes, it reads: writing out a document that was read and
//! reading the bytes again gives the same document.

use vstd::prelude::*;
use crate::grammar::{attribute_of, attributes_of, colon_index, dec_value, digits_end};
use crate::grammar::{distinct_names, lookup, ns_decl_of, ns_decls, parse_attributes};
use crate::grammar::{parse_eq_value, parse_reference, resolve_attribute, resolve_element};
use crate::grammar::{split_qname, text_body, text_node, utf8_encode, value_body, RawAttr};
use crate::serialize::{escape_attr, escape_attr_byte, escape_text, escape_text_byte};
use crate::serialize::{kw_eq_quote, kw_ns_attr, qualified_name, write_attr, write_attrs};
use crate::serialize::{write_ns_decl, write_ns_decls, write_value};
use crate::syntax::{find, has_prefix, is_name_char, is_name_start, is_space, name_end};
use crate::syntax::{kw_cdata_close, kw_ref_amp, kw_ref_apos, kw_ref_dec, kw_ref_gt, kw_ref_hex};
use crate::syntax::{kw_ref_lt, kw_ref_quot, kw_xmlns, kw_xmlns_colon, skip_spaces};
use crate::syntax::{AMP, COLON, CR, EQUALS, GT, LF, LT, QUOT, RBRACK, SPACE, TAB};
use crate::grammar::{parse_cdata, parse_comment, parse_pi};
use crate::serialize::{bytes_or_empty, write_node, write_nodes, write_pi, write_top};
use crate::syntax::{kw_cdata_open, kw_comment_close, kw_comment_open, kw_double_dash};
use crate::syntax::{kw_pi_close, kw_pi_open};
use crate::grammar::{element_node, parse_content, parse_element, parse_end_tag, parse_item};
use crate::serialize::write_tag_open;
use crate::syntax::{kw_empty_close, kw_end_tag, SLASH};
use crate::grammar::{has_xml_decl, parse_decl_part, parse_document, parse_eq_literal};
use crate::grammar::{parse_misc, parse_prolog, parse_xml_decl, root_scope, Parsed, Prolog};
use crate::grammar::MAX_DEPTH;
use crate::serialize::{kw_decl_encoding, kw_decl_open, write_declaration, write_document};
use crate::syntax::{kw_default_version, kw_encoding, kw_standalone, kw_version, kw_xml_decl};
use crate::tree::{xmlElementType, AttrView, DocView, NodeView, NsView};

verus! {

// ----- bytes in their place -----

/// Two byte strings stand one after the other exactly when their
/// concatenation stands there.
pub proof fn lemma_has_prefix_concat(t: Seq<u8>, k: int, a: Seq<u8>, b: Seq<u8>)
    ensures
        has_prefix(t, k, a + b) <==> has_prefix(t, k, a) && has_prefix(t, k + a.len(), b),
{
    if has_prefix(t, k, a + b) {
        assert(t.subrange(k, k + a.len()) =~= (a + b).subrange(0, a.len() as int));
        assert((a + b).subrange(0, a.len() as int) =~= a);
        assert(t.subrange(k + a.len(), k + a.len() + b.len()) =~= (a + b).subrange(
            a.len() as int,
            (a + b).len() as int,
        ));
        assert((a + b).subrange(a.len() as int, (a + b).len() as int) =~= b);
    }
    if has_prefix(t, k, a) && has_prefix(t, k + a.len(), b) {
        assert(t.subrange(k, k + a.len() + b.len()) =~= t.subrange(k, k + a.len()) + t.subrange(
            k + a.len(),
            k + a.len() + b.len(),
        ));
    }
}

/// The bytes of what stands at a position.
pub proof fn lemma_has_prefix_index(t: Seq<u8>, k: int, a: Seq<u8>, m: int)
    requires
        has_prefix(t, k, a),
        0 <= m < a.len(),
    ensures
        t[k + m] == a[m],
{
    assert(t.subrange(k, k + a.len())[m] == t[k + m]);
}

/// A different byte at some place shows that a byte string does not stand
/// there.
pub proof fn lemma_not_has_prefix(t: Seq<u8>, k: int, a: Seq<u8>, m: int)
    requires
        0 <= m < a.len(),
        0 <= k,
        k + m >= t.len() || t[k + m] != a[m],
    ensures
        !has_prefix(t, k, a),
{
    if has_prefix(t, k, a) {
        lemma_has_prefix_index(t, k, a, m);
    }
}

/// A run of name bytes that ends where the names end.
pub proof fn lemma_name_run(t: Seq<u8>, k: int, q: Seq<u8>)
    requires
        has_prefix(t, k, q),
        forall|m: int| 0 <= m < q.len() ==> is_name_char(#[trigger] q[m]),
        k + q.len() == t.len() || !is_name_char(t[k + q.len()]),
    ensures
        name_end(t, k) == k + q.len(),
    decreases q.len(),
{
    if q.len() > 0 {
        lemma_has_prefix_index(t, k, q, 0);
        let rest = q.drop_first();
        lemma_has_prefix_concat(t, k, seq![q[0]], rest);
        assert(seq![q[0]] + rest =~= q);
        assert forall|m: int| 0 <= m < rest.len() implies is_name_char(#[trigger] rest[m]) by {
            assert(rest[m] == q[m + 1]);
        }
        lemma_name_run(t, k + 1, rest);
    }
}

/// The bytes up to the end of a name are name bytes, and the byte there is
/// none.
pub proof fn lemma_name_end_is_run(s: Seq<u8>, i: int)
    requires
        0 <= i <= s.len(),
    ensures
        i <= name_end(s, i) <= s.len(),
        forall|m: int| i <= m < name_end(s, i) ==> is_name_char(#[trigger] s[m]),
        name_end(s, i) == s.len() || !is_name_char(s[name_end(s, i)]),
    decreases s.len() - i,
{
    if i < s.len() && is_name_char(s[i]) {
        lemma_name_end_is_run(s, i + 1);
    }
}

/// Where a byte string is found, it stands, and it stands nowhere before.
pub proof fn lemma_find_is_first(s: Seq<u8>, i: int, pat: Seq<u8>)
    requires
        0 <= i,
    ensures
        find(s, i, pat) matches Some(j) ==> i <= j && has_prefix(s, j, pat) && forall|m: int|
            i <= m < j ==> !has_prefix(s, m, pat),
    decreases s.len() - i,
{
    if !has_prefix(s, i, pat) && i < s.len() {
        lemma_find_is_first(s, i + 1, pat);
    }
}

/// A byte string that stands at a place, and nowhere between there and an
/// earlier place, is found from the earlier place.
pub proof fn lemma_find_first(t: Seq<u8>, k: int, j: int, pat: Seq<u8>)
    requires
        0 <= k <= j,
        has_prefix(t, j, pat),
        forall|m: int| k <= m < j ==> !has_prefix(t, m, pat),
    ensures
        find(t, k, pat) == Some(j),
    decreases j - k,
{
    if k < j {
        lemma_find_first(t, k + 1, j, pat);
    }
}

/// Whether a byte string stands at a place is a matter of the bytes there.
pub proof fn lemma_has_prefix_moved(
    s: Seq<u8>,
    i: int,
    t: Seq<u8>,
    k: int,
    w: Seq<u8>,
    m: int,
    pat: Seq<u8>,
)
    requires
        has_prefix(s, i, w),
        has_prefix(t, k, w),
        0 <= m,
        m + pat.len() <= w.len(),
    ensures
        has_prefix(s, i + m, pat) == has_prefix(t, k + m, pat),
{
    let a = s.subrange(i + m, i + m + pat.len());
    let b = t.subrange(k + m, k + m + pat.len());
    let c = w.subrange(m, m + pat.len());
    assert forall|x: int| 0 <= x < pat.len() implies #[trigger] a[x] == c[x] by {
        lemma_has_prefix_index(s, i, w, m + x);
    }
    assert forall|x: int| 0 <= x < pat.len() implies #[trigger] b[x] == c[x] by {
        lemma_has_prefix_index(t, k, w, m + x);
    }
    assert(a =~= c);
    assert(b =~= c);
}

/// What was found behind some bytes in one input is found behind the same
/// bytes in another.
pub proof fn lemma_find_moved(s: Seq<u8>, i: int, j: int, t: Seq<u8>, k: int, pat: Seq<u8>)
    requires
        0 <= i,
        0 <= k,
        find(s, i, pat) == Some(j),
        has_prefix(t, k, s.subrange(i, j + pat.len())),
    ensures
        find(t, k, pat) == Some(k + (j - i)),
{
    lemma_find_is_first(s, i, pat);
    let w = s.subrange(i, j + pat.len());
    assert(has_prefix(s, i, w)) by {
        assert(s.subrange(i, i + w.len()) =~= w);
    }
    assert forall|m: int| k <= m < k + (j - i) implies !has_prefix(t, m, pat) by {
        lemma_has_prefix_moved(s, i, t, k, w, m - k, pat);
    }
    lemma_has_prefix_moved(s, i, t, k, w, j - i, pat);
    lemma_find_first(t, k, k + (j - i), pat);
}

// ----- references -----

/// The reference that a byte of text or of an attribute value is written as
/// reads back as that byte.
#[verifier::rlimit(50)]
pub proof fn lemma_reference_reads_back(t: Seq<u8>, k: int, b: u8)
    requires
        b == LT || b == GT || b == AMP || b == QUOT || b == TAB || b == LF || b == CR,
        has_prefix(t, k, escape_attr_byte(b)),
    ensures
        parse_reference(t, k) == Some((seq![b], k + escape_attr_byte(b).len())),
        k + escape_attr_byte(b).len() <= t.len(),
        t[k] == AMP,
{
    let e = escape_attr_byte(b);
    lemma_has_prefix_index(t, k, e, 0);
    lemma_has_prefix_index(t, k, e, 1);
    lemma_has_prefix_index(t, k, e, 2);
    lemma_has_prefix_index(t, k, e, 3);
    if b == LT {
    } else if b == GT {
        lemma_not_has_prefix(t, k, kw_ref_lt(), 1);
    } else if b == AMP {
        lemma_not_has_prefix(t, k, kw_ref_lt(), 1);
        lemma_not_has_prefix(t, k, kw_ref_gt(), 1);
    } else if b == QUOT {
        lemma_not_has_prefix(t, k, kw_ref_lt(), 1);
        lemma_not_has_prefix(t, k, kw_ref_gt(), 1);
        lemma_not_has_prefix(t, k, kw_ref_amp(), 1);
        lemma_not_has_prefix(t, k, kw_ref_apos(), 1);
    } else {
        lemma_not_has_prefix(t, k, kw_ref_lt(), 1);
        lemma_not_has_prefix(t, k, kw_ref_gt(), 1);
        lemma_not_has_prefix(t, k, kw_ref_amp(), 1);
        lemma_not_has_prefix(t, k, kw_ref_apos(), 1);
        lemma_not_has_prefix(t, k, kw_ref_quot(), 1);
        lemma_not_has_prefix(t, k, kw_ref_hex(), 2);
        lemma_has_prefix_concat(t, k, kw_ref_dec(), e.subrange(2, e.len() as int));
        assert(kw_ref_dec() + e.subrange(2, e.len() as int) =~= e);
        reveal_with_fuel(digits_end, 3);
        reveal_with_fuel(dec_value, 3);
        if b == TAB {
            assert(digits_end(t, k + 2) == k + 3);
            assert(dec_value(t, k + 2, k + 3) == 9);
            assert(utf8_encode(9) =~= seq![TAB]);
        } else if b == LF {
            lemma_has_prefix_index(t, k, e, 4);
            assert(digits_end(t, k + 2) == k + 4);
            assert(dec_value(t, k + 2, k + 4) == 10);
            assert(utf8_encode(10) =~= seq![LF]);
        } else {
            lemma_has_prefix_index(t, k, e, 4);
            assert(digits_end(t, k + 2) == k + 4);
            assert(dec_value(t, k + 2, k + 4) == 13);
            assert(utf8_encode(13) =~= seq![CR]);
        }
    }
}

// ----- text -----

/// Text is written byte by byte.
pub proof fn lemma_escape_text_concat(a: Seq<u8>, b: Seq<u8>)
    ensures
        escape_text(a + b) == escape_text(a) + escape_text(b),
    decreases b.len(),
{
    if b.len() == 0 {
        assert(a + b =~= a);
        assert(escape_text(a) + escape_text(b) =~= escape_text(a));
    } else {
        assert((a + b).drop_last() =~= a + b.drop_last());
        lemma_escape_text_concat(a, b.drop_last());
        assert(escape_text(a) + escape_text(b.drop_last()) + escape_text_byte(b.last())
            =~= escape_text(a) + (escape_text(b.drop_last()) + escape_text_byte(b.last())));
    }
}

/// Text is written first byte first.
pub proof fn lemma_escape_text_first(c: Seq<u8>)
    requires
        c.len() > 0,
    ensures
        escape_text(c) == escape_text_byte(c[0]) + escape_text(c.drop_first()),
{
    let head = seq![c[0]];
    assert(head + c.drop_first() =~= c);
    lemma_escape_text_concat(head, c.drop_first());
    assert(head.drop_last() =~= Seq::<u8>::empty());
    assert(escape_text(head.drop_last()) =~= Seq::<u8>::empty());
    assert(head.last() == c[0]);
    assert(escape_text(head) =~= escape_text_byte(c[0]));
}

/// Text as it is written holds neither `<` nor `>`.
pub proof fn lemma_escape_text_clean(c: Seq<u8>)
    ensures
        forall|m: int|
            0 <= m < escape_text(c).len() ==> (#[trigger] escape_text(c)[m]) != LT && escape_text(
                c,
            )[m] != GT,
        c.len() > 0 ==> escape_text(c).len() > 0,
    decreases c.len(),
{
    if c.len() > 0 {
        lemma_escape_text_clean(c.drop_last());
        let front = escape_text(c.drop_last());
        let back = escape_text_byte(c.last());
        assert(escape_text(c) == front + back);
        assert forall|m: int| 0 <= m < escape_text(c).len() implies (#[trigger] escape_text(
            c,
        )[m]) != LT && escape_text(c)[m] != GT by {
            if m < front.len() {
                assert(escape_text(c)[m] == front[m]);
            } else {
                assert(escape_text(c)[m] == back[m - front.len()]);
            }
        }
    }
}

/// Text that was written reads back as it was, up to the `<` or the end of
/// the input behind it.
#[verifier::rlimit(50)]
pub proof fn lemma_text_reads_back(t: Seq<u8>, k: int, c: Seq<u8>)
    requires
        has_prefix(t, k, escape_text(c)),
        k + escape_text(c).len() == t.len() || t[k + escape_text(c).len()] == LT,
    ensures
        text_body(t, k) == Some((c, k + escape_text(c).len())),
    decreases c.len(),
{
    let e = escape_text(c);
    if c.len() == 0 {
        assert(c =~= Seq::<u8>::empty());
    } else {
        let b = c[0];
        let rest = c.drop_first();
        let eb = escape_text_byte(b);
        let er = escape_text(rest);
        lemma_escape_text_first(c);
        lemma_has_prefix_concat(t, k, eb, er);
        lemma_text_reads_back(t, k + eb.len(), rest);
        assert(seq![b] + rest =~= c);
        lemma_has_prefix_index(t, k, eb, 0);
        if b == LT || b == GT || b == AMP || b == CR {
            lemma_reference_reads_back(t, k, b);
        } else {
            lemma_escape_text_clean(rest);
            if b != RBRACK {
                lemma_not_has_prefix(t, k, kw_cdata_close(), 0);
            } else if er.len() == 0 {
                lemma_not_has_prefix(t, k, kw_cdata_close(), 1);
            } else if er.len() == 1 {
                lemma_not_has_prefix(t, k, kw_cdata_close(), 2);
            } else {
                lemma_has_prefix_index(t, k + 1, er, 1);
                lemma_not_has_prefix(t, k, kw_cdata_close(), 2);
            }
        }
    }
}

// ----- attribute values -----

/// An attribute value is written byte by byte.
pub proof fn lemma_escape_attr_concat(a: Seq<u8>, b: Seq<u8>)
    ensures
        escape_attr(a + b) == escape_attr(a) + escape_attr(b),
    decreases b.len(),
{
    if b.len() == 0 {
        assert(a + b =~= a);
        assert(escape_attr(a) + escape_attr(b) =~= escape_attr(a));
    } else {
        assert((a + b).drop_last() =~= a + b.drop_last());
        lemma_escape_attr_concat(a, b.drop_last());
        assert(escape_attr(a) + escape_attr(b.drop_last()) + escape_attr_byte(b.last())
            =~= escape_attr(a) + (escape_attr(b.drop_last()) + escape_attr_byte(b.last())));
    }
}

/// An attribute value is written first byte first.
pub proof fn lemma_escape_attr_first(c: Seq<u8>)
    requires
        c.len() > 0,
    ensures
        escape_attr(c) == escape_attr_byte(c[0]) + escape_attr(c.drop_first()),
{
    let head = seq![c[0]];
    assert(head + c.drop_first() =~= c);
    lemma_escape_attr_concat(head, c.drop_first());
    assert(head.drop_last() =~= Seq::<u8>::empty());
    assert(escape_attr(head.drop_last()) =~= Seq::<u8>::empty());
    assert(head.last() == c[0]);
    assert(escape_attr(head) =~= escape_attr_byte(c[0]));
}

/// An attribute value that was written between double quotes reads back as
/// it was.
#[verifier::rlimit(50)]
pub proof fn lemma_value_reads_back(t: Seq<u8>, k: int, c: Seq<u8>)
    requires
        has_prefix(t, k, escape_attr(c) + seq![QUOT]),
    ensures
        value_body(t, k, QUOT) == Some((c, k + escape_attr(c).len() + 1)),
    decreases c.len(),
{
    let e = escape_attr(c);
    lemma_has_prefix_concat(t, k, e, seq![QUOT]);
    if c.len() == 0 {
        assert(c =~= Seq::<u8>::empty());
        lemma_has_prefix_index(t, k, seq![QUOT], 0);
    } else {
        let b = c[0];
        let rest = c.drop_first();
        let eb = escape_attr_byte(b);
        let er = escape_attr(rest);
        lemma_escape_attr_first(c);
        lemma_has_prefix_concat(t, k, eb, er);
        lemma_has_prefix_concat(t, k + eb.len(), er, seq![QUOT]);
        lemma_value_reads_back(t, k + eb.len(), rest);
        assert(seq![b] + rest =~= c);
        lemma_has_prefix_index(t, k, eb, 0);
        if b == LT || b == GT || b == AMP || b == QUOT || b == TAB || b == LF || b == CR {
            lemma_reference_reads_back(t, k, b);
        }
    }
}

// ----- names and namespaces -----

/// Whether a byte string is a name: a name start followed by name bytes.
pub open spec fn is_name(q: Seq<u8>) -> bool {
    &&& q.len() > 0
    &&& is_name_start(q[0])
    &&& forall|m: int| 0 <= m < q.len() ==> is_name_char(#[trigger] q[m])
}

/// A name that was read is a name.
pub proof fn lemma_name_read(s: Seq<u8>, i: int)
    requires
        0 <= i < s.len(),
        is_name_start(s[i]),
    ensures
        is_name(s.subrange(i, name_end(s, i))),
        i < name_end(s, i) <= s.len(),
{
    lemma_name_end_is_run(s, i);
    lemma_name_end_is_run(s, i + 1);
    let q = s.subrange(i, name_end(s, i));
    assert forall|m: int| 0 <= m < q.len() implies is_name_char(#[trigger] q[m]) by {
        assert(q[m] == s[i + m]);
    }
}

/// White space is passed over up to a byte that is none.
pub proof fn lemma_skip_spaces_stops(s: Seq<u8>, i: int)
    requires
        0 <= i <= s.len(),
    ensures
        i <= skip_spaces(s, i) <= s.len(),
        skip_spaces(s, i) == s.len() || !is_space(s[skip_spaces(s, i)]),
    decreases s.len() - i,
{
    if i < s.len() && is_space(s[i]) {
        lemma_skip_spaces_stops(s, i + 1);
    }
}

/// The first `:` of a name is where its place is given.
pub proof fn lemma_colon_index(q: Seq<u8>, i: int)
    requires
        0 <= i <= q.len(),
    ensures
        i <= colon_index(q, i) <= q.len(),
        colon_index(q, i) < q.len() ==> q[colon_index(q, i)] == COLON,
    decreases q.len() - i,
{
    if i < q.len() && q[i] != COLON {
        lemma_colon_index(q, i + 1);
    }
}

/// A qualified name is its prefix, a `:`, and its local name.
pub proof fn lemma_split_qname(q: Seq<u8>)
    ensures
        split_qname(q) matches Some((prefix, local)) ==> q == prefix + seq![COLON] + local,
{
    lemma_colon_index(q, 0);
    if let Some((prefix, local)) = split_qname(q) {
        assert(q =~= prefix + seq![COLON] + local);
    }
}

/// A binding that was looked up by a prefix has that prefix.
pub proof fn lemma_lookup_prefix(scope: Seq<NsView>, prefix: Option<Seq<u8>>)
    ensures
        lookup(scope, prefix) matches Some(ns) ==> ns.prefix == prefix,
    decreases scope.len(),
{
    if scope.len() > 0 && scope.last().prefix != prefix {
        lemma_lookup_prefix(scope.drop_last(), prefix);
    }
}

/// An element is written under the name that it was read under.
pub proof fn lemma_element_name_written(q: Seq<u8>, scope: Seq<NsView>)
    ensures
        qualified_name(Some(resolve_element(q, scope).0), resolve_element(q, scope).1) == q,
{
    lemma_split_qname(q);
    match split_qname(q) {
        Some((prefix, local)) => {
            lemma_lookup_prefix(scope, Some(prefix));
        },
        None => {
            lemma_lookup_prefix(scope, None);
        },
    }
}

/// An attribute is written under the name that it was read under.
pub proof fn lemma_attribute_name_written(q: Seq<u8>, scope: Seq<NsView>)
    ensures
        qualified_name(Some(resolve_attribute(q, scope).0), resolve_attribute(q, scope).1) == q,
{
    lemma_split_qname(q);
    match split_qname(q) {
        Some((prefix, local)) => {
            lemma_lookup_prefix(scope, Some(prefix));
        },
        None => {},
    }
}

// ----- attributes -----

/// An attribute as it is written in a start tag, from its name and value as
/// they were read.
pub open spec fn write_raw(a: RawAttr) -> Seq<u8> {
    seq![SPACE] + a.name + kw_eq_quote() + escape_attr(a.value) + seq![QUOT]
}

/// Attributes as they are written in a start tag, one after the other.
pub open spec fn write_raws(s: Seq<RawAttr>) -> Seq<u8>
    decreases s.len(),
{
    if s.len() == 0 {
        Seq::empty()
    } else {
        write_raws(s.drop_last()) + write_raw(s.last())
    }
}

/// Attributes are written one after the other.
pub proof fn lemma_write_raws_concat(a: Seq<RawAttr>, b: Seq<RawAttr>)
    ensures
        write_raws(a + b) == write_raws(a) + write_raws(b),
    decreases b.len(),
{
    if b.len() == 0 {
        assert(a + b =~= a);
        assert(write_raws(a) + write_raws(b) =~= write_raws(a));
    } else {
        assert((a + b).drop_last() =~= a + b.drop_last());
        lemma_write_raws_concat(a, b.drop_last());
        assert(write_raws(a) + write_raws(b.drop_last()) + write_raw(b.last()) =~= write_raws(a)
            + (write_raws(b.drop_last()) + write_raw(b.last())));
    }
}

/// Attributes are written first attribute first.
pub proof fn lemma_write_raws_first(s: Seq<RawAttr>)
    requires
        s.len() > 0,
    ensures
        write_raws(s) == write_raw(s[0]) + write_raws(s.drop_first()),
{
    let head = seq![s[0]];
    assert(head + s.drop_first() =~= s);
    lemma_write_raws_concat(head, s.drop_first());
    assert(head.drop_last() =~= Seq::<RawAttr>::empty());
    assert(write_raws(head.drop_last()) =~= Seq::<u8>::empty());
    assert(head.last() == s[0]);
    assert(write_raws(head) =~= write_raw(s[0]));
}

/// Attributes that were written read back as they were.
#[verifier::rlimit(50)]
pub proof fn lemma_attributes_read_back(t: Seq<u8>, k: int, raws: Seq<RawAttr>)
    requires
        has_prefix(t, k, write_raws(raws)),
        forall|m: int| 0 <= m < raws.len() ==> is_name((#[trigger] raws[m]).name),
        k + write_raws(raws).len() == t.len() || !is_space(t[k + write_raws(raws).len()]),
    ensures
        parse_attributes(t, k) == Some((raws, k + write_raws(raws).len())),
    decreases raws.len(),
{
    if raws.len() == 0 {
        assert(raws =~= Seq::<RawAttr>::empty());
    } else {
        let a = raws[0];
        let rest = raws.drop_first();
        lemma_write_raws_first(raws);
        let w = write_raw(a);
        let lead = seq![SPACE] + a.name;
        let tail = escape_attr(a.value) + seq![QUOT];
        assert(w =~= lead + kw_eq_quote() + tail);
        lemma_has_prefix_concat(t, k, w, write_raws(rest));
        lemma_has_prefix_concat(t, k, lead + kw_eq_quote(), tail);
        lemma_has_prefix_concat(t, k, lead, kw_eq_quote());
        lemma_has_prefix_concat(t, k, seq![SPACE], a.name);
        lemma_has_prefix_index(t, k, seq![SPACE], 0);
        lemma_has_prefix_index(t, k + 1, a.name, 0);
        let j = k + 1;
        assert(skip_spaces(t, k) == j) by {
            assert(!is_space(t[j]));
            assert(skip_spaces(t, j) == j);
        }
        let e = j + a.name.len();
        lemma_has_prefix_index(t, e, kw_eq_quote(), 0);
        lemma_has_prefix_index(t, e, kw_eq_quote(), 1);
        lemma_name_run(t, j, a.name);
        assert(skip_spaces(t, e) == e);
        assert(skip_spaces(t, e + 1) == e + 1);
        lemma_value_reads_back(t, e + 2, a.value);
        let next = e + 2 + escape_attr(a.value).len() + 1;
        assert(next == k + w.len());
        assert(parse_eq_value(t, e) == Some((a.value, next)));
        assert forall|m: int| 0 <= m < rest.len() implies is_name((#[trigger] rest[m]).name) by {
            assert(rest[m] == raws[m + 1]);
        }
        lemma_attributes_read_back(t, next, rest);
        assert(t.subrange(j, e) =~= a.name);
        assert(seq![RawAttr { name: t.subrange(j, e), value: a.value }] + rest =~= raws);
    }
}

/// The names of attributes that were read are names.
pub proof fn lemma_attribute_names_read(s: Seq<u8>, i: int)
    requires
        0 <= i <= s.len(),
    ensures
        parse_attributes(s, i) matches Some((raws, _)) ==> forall|m: int|
            0 <= m < raws.len() ==> is_name((#[trigger] raws[m]).name),
    decreases s.len() - i,
{
    lemma_skip_spaces_stops(s, i);
    let j = skip_spaces(s, i);
    if i < j < s.len() && is_name_start(s[j]) {
        let e = name_end(s, j);
        lemma_name_read(s, j);
        match parse_eq_value(s, e) {
            Some((value, k)) => {
                if i < k <= s.len() {
                    lemma_attribute_names_read(s, k);
                    match parse_attributes(s, k) {
                        Some((rest, end)) => {
                            let first = RawAttr { name: s.subrange(j, e), value };
                            let raws = seq![first] + rest;
                            assert forall|m: int| 0 <= m < raws.len() implies is_name(
                                (#[trigger] raws[m]).name,
                            ) by {
                                if m > 0 {
                                    assert(raws[m] == rest[m - 1]);
                                }
                            }
                        },
                        None => {},
                    }
                }
            },
            None => {},
        }
    }
}

/// The attributes of a start tag that declare namespaces, in order.
pub open spec fn decl_raws(raw: Seq<RawAttr>) -> Seq<RawAttr>
    decreases raw.len(),
{
    if raw.len() == 0 {
        Seq::empty()
    } else if ns_decl_of(raw.last()) is Some {
        decl_raws(raw.drop_last()).push(raw.last())
    } else {
        decl_raws(raw.drop_last())
    }
}

/// The attributes of a start tag that declare no namespace, in order.
pub open spec fn prop_raws(raw: Seq<RawAttr>) -> Seq<RawAttr>
    decreases raw.len(),
{
    if raw.len() == 0 {
        Seq::empty()
    } else if ns_decl_of(raw.last()) is None {
        prop_raws(raw.drop_last()).push(raw.last())
    } else {
        prop_raws(raw.drop_last())
    }
}

/// The attributes of a start tag in the order in which they are written:
/// namespace declarations first.
pub open spec fn ordered_raws(raw: Seq<RawAttr>) -> Seq<RawAttr> {
    decl_raws(raw) + prop_raws(raw)
}

/// A namespace declaration is written as the attribute that it was read from.
pub proof fn lemma_decl_written(a: RawAttr)
    requires
        ns_decl_of(a) is Some,
    ensures
        write_ns_decl(ns_decl_of(a)->0) == write_raw(a),
{
    let ns = ns_decl_of(a)->0;
    if a.name == kw_xmlns() {
        assert(kw_ns_attr() =~= seq![SPACE] + a.name);
        assert(write_ns_decl(ns) =~= write_raw(a));
    } else {
        let p = a.name.subrange(6, a.name.len() as int);
        assert(a.name =~= kw_xmlns_colon() + p);
        assert(kw_ns_attr() + (seq![COLON] + p) =~= seq![SPACE] + a.name);
        assert(write_ns_decl(ns) =~= write_raw(a));
    }
}

/// An attribute is written as it was read.
pub proof fn lemma_prop_written(a: RawAttr, scope: Seq<NsView>)
    ensures
        write_attr(attribute_of(a, scope)) == write_raw(a),
{
    lemma_attribute_name_written(a.name, scope);
    let children = seq![text_node(xmlElementType::TextNode, a.value)];
    assert(children.drop_last() =~= Seq::<NodeView>::empty());
    assert(write_value(children.drop_last()) =~= Seq::<u8>::empty());
    assert(write_value(children) =~= escape_attr(a.value));
}

/// The namespace declarations of a start tag are written as the attributes
/// that they were read from.
pub proof fn lemma_decls_written(raw: Seq<RawAttr>)
    ensures
        write_ns_decls(ns_decls(raw)) == write_raws(decl_raws(raw)),
    decreases raw.len(),
{
    if raw.len() > 0 {
        lemma_decls_written(raw.drop_last());
        if ns_decl_of(raw.last()) is Some {
            let ns = ns_decl_of(raw.last())->0;
            lemma_decl_written(raw.last());
            let front = ns_decls(raw.drop_last());
            assert(front.push(ns).drop_last() =~= front);
            let front_raws = decl_raws(raw.drop_last());
            assert(front_raws.push(raw.last()).drop_last() =~= front_raws);
        }
    }
}

/// The attributes of a start tag are written as they were read.
pub proof fn lemma_props_written(raw: Seq<RawAttr>, scope: Seq<NsView>)
    ensures
        write_attrs(attributes_of(raw, scope)) == write_raws(prop_raws(raw)),
    decreases raw.len(),
{
    if raw.len() > 0 {
        lemma_props_written(raw.drop_last(), scope);
        if ns_decl_of(raw.last()) is None {
            lemma_prop_written(raw.last(), scope);
            let front = attributes_of(raw.drop_last(), scope);
            assert(front.push(attribute_of(raw.last(), scope)).drop_last() =~= front);
            let front_raws = prop_raws(raw.drop_last());
            assert(front_raws.push(raw.last()).drop_last() =~= front_raws);
        }
    }
}

/// What attributes declare, they declare one after the other.
pub proof fn lemma_ns_decls_concat(a: Seq<RawAttr>, b: Seq<RawAttr>)
    ensures
        ns_decls(a + b) == ns_decls(a) + ns_decls(b),
    decreases b.len(),
{
    if b.len() == 0 {
        assert(a + b =~= a);
        assert(ns_decls(a) + ns_decls(b) =~= ns_decls(a));
    } else {
        assert((a + b).drop_last() =~= a + b.drop_last());
        lemma_ns_decls_concat(a, b.drop_last());
        match ns_decl_of(b.last()) {
            Some(ns) => {
                assert((ns_decls(a) + ns_decls(b.drop_last())).push(ns) =~= ns_decls(a)
                    + ns_decls(b.drop_last()).push(ns));
            },
            None => {},
        }
    }
}

/// Attributes become attribute nodes one after the other.
pub proof fn lemma_attributes_of_concat(a: Seq<RawAttr>, b: Seq<RawAttr>, scope: Seq<NsView>)
    ensures
        attributes_of(a + b, scope) == attributes_of(a, scope) + attributes_of(b, scope),
    decreases b.len(),
{
    if b.len() == 0 {
        assert(a + b =~= a);
        assert(attributes_of(a, scope) + attributes_of(b, scope) =~= attributes_of(a, scope));
    } else {
        assert((a + b).drop_last() =~= a + b.drop_last());
        lemma_attributes_of_concat(a, b.drop_last(), scope);
        if ns_decl_of(b.last()) is None {
            let x = attribute_of(b.last(), scope);
            assert((attributes_of(a, scope) + attributes_of(b.drop_last(), scope)).push(x)
                =~= attributes_of(a, scope) + attributes_of(b.drop_last(), scope).push(x));
        }
    }
}

/// What the two parts of the attributes of a start tag hold, and what they
/// declare.
pub proof fn lemma_parts(raw: Seq<RawAttr>, scope: Seq<NsView>)
    ensures
        forall|i: int|
            0 <= i < decl_raws(raw).len() ==> raw.contains(#[trigger] decl_raws(raw)[i])
                && ns_decl_of(decl_raws(raw)[i]) is Some,
        forall|i: int|
            0 <= i < prop_raws(raw).len() ==> raw.contains(#[trigger] prop_raws(raw)[i])
                && ns_decl_of(prop_raws(raw)[i]) is None,
        ns_decls(decl_raws(raw)) == ns_decls(raw),
        ns_decls(prop_raws(raw)) == Seq::<NsView>::empty(),
        attributes_of(decl_raws(raw), scope) == Seq::<AttrView>::empty(),
        attributes_of(prop_raws(raw), scope) == attributes_of(raw, scope),
    decreases raw.len(),
{
    if raw.len() > 0 {
        let front = raw.drop_last();
        lemma_parts(front, scope);
        let d = decl_raws(raw);
        let p = prop_raws(raw);
        assert forall|i: int| 0 <= i < d.len() implies raw.contains(#[trigger] d[i])
            && ns_decl_of(d[i]) is Some by {
            if i < decl_raws(front).len() {
                assert(d[i] == decl_raws(front)[i]);
                let m = choose|m: int| 0 <= m < front.len() && front[m] == d[i];
                assert(raw[m] == d[i]);
            } else {
                assert(d[i] == raw[raw.len() - 1]);
            }
        }
        assert forall|i: int| 0 <= i < p.len() implies raw.contains(#[trigger] p[i])
            && ns_decl_of(p[i]) is None by {
            if i < prop_raws(front).len() {
                assert(p[i] == prop_raws(front)[i]);
                let m = choose|m: int| 0 <= m < front.len() && front[m] == p[i];
                assert(raw[m] == p[i]);
            } else {
                assert(p[i] == raw[raw.len() - 1]);
            }
        }
        if ns_decl_of(raw.last()) is Some {
            assert(d.drop_last() =~= decl_raws(front));
            assert(d.last() == raw.last());
        } else {
            assert(p.drop_last() =~= prop_raws(front));
            assert(p.last() == raw.last());
        }
    }
}

/// Attributes with different names keep different names in either part.
pub proof fn lemma_parts_distinct(raw: Seq<RawAttr>)
    requires
        distinct_names(raw),
    ensures
        distinct_names(decl_raws(raw)),
        distinct_names(prop_raws(raw)),
    decreases raw.len(),
{
    if raw.len() > 0 {
        let front = raw.drop_last();
        assert(distinct_names(front)) by {
            assert forall|i: int, j: int| 0 <= i < j < front.len() implies front[i].name
                != front[j].name by {
                assert(front[i] == raw[i] && front[j] == raw[j]);
            }
        }
        lemma_parts_distinct(front);
        lemma_parts(front, Seq::empty());
        let d = decl_raws(raw);
        let p = prop_raws(raw);
        assert forall|i: int, j: int| 0 <= i < j < d.len() implies d[i].name != d[j].name by {
            if j < decl_raws(front).len() {
                assert(d[i] == decl_raws(front)[i] && d[j] == decl_raws(front)[j]);
            } else {
                assert(d[i] == decl_raws(front)[i]);
                let m = choose|m: int| 0 <= m < front.len() && front[m] == d[i];
                assert(raw[m] == d[i]);
                assert(d[j] == raw[raw.len() - 1]);
            }
        }
        assert forall|i: int, j: int| 0 <= i < j < p.len() implies p[i].name != p[j].name by {
            if j < prop_raws(front).len() {
                assert(p[i] == prop_raws(front)[i] && p[j] == prop_raws(front)[j]);
            } else {
                assert(p[i] == prop_raws(front)[i]);
                let m = choose|m: int| 0 <= m < front.len() && front[m] == p[i];
                assert(raw[m] == p[i]);
                assert(p[j] == raw[raw.len() - 1]);
            }
        }
    }
}

/// Putting the namespace declarations first changes neither what the
/// attributes of a start tag declare, nor what attributes they are, nor that
/// their names differ.
pub proof fn lemma_ordered(raw: Seq<RawAttr>, scope: Seq<NsView>)
    requires
        distinct_names(raw),
    ensures
        ns_decls(ordered_raws(raw)) == ns_decls(raw),
        attributes_of(ordered_raws(raw), scope) == attributes_of(raw, scope),
        distinct_names(ordered_raws(raw)),
        write_raws(ordered_raws(raw)) == write_ns_decls(ns_decls(raw)) + write_attrs(
            attributes_of(raw, scope),
        ),
        forall|m: int|
            0 <= m < ordered_raws(raw).len() ==> raw.contains(#[trigger] ordered_raws(raw)[m]),
{
    let d = decl_raws(raw);
    let p = prop_raws(raw);
    let all = ordered_raws(raw);
    lemma_parts(raw, scope);
    lemma_parts_distinct(raw);
    lemma_ns_decls_concat(d, p);
    lemma_attributes_of_concat(d, p, scope);
    lemma_decls_written(raw);
    lemma_props_written(raw, scope);
    lemma_write_raws_concat(d, p);
    assert(ns_decls(d) + ns_decls(p) =~= ns_decls(raw));
    assert(attributes_of(d, scope) + attributes_of(p, scope) =~= attributes_of(raw, scope));
    assert forall|i: int, j: int| 0 <= i < j < all.len() implies all[i].name != all[j].name by {
        if j < d.len() {
            assert(all[i] == d[i] && all[j] == d[j]);
        } else if i >= d.len() {
            assert(all[i] == p[i - d.len()] && all[j] == p[j - d.len()]);
        } else {
            assert(all[i] == d[i] && all[j] == p[j - d.len()]);
            let m1 = choose|m: int| 0 <= m < raw.len() && raw[m] == d[i];
            let m2 = choose|m: int| 0 <= m < raw.len() && raw[m] == p[j - d.len()];
            assert(m1 != m2);
            if m1 < m2 {
                assert(raw[m1].name != raw[m2].name);
            } else {
                assert(raw[m2].name != raw[m1].name);
            }
        }
    }
    assert forall|m: int| 0 <= m < all.len() implies raw.contains(#[trigger] all[m]) by {
        if m < d.len() {
            assert(all[m] == d[m]);
        } else {
            assert(all[m] == p[m - d.len()]);
        }
    }
}

// ----- comments, CDATA sections, processing instructions -----

/// A comment that was written reads back as it was.
pub proof fn lemma_comment_reads_back(s: Seq<u8>, i: int, n: NodeView, end: int, t: Seq<u8>, k: int)
    requires
        0 <= i,
        0 <= k,
        parse_comment(s, i) == Some((n, end)),
        has_prefix(t, k, write_node(n)),
    ensures
        parse_comment(t, k) == Some((n, k + write_node(n).len())),
        has_prefix(t, k, kw_comment_open()),
        n.kind == xmlElementType::CommentNode,
{
    let j = find(s, i + 4, kw_double_dash())->0;
    lemma_find_is_first(s, i + 4, kw_double_dash());
    let c = s.subrange(i + 4, j);
    let w = write_node(n);
    assert(w =~= kw_comment_open() + (c + kw_comment_close()));
    lemma_has_prefix_concat(t, k, kw_comment_open(), c + kw_comment_close());
    lemma_has_prefix_concat(t, k + 4, c, kw_comment_close());
    assert(kw_comment_close() =~= kw_double_dash() + seq![GT]);
    lemma_has_prefix_concat(t, k + 4 + c.len(), kw_double_dash(), seq![GT]);
    lemma_has_prefix_concat(t, k + 4, c, kw_double_dash());
    assert(s.subrange(i + 4, j + 2) =~= c + kw_double_dash());
    lemma_find_moved(s, i + 4, j, t, k + 4, kw_double_dash());
    assert(t.subrange(k + 4, k + 4 + c.len()) =~= c);
}

/// A CDATA section that was written reads back as it was.
pub proof fn lemma_cdata_reads_back(s: Seq<u8>, i: int, n: NodeView, end: int, t: Seq<u8>, k: int)
    requires
        0 <= i,
        0 <= k,
        parse_cdata(s, i) == Some((n, end)),
        has_prefix(t, k, write_node(n)),
    ensures
        parse_cdata(t, k) == Some((n, k + write_node(n).len())),
        has_prefix(t, k, kw_cdata_open()),
        n.kind == xmlElementType::CDataSectionNode,
{
    let j = find(s, i + 9, kw_cdata_close())->0;
    lemma_find_is_first(s, i + 9, kw_cdata_close());
    let c = s.subrange(i + 9, j);
    let w = write_node(n);
    assert(w =~= kw_cdata_open() + (c + kw_cdata_close()));
    lemma_has_prefix_concat(t, k, kw_cdata_open(), c + kw_cdata_close());
    lemma_has_prefix_concat(t, k + 9, c, kw_cdata_close());
    assert(s.subrange(i + 9, j + 3) =~= c + kw_cdata_close());
    lemma_find_moved(s, i + 9, j, t, k + 9, kw_cdata_close());
    assert(t.subrange(k + 9, k + 9 + c.len()) =~= c);
}

/// A processing instruction that was written reads back as it was.
#[verifier::rlimit(50)]
pub proof fn lemma_pi_reads_back(s: Seq<u8>, i: int, n: NodeView, end: int, t: Seq<u8>, k: int)
    requires
        0 <= i,
        0 <= k,
        parse_pi(s, i) == Some((n, end)),
        has_prefix(t, k, write_node(n)),
    ensures
        parse_pi(t, k) == Some((n, k + write_node(n).len())),
        has_prefix(t, k, kw_pi_open()),
        n.kind == xmlElementType::PINode,
{
    let n0 = i + 2;
    let n1 = name_end(s, n0);
    let target = s.subrange(n0, n1);
    lemma_name_read(s, n0);
    let w = write_node(n);
    assert(w == write_pi(n));
    if has_prefix(s, n1, kw_pi_close()) {
        assert(w =~= kw_pi_open() + (target + kw_pi_close()));
        lemma_has_prefix_concat(t, k, kw_pi_open(), target + kw_pi_close());
        lemma_has_prefix_concat(t, k + 2, target, kw_pi_close());
        lemma_has_prefix_index(t, k + 2, target, 0);
        lemma_has_prefix_index(t, k + 2 + target.len(), kw_pi_close(), 0);
        lemma_name_run(t, k + 2, target);
        assert(t.subrange(k + 2, k + 2 + target.len()) =~= target);
    } else {
        lemma_skip_spaces_stops(s, n1);
        let d0 = skip_spaces(s, n1);
        let j = find(s, d0, kw_pi_close())->0;
        lemma_find_is_first(s, d0, kw_pi_close());
        let d = s.subrange(d0, j);
        let tail = seq![SPACE] + (d + kw_pi_close());
        assert(w =~= kw_pi_open() + (target + tail));
        lemma_has_prefix_concat(t, k, kw_pi_open(), target + tail);
        lemma_has_prefix_concat(t, k + 2, target, tail);
        lemma_has_prefix_concat(t, k + 2 + target.len(), seq![SPACE], d + kw_pi_close());
        lemma_has_prefix_index(t, k + 2, target, 0);
        let m1 = k + 2 + target.len();
        lemma_has_prefix_index(t, m1, seq![SPACE], 0);
        lemma_name_run(t, k + 2, target);
        assert(t.subrange(k + 2, k + 2 + target.len()) =~= target);
        lemma_not_has_prefix(t, m1, kw_pi_close(), 0);
        lemma_has_prefix_index(t, m1 + 1, d + kw_pi_close(), 0);
        assert(!is_space(t[m1 + 1])) by {
            if d.len() > 0 {
                assert((d + kw_pi_close())[0] == s[d0]);
            }
        }
        assert(skip_spaces(t, m1) == m1 + 1) by {
            assert(skip_spaces(t, m1 + 1) == m1 + 1);
        }
        assert(s.subrange(d0, j + 2) =~= d + kw_pi_close());
        lemma_find_moved(s, d0, j, t, m1 + 1, kw_pi_close());
        lemma_has_prefix_concat(t, m1 + 1, d, kw_pi_close());
        assert(t.subrange(m1 + 1, m1 + 1 + d.len()) =~= d);
    }
}

// ----- lists of nodes -----

/// Nodes are written one after the other.
pub proof fn lemma_write_nodes_concat(a: Seq<NodeView>, b: Seq<NodeView>)
    ensures
        write_nodes(a + b) == write_nodes(a) + write_nodes(b),
    decreases b.len(),
{
    if b.len() == 0 {
        assert(a + b =~= a);
        assert(write_nodes(a) + write_nodes(b) =~= write_nodes(a));
    } else {
        assert((a + b).drop_last() =~= a + b.drop_last());
        assert((a + b).last() == b.last());
        lemma_write_nodes_concat(a, b.drop_last());
        assert(write_nodes(a) + write_nodes(b.drop_last()) + write_node(b.last()) =~= write_nodes(
            a,
        ) + (write_nodes(b.drop_last()) + write_node(b.last())));
    }
}

/// Nodes are written first node first.
pub proof fn lemma_write_nodes_first(n: NodeView, rest: Seq<NodeView>)
    ensures
        write_nodes(seq![n] + rest) == write_node(n) + write_nodes(rest),
{
    let head = seq![n];
    lemma_write_nodes_concat(head, rest);
    assert(head.drop_last() =~= Seq::<NodeView>::empty());
    assert(write_nodes(head.drop_last()) =~= Seq::<u8>::empty());
    assert(head.last() == n);
    assert(write_nodes(head) =~= write_node(n));
}

/// Top-level nodes are written one after the other.
pub proof fn lemma_write_top_concat(a: Seq<NodeView>, b: Seq<NodeView>)
    ensures
        write_top(a + b) == write_top(a) + write_top(b),
    decreases b.len(),
{
    if b.len() == 0 {
        assert(a + b =~= a);
        assert(write_top(a) + write_top(b) =~= write_top(a));
    } else {
        assert((a + b).drop_last() =~= a + b.drop_last());
        assert((a + b).last() == b.last());
        lemma_write_top_concat(a, b.drop_last());
        assert(write_top(a) + write_top(b.drop_last()) + write_node(b.last()) + seq![LF]
            =~= write_top(a) + (write_top(b.drop_last()) + write_node(b.last()) + seq![LF]));
    }
}

/// Top-level nodes are written first node first.
pub proof fn lemma_write_top_first(n: NodeView, rest: Seq<NodeView>)
    ensures
        write_top(seq![n] + rest) == write_node(n) + seq![LF] + write_top(rest),
{
    let head = seq![n];
    lemma_write_top_concat(head, rest);
    assert(head.drop_last() =~= Seq::<NodeView>::empty());
    assert(write_top(head.drop_last()) =~= Seq::<u8>::empty());
    assert(head.last() == n);
    assert(write_top(head) =~= write_node(n) + seq![LF]);
}

// ----- elements -----

/// A reference stands for at least one byte.
pub proof fn lemma_reference_holds_bytes(s: Seq<u8>, i: int)
    ensures
        parse_reference(s, i) matches Some((bytes, _)) ==> bytes.len() > 0,
{
}

/// Text ends at a `<` or at the end of the input, and is not empty unless it
/// ends at once.
pub proof fn lemma_text_body_stops(s: Seq<u8>, i: int)
    requires
        0 <= i <= s.len(),
    ensures
        text_body(s, i) matches Some((bytes, end)) ==> {
            &&& i <= end <= s.len()
            &&& end == s.len() || s[end] == LT
            &&& i < s.len() && s[i] != LT ==> bytes.len() > 0
        },
    decreases s.len() - i,
{
    if i < s.len() && s[i] != LT {
        if s[i] == AMP {
            lemma_reference_holds_bytes(s, i);
            match parse_reference(s, i) {
                Some((bytes, k)) => {
                    if i < k <= s.len() {
                        lemma_text_body_stops(s, k);
                    }
                },
                None => {},
            }
        } else if !has_prefix(s, i, kw_cdata_close()) {
            lemma_text_body_stops(s, i + 1);
        }
    }
}

/// Attributes are written with a space in front.
pub proof fn lemma_write_raws_starts(raws: Seq<RawAttr>)
    requires
        raws.len() > 0,
    ensures
        write_raws(raws).len() > 0,
        write_raws(raws)[0] == SPACE,
{
    lemma_write_raws_first(raws);
    let a = raws[0];
    assert(write_raw(a) =~= seq![SPACE] + (a.name + kw_eq_quote() + escape_attr(a.value)
        + seq![QUOT]));
}

/// A start tag that was written reads back, up to its end, as the name and
/// the attributes that were written.
#[verifier::rlimit(50)]
pub proof fn lemma_start_tag_reads_back(
    t: Seq<u8>,
    k: int,
    q: Seq<u8>,
    raw: Seq<RawAttr>,
    scope: Seq<NsView>,
)
    requires
        0 <= k,
        is_name(q),
        distinct_names(raw),
        forall|m: int| 0 <= m < raw.len() ==> is_name((#[trigger] raw[m]).name),
        has_prefix(t, k, seq![LT] + q + write_raws(ordered_raws(raw))),
        ({
            let a = k + 1 + q.len() + write_raws(ordered_raws(raw)).len();
            a < t.len() && (t[a] == SLASH || t[a] == GT)
        }),
    ensures
        k + 1 < t.len(),
        t[k] == LT,
        is_name_start(t[k + 1]),
        name_end(t, k + 1) == k + 1 + q.len(),
        t.subrange(k + 1, k + 1 + q.len()) == q,
        parse_attributes(t, k + 1 + q.len()) == Some(
            (ordered_raws(raw), k + 1 + q.len() + write_raws(ordered_raws(raw)).len()),
        ),
{
    let ord = ordered_raws(raw);
    let wr = write_raws(ord);
    lemma_ordered(raw, scope);
    lemma_has_prefix_concat(t, k, seq![LT] + q, wr);
    lemma_has_prefix_concat(t, k, seq![LT], q);
    lemma_has_prefix_index(t, k, seq![LT], 0);
    lemma_has_prefix_index(t, k + 1, q, 0);
    let e = k + 1 + q.len();
    if ord.len() > 0 {
        lemma_write_raws_starts(ord);
        lemma_has_prefix_index(t, e, wr, 0);
    } else {
        assert(wr =~= Seq::<u8>::empty());
    }
    lemma_name_run(t, k + 1, q);
    assert(t.subrange(k + 1, k + 1 + q.len()) =~= q);
    assert forall|m: int| 0 <= m < ord.len() implies is_name((#[trigger] ord[m]).name) by {
        assert(raw.contains(ord[m]));
        let x = choose|x: int| 0 <= x < raw.len() && raw[x] == ord[m];
        assert(is_name(raw[x].name));
    }
    lemma_attributes_read_back(t, e, ord);
}

/// A start tag as it is written, up to and without its closing `>` or `/>`,
/// from the name and the attributes that it was read with.
pub open spec fn write_open(q: Seq<u8>, raw: Seq<RawAttr>) -> Seq<u8> {
    seq![LT] + q + write_raws(ordered_raws(raw))
}

/// The element that stands behind a start tag with the given name and
/// attributes, where `children` are what it holds.
pub open spec fn element_read(
    q: Seq<u8>,
    raw: Seq<RawAttr>,
    scope: Seq<NsView>,
    children: Seq<NodeView>,
) -> NodeView {
    element_node(
        resolve_element(q, scope + ns_decls(raw)).0,
        resolve_element(q, scope + ns_decls(raw)).1,
        ns_decls(raw),
        attributes_of(raw, scope + ns_decls(raw)),
        children,
    )
}

/// How an element that was read is written.
pub proof fn lemma_element_written(
    q: Seq<u8>,
    raw: Seq<RawAttr>,
    scope: Seq<NsView>,
    children: Seq<NodeView>,
)
    requires
        distinct_names(raw),
    ensures
        write_node(element_read(q, raw, scope, children)) == if children.len() == 0 {
            write_open(q, raw) + kw_empty_close()
        } else {
            write_open(q, raw) + seq![GT] + write_nodes(children) + (kw_end_tag() + q + seq![GT])
        },
{
    let inner = scope + ns_decls(raw);
    let n = element_read(q, raw, scope, children);
    lemma_element_name_written(q, inner);
    lemma_ordered(raw, inner);
    assert(write_tag_open(n) =~= write_open(q, raw));
    if children.len() > 0 {
        assert(write_node(n) =~= write_open(q, raw) + seq![GT] + write_nodes(children) + (
        kw_end_tag() + q + seq![GT]));
    }
}

/// An element without content that was written reads back as it was.
#[verifier::rlimit(50)]
pub proof fn lemma_empty_element_reads_back(
    t: Seq<u8>,
    k: int,
    q: Seq<u8>,
    raw: Seq<RawAttr>,
    scope: Seq<NsView>,
    depth: nat,
)
    requires
        0 <= k,
        is_name(q),
        distinct_names(raw),
        forall|m: int| 0 <= m < raw.len() ==> is_name((#[trigger] raw[m]).name),
        has_prefix(t, k, write_open(q, raw) + kw_empty_close()),
    ensures
        parse_element(t, k, scope, depth) == Some(
            (
                element_read(q, raw, scope, Seq::empty()),
                k + write_open(q, raw).len() + kw_empty_close().len(),
            ),
        ),
{
    let open = write_open(q, raw);
    let a = k + open.len();
    lemma_has_prefix_concat(t, k, open, kw_empty_close());
    lemma_has_prefix_index(t, a, kw_empty_close(), 0);
    lemma_start_tag_reads_back(t, k, q, raw, scope + ns_decls(raw));
    lemma_ordered(raw, scope + ns_decls(raw));
}

/// An element with content that was written reads back as it was, if its
/// content does.
#[verifier::rlimit(50)]
pub proof fn lemma_full_element_reads_back(
    t: Seq<u8>,
    k: int,
    q: Seq<u8>,
    raw: Seq<RawAttr>,
    scope: Seq<NsView>,
    depth: nat,
    children: Seq<NodeView>,
)
    requires
        0 <= k,
        depth > 0,
        is_name(q),
        distinct_names(raw),
        forall|m: int| 0 <= m < raw.len() ==> is_name((#[trigger] raw[m]).name),
        has_prefix(
            t,
            k,
            write_open(q, raw) + seq![GT] + write_nodes(children) + (kw_end_tag() + q + seq![GT]),
        ),
        parse_content(
            t,
            k + write_open(q, raw).len() + 1,
            scope + ns_decls(raw),
            (depth - 1) as nat,
        ) == Some((children, k + write_open(q, raw).len() + 1 + write_nodes(children).len())),
    ensures
        parse_element(t, k, scope, depth) == Some(
            (
                element_read(q, raw, scope, children),
                k + write_open(q, raw).len() + 1 + write_nodes(children).len() + q.len() + 3,
            ),
        ),
{
    let open = write_open(q, raw);
    let body = write_nodes(children);
    let close = kw_end_tag() + q + seq![GT];
    let a = k + open.len();
    assert(open + seq![GT] + body + close =~= open + (seq![GT] + (body + close)));
    lemma_has_prefix_concat(t, k, open, seq![GT] + (body + close));
    lemma_has_prefix_concat(t, a, seq![GT], body + close);
    lemma_has_prefix_concat(t, a + 1, body, close);
    lemma_has_prefix_index(t, a, seq![GT], 0);
    lemma_start_tag_reads_back(t, k, q, raw, scope + ns_decls(raw));
    lemma_ordered(raw, scope + ns_decls(raw));
    lemma_not_has_prefix(t, a, kw_empty_close(), 0);
    let pos = a + 1 + body.len();
    lemma_has_prefix_concat(t, pos, kw_end_tag() + q, seq![GT]);
    lemma_has_prefix_concat(t, pos, kw_end_tag(), q);
    let x = pos + 2 + q.len();
    lemma_has_prefix_index(t, x, seq![GT], 0);
    assert(skip_spaces(t, x) == x);
    assert(parse_end_tag(t, pos, q) == Some(x + 1));
}

/// The content of an element is followed by its end tag.
pub proof fn lemma_content_followed(
    t: Seq<u8>,
    k: int,
    q: Seq<u8>,
    raw: Seq<RawAttr>,
    children: Seq<NodeView>,
)
    requires
        0 <= k,
        has_prefix(
            t,
            k,
            write_open(q, raw) + seq![GT] + write_nodes(children) + (kw_end_tag() + q + seq![GT]),
        ),
    ensures
        has_prefix(t, k + write_open(q, raw).len() + 1, write_nodes(children)),
        has_prefix(
            t,
            k + write_open(q, raw).len() + 1 + write_nodes(children).len(),
            kw_end_tag(),
        ),
{
    let open = write_open(q, raw);
    let body = write_nodes(children);
    let close = kw_end_tag() + q + seq![GT];
    let a = k + open.len();
    assert(open + seq![GT] + body + close =~= open + (seq![GT] + (body + close)));
    lemma_has_prefix_concat(t, k, open, seq![GT] + (body + close));
    lemma_has_prefix_concat(t, a, seq![GT], body + close);
    lemma_has_prefix_concat(t, a + 1, body, close);
    lemma_has_prefix_concat(t, a + 1 + body.len(), kw_end_tag() + q, seq![GT]);
    lemma_has_prefix_concat(t, a + 1 + body.len(), kw_end_tag(), q);
}

/// An element that was written reads back as it was.
#[verifier::rlimit(50)]
pub proof fn lemma_element_reads_back(
    s: Seq<u8>,
    i: int,
    scope: Seq<NsView>,
    depth: nat,
    n: NodeView,
    end: int,
    t: Seq<u8>,
    k: int,
)
    requires
        0 <= i,
        0 <= k,
        parse_element(s, i, scope, depth) == Some((n, end)),
        has_prefix(t, k, write_node(n)),
    ensures
        parse_element(t, k, scope, depth) == Some((n, k + write_node(n).len())),
        n.kind == xmlElementType::ElementNode,
        write_node(n).len() >= 2,
        write_node(n)[0] == LT,
        is_name_start(write_node(n)[1]),
    decreases depth, s.len() - i, 0nat,
{
    let e = name_end(s, i + 1);
    let q = s.subrange(i + 1, e);
    lemma_name_read(s, i + 1);
    match parse_attributes(s, e) {
        Some((raw, j)) => {
            lemma_attribute_names_read(s, e);
            let inner = scope + ns_decls(raw);
            let open = write_open(q, raw);
            assert(open[0] == LT && open[1] == q[0]) by {
                assert(open =~= seq![LT] + (q + write_raws(ordered_raws(raw))));
            }
            lemma_element_written(q, raw, scope, n.children);
            assert(n == element_read(q, raw, scope, n.children));
            if n.children.len() == 0 {
                assert(n.children =~= Seq::<NodeView>::empty());
                lemma_empty_element_reads_back(t, k, q, raw, scope, depth);
            } else {
                match parse_content(s, j + 1, inner, (depth - 1) as nat) {
                    Some((children, kk)) => {
                        assert(children == n.children);
                        lemma_content_followed(t, k, q, raw, children);
                        lemma_content_reads_back(
                            s,
                            j + 1,
                            inner,
                            (depth - 1) as nat,
                            children,
                            kk,
                            t,
                            k + open.len() + 1,
                        );
                        lemma_full_element_reads_back(t, k, q, raw, scope, depth, children);
                    },
                    None => {},
                }
            }
        },
        None => {},
    }
}

/// A comment inside an element that was written reads back as it was.
pub proof fn lemma_comment_item(
    s: Seq<u8>,
    i: int,
    scope: Seq<NsView>,
    depth: nat,
    n: NodeView,
    end: int,
    t: Seq<u8>,
    k: int,
)
    requires
        0 <= i,
        0 <= k,
        parse_comment(s, i) == Some((n, end)),
        has_prefix(t, k, write_node(n)),
    ensures
        parse_item(t, k, scope, depth) == Some((n, k + write_node(n).len())),
        write_node(n).len() > 0,
        !has_prefix(t, k, kw_end_tag()),
        write_node(n)[0] == LT,
{
    lemma_comment_reads_back(s, i, n, end, t, k);
    lemma_has_prefix_index(t, k, kw_comment_open(), 1);
    lemma_not_has_prefix(t, k, kw_end_tag(), 1);
    assert(write_node(n) =~= kw_comment_open() + (bytes_or_empty(n.content)
        + kw_comment_close()));
}

/// A CDATA section inside an element that was written reads back as it was.
pub proof fn lemma_cdata_item(
    s: Seq<u8>,
    i: int,
    scope: Seq<NsView>,
    depth: nat,
    n: NodeView,
    end: int,
    t: Seq<u8>,
    k: int,
)
    requires
        0 <= i,
        0 <= k,
        parse_cdata(s, i) == Some((n, end)),
        has_prefix(t, k, write_node(n)),
    ensures
        parse_item(t, k, scope, depth) == Some((n, k + write_node(n).len())),
        write_node(n).len() > 0,
        !has_prefix(t, k, kw_end_tag()),
        write_node(n)[0] == LT,
{
    lemma_cdata_reads_back(s, i, n, end, t, k);
    lemma_has_prefix_index(t, k, kw_cdata_open(), 1);
    lemma_has_prefix_index(t, k, kw_cdata_open(), 2);
    lemma_not_has_prefix(t, k, kw_end_tag(), 1);
    lemma_not_has_prefix(t, k, kw_comment_open(), 2);
    assert(write_node(n) =~= kw_cdata_open() + (bytes_or_empty(n.content) + kw_cdata_close()));
}

/// A processing instruction inside an element that was written reads back as
/// it was.
pub proof fn lemma_pi_item(
    s: Seq<u8>,
    i: int,
    scope: Seq<NsView>,
    depth: nat,
    n: NodeView,
    end: int,
    t: Seq<u8>,
    k: int,
)
    requires
        0 <= i,
        0 <= k,
        parse_pi(s, i) == Some((n, end)),
        has_prefix(t, k, write_node(n)),
    ensures
        parse_item(t, k, scope, depth) == Some((n, k + write_node(n).len())),
        write_node(n).len() > 0,
        !has_prefix(t, k, kw_end_tag()),
        write_node(n)[0] == LT,
{
    lemma_pi_reads_back(s, i, n, end, t, k);
    lemma_has_prefix_index(t, k, kw_pi_open(), 1);
    lemma_not_has_prefix(t, k, kw_end_tag(), 1);
    lemma_not_has_prefix(t, k, kw_comment_open(), 1);
    lemma_not_has_prefix(t, k, kw_cdata_open(), 1);
    assert(write_node(n) == write_pi(n));
    assert(write_pi(n) =~= kw_pi_open() + (bytes_or_empty(n.name) + (match n.content {
        Some(data) => seq![SPACE] + data,
        None => Seq::empty(),
    }) + kw_pi_close()));
}

/// Text inside an element that was written reads back as it was.
pub proof fn lemma_text_item(
    s: Seq<u8>,
    i: int,
    scope: Seq<NsView>,
    depth: nat,
    bytes: Seq<u8>,
    end: int,
    t: Seq<u8>,
    k: int,
)
    requires
        0 <= i < s.len(),
        0 <= k,
        s[i] != LT,
        text_body(s, i) == Some((bytes, end)),
        has_prefix(t, k, escape_text(bytes)),
        k + escape_text(bytes).len() == t.len() || t[k + escape_text(bytes).len()] == LT,
    ensures
        parse_item(t, k, scope, depth) == Some(
            (text_node(xmlElementType::TextNode, bytes), k + escape_text(bytes).len()),
        ),
        escape_text(bytes).len() > 0,
        !has_prefix(t, k, kw_end_tag()),
        write_node(text_node(xmlElementType::TextNode, bytes)) == escape_text(bytes),
{
    let w = escape_text(bytes);
    lemma_text_body_stops(s, i);
    lemma_escape_text_clean(bytes);
    lemma_has_prefix_index(t, k, w, 0);
    lemma_not_has_prefix(t, k, kw_end_tag(), 0);
    lemma_not_has_prefix(t, k, kw_comment_open(), 0);
    lemma_not_has_prefix(t, k, kw_cdata_open(), 0);
    lemma_not_has_prefix(t, k, kw_pi_open(), 0);
    lemma_text_reads_back(t, k, bytes);
}

/// An element inside an element that was read back reads back as an item.
pub proof fn lemma_element_item(
    t: Seq<u8>,
    k: int,
    scope: Seq<NsView>,
    depth: nat,
    n: NodeView,
)
    requires
        0 <= k,
        has_prefix(t, k, write_node(n)),
        write_node(n).len() >= 2,
        write_node(n)[0] == LT,
        is_name_start(write_node(n)[1]),
        parse_element(t, k, scope, depth) == Some((n, k + write_node(n).len())),
    ensures
        parse_item(t, k, scope, depth) == Some((n, k + write_node(n).len())),
        !has_prefix(t, k, kw_end_tag()),
{
    let w = write_node(n);
    lemma_has_prefix_index(t, k, w, 0);
    lemma_has_prefix_index(t, k, w, 1);
    lemma_not_has_prefix(t, k, kw_end_tag(), 1);
    lemma_not_has_prefix(t, k, kw_comment_open(), 1);
    lemma_not_has_prefix(t, k, kw_cdata_open(), 1);
    lemma_not_has_prefix(t, k, kw_pi_open(), 1);
}

/// What was written for a node inside an element reads back as the node.
#[verifier::rlimit(50)]
pub proof fn lemma_item_reads_back(
    s: Seq<u8>,
    i: int,
    scope: Seq<NsView>,
    depth: nat,
    n: NodeView,
    end: int,
    t: Seq<u8>,
    k: int,
)
    requires
        0 <= i < s.len(),
        0 <= k,
        parse_item(s, i, scope, depth) == Some((n, end)),
        has_prefix(t, k, write_node(n)),
        s[i] != LT ==> k + write_node(n).len() == t.len() || t[k + write_node(n).len()] == LT,
    ensures
        parse_item(t, k, scope, depth) == Some((n, k + write_node(n).len())),
        write_node(n).len() > 0,
        !has_prefix(t, k, kw_end_tag()),
        s[i] == LT ==> write_node(n)[0] == LT,
    decreases depth, s.len() - i, 1nat,
{
    if has_prefix(s, i, kw_comment_open()) {
        lemma_comment_item(s, i, scope, depth, n, end, t, k);
    } else if has_prefix(s, i, kw_cdata_open()) {
        lemma_cdata_item(s, i, scope, depth, n, end, t, k);
    } else if has_prefix(s, i, kw_pi_open()) {
        lemma_pi_item(s, i, scope, depth, n, end, t, k);
    } else if s[i] == LT {
        lemma_element_reads_back(s, i, scope, depth, n, end, t, k);
        lemma_element_item(t, k, scope, depth, n);
    } else {
        match text_body(s, i) {
            Some((bytes, kk)) => {
                assert(write_node(n) == escape_text(bytes));
                lemma_text_item(s, i, scope, depth, bytes, kk, t, k);
            },
            None => {},
        }
    }
}

/// Reading content is reading one node and then the rest.
pub proof fn lemma_content_step(
    t: Seq<u8>,
    k: int,
    scope: Seq<NsView>,
    depth: nat,
    node: NodeView,
    mid: int,
    rest: Seq<NodeView>,
    end: int,
)
    requires
        0 <= k < mid <= t.len(),
        !has_prefix(t, k, kw_end_tag()),
        parse_item(t, k, scope, depth) == Some((node, mid)),
        parse_content(t, mid, scope, depth) == Some((rest, end)),
    ensures
        parse_content(t, k, scope, depth) == Some((seq![node] + rest, end)),
{
}

/// Text inside an element is followed by a `<` or by the end of the input.
pub proof fn lemma_text_followed(
    s: Seq<u8>,
    i: int,
    kk: int,
    scope: Seq<NsView>,
    depth: nat,
    rest: Seq<NodeView>,
    end: int,
    t: Seq<u8>,
    p: int,
)
    requires
        0 <= i < s.len(),
        i < kk <= s.len(),
        0 <= p,
        s[i] != LT,
        text_body(s, i) matches Some((_, stop)) && stop == kk,
        parse_content(s, kk, scope, depth) == Some((rest, end)),
        has_prefix(t, p, write_nodes(rest)),
        p + write_nodes(rest).len() == t.len() || has_prefix(
            t,
            p + write_nodes(rest).len(),
            kw_end_tag(),
        ),
        rest.len() > 0 && kk < s.len() && s[kk] == LT ==> write_nodes(rest).len() > 0
            && write_nodes(rest)[0] == LT,
    ensures
        p == t.len() || t[p] == LT,
{
    lemma_text_body_stops(s, i);
    let wr = write_nodes(rest);
    if rest.len() > 0 {
        lemma_has_prefix_index(t, p, wr, 0);
    } else {
        assert(wr =~= Seq::<u8>::empty());
        if p < t.len() {
            lemma_has_prefix_index(t, p, kw_end_tag(), 0);
        }
    }
}

/// Where there is no `<`, what stands inside an element is text.
pub proof fn lemma_item_is_text(s: Seq<u8>, i: int, scope: Seq<NsView>, depth: nat)
    requires
        0 <= i < s.len(),
        s[i] != LT,
    ensures
        parse_item(s, i, scope, depth) == match text_body(s, i) {
            Some((bytes, k)) => Some((text_node(xmlElementType::TextNode, bytes), k)),
            None => None,
        },
{
    lemma_not_has_prefix(s, i, kw_comment_open(), 0);
    lemma_not_has_prefix(s, i, kw_cdata_open(), 0);
    lemma_not_has_prefix(s, i, kw_pi_open(), 0);
}

/// The content of an element that was written reads back as it was.
#[verifier::rlimit(50)]
pub proof fn lemma_content_reads_back(
    s: Seq<u8>,
    i: int,
    scope: Seq<NsView>,
    depth: nat,
    nodes: Seq<NodeView>,
    end: int,
    t: Seq<u8>,
    k: int,
)
    requires
        0 <= i <= s.len(),
        0 <= k,
        parse_content(s, i, scope, depth) == Some((nodes, end)),
        has_prefix(t, k, write_nodes(nodes)),
        k + write_nodes(nodes).len() == t.len() || has_prefix(
            t,
            k + write_nodes(nodes).len(),
            kw_end_tag(),
        ),
    ensures
        parse_content(t, k, scope, depth) == Some((nodes, k + write_nodes(nodes).len())),
        nodes.len() > 0 && i < s.len() && s[i] == LT ==> write_nodes(nodes).len() > 0
            && write_nodes(nodes)[0] == LT,
    decreases depth, s.len() - i, 2nat,
{
    if i >= s.len() || has_prefix(s, i, kw_end_tag()) {
        assert(nodes =~= Seq::<NodeView>::empty());
        assert(write_nodes(nodes) =~= Seq::<u8>::empty());
    } else {
        match parse_item(s, i, scope, depth) {
            Some((node, kk)) => {
                if i < kk <= s.len() {
                    match parse_content(s, kk, scope, depth) {
                        Some((rest, end2)) => {
                            assert(nodes == seq![node] + rest);
                            lemma_write_nodes_first(node, rest);
                            let wn = write_node(node);
                            let wr = write_nodes(rest);
                            let mid = k + wn.len();
                            lemma_has_prefix_concat(t, k, wn, wr);
                            lemma_content_reads_back(s, kk, scope, depth, rest, end2, t, mid);
                            if s[i] != LT {
                                lemma_item_is_text(s, i, scope, depth);
                                lemma_text_followed(s, i, kk, scope, depth, rest, end2, t, mid);
                            }
                            lemma_item_reads_back(s, i, scope, depth, node, kk, t, k);
                            lemma_content_step(t, k, scope, depth, node, mid, rest, mid + wr.len());
                        },
                        None => {},
                    }
                }
            },
            None => {},
        }
    }
}

// ----- documents -----

/// The first of the comments and processing instructions that were read is
/// written with a `<` in front.
pub proof fn lemma_misc_written_starts(s: Seq<u8>, i: int)
    requires
        0 <= i <= s.len(),
    ensures
        parse_misc(s, i) matches Some((nodes, _)) ==> nodes.len() > 0 ==> write_top(nodes).len()
            > 0 && write_top(nodes)[0] == LT,
{
    lemma_skip_spaces_stops(s, i);
    let j = skip_spaces(s, i);
    match parse_misc(s, i) {
        Some((nodes, _)) => {
            if nodes.len() > 0 {
                if has_prefix(s, j, kw_comment_open()) {
                    match parse_comment(s, j) {
                        Some((node, k)) => {
                            match parse_misc(s, k) {
                                Some((rest, _)) => {
                                    lemma_write_top_first(node, rest);
                                    assert(write_node(node) =~= kw_comment_open() + (
                                    bytes_or_empty(node.content) + kw_comment_close()));
                                },
                                None => {},
                            }
                        },
                        None => {},
                    }
                } else if has_prefix(s, j, kw_pi_open()) {
                    match parse_pi(s, j) {
                        Some((node, k)) => {
                            match parse_misc(s, k) {
                                Some((rest, _)) => {
                                    lemma_write_top_first(node, rest);
                                    assert(write_node(node) == write_pi(node));
                                    assert(write_pi(node) =~= kw_pi_open() + (bytes_or_empty(
                                        node.name,
                                    ) + (match node.content {
                                        Some(data) => seq![SPACE] + data,
                                        None => Seq::empty(),
                                    }) + kw_pi_close()));
                                },
                                None => {},
                            }
                        },
                        None => {},
                    }
                }
            }
        },
        None => {},
    }
}

/// Passing over white space twice is passing over it once.
pub proof fn lemma_skip_spaces_again(t: Seq<u8>, k: int)
    requires
        0 <= k <= t.len(),
    ensures
        k <= skip_spaces(t, k) <= t.len(),
        skip_spaces(t, skip_spaces(t, k)) == skip_spaces(t, k),
{
    lemma_skip_spaces_stops(t, k);
}

/// After one step of reading comments and processing instructions back, the
/// rest of them stands where the reading goes on.
pub proof fn lemma_misc_step(
    s: Seq<u8>,
    kk: int,
    rest: Seq<NodeView>,
    end: int,
    t: Seq<u8>,
    k1: int,
)
    requires
        0 <= kk <= s.len(),
        0 <= k1,
        parse_misc(s, kk) == Some((rest, end)),
        has_prefix(t, k1, seq![LF] + write_top(rest)),
    ensures
        k1 < t.len(),
        has_prefix(t, skip_spaces(t, k1), write_top(rest)),
        skip_spaces(t, skip_spaces(t, k1) + write_top(rest).len()) == skip_spaces(
            t,
            k1 + 1 + write_top(rest).len(),
        ),
{
    let wr = write_top(rest);
    lemma_has_prefix_concat(t, k1, seq![LF], wr);
    lemma_has_prefix_index(t, k1, seq![LF], 0);
    assert(skip_spaces(t, k1) == skip_spaces(t, k1 + 1));
    if rest.len() > 0 {
        lemma_misc_written_starts(s, kk);
        lemma_has_prefix_index(t, k1 + 1, wr, 0);
        assert(skip_spaces(t, k1 + 1) == k1 + 1);
    } else {
        assert(wr =~= Seq::<u8>::empty());
        lemma_skip_spaces_again(t, k1 + 1);
        assert(t.subrange(skip_spaces(t, k1), skip_spaces(t, k1) + 0) =~= wr);
    }
}

/// Reading comments and processing instructions is reading one and then the
/// rest.
pub proof fn lemma_misc_comment_step(
    t: Seq<u8>,
    k: int,
    node: NodeView,
    mid: int,
    rest: Seq<NodeView>,
    stop: int,
)
    requires
        0 <= k < mid <= t.len(),
        has_prefix(t, skip_spaces(t, k), kw_comment_open()),
        parse_comment(t, skip_spaces(t, k)) == Some((node, mid)),
        parse_misc(t, mid) == Some((rest, stop)),
    ensures
        parse_misc(t, k) == Some((seq![node] + rest, stop)),
{
}

/// Reading comments and processing instructions is reading one and then the
/// rest.
pub proof fn lemma_misc_pi_step(
    t: Seq<u8>,
    k: int,
    node: NodeView,
    mid: int,
    rest: Seq<NodeView>,
    stop: int,
)
    requires
        0 <= k < mid <= t.len(),
        !has_prefix(t, skip_spaces(t, k), kw_comment_open()),
        has_prefix(t, skip_spaces(t, k), kw_pi_open()),
        parse_pi(t, skip_spaces(t, k)) == Some((node, mid)),
        parse_misc(t, mid) == Some((rest, stop)),
    ensures
        parse_misc(t, k) == Some((seq![node] + rest, stop)),
{
}

/// A comment or processing instruction on a line of its own, and the rest
/// behind it.
pub proof fn lemma_misc_parts(
    t: Seq<u8>,
    k0: int,
    node: NodeView,
    rest: Seq<NodeView>,
)
    requires
        0 <= k0,
        has_prefix(t, k0, write_top(seq![node] + rest)),
    ensures
        has_prefix(t, k0, write_node(node)),
        has_prefix(t, k0 + write_node(node).len(), seq![LF] + write_top(rest)),
        write_top(seq![node] + rest).len() == write_node(node).len() + 1 + write_top(rest).len(),
{
    lemma_write_top_first(node, rest);
    let wn = write_node(node);
    assert(write_top(seq![node] + rest) =~= wn + (seq![LF] + write_top(rest)));
    lemma_has_prefix_concat(t, k0, wn, seq![LF] + write_top(rest));
}

/// Comments and processing instructions that were written, each on a line of
/// its own, read back as they were.
#[verifier::rlimit(50)]
pub proof fn lemma_misc_reads_back(
    s: Seq<u8>,
    i: int,
    nodes: Seq<NodeView>,
    end: int,
    t: Seq<u8>,
    k: int,
    stop: int,
)
    requires
        0 <= i <= s.len(),
        0 <= k <= t.len(),
        parse_misc(s, i) == Some((nodes, end)),
        has_prefix(t, skip_spaces(t, k), write_top(nodes)),
        stop == skip_spaces(t, skip_spaces(t, k) + write_top(nodes).len()),
        !has_prefix(t, stop, kw_comment_open()),
        !has_prefix(t, stop, kw_pi_open()),
    ensures
        parse_misc(t, k) == Some((nodes, stop)),
    decreases s.len() - i,
{
    lemma_skip_spaces_stops(s, i);
    lemma_skip_spaces_again(t, k);
    let j = skip_spaces(s, i);
    let k0 = skip_spaces(t, k);
    if has_prefix(s, j, kw_comment_open()) {
        match parse_comment(s, j) {
            Some((node, kk)) => {
                if i < kk <= s.len() {
                    match parse_misc(s, kk) {
                        Some((rest, end2)) => {
                            assert(nodes == seq![node] + rest);
                            lemma_misc_parts(t, k0, node, rest);
                            lemma_comment_reads_back(s, j, node, kk, t, k0);
                            let k1 = k0 + write_node(node).len();
                            lemma_has_prefix_index(t, k1, seq![LF] + write_top(rest), 0);
                            lemma_misc_step(s, kk, rest, end2, t, k1);
                            lemma_misc_reads_back(s, kk, rest, end2, t, k1, stop);
                            lemma_misc_comment_step(t, k, node, k1, rest, stop);
                        },
                        None => {},
                    }
                }
            },
            None => {},
        }
    } else if has_prefix(s, j, kw_pi_open()) {
        match parse_pi(s, j) {
            Some((node, kk)) => {
                if i < kk <= s.len() {
                    match parse_misc(s, kk) {
                        Some((rest, end2)) => {
                            assert(nodes == seq![node] + rest);
                            lemma_misc_parts(t, k0, node, rest);
                            lemma_pi_reads_back(s, j, node, kk, t, k0);
                            lemma_has_prefix_index(t, k0, kw_pi_open(), 1);
                            lemma_not_has_prefix(t, k0, kw_comment_open(), 1);
                            let k1 = k0 + write_node(node).len();
                            lemma_has_prefix_index(t, k1, seq![LF] + write_top(rest), 0);
                            lemma_misc_step(s, kk, rest, end2, t, k1);
                            lemma_misc_reads_back(s, kk, rest, end2, t, k1, stop);
                            lemma_misc_pi_step(t, k, node, k1, rest, stop);
                        },
                        None => {},
                    }
                }
            },
            None => {},
        }
    } else {
        assert(nodes =~= Seq::<NodeView>::empty());
        assert(write_top(nodes) =~= Seq::<u8>::empty());
    }
}

/// Whether a byte string can stand between the quotes of an XML declaration:
/// name bytes, at least one.
pub open spec fn is_literal(v: Seq<u8>) -> bool {
    v.len() > 0 && forall|m: int| 0 <= m < v.len() ==> is_name_char(#[trigger] v[m])
}

/// What was read between the quotes of an XML declaration can stand there.
pub proof fn lemma_literal_read(s: Seq<u8>, i: int)
    requires
        0 <= i <= s.len(),
    ensures
        parse_eq_literal(s, i) matches Some((v, _)) ==> is_literal(v),
{
    lemma_skip_spaces_stops(s, i);
    let q = skip_spaces(s, i);
    if q < s.len() && s[q] == EQUALS {
        lemma_skip_spaces_stops(s, q + 1);
        let v = skip_spaces(s, q + 1);
        if v < s.len() {
            lemma_name_end_is_run(s, v + 1);
            let e = name_end(s, v + 1);
            let lit = s.subrange(v + 1, e);
            if v + 1 < e {
                assert forall|m: int| 0 <= m < lit.len() implies is_name_char(#[trigger] lit[m]) by {
                    assert(lit[m] == s[v + 1 + m]);
                }
            }
        }
    }
}

/// A quoted literal that was written reads back as it was.
pub proof fn lemma_literal_reads_back(t: Seq<u8>, k: int, v: Seq<u8>)
    requires
        0 <= k,
        is_literal(v),
        has_prefix(t, k, kw_eq_quote() + v + seq![QUOT]),
    ensures
        parse_eq_literal(t, k) == Some((v, k + v.len() + 3)),
{
    lemma_has_prefix_concat(t, k, kw_eq_quote() + v, seq![QUOT]);
    lemma_has_prefix_concat(t, k, kw_eq_quote(), v);
    lemma_has_prefix_index(t, k, kw_eq_quote(), 0);
    lemma_has_prefix_index(t, k, kw_eq_quote(), 1);
    lemma_has_prefix_index(t, k + 2 + v.len(), seq![QUOT], 0);
    assert(skip_spaces(t, k) == k);
    assert(skip_spaces(t, k + 1) == k + 1);
    lemma_name_run(t, k + 2, v);
    assert(t.subrange(k + 2, k + 2 + v.len()) =~= v);
}

/// The version that a document is written with.
pub open spec fn written_version(version: Option<Seq<u8>>) -> Seq<u8> {
    match version {
        Some(v) => v,
        None => kw_default_version(),
    }
}

/// An XML declaration as it is written, in its parts.
pub open spec fn declaration_parts(version: Seq<u8>, encoding: Option<Seq<u8>>) -> Seq<u8> {
    kw_xml_decl() + seq![SPACE] + kw_version() + (kw_eq_quote() + version + seq![QUOT]) + (
    match encoding {
        Some(e) => seq![SPACE] + kw_encoding() + (kw_eq_quote() + e + seq![QUOT]),
        None => Seq::empty(),
    }) + kw_pi_close()
}

/// An XML declaration that was written reads back as it was.
#[verifier::rlimit(50)]
pub proof fn lemma_declaration_reads_back(
    t: Seq<u8>,
    version: Seq<u8>,
    encoding: Option<Seq<u8>>,
)
    requires
        is_literal(version),
        encoding matches Some(e) ==> is_literal(e),
        has_prefix(t, 0, declaration_parts(version, encoding)),
    ensures
        parse_prolog(t) == Some(
            (
                Prolog { version: Some(version), encoding },
                declaration_parts(version, encoding).len() as int,
            ),
        ),
{
    let lit = kw_eq_quote() + version + seq![QUOT];
    let head = kw_xml_decl() + seq![SPACE] + kw_version();
    let enc = match encoding {
        Some(e) => seq![SPACE] + kw_encoding() + (kw_eq_quote() + e + seq![QUOT]),
        None => Seq::empty(),
    };
    let w = declaration_parts(version, encoding);
    assert(w =~= head + (lit + (enc + kw_pi_close())));
    lemma_has_prefix_concat(t, 0, head, lit + (enc + kw_pi_close()));
    lemma_has_prefix_concat(t, 13, lit, enc + kw_pi_close());
    lemma_has_prefix_concat(t, 0, kw_xml_decl() + seq![SPACE], kw_version());
    lemma_has_prefix_concat(t, 0, kw_xml_decl(), seq![SPACE]);
    lemma_has_prefix_index(t, 5, seq![SPACE], 0);
    lemma_has_prefix_index(t, 6, kw_version(), 0);
    assert(skip_spaces(t, 5) == 6) by {
        assert(skip_spaces(t, 6) == 6);
    }
    lemma_literal_reads_back(t, 13, version);
    let b: int = 16int + version.len();
    lemma_has_prefix_concat(t, b, enc, kw_pi_close());
    let d: int = b + enc.len();
    lemma_has_prefix_index(t, d, kw_pi_close(), 0);
    assert(skip_spaces(t, d) == d);
    match encoding {
        Some(e) => {
            let elit = kw_eq_quote() + e + seq![QUOT];
            lemma_has_prefix_concat(t, b, seq![SPACE] + kw_encoding(), elit);
            lemma_has_prefix_concat(t, b, seq![SPACE], kw_encoding());
            lemma_has_prefix_index(t, b, seq![SPACE], 0);
            lemma_has_prefix_index(t, b + 1, kw_encoding(), 0);
            assert(skip_spaces(t, b) == b + 1) by {
                assert(skip_spaces(t, b + 1) == b + 1);
            }
            lemma_literal_reads_back(t, b + 9, e);
            assert(parse_decl_part(t, b, kw_encoding()) == Some((Some(e), d)));
        },
        None => {
            assert(enc =~= Seq::<u8>::empty());
            assert(parse_decl_part(t, b, kw_encoding()) == Some((None::<Seq<u8>>, d)));
        },
    }
    assert(parse_decl_part(t, d, kw_standalone()) == Some((None::<Seq<u8>>, d)));
    assert(has_xml_decl(t));
    assert(parse_xml_decl(t) == Some((Prolog { version: Some(version), encoding }, d + 2)));
}

/// What the declaration of a document that was read says can be written.
pub proof fn lemma_prolog_read(s: Seq<u8>)
    ensures
        parse_prolog(s) matches Some((prolog, i)) ==> {
            &&& 0 <= i <= s.len()
            &&& is_literal(written_version(prolog.version))
            &&& prolog.encoding matches Some(e) ==> is_literal(e)
        },
{
    assert(is_literal(kw_default_version()));
    if has_xml_decl(s) {
        lemma_skip_spaces_stops(s, 5);
        let a = skip_spaces(s, 5);
        if has_prefix(s, a, kw_version()) {
            lemma_literal_read(s, a + 7);
            match parse_eq_literal(s, a + 7) {
                Some((version, b)) => {
                    lemma_skip_spaces_stops(s, b);
                    let c = skip_spaces(s, b);
                    if c > b && has_prefix(s, c, kw_encoding()) {
                        lemma_literal_read(s, c + 8);
                    }
                    match parse_decl_part(s, b, kw_encoding()) {
                        Some((encoding, d)) => {
                            lemma_skip_spaces_stops(s, d);
                            match parse_decl_part(s, d, kw_standalone()) {
                                Some((_, f)) => {
                                    lemma_skip_spaces_stops(s, f);
                                },
                                None => {},
                            }
                        },
                        None => {},
                    }
                },
                None => {},
            }
        }
    }
}

/// The document that was read, as a value.
pub open spec fn document_read(p: Parsed, url: Option<Seq<char>>) -> DocView {
    DocView { version: p.prolog.version, encoding: p.prolog.encoding, url, children: p.children }
}

/// What reading a written document gives: the document that was written,
/// with the version that it was written with.
pub open spec fn document_written(p: Parsed) -> Parsed {
    Parsed {
        prolog: Prolog {
            version: Some(written_version(p.prolog.version)),
            encoding: p.prolog.encoding,
        },
        children: p.children,
    }
}

/// The XML declaration is written in its parts, and a line feed.
pub proof fn lemma_declaration_written(d: DocView)
    ensures
        write_declaration(d) == declaration_parts(written_version(d.version), d.encoding)
            + seq![LF],
{
    assert(kw_decl_open() =~= kw_xml_decl() + seq![SPACE] + kw_version() + kw_eq_quote());
    assert(kw_decl_encoding() =~= seq![SPACE] + kw_encoding() + kw_eq_quote());
    assert(write_declaration(d) =~= declaration_parts(written_version(d.version), d.encoding)
        + seq![LF]);
}

/// The top-level nodes are written as those before the root, the root, a line
/// feed, and those behind the root.
pub proof fn lemma_top_written(before: Seq<NodeView>, root: NodeView, after: Seq<NodeView>)
    ensures
        write_top(before + seq![root] + after) == write_top(before) + write_node(root) + (seq![
            LF,
        ] + write_top(after)),
{
    lemma_write_top_concat(before + seq![root], after);
    lemma_write_top_concat(before, seq![root]);
    lemma_write_top_first(root, Seq::empty());
    assert(seq![root] + Seq::<NodeView>::empty() =~= seq![root]);
    assert(write_top(Seq::<NodeView>::empty()) =~= Seq::<u8>::empty());
    assert(write_top(seq![root]) =~= write_node(root) + seq![LF]);
    assert(write_top(before) + (write_node(root) + seq![LF]) + write_top(after) =~= write_top(
        before,
    ) + write_node(root) + (seq![LF] + write_top(after)));
}

/// Four byte strings one after the other, each in its place.
pub proof fn lemma_four_parts(t: Seq<u8>, a: Seq<u8>, b: Seq<u8>, c: Seq<u8>, d: Seq<u8>)
    requires
        t == a + b + c + d,
    ensures
        has_prefix(t, 0, a),
        has_prefix(t, a.len() as int, b),
        has_prefix(t, a.len() as int + b.len(), c),
        has_prefix(t, a.len() as int + b.len() + c.len(), d),
        t.len() == a.len() + b.len() + c.len() + d.len(),
{
    assert(t.subrange(0, t.len() as int) =~= t);
    assert(t =~= a + (b + (c + d)));
    lemma_has_prefix_concat(t, 0, a, b + (c + d));
    lemma_has_prefix_concat(t, a.len() as int, b, c + d);
    lemma_has_prefix_concat(t, a.len() as int + b.len(), c, d);
}

/// A written document in its parts: the declaration, a line feed and the
/// comments and processing instructions before the root, the root, a line
/// feed and the comments and processing instructions behind it.
#[verifier::rlimit(50)]
pub proof fn lemma_document_parts(
    d: DocView,
    before: Seq<NodeView>,
    root: NodeView,
    after: Seq<NodeView>,
)
    requires
        d.children == before + seq![root] + after,
    ensures
        ({
            let t = write_document(d);
            let decl = declaration_parts(written_version(d.version), d.encoding);
            let r: int = decl.len() as int + 1 + write_top(before).len();
            &&& has_prefix(t, 0, decl)
            &&& has_prefix(t, decl.len() as int, seq![LF] + write_top(before))
            &&& has_prefix(t, r, write_node(root))
            &&& has_prefix(t, r + write_node(root).len(), seq![LF] + write_top(after))
            &&& t.len() == r + write_node(root).len() + 1 + write_top(after).len()
        }),
{
    let t = write_document(d);
    let decl = declaration_parts(written_version(d.version), d.encoding);
    let b = seq![LF] + write_top(before);
    let c = write_node(root);
    let e = seq![LF] + write_top(after);
    lemma_declaration_written(d);
    lemma_top_written(before, root, after);
    assert(t =~= decl + b + c + e);
    lemma_four_parts(t, decl, b, c, e);
}

/// A document is its declaration, the comments and processing instructions
/// before its root, its root, and those behind the root, up to the end of the
/// input.
pub proof fn lemma_document_assembles(
    t: Seq<u8>,
    prolog: Prolog,
    i: int,
    before: Seq<NodeView>,
    j: int,
    root: NodeView,
    k: int,
    after: Seq<NodeView>,
)
    requires
        parse_prolog(t) == Some((prolog, i)),
        parse_misc(t, i) == Some((before, j)),
        parse_element(t, j, root_scope(), MAX_DEPTH as nat) == Some((root, k)),
        parse_misc(t, k) == Some((after, t.len() as int)),
    ensures
        parse_document(t) == Some(Parsed { prolog, children: before + seq![root] + after }),
{
}

/// The comments and processing instructions before the root read back as
/// they were.
pub proof fn lemma_before_reads_back(
    s: Seq<u8>,
    i: int,
    before: Seq<NodeView>,
    j: int,
    t: Seq<u8>,
    k: int,
)
    requires
        0 <= i <= s.len(),
        0 <= k,
        parse_misc(s, i) == Some((before, j)),
        has_prefix(t, k, seq![LF] + write_top(before)),
        ({
            let r = k + 1 + write_top(before).len();
            r + 1 < t.len() && t[r] == LT && is_name_start(t[r + 1])
        }),
    ensures
        parse_misc(t, k) == Some((before, k + 1 + write_top(before).len())),
{
    let r = k + 1 + write_top(before).len();
    lemma_not_has_prefix(t, r, kw_comment_open(), 1);
    lemma_not_has_prefix(t, r, kw_pi_open(), 1);
    assert(skip_spaces(t, r) == r);
    lemma_misc_step(s, i, before, j, t, k);
    lemma_misc_reads_back(s, i, before, j, t, k, r);
}

/// The comments and processing instructions behind the root read back as
/// they were.
pub proof fn lemma_after_reads_back(
    s: Seq<u8>,
    i: int,
    after: Seq<NodeView>,
    j: int,
    t: Seq<u8>,
    k: int,
)
    requires
        0 <= i <= s.len(),
        0 <= k,
        parse_misc(s, i) == Some((after, j)),
        has_prefix(t, k, seq![LF] + write_top(after)),
        t.len() == k + 1 + write_top(after).len(),
    ensures
        parse_misc(t, k) == Some((after, t.len() as int)),
{
    let end = t.len() as int;
    assert(skip_spaces(t, end) == end);
    assert(!has_prefix(t, end, kw_comment_open()));
    assert(!has_prefix(t, end, kw_pi_open()));
    lemma_misc_step(s, i, after, j, t, k);
    lemma_misc_reads_back(s, i, after, j, t, k, end);
}

/// A document that was read in the given parts, written, reads back in the
/// same parts.
#[verifier::rlimit(50)]
pub proof fn lemma_parts_read_back(
    s: Seq<u8>,
    url: Option<Seq<char>>,
    prolog: Prolog,
    i: int,
    before: Seq<NodeView>,
    j: int,
    root: NodeView,
    k: int,
    after: Seq<NodeView>,
    end: int,
)
    requires
        0 <= i <= s.len(),
        0 <= k <= s.len(),
        is_literal(written_version(prolog.version)),
        prolog.encoding matches Some(e) ==> is_literal(e),
        parse_misc(s, i) == Some((before, j)),
        parse_element(s, j, root_scope(), MAX_DEPTH as nat) == Some((root, k)),
        parse_misc(s, k) == Some((after, end)),
    ensures
        parse_document(
            write_document(
                document_read(Parsed { prolog, children: before + seq![root] + after }, url),
            ),
        ) == Some(
            document_written(Parsed { prolog, children: before + seq![root] + after }),
        ),
{
    let p = Parsed { prolog, children: before + seq![root] + after };
    let d = document_read(p, url);
    let t = write_document(d);
    let version = written_version(prolog.version);
    let decl = declaration_parts(version, prolog.encoding);
    let dl = decl.len() as int;
    let r = dl + 1 + write_top(before).len();
    let wr = write_node(root);
    lemma_document_parts(d, before, root, after);
    lemma_declaration_reads_back(t, version, prolog.encoding);
    lemma_element_reads_back(s, j, root_scope(), MAX_DEPTH as nat, root, k, t, r);
    lemma_has_prefix_index(t, r, wr, 0);
    lemma_has_prefix_index(t, r, wr, 1);
    lemma_before_reads_back(s, i, before, j, t, dl);
    lemma_after_reads_back(s, k, after, end, t, r + wr.len());
    lemma_document_assembles(
        t,
        Prolog { version: Some(version), encoding: prolog.encoding },
        dl,
        before,
        r,
        root,
        r + wr.len(),
        after,
    );
}

/// What the engine writes, it reads: the bytes that a document that was read
/// is written as are a well-formed document again, and reading them gives
/// the same nodes, the same encoding, and the version that was written.
#[verifier::rlimit(50)]
pub proof fn lemma_written_document_reads_back(s: Seq<u8>, url: Option<Seq<char>>)
    requires
        parse_document(s) is Some,
    ensures
        parse_document(write_document(document_read(parse_document(s).unwrap(), url))) == Some(
            document_written(parse_document(s).unwrap()),
        ),
{
    lemma_prolog_read(s);
    match parse_prolog(s) {
        Some((prolog, i)) => {
            match parse_misc(s, i) {
                Some((before, j)) => {
                    match parse_element(s, j, root_scope(), MAX_DEPTH as nat) {
                        Some((root, k)) => {
                            match parse_misc(s, k) {
                                Some((after, end)) => {
                                    assert(0 <= k <= s.len()) by {
                                        if k < 0 || k > s.len() {
                                            assert(skip_spaces(s, k) == k);
                                            assert(!has_prefix(s, k, kw_comment_open()));
                                            assert(!has_prefix(s, k, kw_pi_open()));
                                        }
                                    }
                                    lemma_parts_read_back(
                                        s,
                                        url,
                                        prolog,
                                        i,
                                        before,
                                        j,
                                        root,
                                        k,
                                        after,
                                        end,
                                    );
                                },
                                None => {},
                            }
                        },
                        None => {},
                    }
                },
                None => {},
            }
        },
        None => {},
    }
}

/// Writing is stable: a document that was written and read again is written
/// as the same bytes.
pub proof fn lemma_writing_is_stable(s: Seq<u8>, url: Option<Seq<char>>)
    requires
        parse_document(s) is Some,
    ensures
        ({
            let first = write_document(document_read(parse_document(s).unwrap(), url));
            parse_document(first) is Some && write_document(
                document_read(parse_document(first).unwrap(), url),
            ) == first
        }),
{
    lemma_written_document_reads_back(s, url);
    let p = parse_document(s).unwrap();
    let d = document_read(p, url);
    let again = document_read(document_written(p), url);
    assert(write_declaration(again) == write_declaration(d));
}

} // verus!
