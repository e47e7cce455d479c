//! The bytes of the XML that the engine reads and writes: character classes,
//! keywords, and the scanning steps that everything else is built from.

use vstd::prelude::*;

verus! {

pub const TAB: u8 = 0x09;

pub const LF: u8 = 0x0a;

pub const CR: u8 = 0x0d;

pub const SPACE: u8 = 0x20;

/// `!`
pub const BANG: u8 = 0x21;

/// `"`
pub const QUOT: u8 = 0x22;

/// `#`
pub const HASH: u8 = 0x23;

/// `&`
pub const AMP: u8 = 0x26;

/// `'`
pub const APOS: u8 = 0x27;

/// `-`
pub const DASH: u8 = 0x2d;

/// `.`
pub const DOT: u8 = 0x2e;

/// `/`
pub const SLASH: u8 = 0x2f;

/// `:`
pub const COLON: u8 = 0x3a;

/// `;`
pub const SEMI: u8 = 0x3b;

/// `<`
pub const LT: u8 = 0x3c;

/// `=`
pub const EQUALS: u8 = 0x3d;

/// `>`
pub const GT: u8 = 0x3e;

/// `?`
pub const QUEST: u8 = 0x3f;

/// `[`
pub const LBRACK: u8 = 0x5b;

/// `]`
pub const RBRACK: u8 = 0x5d;

/// `_`
pub const UNDERSCORE: u8 = 0x5f;

/// `<?xml`
pub open spec fn kw_xml_decl() -> Seq<u8> {
    seq![LT, QUEST, 0x78u8, 0x6du8, 0x6cu8]
}

/// `version`
pub open spec fn kw_version() -> Seq<u8> {
    seq![0x76u8, 0x65u8, 0x72u8, 0x73u8, 0x69u8, 0x6fu8, 0x6eu8]
}

/// `encoding`
pub open spec fn kw_encoding() -> Seq<u8> {
    seq![0x65u8, 0x6eu8, 0x63u8, 0x6fu8, 0x64u8, 0x69u8, 0x6eu8, 0x67u8]
}

/// `standalone`
pub open spec fn kw_standalone() -> Seq<u8> {
    seq![0x73u8, 0x74u8, 0x61u8, 0x6eu8, 0x64u8, 0x61u8, 0x6cu8, 0x6fu8, 0x6eu8, 0x65u8]
}

/// `<?`
pub open spec fn kw_pi_open() -> Seq<u8> {
    seq![LT, QUEST]
}

/// `?>`
pub open spec fn kw_pi_close() -> Seq<u8> {
    seq![QUEST, GT]
}

/// `<!--`
pub open spec fn kw_comment_open() -> Seq<u8> {
    seq![LT, BANG, DASH, DASH]
}

/// `--`
pub open spec fn kw_double_dash() -> Seq<u8> {
    seq![DASH, DASH]
}

/// `-->`
pub open spec fn kw_comment_close() -> Seq<u8> {
    seq![DASH, DASH, GT]
}

/// `<![CDATA[`
pub open spec fn kw_cdata_open() -> Seq<u8> {
    seq![LT, BANG, LBRACK, 0x43u8, 0x44u8, 0x41u8, 0x54u8, 0x41u8, LBRACK]
}

/// `]]>`
pub open spec fn kw_cdata_close() -> Seq<u8> {
    seq![RBRACK, RBRACK, GT]
}

/// `</`
pub open spec fn kw_end_tag() -> Seq<u8> {
    seq![LT, SLASH]
}

/// `/>`
pub open spec fn kw_empty_close() -> Seq<u8> {
    seq![SLASH, GT]
}

/// `&lt;`
pub open spec fn kw_ref_lt() -> Seq<u8> {
    seq![AMP, 0x6cu8, 0x74u8, SEMI]
}

/// `&gt;`
pub open spec fn kw_ref_gt() -> Seq<u8> {
    seq![AMP, 0x67u8, 0x74u8, SEMI]
}

/// `&amp;`
pub open spec fn kw_ref_amp() -> Seq<u8> {
    seq![AMP, 0x61u8, 0x6du8, 0x70u8, SEMI]
}

/// `&apos;`
pub open spec fn kw_ref_apos() -> Seq<u8> {
    seq![AMP, 0x61u8, 0x70u8, 0x6fu8, 0x73u8, SEMI]
}

/// `&quot;`
pub open spec fn kw_ref_quot() -> Seq<u8> {
    seq![AMP, 0x71u8, 0x75u8, 0x6fu8, 0x74u8, SEMI]
}

/// `&#x`
pub open spec fn kw_ref_hex() -> Seq<u8> {
    seq![AMP, HASH, 0x78u8]
}

/// `&#`
pub open spec fn kw_ref_dec() -> Seq<u8> {
    seq![AMP, HASH]
}

/// `xmlns`
pub open spec fn kw_xmlns() -> Seq<u8> {
    seq![0x78u8, 0x6du8, 0x6cu8, 0x6eu8, 0x73u8]
}

/// `xmlns:`
pub open spec fn kw_xmlns_colon() -> Seq<u8> {
    seq![0x78u8, 0x6du8, 0x6cu8, 0x6eu8, 0x73u8, COLON]
}

/// `xml`
pub open spec fn kw_xml() -> Seq<u8> {
    seq![0x78u8, 0x6du8, 0x6cu8]
}

/// `1.0`
pub open spec fn kw_default_version() -> Seq<u8> {
    seq![0x31u8, DOT, 0x30u8]
}

/// White space: space, tab, line feed, carriage return.
pub open spec fn is_space(b: u8) -> bool {
    b == SPACE || b == TAB || b == LF || b == CR
}

/// A byte that may start a name: a letter, `_`, `:`, or any byte of a
/// character outside ASCII.
pub open spec fn is_name_start(b: u8) -> bool {
    (0x41 <= b <= 0x5a) || (0x61 <= b <= 0x7a) || b == UNDERSCORE || b == COLON || b >= 0x80
}

/// A byte that may continue a name: a name start, a digit, `-` or `.`.
pub open spec fn is_name_char(b: u8) -> bool {
    is_name_start(b) || (0x30 <= b <= 0x39) || b == DASH || b == DOT
}

/// Whether `pat` stands in `s` at position `i`.
pub open spec fn has_prefix(s: Seq<u8>, i: int, pat: Seq<u8>) -> bool {
    0 <= i && i + pat.len() <= s.len() && s.subrange(i, i + pat.len()) == pat
}

/// The first position from `i` on that holds no white space.
pub open spec fn skip_spaces(s: Seq<u8>, i: int) -> int
    decreases s.len() - i,
{
    if 0 <= i < s.len() && is_space(s[i]) {
        skip_spaces(s, i + 1)
    } else {
        i
    }
}

/// The first position from `i` on that holds no name byte.
pub open spec fn name_end(s: Seq<u8>, i: int) -> int
    decreases s.len() - i,
{
    if 0 <= i < s.len() && is_name_char(s[i]) {
        name_end(s, i + 1)
    } else {
        i
    }
}

/// The first position from `i` on at which `pat` stands, if there is one.
pub open spec fn find(s: Seq<u8>, i: int, pat: Seq<u8>) -> Option<int>
    decreases s.len() - i,
{
    if has_prefix(s, i, pat) {
        Some(i)
    } else if 0 <= i < s.len() {
        find(s, i + 1, pat)
    } else {
        None
    }
}

/// Whether `b` is white space.
pub(crate) fn space(b: u8) -> (r: bool)
    ensures
        r == is_space(b),
{
    b == SPACE || b == TAB || b == LF || b == CR
}

/// Whether `b` may start a name.
pub(crate) fn name_start(b: u8) -> (r: bool)
    ensures
        r == is_name_start(b),
{
    (0x41 <= b && b <= 0x5a) || (0x61 <= b && b <= 0x7a) || b == UNDERSCORE || b == COLON || b
        >= 0x80
}

/// Whether `b` may continue a name.
pub(crate) fn name_char(b: u8) -> (r: bool)
    ensures
        r == is_name_char(b),
{
    name_start(b) || (0x30 <= b && b <= 0x39) || b == DASH || b == DOT
}

/// Whether `pat` stands in `s` at position `i`.
pub(crate) fn starts_with(s: &[u8], i: usize, pat: &[u8]) -> (r: bool)
    ensures
        r == has_prefix(s@, i as int, pat@),
        r ==> i + pat@.len() <= s@.len() <= usize::MAX,
{
    if i > s.len() || pat.len() > s.len() - i {
        return false;
    }
    let mut k: usize = 0;
    while k < pat.len()
        invariant
            k <= pat@.len(),
            i + pat@.len() <= s@.len() <= usize::MAX,
            forall|j: int| 0 <= j < k ==> s@[i + j] == pat@[j],
        decreases pat@.len() - k,
    {
        if s[i + k] != pat[k] {
            assert(s@.subrange(i as int, i + pat@.len())[k as int] != pat@[k as int]);
            return false;
        }
        k = k + 1;
    }
    assert(s@.subrange(i as int, i + pat@.len()) =~= pat@);
    true
}

/// Whether two byte strings are the same.
pub(crate) fn same_bytes(a: &[u8], b: &[u8]) -> (r: bool)
    ensures
        r == (a@ == b@),
{
    if a.len() != b.len() {
        return false;
    }
    let r = starts_with(a, 0, b);
    assert(a@.subrange(0, a@.len() as int) =~= a@);
    r
}

/// The first position from `i` on that holds no white space.
pub(crate) fn skip_ws(s: &[u8], i: usize) -> (j: usize)
    requires
        i <= s@.len(),
    ensures
        j == skip_spaces(s@, i as int),
        i <= j <= s@.len(),
{
    let mut j: usize = i;
    while j < s.len() && space(s[j])
        invariant
            i <= j <= s@.len(),
            skip_spaces(s@, i as int) == skip_spaces(s@, j as int),
        decreases s@.len() - j,
    {
        j = j + 1;
    }
    j
}

/// The first position from `i` on that holds no name byte.
pub(crate) fn scan_name(s: &[u8], i: usize) -> (j: usize)
    requires
        i <= s@.len(),
    ensures
        j == name_end(s@, i as int),
        i <= j <= s@.len(),
{
    let mut j: usize = i;
    while j < s.len() && name_char(s[j])
        invariant
            i <= j <= s@.len(),
            name_end(s@, i as int) == name_end(s@, j as int),
        decreases s@.len() - j,
    {
        j = j + 1;
    }
    j
}

/// The first position from `i` on at which `pat` stands, if there is one.
pub(crate) fn find_bytes(s: &[u8], i: usize, pat: &[u8]) -> (r: Option<usize>)
    ensures
        r is Some <==> find(s@, i as int, pat@) is Some,
        r matches Some(j) ==> find(s@, i as int, pat@) == Some(j as int) && i <= j && j
            + pat@.len() <= s@.len(),
{
    let mut j: usize = i;
    loop
        invariant
            i <= j,
            j <= s@.len() || j == i,
            find(s@, i as int, pat@) == find(s@, j as int, pat@),
        decreases s@.len() - j,
    {
        if starts_with(s, j, pat) {
            return Some(j);
        }
        if j >= s.len() {
            return None;
        }
        j = j + 1;
    }
}

/// A copy of the bytes from `from` up to `to`.
pub(crate) fn copy_range(s: &[u8], from: usize, to: usize) -> (v: Vec<u8>)
    requires
        from <= to <= s@.len(),
    ensures
        v@ == s@.subrange(from as int, to as int),
{
    let mut v: Vec<u8> = Vec::new();
    let mut k: usize = from;
    while k < to
        invariant
            from <= k <= to <= s@.len(),
            v@ == s@.subrange(from as int, k as int),
        decreases to - k,
    {
        v.push(s[k]);
        k = k + 1;
        assert(v@ =~= s@.subrange(from as int, k as int));
    }
    v
}

/// Adds the bytes of `more` to the end of `out`.
pub(crate) fn push_all(out: &mut Vec<u8>, more: &[u8])
    ensures
        final(out)@ == old(out)@ + more@,
{
    let mut k: usize = 0;
    while k < more.len()
        invariant
            k <= more@.len(),
            out@ == old(out)@ + more@.subrange(0, k as int),
        decreases more@.len() - k,
    {
        out.push(more[k]);
        k = k + 1;
        assert(out@ =~= old(out)@ + more@.subrange(0, k as int));
    }
    assert(more@.subrange(0, more@.len() as int) =~= more@);
}

} // verus!
