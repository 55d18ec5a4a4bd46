//! Requirement-marker detection in chapter markdown.
//!
//! A marker is `PREFIX[ID]` where PREFIX is `[a-z0-9]+`. Tracey recognizes a
//! marker as a definition only when it opens a paragraph at column 0 or opens
//! a blockquote line; inline occurrences and anything inside code
//! blocks/spans are prose.
//!
//! Detection is line-based (whole lines get replaced), with a pulldown-cmark
//! pass up front to mask out code regions. All positions are byte offsets
//! into the chapter's UTF-8 text.
use std::ops::Range;

use pulldown_cmark::{Event, Options, Parser, Tag, TagEnd};
use vstd::prelude::*;
use vstd::string::StringSliceAdditionalSpecFns;
use vstd::utf8::*;

use crate::text::{
    all_whitespace, decimal, find_byte, find_from, is_blank, lemma_boundary_after_ascii,
    lemma_boundary_at_ascii, lemma_find_from, lemma_str_bytes, str_slice,
};

verus! {

broadcast use vstd::seq::group_seq_axioms;

// ---------------------------------------------------------------------------
// Rule IDs
// ---------------------------------------------------------------------------

/// Structured rule identifier with optional version.
#[derive(Debug, Clone, PartialEq, Eq)]
pub struct RuleId {
    /// Base identifier without version suffix.
    pub base: String,
    /// Version number (unversioned IDs are version 1).
    pub version: u32,
}

impl View for RuleId {
    type V = (Seq<char>, u32);

    open spec fn view(&self) -> (Seq<char>, u32) {
        (self.base@, self.version)
    }
}

/// Index of the last `+` in `s`, or -1.
pub open spec fn last_plus(s: Seq<char>) -> int
    decreases s.len(),
{
    if s.len() == 0 {
        -1
    } else if s.last() == '+' {
        s.len() - 1
    } else {
        last_plus(s.drop_last())
    }
}

/// A non-empty run of ASCII digits.
pub open spec fn is_digit_string(s: Seq<char>) -> bool {
    &&& s.len() > 0
    &&& forall|i: int| 0 <= i < s.len() ==> '0' <= #[trigger] s[i] <= '9'
}

/// The number that a run of decimal digits denotes.
pub open spec fn digits_value(s: Seq<char>) -> nat
    decreases s.len(),
{
    if s.len() == 0 {
        0
    } else {
        digits_value(s.drop_last()) * 10 + (s.last() as int - 48) as nat
    }
}

/// What a rule ID string denotes: `base` alone is version 1, `base+N`
/// carries a version `N` between 1 and `u32::MAX` in decimal digits.
/// Empty IDs, empty bases, empty or malformed versions and a second `+`
/// denote nothing.
pub open spec fn rule_id_spec(id: Seq<char>) -> Option<(Seq<char>, u32)> {
    if id.len() == 0 {
        None
    } else if !id.contains('+') {
        Some((id, 1u32))
    } else {
        let k = last_plus(id);
        let base = id.subrange(0, k);
        let digits = id.subrange(k + 1, id.len() as int);
        if base.len() == 0 || base.contains('+') || !is_digit_string(digits) {
            None
        } else if digits_value(digits) == 0 || digits_value(digits) > u32::MAX {
            None
        } else {
            Some((base, digits_value(digits) as u32))
        }
    }
}

/// `marq::parse_rule_id`: splits at the last `+`, rejects an empty ID, an
/// empty base, a base with another `+`, and a version that `u32::from_str`
/// refuses or that is 0; an ID without `+` is version 1.
#[verifier::external_body]
fn parse_rule_id(id: &str) -> (r: Option<RuleId>)
    ensures
        r matches Some(rid) ==> rule_id_spec(id@) == Some(rid@),
        r is None ==> rule_id_spec(id@) is None,
{
    match marq::parse_rule_id(id) {
        Some(rid) => Some(RuleId { base: rid.base, version: rid.version }),
        None => None,
    }
}

/// How a rule ID is displayed: the base, then `+N` when the version is
/// not 1.
pub open spec fn rule_id_display(id: (Seq<char>, u32)) -> Seq<char> {
    if id.1 == 1 {
        id.0
    } else {
        id.0 + seq!['+'] + decimal(id.1 as nat)
    }
}

/// `Display` of `marq::RuleId`: the base, followed by `+` and the version
/// in decimal when the version is not 1.
#[verifier::external_body]
fn rule_id_to_string(id: &RuleId) -> (r: String)
    ensures
        r@ == rule_id_display(id@),
{
    marq::RuleId { base: id.base.clone(), version: id.version }.to_string()
}

proof fn lemma_decimal(n: nat)
    ensures
        is_digit_string(decimal(n)),
        digits_value(decimal(n)) == n,
        !decimal(n).contains('+'),
    decreases n,
{
    if n >= 10 {
        lemma_decimal(n / 10);
        let d = decimal(n / 10);
        let s = decimal(n);
        assert(s == d.push(((n % 10) + 48) as char));
        assert(s.drop_last() =~= d);
        assert forall|i: int| 0 <= i < s.len() implies '0' <= #[trigger] s[i] <= '9' by {
            if i < d.len() {
                assert(s[i] == d[i]);
            }
        }
        assert(digits_value(s) == digits_value(d) * 10 + (n % 10)) by {
            assert(s.last() as int == (n % 10) + 48);
            assert(digits_value(s) == digits_value(s.drop_last()) * 10 + (s.last() as int - 48) as nat);
        }
        assert((n / 10) * 10 + n % 10 == n) by (nonlinear_arith);
        assert(!s.contains('+')) by {
            if s.contains('+') {
                let i = choose|i: int| 0 <= i < s.len() && s[i] == '+';
            }
        }
    } else {
        let s = decimal(n);
        assert(s.drop_last() =~= Seq::<char>::empty());
        assert(digits_value(s.drop_last()) == 0);
        assert(s.last() as int == n + 48);
        assert(digits_value(s) == n);
    }
}

proof fn lemma_last_plus_after(base: Seq<char>, digits: Seq<char>)
    requires
        !digits.contains('+'),
    ensures
        last_plus(base + seq!['+'] + digits) == base.len(),
    decreases digits.len(),
{
    let s = base + seq!['+'] + digits;
    if digits.len() == 0 {
        assert(s.last() == '+');
    } else {
        assert(digits[digits.len() - 1] != '+');
        assert(s.drop_last() =~= base + seq!['+'] + digits.drop_last());
        assert(!digits.drop_last().contains('+')) by {
            if digits.drop_last().contains('+') {
                let i = choose|i: int| 0 <= i < digits.drop_last().len() && digits.drop_last()[i] == '+';
                assert(digits[i] == '+');
            }
        }
        lemma_last_plus_after(base, digits.drop_last());
    }
}

proof fn lemma_last_plus(s: Seq<char>)
    ensures
        -1 <= last_plus(s) < s.len(),
        last_plus(s) >= 0 ==> s[last_plus(s)] == '+',
        forall|i: int| last_plus(s) < i < s.len() ==> s[i] != '+',
        s.contains('+') ==> last_plus(s) >= 0,
    decreases s.len(),
{
    if s.len() > 0 && s.last() != '+' {
        lemma_last_plus(s.drop_last());
        assert forall|i: int| last_plus(s) < i < s.len() implies s[i] != '+' by {
            if i < s.len() - 1 {
                assert(s.drop_last()[i] == s[i]);
            }
        }
        if s.contains('+') {
            let i = choose|i: int| 0 <= i < s.len() && s[i] == '+';
            assert(s.drop_last()[i] == '+');
        }
    }
}

/// Displaying a rule ID and parsing the result gives the same ID back:
/// every ID that parses has a canonical written form.
pub proof fn lemma_rule_id_roundtrip(id: Seq<char>)
    requires
        rule_id_spec(id) is Some,
    ensures
        rule_id_spec(rule_id_display(rule_id_spec(id)->0)) == rule_id_spec(id),
{
    let (base, version) = rule_id_spec(id)->0;
    assert(base.len() > 0 && !base.contains('+')) by {
        if id.contains('+') {
            lemma_last_plus(id);
        }
    }
    if version != 1 {
        lemma_decimal(version as nat);
        let digits = decimal(version as nat);
        let shown = base + seq!['+'] + digits;
        lemma_last_plus_after(base, digits);
        assert(shown[base.len() as int] == '+');
        assert(shown.subrange(0, base.len() as int) =~= base);
        assert(shown.subrange(base.len() as int + 1, shown.len() as int) =~= digits);
    }
}

/// Which written IDs are well-formed: any non-empty base without `+`
/// stands for version 1 of itself, and `base+N` with `N` written in decimal
/// between 1 and `u32::MAX` stands for version `N` of that base, whatever
/// the lengths of base and number.
pub proof fn lemma_rule_id_forms(base: Seq<char>, version: u32)
    requires
        base.len() > 0,
        !base.contains('+'),
        version >= 1,
    ensures
        rule_id_spec(base) == Some((base, 1u32)),
        rule_id_spec(base + seq!['+'] + decimal(version as nat)) == Some((base, version)),
{
    lemma_decimal(version as nat);
    let digits = decimal(version as nat);
    let shown = base + seq!['+'] + digits;
    lemma_last_plus_after(base, digits);
    assert(shown.contains('+')) by {
        assert(shown[base.len() as int] == '+');
    }
    assert(shown.subrange(0, base.len() as int) =~= base);
    assert(shown.subrange(base.len() as int + 1, shown.len() as int) =~= digits);
}

impl RuleId {
    /// The display form of the ID, with the `+N` suffix for versions other
    /// than 1.
    pub fn to_string(&self) -> (r: String)
        ensures
            r@ == rule_id_display(self@),
    {
        rule_id_to_string(self)
    }
}

// ---------------------------------------------------------------------------
// Markers
// ---------------------------------------------------------------------------

/// A requirement marker found in chapter markdown.
#[derive(Debug)]
pub struct Marker {
    /// Byte range of the full line this marker occupies (including the
    /// trailing `\n` if present). Splice-replace against this.
    pub line_span: Range<usize>,
    /// The prefix as written (e.g. `r`, `req`, `h2`).
    pub prefix: String,
    pub id: RuleId,
    /// The marker was on a `> ` blockquote line rather than at column 0.
    pub blockquote: bool,
}

impl Clone for Marker {
    fn clone(&self) -> (r: Self)
        ensures
            r@ == self@,
    {
        Marker {
            line_span: Range { start: self.line_span.start, end: self.line_span.end },
            prefix: self.prefix.clone(),
            id: RuleId { base: self.id.base.clone(), version: self.id.version },
            blockquote: self.blockquote,
        }
    }
}

/// A marker as a mathematical value.
pub struct MarkerView {
    pub start: int,
    pub end: int,
    pub prefix: Seq<char>,
    pub id: (Seq<char>, u32),
    pub blockquote: bool,
}

impl View for Marker {
    type V = MarkerView;

    open spec fn view(&self) -> MarkerView {
        MarkerView {
            start: self.line_span.start as int,
            end: self.line_span.end as int,
            prefix: self.prefix@,
            id: self.id@,
            blockquote: self.blockquote,
        }
    }
}

pub open spec fn markers_view(ms: Seq<Marker>) -> Seq<MarkerView> {
    ms.map_values(|m: Marker| m@)
}

/// `[a-z0-9]`
pub open spec fn is_prefix_byte(b: u8) -> bool {
    (0x61 <= b <= 0x7a) || (0x30 <= b <= 0x39)
}

/// End of the run of prefix bytes that starts at `i`.
pub open spec fn prefix_end_from(t: Seq<u8>, i: int) -> int
    decreases t.len() - i,
{
    if 0 <= i < t.len() && is_prefix_byte(t[i]) {
        prefix_end_from(t, i + 1)
    } else {
        i
    }
}

proof fn lemma_prefix_end_from(t: Seq<u8>, i: int)
    requires
        0 <= i <= t.len(),
    ensures
        i <= prefix_end_from(t, i) <= t.len(),
        forall|j: int| i <= j < prefix_end_from(t, i) ==> is_prefix_byte(#[trigger] t[j]),
        prefix_end_from(t, i) < t.len() ==> !is_prefix_byte(t[prefix_end_from(t, i)]),
    decreases t.len() - i,
{
    if i < t.len() && is_prefix_byte(t[i]) {
        lemma_prefix_end_from(t, i + 1);
    }
}

/// The leading `PREFIX[CONTENT]` of a text whose closing `]` ends it
/// (trailing whitespace tolerated): the prefix length and the position of
/// the first `]`. The brackets must not be empty.
pub open spec fn leading_marker_spec(t: Seq<u8>) -> Option<(int, int)> {
    let p = prefix_end_from(t, 0);
    let c = find_from(t, 0x5d, 0);
    if p == 0 || p >= t.len() || t[p] != 0x5b {
        None
    } else if c >= t.len() || c <= p + 1 {
        None
    } else if !all_whitespace(decode_utf8(t.subrange(c + 1, t.len() as int))) {
        None
    } else {
        Some((p, c))
    }
}

/// `t` reads PREFIX `[` INNER `]` REST, with the `[` at `p` and the `]` at
/// `c`: a non-empty prefix of `[a-z0-9]`, a non-empty inner part without
/// `]`, and a rest of whitespace only.
pub open spec fn leading_marker_shape(t: Seq<u8>, p: int, c: int) -> bool {
    &&& 0 < p
    &&& p + 1 < c < t.len()
    &&& forall|j: int| 0 <= j < p ==> is_prefix_byte(#[trigger] t[j])
    &&& t[p] == 0x5b
    &&& forall|j: int| p < j < c ==> #[trigger] t[j] != 0x5d
    &&& t[c] == 0x5d
    &&& all_whitespace(decode_utf8(t.subrange(c + 1, t.len() as int)))
}

proof fn lemma_prefix_end_at(t: Seq<u8>, i: int, p: int)
    requires
        0 <= i <= p < t.len(),
        forall|j: int| i <= j < p ==> is_prefix_byte(#[trigger] t[j]),
        !is_prefix_byte(t[p]),
    ensures
        prefix_end_from(t, i) == p,
    decreases p - i,
{
    if i < p {
        lemma_prefix_end_at(t, i + 1, p);
    }
}

proof fn lemma_find_at(t: Seq<u8>, b: u8, i: int, k: int)
    requires
        0 <= i <= k < t.len(),
        forall|j: int| i <= j < k ==> #[trigger] t[j] != b,
        t[k] == b,
    ensures
        find_from(t, b, i) == k,
    decreases k - i,
{
    if i < k {
        lemma_find_at(t, b, i + 1, k);
    }
}

/// A text is a leading marker exactly when it reads PREFIX `[` INNER `]`
/// REST as [`leading_marker_shape`] says; the positions found are those of
/// the `[` and the `]`.
pub proof fn lemma_leading_marker_shape(t: Seq<u8>, p: int, c: int)
    ensures
        leading_marker_spec(t) == Some((p, c)) <==> leading_marker_shape(t, p, c),
{
    lemma_prefix_end_from(t, 0);
    lemma_find_from(t, 0x5d, 0);
    if leading_marker_shape(t, p, c) {
        lemma_prefix_end_at(t, 0, p);
        assert forall|j: int| 0 <= j < c implies #[trigger] t[j] != 0x5d by {
            if j < p {
                assert(is_prefix_byte(t[j]));
            }
        }
        lemma_find_at(t, 0x5d, 0, c);
    }
}

/// Whether a text is a leading marker is decided by its shape alone: the
/// positions that [`leading_marker_spec`] finds read as
/// [`leading_marker_shape`] says, and when it finds none, no positions do.
pub proof fn lemma_leading_marker_cases(t: Seq<u8>)
    ensures
        leading_marker_spec(t) matches Some((p, c)) ==> leading_marker_shape(t, p, c),
        leading_marker_spec(t) is None ==> forall|p: int, c: int|
            !#[trigger] leading_marker_shape(t, p, c),
{
    if let Some((p, c)) = leading_marker_spec(t) {
        lemma_leading_marker_shape(t, p, c);
    }
    assert forall|p: int, c: int| #[trigger] leading_marker_shape(t, p, c) implies leading_marker_spec(
        t,
    ) is Some by {
        lemma_leading_marker_shape(t, p, c);
    }
}

fn prefix_byte(b: u8) -> (r: bool)
    ensures
        r == is_prefix_byte(b),
{
    (0x61 <= b && b <= 0x7a) || (0x30 <= b && b <= 0x39)
}

/// Recognize `PREFIX[CONTENT]` at the start of `text` where the closing `]`
/// ends the line (trailing whitespace tolerated). Returns
/// `(prefix, inner)` — `inner` is everything between the brackets.
pub fn parse_leading_marker(text: &str) -> (r: Option<(&str, &str)>)
    ensures
        r is Some <==> leading_marker_spec(text.spec_bytes()) is Some,
        r matches Some((prefix, inner)) ==> {
            let (p, c) = leading_marker_spec(text.spec_bytes())->0;
            &&& prefix.spec_bytes() == text.spec_bytes().subrange(0, p)
            &&& inner.spec_bytes() == text.spec_bytes().subrange(p + 1, c)
        },
        r matches Some((prefix, inner)) ==> leading_marker_shape(
            text.spec_bytes(),
            prefix.spec_bytes().len() as int,
            (prefix.spec_bytes().len() + 1 + inner.spec_bytes().len()) as int,
        ),
        r is None ==> forall|p: int, c: int| !#[trigger] leading_marker_shape(text.spec_bytes(), p, c),
{
    let t = text.as_bytes();
    let n = t.len();
    let ghost tb = t@;
    proof {
        lemma_str_bytes(text);
        lemma_prefix_end_from(tb, 0);
        lemma_leading_marker_cases(tb);
    }
    let mut p: usize = 0;
    while p < n && prefix_byte(t[p])
        invariant
            t@ == tb,
            n == tb.len(),
            p <= n,
            prefix_end_from(tb, p as int) == prefix_end_from(tb, 0),
        decreases n - p,
    {
        p += 1;
    }
    if p == 0 || p >= n || t[p] != 0x5b {
        return None;
    }
    let close = find_byte(t, 0x5d, 0);
    proof {
        lemma_find_from(tb, 0x5d, 0);
    }
    if close >= n || close <= p + 1 {
        return None;
    }
    proof {
        lemma_boundary_after_ascii(tb, close as int);
        lemma_boundary_at_ascii(tb, n as int);
    }
    let rest = str_slice(text, close + 1, n);
    proof {
        lemma_str_bytes(rest);
    }
    if !is_blank(rest) {
        return None;
    }
    proof {
        lemma_boundary_at_ascii(tb, 0);
        lemma_boundary_at_ascii(tb, p as int);
        lemma_boundary_after_ascii(tb, p as int);
        lemma_boundary_at_ascii(tb, close as int);
    }
    let prefix = str_slice(text, 0, p);
    let inner = str_slice(text, p + 1, close);
    Some((prefix, inner))
}

/// End of the line that starts at `s`: just past the next `\n`, or the end
/// of the text.
pub open spec fn line_end(t: Seq<u8>, s: int) -> int {
    let n = find_from(t, 0x0a, s);
    if n < t.len() {
        n + 1
    } else {
        t.len() as int
    }
}

/// End of `t[s..e]` once trailing `\n` and `\r` bytes are removed.
pub open spec fn trim_newlines(t: Seq<u8>, s: int, e: int) -> int
    decreases e - s,
{
    if s < e && (t[e - 1] == 0x0a || t[e - 1] == 0x0d) {
        trim_newlines(t, s, e - 1)
    } else {
        e
    }
}

proof fn lemma_trim_newlines(t: Seq<u8>, s: int, e: int)
    requires
        0 <= s <= e <= t.len(),
    ensures
        s <= trim_newlines(t, s, e) <= e,
        trim_newlines(t, s, e) < e ==> (t[trim_newlines(t, s, e)] == 0x0a || t[trim_newlines(
            t,
            s,
            e,
        )] == 0x0d),
    decreases e - s,
{
    if s < e && (t[e - 1] == 0x0a || t[e - 1] == 0x0d) {
        lemma_trim_newlines(t, s, e - 1);
    }
}

/// The (trimmed) line `t[s..te]` opens with a `>`.
pub open spec fn is_quoted(t: Seq<u8>, s: int, te: int) -> bool {
    s < te && t[s] == 0x3e
}

/// Start of the line's text once a single leading `>` and one optional
/// space after it are stripped.
pub open spec fn body_start(t: Seq<u8>, s: int, te: int) -> int {
    if is_quoted(t, s, te) {
        if s + 1 < te && t[s + 1] == 0x20 {
            s + 2
        } else {
            s + 1
        }
    } else {
        s
    }
}

/// The marker that the line `t[s..e]` defines, if any. A line that starts
/// inside a code or HTML region defines none, and neither does a line that
/// is not a blockquote line and does not open a paragraph (`paras` flags
/// the positions where paragraphs start). Otherwise the line, without trailing
/// `\n`/`\r` and without a leading `>` (and one space after it), must be a
/// leading marker whose ID (the bracket content up to the first space) is
/// a well-formed rule ID.
pub open spec fn marker_at(t: Seq<u8>, mask: Seq<bool>, paras: Seq<bool>, s: int, e: int) -> Option<MarkerView> {
    let te = trim_newlines(t, s, e);
    let bs = body_start(t, s, te);
    let body = t.subrange(bs, te);
    if 0 <= s < mask.len() && mask[s] {
        None
    } else if !is_quoted(t, s, te) && !(0 <= s < paras.len() && paras[s]) {
        None
    } else {
        match leading_marker_spec(body) {
            None => None,
            Some((p, c)) => {
                let inner = body.subrange(p + 1, c);
                let word = first_word(inner);
                match rule_id_spec(decode_utf8(word)) {
                    None => None,
                    Some(id) => Some(
                        MarkerView {
                            start: s,
                            end: e,
                            prefix: decode_utf8(body.subrange(0, p)),
                            id,
                            blockquote: is_quoted(t, s, te),
                        },
                    ),
                }
            },
        }
    }
}

pub open spec fn opt_seq<A>(o: Option<A>) -> Seq<A> {
    match o {
        Some(a) => seq![a],
        None => seq![],
    }
}

/// The markers of the lines from position `s` on, in document order.
pub open spec fn markers_from(t: Seq<u8>, mask: Seq<bool>, paras: Seq<bool>, s: int) -> Seq<MarkerView>
    decreases t.len() - s,
{
    if s < 0 || s >= t.len() {
        seq![]
    } else {
        proof {
            lemma_find_from(t, 0x0a, s);
        }
        opt_seq(marker_at(t, mask, paras, s, line_end(t, s))) + markers_from(t, mask, paras, line_end(t, s))
    }
}

/// The markers of a chapter with bytes `t` whose code and HTML regions are
/// `mask` and whose paragraph starts are `paras`.
pub open spec fn markers_spec(t: Seq<u8>, mask: Seq<bool>, paras: Seq<bool>) -> Seq<MarkerView> {
    markers_from(t, mask, paras, 0)
}

fn line_end_exec(t: &[u8], s: usize) -> (r: usize)
    requires
        s < t@.len(),
    ensures
        r == line_end(t@, s as int),
        s < r <= t@.len(),
        r < t@.len() ==> t@[r - 1] == 0x0a,
{
    let n = find_byte(t, 0x0a, s);
    proof {
        lemma_find_from(t@, 0x0a, s as int);
    }
    if n < t.len() {
        n + 1
    } else {
        t.len()
    }
}

fn trim_newlines_exec(t: &[u8], s: usize, e: usize) -> (r: usize)
    requires
        s <= e <= t@.len(),
    ensures
        r == trim_newlines(t@, s as int, e as int),
{
    let mut k = e;
    while s < k && (t[k - 1] == 0x0a || t[k - 1] == 0x0d)
        invariant
            s <= k <= e,
            e <= t@.len(),
            trim_newlines(t@, s as int, k as int) == trim_newlines(t@, s as int, e as int),
        decreases k,
    {
        k -= 1;
    }
    k
}

/// The marker defined by the line `content[s..e]`, if any.
fn scan_line(content: &str, t: &[u8], mask: &[bool], paras: &[bool], s: usize, e: usize) -> (r: Option<Marker>)
    requires
        t@ == content.spec_bytes(),
        s < e <= t@.len(),
        e as int == line_end(t@, s as int),
        s == 0 || t@[s - 1] == 0x0a,
    ensures
        r matches Some(m) ==> marker_at(t@, mask@, paras@, s as int, e as int) == Some(m@),
        r is None ==> marker_at(t@, mask@, paras@, s as int, e as int) is None,
{
    let ghost tb = t@;
    if s < mask.len() && mask[s] {
        return None;
    }
    let te = trim_newlines_exec(t, s, e);
    proof {
        lemma_str_bytes(content);
        lemma_trim_newlines(tb, s as int, e as int);
        lemma_find_from(tb, 0x0a, s as int);
    }
    let quoted = s < te && t[s] == 0x3e;
    if !quoted && !(s < paras.len() && paras[s]) {
        return None;
    }
    let bs = if quoted {
        if s + 1 < te && t[s + 1] == 0x20 {
            s + 2
        } else {
            s + 1
        }
    } else {
        s
    };
    proof {
        if bs == s {
            if s == 0 {
                lemma_boundary_at_ascii(tb, 0);
            } else {
                lemma_boundary_after_ascii(tb, s - 1);
            }
        } else {
            lemma_boundary_after_ascii(tb, bs - 1);
        }
        if te < e {
            lemma_boundary_at_ascii(tb, te as int);
        } else if e == tb.len() {
            lemma_boundary_at_ascii(tb, e as int);
        } else {
            lemma_boundary_after_ascii(tb, e - 1);
        }
    }
    let body = str_slice(content, bs, te);
    let ghost bb = body.spec_bytes();
    assert(bb == tb.subrange(bs as int, te as int));
    match parse_leading_marker(body) {
        None => None,
        Some((prefix, inner)) => {
            let ib = inner.as_bytes();
            let k = find_byte(ib, 0x20, 0);
            proof {
                lemma_str_bytes(inner);
                lemma_str_bytes(prefix);
                lemma_find_from(ib@, 0x20, 0);
                lemma_boundary_at_ascii(ib@, 0);
                lemma_boundary_at_ascii(ib@, k as int);
            }
            let word = str_slice(inner, 0, k);
            proof {
                lemma_str_bytes(word);
            }
            match parse_rule_id(word) {
                None => None,
                Some(id) => Some(
                    Marker {
                        line_span: Range { start: s, end: e },
                        prefix: prefix.to_owned(),
                        id,
                        blockquote: quoted,
                    },
                ),
            }
        },
    }
}

/// Find all requirement-definition markers in a chapter's markdown whose
/// code and HTML regions are `mask` (one flag per byte) and whose
/// paragraphs start where `paras` is set.
pub fn find_markers_masked(content: &str, mask: &[bool], paras: &[bool]) -> (r: Vec<Marker>)
    ensures
        markers_view(r@) == markers_spec(content.spec_bytes(), mask@, paras@),
{
    let t = content.as_bytes();
    let n = t.len();
    let mut out: Vec<Marker> = Vec::new();
    let mut offset: usize = 0;
    while offset < n
        invariant
            t@ == content.spec_bytes(),
            n == t@.len(),
            offset <= n,
            offset == 0 || offset == n || t@[offset - 1] == 0x0a,
            markers_view(out@) + markers_from(t@, mask@, paras@, offset as int) == markers_from(
                t@,
                mask@,
                paras@,
                0,
            ),
        decreases n - offset,
    {
        let line_start = offset;
        let line_stop = line_end_exec(t, offset);
        let found = scan_line(content, t, mask, paras, line_start, line_stop);
        let ghost before = out@;
        match found {
            Some(m) => {
                out.push(m);
            },
            None => {},
        }
        proof {
            let here = opt_seq(marker_at(t@, mask@, paras@, line_start as int, line_stop as int));
            assert(markers_view(out@) =~= markers_view(before) + here);
            assert(markers_from(t@, mask@, paras@, line_start as int) == here + markers_from(
                t@,
                mask@,
                paras@,
                line_stop as int,
            ));
            assert(markers_view(before) + here + markers_from(t@, mask@, paras@, line_stop as int)
                =~= markers_view(before) + (here + markers_from(t@, mask@, paras@, line_stop as int)));
        }
        offset = line_stop;
    }
    assert(markers_view(out@) =~= markers_view(out@) + markers_from(t@, mask@, paras@, n as int));
    out
}

// ---------------------------------------------------------------------------
// Code regions
// ---------------------------------------------------------------------------

/// What the code mask needs to know of a markdown event.
#[derive(Debug, Clone, Copy, PartialEq, Eq)]
pub enum MdEventKind {
    /// Start of a fenced or indented code block.
    CodeBlockStart,
    /// End of a code block.
    CodeBlockEnd,
    /// An inline backtick code span.
    InlineCode,
    /// Start of an HTML block (comments and `<pre>` blocks among them).
    HtmlBlockStart,
    /// End of an HTML block.
    HtmlBlockEnd,
    /// Start of a paragraph.
    ParagraphStart,
    /// Any other event.
    Other,
}

/// A markdown event with the byte range of the source it covers.
#[derive(Debug, Clone, Copy, PartialEq, Eq)]
pub struct MdEvent {
    pub kind: MdEventKind,
    pub start: usize,
    pub end: usize,
}

/// The events that pulldown-cmark reports for `content` (all extensions
/// enabled), in order, each with its source byte range.
pub uninterp spec fn markdown_events(content: Seq<char>) -> Seq<MdEvent>;

/// `pulldown_cmark::Parser::new_ext(content, Options::all()).into_offset_iter()`,
/// each event reduced to its kind as far as code regions go, with its range.
#[verifier::external_body]
fn parse_markdown_events(content: &str) -> (r: Vec<MdEvent>)
    ensures
        r@ == markdown_events(content@),
{
    let mut out = Vec::new();
    for (event, range) in Parser::new_ext(content, Options::all()).into_offset_iter() {
        let kind = match event {
            Event::Start(Tag::CodeBlock(_)) => MdEventKind::CodeBlockStart,
            Event::End(TagEnd::CodeBlock) => MdEventKind::CodeBlockEnd,
            Event::Code(_) => MdEventKind::InlineCode,
            Event::Start(Tag::HtmlBlock) => MdEventKind::HtmlBlockStart,
            Event::End(TagEnd::HtmlBlock) => MdEventKind::HtmlBlockEnd,
            Event::Start(Tag::Paragraph) => MdEventKind::ParagraphStart,
            _ => MdEventKind::Other,
        };
        out.push(MdEvent { kind, start: range.start, end: range.end });
    }
    out
}

/// `mask` with the positions `s..e` set, when that range lies within it;
/// `mask` unchanged otherwise.
pub open spec fn fill_spec(mask: Seq<bool>, s: int, e: int) -> Seq<bool> {
    if 0 <= s <= e <= mask.len() {
        Seq::new(mask.len(), |i: int| if s <= i < e { true } else { mask[i] })
    } else {
        mask
    }
}

/// One event's effect on the mask and on the block depth: code blocks and
/// HTML blocks (start and end) and inline code are masked, and so is every
/// event inside such a block.
pub open spec fn mask_step(mask: Seq<bool>, depth: nat, ev: MdEvent) -> (Seq<bool>, nat) {
    let filled = fill_spec(mask, ev.start as int, ev.end as int);
    match ev.kind {
        MdEventKind::CodeBlockStart => (filled, depth + 1),
        MdEventKind::CodeBlockEnd => (filled, if depth > 0 { (depth - 1) as nat } else { 0 }),
        MdEventKind::HtmlBlockStart => (filled, depth + 1),
        MdEventKind::HtmlBlockEnd => (filled, if depth > 0 { (depth - 1) as nat } else { 0 }),
        MdEventKind::InlineCode => (filled, depth),
        MdEventKind::ParagraphStart | MdEventKind::Other => if depth > 0 {
            (filled, depth)
        } else {
            (mask, depth)
        },
    }
}

/// Mask and depth after the given events, starting from an all-false mask
/// of `len` positions at depth 0.
pub open spec fn mask_after(len: nat, events: Seq<MdEvent>) -> (Seq<bool>, nat)
    decreases events.len(),
{
    if events.len() == 0 {
        (Seq::new(len, |i: int| false), 0)
    } else {
        let prev = mask_after(len, events.drop_last());
        mask_step(prev.0, prev.1, events.last())
    }
}

/// Per-byte code mask: `true` where the byte falls inside a fenced or
/// indented code block, an HTML block, or an inline backtick span.
pub open spec fn code_mask_spec(len: nat, events: Seq<MdEvent>) -> Seq<bool> {
    mask_after(len, events).0
}

proof fn lemma_mask_len(len: nat, events: Seq<MdEvent>)
    ensures
        mask_after(len, events).0.len() == len,
        mask_after(len, events).1 <= events.len(),
    decreases events.len(),
{
    if events.len() > 0 {
        lemma_mask_len(len, events.drop_last());
    }
}

/// Whether an event masks its source range, given the block depth before
/// it: code and HTML block boundaries and code spans always do, any other
/// event does inside a block.
pub open spec fn event_masks(ev: MdEvent, depth: nat) -> bool {
    match ev.kind {
        MdEventKind::ParagraphStart | MdEventKind::Other => depth > 0,
        _ => true,
    }
}

/// The block depth before the `k`-th event.
pub open spec fn depth_before(events: Seq<MdEvent>, k: int) -> nat {
    mask_after(0, events.take(k)).1
}

proof fn lemma_depth_any_len(len: nat, events: Seq<MdEvent>)
    ensures
        mask_after(len, events).1 == mask_after(0, events).1,
    decreases events.len(),
{
    if events.len() > 0 {
        lemma_depth_any_len(len, events.drop_last());
    }
}

/// Every byte of a code span, a code block or an HTML block (the source
/// range of its start or end event) is masked, and a masked byte lies in
/// the source range of some event.
pub proof fn lemma_code_mask_kinds(len: nat, events: Seq<MdEvent>)
    ensures
        forall|k: int, i: int|
            #![trigger code_mask_spec(len, events)[i], events[k]]
            0 <= k < events.len() && (events[k].kind is InlineCode || events[k].kind is CodeBlockStart
                || events[k].kind is CodeBlockEnd || events[k].kind is HtmlBlockStart
                || events[k].kind is HtmlBlockEnd) && events[k].start <= i < events[k].end
                && events[k].end <= len ==> code_mask_spec(len, events)[i],
        forall|i: int|
            0 <= i < len && #[trigger] code_mask_spec(len, events)[i] ==> exists|k: int|
                0 <= k < events.len() && (#[trigger] events[k]).start <= i < events[k].end,
{
    lemma_code_mask_ranges(len, events);
    assert forall|k: int, i: int|
        #![trigger code_mask_spec(len, events)[i], events[k]]
        0 <= k < events.len() && (events[k].kind is InlineCode || events[k].kind is CodeBlockStart
            || events[k].kind is CodeBlockEnd || events[k].kind is HtmlBlockStart
            || events[k].kind is HtmlBlockEnd) && events[k].start <= i < events[k].end
            && events[k].end <= len implies code_mask_spec(len, events)[i] by {
        assert(event_masks(events[k], depth_before(events, k)));
    }
}

/// The code mask in terms of source ranges: a byte is masked exactly when
/// it lies in the source range of an event that masks its range.
pub proof fn lemma_code_mask_ranges(len: nat, events: Seq<MdEvent>)
    ensures
        code_mask_spec(len, events).len() == len,
        forall|i: int|
            0 <= i < len ==> (#[trigger] code_mask_spec(len, events)[i] <==> exists|k: int|
                0 <= k < events.len() && event_masks(events[k], depth_before(events, k))
                    && events[k].start <= i < events[k].end && events[k].end <= len),
    decreases events.len(),
{
    lemma_mask_len(len, events);
    if events.len() > 0 {
        let n = events.len() - 1;
        let init = events.drop_last();
        let ev = events.last();
        lemma_code_mask_ranges(len, init);
        lemma_mask_len(len, init);
        lemma_depth_any_len(len, init);
        assert(events.take(n) =~= init);
        assert forall|k: int| 0 <= k < n implies #[trigger] depth_before(events, k) == depth_before(init, k) by {
            assert(events.take(k) =~= init.take(k));
        }
        assert forall|i: int| 0 <= i < len implies (#[trigger] code_mask_spec(len, events)[i] <==> exists|k: int|
            0 <= k < events.len() && event_masks(events[k], depth_before(events, k))
                && events[k].start <= i < events[k].end && events[k].end <= len) by {
            if code_mask_spec(len, init)[i] {
                let k = choose|k: int| 0 <= k < init.len() && event_masks(init[k], depth_before(init, k))
                    && init[k].start <= i < init[k].end && init[k].end <= len;
                assert(events[k] == init[k]);
                assert(depth_before(events, k) == depth_before(init, k));
            }
            if exists|k: int| 0 <= k < events.len() && event_masks(events[k], depth_before(events, k))
                && events[k].start <= i < events[k].end && events[k].end <= len {
                let k = choose|k: int| 0 <= k < events.len() && event_masks(events[k], depth_before(events, k))
                    && events[k].start <= i < events[k].end && events[k].end <= len;
                if k < n {
                    assert(events[k] == init[k]);
                    assert(depth_before(events, k) == depth_before(init, k));
                }
            }
        }
    }
}

/// Set the mask over `range`; a range that is reversed or runs past the
/// mask leaves it unchanged.
pub fn fill(mask: &mut Vec<bool>, range: Range<usize>)
    ensures
        final(mask)@ == fill_spec(old(mask)@, range.start as int, range.end as int),
{
    if range.start <= range.end && range.end <= mask.len() {
        let mut i = range.start;
        while i < range.end
            invariant
                range.start <= i <= range.end,
                range.end <= mask@.len(),
                mask@.len() == old(mask)@.len(),
                forall|j: int|
                    0 <= j < mask@.len() ==> #[trigger] mask@[j] == if range.start <= j < i {
                        true
                    } else {
                        old(mask)@[j]
                    },
            decreases range.end - i,
        {
            mask.set(i, true);
            i += 1;
        }
        assert(mask@ =~= fill_spec(old(mask)@, range.start as int, range.end as int));
    }
}

/// The code mask of a text of `len` bytes from its markdown events.
pub fn code_mask_from_events(len: usize, events: &[MdEvent]) -> (r: Vec<bool>)
    ensures
        r@ == code_mask_spec(len as nat, events@),
        r@.len() == len,
{
    proof {
        lemma_mask_len(len as nat, events@);
    }
    let mut mask: Vec<bool> = Vec::new();
    let mut k: usize = 0;
    while k < len
        invariant
            k <= len,
            mask@ =~= Seq::new(k as nat, |i: int| false),
        decreases len - k,
    {
        mask.push(false);
        k += 1;
    }
    let mut depth: usize = 0;
    let mut i: usize = 0;
    while i < events.len()
        invariant
            i <= events@.len(),
            (mask@, depth as nat) == mask_after(len as nat, events@.take(i as int)),
            depth <= i,
        decreases events@.len() - i,
    {
        let ev = events[i];
        proof {
            assert(events@.take(i + 1).drop_last() =~= events@.take(i as int));
        }
        match ev.kind {
            MdEventKind::CodeBlockStart | MdEventKind::HtmlBlockStart => {
                depth += 1;
                fill(&mut mask, Range { start: ev.start, end: ev.end });
            },
            MdEventKind::CodeBlockEnd | MdEventKind::HtmlBlockEnd => {
                depth = if depth > 0 {
                    depth - 1
                } else {
                    0
                };
                fill(&mut mask, Range { start: ev.start, end: ev.end });
            },
            MdEventKind::InlineCode => {
                fill(&mut mask, Range { start: ev.start, end: ev.end });
            },
            MdEventKind::ParagraphStart | MdEventKind::Other => {
                if depth > 0 {
                    fill(&mut mask, Range { start: ev.start, end: ev.end });
                }
            },
        }
        i += 1;
    }
    assert(events@.take(events@.len() as int) =~= events@);
    mask
}

/// Per-byte mask of `content`: `true` where the byte falls inside a fenced
/// or indented code block, an HTML block, or an inline backtick span.
/// Markers starting at a masked byte are examples, not definitions.
pub fn code_mask(content: &str) -> (r: Vec<bool>)
    ensures
        r@ == code_mask_spec(content.spec_bytes().len(), markdown_events(content@)),
        r@.len() == content.spec_bytes().len(),
{
    let events = parse_markdown_events(content);
    code_mask_from_events(content.as_bytes().len(), events.as_slice())
}

/// Positions of a text of `len` bytes where the given events start a
/// paragraph.
pub open spec fn para_starts_spec(len: nat, events: Seq<MdEvent>) -> Seq<bool>
    decreases events.len(),
{
    if events.len() == 0 {
        Seq::new(len, |i: int| false)
    } else {
        let prev = para_starts_spec(len, events.drop_last());
        let ev = events.last();
        if ev.kind is ParagraphStart && ev.start < len {
            prev.update(ev.start as int, true)
        } else {
            prev
        }
    }
}

/// A position is flagged exactly when some paragraph event starts there.
pub proof fn lemma_para_starts(len: nat, events: Seq<MdEvent>)
    ensures
        para_starts_spec(len, events).len() == len,
        forall|i: int|
            0 <= i < len ==> (#[trigger] para_starts_spec(len, events)[i] <==> exists|k: int|
                0 <= k < events.len() && events[k].kind is ParagraphStart && events[k].start == i),
    decreases events.len(),
{
    if events.len() > 0 {
        let init = events.drop_last();
        lemma_para_starts(len, init);
        assert forall|i: int| 0 <= i < len implies (#[trigger] para_starts_spec(len, events)[i]
            <==> exists|k: int| 0 <= k < events.len() && events[k].kind is ParagraphStart && events[k].start == i) by {
            if para_starts_spec(len, init)[i] {
                let k = choose|k: int| 0 <= k < init.len() && init[k].kind is ParagraphStart && init[k].start == i;
                assert(events[k] == init[k]);
            }
            if exists|k: int| 0 <= k < events.len() && events[k].kind is ParagraphStart && events[k].start == i {
                let k = choose|k: int| 0 <= k < events.len() && events[k].kind is ParagraphStart && events[k].start == i;
                if k < init.len() {
                    assert(init[k] == events[k]);
                }
            }
        }
    }
}

/// The paragraph starts of a text of `len` bytes from its markdown events.
pub fn paragraph_starts_from_events(len: usize, events: &[MdEvent]) -> (r: Vec<bool>)
    ensures
        r@ == para_starts_spec(len as nat, events@),
        r@.len() == len,
{
    let mut starts: Vec<bool> = Vec::new();
    let mut k: usize = 0;
    while k < len
        invariant
            k <= len,
            starts@ =~= Seq::new(k as nat, |i: int| false),
        decreases len - k,
    {
        starts.push(false);
        k += 1;
    }
    let mut i: usize = 0;
    while i < events.len()
        invariant
            i <= events@.len(),
            starts@ == para_starts_spec(len as nat, events@.take(i as int)),
            starts@.len() == len,
        decreases events@.len() - i,
    {
        let ev = events[i];
        proof {
            assert(events@.take(i + 1).drop_last() =~= events@.take(i as int));
        }
        match ev.kind {
            MdEventKind::ParagraphStart => {
                if ev.start < len {
                    starts.set(ev.start, true);
                }
            },
            _ => {},
        }
        i += 1;
    }
    assert(events@.take(events@.len() as int) =~= events@);
    starts
}

/// Per-byte flags of `content`: `true` where a paragraph starts.
pub fn paragraph_starts(content: &str) -> (r: Vec<bool>)
    ensures
        r@ == para_starts_spec(content.spec_bytes().len(), markdown_events(content@)),
        r@.len() == content.spec_bytes().len(),
{
    let events = parse_markdown_events(content);
    paragraph_starts_from_events(content.as_bytes().len(), events.as_slice())
}

/// Find all requirement-definition markers in a chapter's markdown.
///
/// Each marker opens a paragraph at column 0 or opens a blockquote line,
/// outside code and HTML regions, and the markers sit on whole lines in
/// document order.
pub fn find_markers(content: &str) -> (r: Vec<Marker>)
    ensures
        markers_view(r@) == chapter_markers(content@),
        markers_placed(content.spec_bytes(), markers_view(r@)),
        forall|i: int|
            0 <= i < r@.len() ==> definition_line(
                content.spec_bytes(),
                code_mask_spec(content.spec_bytes().len(), markdown_events(content@)),
                para_starts_spec(content.spec_bytes().len(), markdown_events(content@)),
                #[trigger] markers_view(r@)[i],
            ),
        forall|i: int|
            0 <= i < r@.len() ==> reads_marker_line(content.spec_bytes(), #[trigger] markers_view(r@)[i]),
{
    proof {
        let t = content.spec_bytes();
        let events = markdown_events(content@);
        lemma_markers_placed(t, code_mask_spec(t.len(), events), para_starts_spec(t.len(), events));
        lemma_markers_are_definitions(t, code_mask_spec(t.len(), events), para_starts_spec(t.len(), events));
        lemma_markers_read_their_lines(t, code_mask_spec(t.len(), events), para_starts_spec(t.len(), events));
    }
    let events = parse_markdown_events(content);
    let n = content.as_bytes().len();
    let mask = code_mask_from_events(n, events.as_slice());
    let paras = paragraph_starts_from_events(n, events.as_slice());
    find_markers_masked(content, mask.as_slice(), paras.as_slice())
}

/// The markers of a chapter with text `text`: its marker lines outside
/// code and HTML regions that open a paragraph or a blockquote line.
pub open spec fn chapter_markers(text: Seq<char>) -> Seq<MarkerView> {
    markers_spec(
        encode_utf8(text),
        code_mask_spec(encode_utf8(text).len(), markdown_events(text)),
        para_starts_spec(encode_utf8(text).len(), markdown_events(text)),
    )
}

/// Each marker occupies a whole line: it starts at a line start and ends
/// where that line ends, just past its `\n` or at the end of the text.
pub open spec fn marker_line(t: Seq<u8>, m: MarkerView) -> bool {
    &&& 0 <= m.start < m.end <= t.len()
    &&& (m.start == 0 || t[m.start - 1] == 0x0a)
    &&& (m.end == t.len() || t[m.end - 1] == 0x0a)
    &&& m.end == line_end(t, m.start)
}

/// Markers on whole lines, in document order, not overlapping.
pub open spec fn markers_placed(t: Seq<u8>, ms: Seq<MarkerView>) -> bool {
    &&& forall|i: int| 0 <= i < ms.len() ==> marker_line(t, #[trigger] ms[i])
    &&& forall|i: int, j: int| 0 <= i < j < ms.len() ==> #[trigger] ms[i].end <= #[trigger] ms[j].start
}

proof fn lemma_markers_from_placed(t: Seq<u8>, mask: Seq<bool>, paras: Seq<bool>, s: int)
    requires
        0 <= s <= t.len(),
        s == 0 || s == t.len() || t[s - 1] == 0x0a,
    ensures
        markers_placed(t, markers_from(t, mask, paras, s)),
        forall|i: int|
            0 <= i < markers_from(t, mask, paras, s).len() ==> s <= #[trigger] markers_from(t, mask, paras, s)[i].start,
    decreases t.len() - s,
{
    if s < t.len() {
        let e = line_end(t, s);
        lemma_find_from(t, 0x0a, s);
        lemma_markers_from_placed(t, mask, paras, e);
        let here = opt_seq(marker_at(t, mask, paras, s, e));
        let rest = markers_from(t, mask, paras, e);
        let all = markers_from(t, mask, paras, s);
        assert(all == here + rest);
        if here.len() == 1 {
            assert(here[0].start == s && here[0].end == e);
            assert forall|i: int, j: int| 0 <= i < j < all.len() implies #[trigger] all[i].end
                <= #[trigger] all[j].start by {
                if i == 0 {
                    assert(all[j] == rest[j - 1]);
                } else {
                    assert(all[i] == rest[i - 1]);
                    assert(all[j] == rest[j - 1]);
                }
            }
            assert forall|i: int| 0 <= i < all.len() implies marker_line(t, #[trigger] all[i]) by {
                if i > 0 {
                    assert(all[i] == rest[i - 1]);
                }
            }
        } else {
            assert(all =~= rest);
        }
    }
}

/// The markers of any text sit on whole lines, in document order, without
/// overlapping.
pub proof fn lemma_markers_placed(t: Seq<u8>, mask: Seq<bool>, paras: Seq<bool>)
    ensures
        markers_placed(t, markers_spec(t, mask, paras)),
{
    lemma_markers_from_placed(t, mask, paras, 0);
}

/// A definition opens a paragraph at column 0 or opens a blockquote line:
/// its line starts with a prefix character where a paragraph starts, or with
/// `>` for the blockquote form, and does not start inside a code block, an
/// HTML block or a code span.
pub open spec fn definition_line(t: Seq<u8>, mask: Seq<bool>, paras: Seq<bool>, m: MarkerView) -> bool {
    &&& !(0 <= m.start < mask.len() && mask[m.start])
    &&& 0 <= m.start < t.len()
    &&& (!m.blockquote ==> 0 <= m.start < paras.len() && paras[m.start])
    &&& if m.blockquote {
        t[m.start] == 0x3e
    } else {
        is_prefix_byte(t[m.start])
    }
}

proof fn lemma_marker_at_definition(t: Seq<u8>, mask: Seq<bool>, paras: Seq<bool>, s: int, e: int)
    requires
        0 <= s < e <= t.len(),
        marker_at(t, mask, paras, s, e) is Some,
    ensures
        definition_line(t, mask, paras, marker_at(t, mask, paras, s, e)->0),
{
    lemma_trim_newlines(t, s, e);
    let te = trim_newlines(t, s, e);
    let bs = body_start(t, s, te);
    let body = t.subrange(bs, te);
    lemma_prefix_end_from(body, 0);
    if !is_quoted(t, s, te) {
        assert(body[0] == t[s]);
    }
}

proof fn lemma_markers_from_definitions(t: Seq<u8>, mask: Seq<bool>, paras: Seq<bool>, s: int)
    requires
        0 <= s <= t.len(),
    ensures
        forall|i: int|
            0 <= i < markers_from(t, mask, paras, s).len() ==> definition_line(
                t,
                mask,
                paras,
                #[trigger] markers_from(t, mask, paras, s)[i],
            ),
    decreases t.len() - s,
{
    if s < t.len() {
        let e = line_end(t, s);
        lemma_find_from(t, 0x0a, s);
        lemma_markers_from_definitions(t, mask, paras, e);
        let here = opt_seq(marker_at(t, mask, paras, s, e));
        let rest = markers_from(t, mask, paras, e);
        let all = markers_from(t, mask, paras, s);
        assert(all == here + rest);
        if here.len() == 1 {
            lemma_marker_at_definition(t, mask, paras, s, e);
            assert forall|i: int| 0 <= i < all.len() implies definition_line(t, mask, paras, #[trigger] all[i]) by {
                if i > 0 {
                    assert(all[i] == rest[i - 1]);
                }
            }
        } else {
            assert(all =~= rest);
        }
    }
}

/// Every marker that the scan reports is a definition: its line starts at
/// column 0 with the prefix, or with `>` in the blockquote form, outside
/// any code region. So an indented line, a line that starts with other
/// text, and a line inside a code fence or span define nothing.
pub proof fn lemma_markers_are_definitions(t: Seq<u8>, mask: Seq<bool>, paras: Seq<bool>)
    ensures
        forall|i: int|
            0 <= i < markers_spec(t, mask, paras).len() ==> definition_line(
                t,
                mask,
                paras,
                #[trigger] markers_spec(t, mask, paras)[i],
            ),
{
    lemma_markers_from_definitions(t, mask, paras, 0);
}

/// A position of `t` where a line starts.
pub open spec fn is_line_start(t: Seq<u8>, s: int) -> bool {
    0 <= s < t.len() && (s == 0 || t[s - 1] == 0x0a)
}

proof fn lemma_markers_from_lines(t: Seq<u8>, mask: Seq<bool>, paras: Seq<bool>, p: int)
    requires
        0 <= p <= t.len(),
        p == 0 || p == t.len() || t[p - 1] == 0x0a,
    ensures
        forall|i: int|
            0 <= i < markers_from(t, mask, paras, p).len() ==> {
                let m = #[trigger] markers_from(t, mask, paras, p)[i];
                &&& is_line_start(t, m.start)
                &&& p <= m.start
                &&& marker_at(t, mask, paras, m.start, line_end(t, m.start)) == Some(m)
            },
        forall|s: int|
            #![trigger marker_at(t, mask, paras, s, line_end(t, s))]
            is_line_start(t, s) && p <= s && marker_at(t, mask, paras, s, line_end(t, s)) is Some
                ==> markers_from(t, mask, paras, p).contains(
                marker_at(t, mask, paras, s, line_end(t, s))->0,
            ),
    decreases t.len() - p,
{
    if p < t.len() {
        let e = line_end(t, p);
        lemma_find_from(t, 0x0a, p);
        lemma_markers_from_lines(t, mask, paras, e);
        let here = opt_seq(marker_at(t, mask, paras, p, e));
        let rest = markers_from(t, mask, paras, e);
        let all = markers_from(t, mask, paras, p);
        assert(all == here + rest);
        assert forall|i: int| 0 <= i < all.len() implies {
            let m = #[trigger] all[i];
            &&& is_line_start(t, m.start)
            &&& p <= m.start
            &&& marker_at(t, mask, paras, m.start, line_end(t, m.start)) == Some(m)
        } by {
            if i < here.len() {
                assert(all[i] == here[i]);
                lemma_marker_at_span(t, mask, paras, p, e);
            } else {
                assert(all[i] == rest[i - here.len()]);
            }
        }
        assert forall|s: int|
            #![trigger marker_at(t, mask, paras, s, line_end(t, s))]
            is_line_start(t, s) && p <= s && marker_at(t, mask, paras, s, line_end(t, s)) is Some
                implies all.contains(marker_at(t, mask, paras, s, line_end(t, s))->0) by {
            let m = marker_at(t, mask, paras, s, line_end(t, s))->0;
            if s == p {
                assert(all[0] == m);
            } else {
                // A later line starts after this line's newline.
                assert(t[s - 1] == 0x0a);
                assert(e <= s);
                let k = choose|k: int| 0 <= k < rest.len() && rest[k] == m;
                assert(all[here.len() + k] == m);
            }
        }
    }
}

proof fn lemma_marker_at_span(t: Seq<u8>, mask: Seq<bool>, paras: Seq<bool>, s: int, e: int)
    requires
        marker_at(t, mask, paras, s, e) is Some,
    ensures
        marker_at(t, mask, paras, s, e)->0.start == s,
        marker_at(t, mask, paras, s, e)->0.end == e,
{
}

/// The scan reports, line by line, exactly the markers that the lines
/// define: each reported marker is what its line defines, and every line
/// that defines a marker is reported.
pub proof fn lemma_markers_line_by_line(t: Seq<u8>, mask: Seq<bool>, paras: Seq<bool>)
    ensures
        forall|i: int|
            0 <= i < markers_spec(t, mask, paras).len() ==> {
                let m = #[trigger] markers_spec(t, mask, paras)[i];
                &&& is_line_start(t, m.start)
                &&& marker_at(t, mask, paras, m.start, line_end(t, m.start)) == Some(m)
            },
        forall|s: int|
            #![trigger marker_at(t, mask, paras, s, line_end(t, s))]
            is_line_start(t, s) && marker_at(t, mask, paras, s, line_end(t, s)) is Some
                ==> markers_spec(t, mask, paras).contains(
                marker_at(t, mask, paras, s, line_end(t, s))->0,
            ),
{
    lemma_markers_from_lines(t, mask, paras, 0);
}

/// The text of the line starting at `s` once its trailing `\n`/`\r` are
/// dropped and, on a blockquote line, the `>` and one space after it.
pub open spec fn line_body(t: Seq<u8>, s: int) -> Seq<u8> {
    let te = trim_newlines(t, s, line_end(t, s));
    t.subrange(body_start(t, s, te), te)
}

/// The line starting at `s` opens with `>` (once trailing newlines are
/// dropped).
pub open spec fn line_quoted(t: Seq<u8>, s: int) -> bool {
    is_quoted(t, s, trim_newlines(t, s, line_end(t, s)))
}

/// The scan misses no marker: a line outside code and HTML regions that
/// opens a paragraph or a blockquote, and whose text reads PREFIX `[`
/// INNER `]` (any non-empty run of `[a-z0-9]` as PREFIX, of whatever
/// length) with a first word of INNER that is a well-formed rule ID, is
/// reported, with that prefix, that ID, the whole line as its span and the
/// blockquote flag of the line.
pub proof fn lemma_scan_complete(t: Seq<u8>, mask: Seq<bool>, paras: Seq<bool>, s: int, p: int, c: int)
    requires
        is_line_start(t, s),
        !(0 <= s < mask.len() && mask[s]),
        line_quoted(t, s) || (0 <= s < paras.len() && paras[s]),
        leading_marker_shape(line_body(t, s), p, c),
        rule_id_spec(decode_utf8(first_word(line_body(t, s).subrange(p + 1, c)))) is Some,
    ensures
        markers_spec(t, mask, paras).contains(
            MarkerView {
                start: s,
                end: line_end(t, s),
                prefix: decode_utf8(line_body(t, s).subrange(0, p)),
                id: rule_id_spec(decode_utf8(first_word(line_body(t, s).subrange(p + 1, c))))->0,
                blockquote: line_quoted(t, s),
            },
        ),
{
    lemma_leading_marker_shape(line_body(t, s), p, c);
    lemma_markers_line_by_line(t, mask, paras);
    assert(marker_at(t, mask, paras, s, line_end(t, s)) is Some);
}

/// The text of a bracket's content up to its first space: the rule ID.
pub open spec fn first_word(inner: Seq<u8>) -> Seq<u8> {
    inner.subrange(0, find_from(inner, 0x20, 0))
}

/// How a marker reads its line. Take the line without its trailing `\n`
/// and `\r`; the marker is a blockquote marker exactly when that line
/// opens with `>`, and then the `>` and one space after it are dropped.
/// What is left reads PREFIX `[` INNER `]` and whitespace, the marker's
/// prefix is PREFIX, and its ID is what the first word of INNER parses to.
pub open spec fn reads_marker_line(t: Seq<u8>, m: MarkerView) -> bool {
    let te = trim_newlines(t, m.start, m.end);
    let body = t.subrange(body_start(t, m.start, te), te);
    &&& m.blockquote == is_quoted(t, m.start, te)
    &&& leading_marker_spec(body) is Some
    &&& {
        let (p, c) = leading_marker_spec(body)->0;
        &&& leading_marker_shape(body, p, c)
        &&& m.prefix == decode_utf8(body.subrange(0, p))
        &&& rule_id_spec(decode_utf8(first_word(body.subrange(p + 1, c)))) == Some(m.id)
    }
}

/// Every marker that the scan reports reads its own line: the line is a
/// leading marker once a blockquote `>` is dropped, the blockquote flag says
/// whether there was one, and prefix and ID are those written on the line.
pub proof fn lemma_markers_read_their_lines(t: Seq<u8>, mask: Seq<bool>, paras: Seq<bool>)
    ensures
        forall|i: int|
            0 <= i < markers_spec(t, mask, paras).len() ==> reads_marker_line(
                t,
                #[trigger] markers_spec(t, mask, paras)[i],
            ),
{
    lemma_markers_line_by_line(t, mask, paras);
    assert forall|i: int| 0 <= i < markers_spec(t, mask, paras).len() implies reads_marker_line(
        t,
        #[trigger] markers_spec(t, mask, paras)[i],
    ) by {
        let m = markers_spec(t, mask, paras)[i];
        let e = line_end(t, m.start);
        assert(marker_at(t, mask, paras, m.start, e) == Some(m));
        lemma_marker_at_span(t, mask, paras, m.start, e);
        let te = trim_newlines(t, m.start, e);
        let body = t.subrange(body_start(t, m.start, te), te);
        let (p, c) = leading_marker_spec(body)->0;
        lemma_leading_marker_shape(body, p, c);
    }
}

} // verus!
