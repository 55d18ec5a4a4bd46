//! HTML generation for a single marker and the injected stylesheet.
use vstd::prelude::*;
use vstd::string::StringExecFns;

use crate::coverage::{refs_view, Coverage, CoverageView, Ref};
use crate::marker::{rule_id_display, Marker, MarkerView};
use crate::text::{decimal, has_prefix, push_char, replace_spec, str_replace, usize_to_string};

verus! {

broadcast use vstd::seq::group_seq_axioms;

/// Built-in styles, prepended once to the first chapter that has markers.
/// Kept on one line so mdbook's markdown parser sees it as a single raw-HTML
/// block; a trailing blank line cleanly separates it from chapter content.
/// The popover is a hidden child of the badge, shown on the parent's
/// `:hover`; it hangs below and grows leftward (`right:0`) because badges
/// are right-aligned.
pub const STYLE: &'static str = "<style>\
.tracey-req{\
display:flex;align-items:center;gap:.6em;\
margin:1.2em 0 .4em 0;padding:.35em .6em;\
border-left:3px solid var(--links,#4183c4);\
background:var(--quote-bg,rgba(0,0,0,.03));\
border-radius:0 4px 4px 0;\
font-family:var(--mono-font,ui-monospace,SFMono-Regular,Menlo,monospace);\
font-size:.9em\
}\
.tracey-req-anchor{\
color:var(--links,#4183c4);text-decoration:none;font-weight:600\
}\
.tracey-req-anchor:hover{text-decoration:underline}\
.tracey-req-badges{margin-left:auto;display:flex;gap:.4em}\
.tracey-badge{\
position:relative;cursor:default;\
padding:.1em .5em;border-radius:3px;font-size:.85em;font-weight:600\
}\
.tracey-badge.impl{background:#2ea04326;color:#2ea043}\
.tracey-badge.verify{background:#8250df26;color:#8250df}\
.tracey-badge.zero{background:#6e77811a;color:#6e7781}\
.tracey-popover{\
display:none;position:absolute;top:calc(100% + 4px);right:0;z-index:10;\
min-width:14em;max-height:12em;overflow-y:auto;padding:.5em .7em;\
background:var(--bg,#fff);\
border:1px solid var(--quote-border,rgba(0,0,0,.1));\
border-radius:4px;box-shadow:0 4px 12px rgba(0,0,0,.15);\
font-family:var(--mono-font,ui-monospace,monospace);\
font-size:.85em;white-space:nowrap\
}\
.tracey-badge:hover .tracey-popover{\
display:flex;flex-direction:column;gap:.2em\
}\
.tracey-popover a{color:var(--links,#4183c4);text-decoration:none}\
.tracey-popover a:hover{text-decoration:underline}\
</style>\n\n";

// ---------------------------------------------------------------------------
// Escaping
// ---------------------------------------------------------------------------

/// The HTML form of one character: `& < > " '` become entities, anything
/// else stands for itself.
pub open spec fn escape_char(c: char) -> Seq<char> {
    if c == '&' {
        "&amp;"@
    } else if c == '<' {
        "&lt;"@
    } else if c == '>' {
        "&gt;"@
    } else if c == '"' {
        "&quot;"@
    } else if c == '\'' {
        "&#39;"@
    } else {
        seq![c]
    }
}

/// `s` with every character escaped.
pub open spec fn html_escape_spec(s: Seq<char>) -> Seq<char>
    decreases s.len(),
{
    if s.len() == 0 {
        seq![]
    } else {
        html_escape_spec(s.drop_last()) + escape_char(s.last())
    }
}

/// Escape text for HTML content and attribute values. Rule IDs are
/// permissive, so they are escaped defensively, as are file paths.
pub fn html_escape(s: &str) -> (r: String)
    ensures
        r@ == html_escape_spec(s@),
{
    let mut out = String::new();
    for c in it: s.chars()
        invariant
            it.seq() == s@,
            out@ == html_escape_spec(s@.take(it.index() as int)),
    {
        proof {
            assert(s@.take(it.index() + 1).drop_last() =~= s@.take(it.index() as int));
        }
        if c == '&' {
            out.append("&amp;");
        } else if c == '<' {
            out.append("&lt;");
        } else if c == '>' {
            out.append("&gt;");
        } else if c == '"' {
            out.append("&quot;");
        } else if c == '\'' {
            out.append("&#39;");
        } else {
            push_char(&mut out, c);
        }
    }
    assert(s@.take(s@.len() as int) =~= s@);
    out
}

/// The characters that HTML escaping replaces.
pub open spec fn is_html_special(c: char) -> bool {
    c == '&' || c == '<' || c == '>' || c == '"' || c == '\''
}

proof fn lemma_escape_char_safe(c: char)
    ensures
        forall|i: int| 0 <= i < escape_char(c).len() ==> {
            let d = #[trigger] escape_char(c)[i];
            d != '<' && d != '>' && d != '"' && d != '\''
        },
{
    reveal_strlit("&amp;");
    reveal_strlit("&lt;");
    reveal_strlit("&gt;");
    reveal_strlit("&quot;");
    reveal_strlit("&#39;");
}

/// Escaped text holds no `<`, `>`, `"` or `'`: it can neither open a tag
/// nor end an attribute value.
pub proof fn lemma_escape_safe(s: Seq<char>)
    ensures
        forall|i: int| 0 <= i < html_escape_spec(s).len() ==> {
            let d = #[trigger] html_escape_spec(s)[i];
            d != '<' && d != '>' && d != '"' && d != '\''
        },
    decreases s.len(),
{
    if s.len() > 0 {
        lemma_escape_safe(s.drop_last());
        lemma_escape_char_safe(s.last());
        let a = html_escape_spec(s.drop_last());
        let b = escape_char(s.last());
        assert forall|i: int| 0 <= i < html_escape_spec(s).len() implies {
            let d = #[trigger] html_escape_spec(s)[i];
            d != '<' && d != '>' && d != '"' && d != '\''
        } by {
            if i < a.len() {
                assert(html_escape_spec(s)[i] == a[i]);
            } else {
                assert(html_escape_spec(s)[i] == b[i - a.len()]);
            }
        }
    }
}

/// Text without any of `& < > " '` is left as it is.
pub proof fn lemma_escape_plain(s: Seq<char>)
    requires
        forall|i: int| 0 <= i < s.len() ==> !is_html_special(#[trigger] s[i]),
    ensures
        html_escape_spec(s) == s,
    decreases s.len(),
{
    if s.len() > 0 {
        lemma_escape_plain(s.drop_last());
        assert(html_escape_spec(s) =~= s);
    }
}

proof fn lemma_escape_char_len(c: char)
    ensures
        is_html_special(c) ==> escape_char(c).len() > 1,
        !is_html_special(c) ==> escape_char(c).len() == 1,
{
    reveal_strlit("&amp;");
    reveal_strlit("&lt;");
    reveal_strlit("&gt;");
    reveal_strlit("&quot;");
    reveal_strlit("&#39;");
}

/// Escaping never shortens text, and lengthens it as soon as one of
/// `& < > " '` occurs in it.
pub proof fn lemma_escape_len(s: Seq<char>)
    ensures
        html_escape_spec(s).len() >= s.len(),
        (exists|i: int| 0 <= i < s.len() && is_html_special(#[trigger] s[i]))
            ==> html_escape_spec(s).len() > s.len(),
    decreases s.len(),
{
    if s.len() > 0 {
        let init = s.drop_last();
        lemma_escape_len(init);
        lemma_escape_char_len(s.last());
        if exists|i: int| 0 <= i < s.len() && is_html_special(#[trigger] s[i]) {
            let i = choose|i: int| 0 <= i < s.len() && is_html_special(#[trigger] s[i]);
            if i < s.len() - 1 {
                assert(init[i] == s[i]);
            }
        }
    }
}

/// Escaping leaves text unchanged exactly when it holds none of
/// `& < > " '`.
pub proof fn lemma_escape_unchanged_iff(s: Seq<char>)
    ensures
        html_escape_spec(s) == s <==> forall|i: int|
            0 <= i < s.len() ==> !is_html_special(#[trigger] s[i]),
{
    lemma_escape_len(s);
    if forall|i: int| 0 <= i < s.len() ==> !is_html_special(#[trigger] s[i]) {
        lemma_escape_plain(s);
    }
}

/// One left-to-right pass that turns the five entities `&amp;`, `&lt;`,
/// `&gt;`, `&quot;` and `&#39;` back into their characters.
pub open spec fn unescape_spec(s: Seq<char>) -> Seq<char>
    decreases s.len(),
{
    if s.len() == 0 {
        seq![]
    } else if has_prefix(s, seq!['&', 'a', 'm', 'p', ';']) {
        seq!['&'] + unescape_spec(s.skip(5))
    } else if has_prefix(s, seq!['&', 'l', 't', ';']) {
        seq!['<'] + unescape_spec(s.skip(4))
    } else if has_prefix(s, seq!['&', 'g', 't', ';']) {
        seq!['>'] + unescape_spec(s.skip(4))
    } else if has_prefix(s, seq!['&', 'q', 'u', 'o', 't', ';']) {
        seq!['"'] + unescape_spec(s.skip(6))
    } else if has_prefix(s, seq!['&', '#', '3', '9', ';']) {
        seq!['\''] + unescape_spec(s.skip(5))
    } else {
        seq![s[0]] + unescape_spec(s.skip(1))
    }
}

proof fn lemma_unescape_char(c: char, rest: Seq<char>)
    ensures
        unescape_spec(escape_char(c) + rest) == seq![c] + unescape_spec(rest),
{
    reveal_strlit("&amp;");
    reveal_strlit("&lt;");
    reveal_strlit("&gt;");
    reveal_strlit("&quot;");
    reveal_strlit("&#39;");
    let e = escape_char(c);
    let s = e + rest;
    assert(s.skip(e.len() as int) =~= rest);
    if c == '&' {
        assert(e =~= seq!['&', 'a', 'm', 'p', ';']);
        assert(s.take(5) =~= e);
    } else if c == '<' {
        assert(e =~= seq!['&', 'l', 't', ';']);
        assert(s.take(4) =~= e);
        assert(s[1] == 'l');
    } else if c == '>' {
        assert(e =~= seq!['&', 'g', 't', ';']);
        assert(s.take(4) =~= e);
        assert(s[1] == 'g');
    } else if c == '"' {
        assert(e =~= seq!['&', 'q', 'u', 'o', 't', ';']);
        assert(s.take(6) =~= e);
        assert(s[1] == 'q');
    } else if c == '\'' {
        assert(e =~= seq!['&', '#', '3', '9', ';']);
        assert(s.take(5) =~= e);
        assert(s[1] == '#');
    } else {
        assert(e =~= seq![c]);
        assert(s[0] == c);
        assert(s.skip(1) =~= rest);
    }
}

proof fn lemma_escape_front(s: Seq<char>)
    requires
        s.len() > 0,
    ensures
        html_escape_spec(s) == escape_char(s[0]) + html_escape_spec(s.drop_first()),
    decreases s.len(),
{
    if s.len() == 1 {
        assert(s.drop_last() =~= Seq::<char>::empty());
        assert(s.drop_first() =~= Seq::<char>::empty());
        assert(html_escape_spec(Seq::<char>::empty()) == Seq::<char>::empty());
        assert(html_escape_spec(s.drop_last()) == Seq::<char>::empty());
        assert(html_escape_spec(s.drop_first()) == Seq::<char>::empty());
        assert(s.last() == s[0]);
        assert(html_escape_spec(s) =~= escape_char(s[0]) + html_escape_spec(s.drop_first()));
    } else {
        lemma_escape_front(s.drop_last());
        assert(s.drop_last().drop_first() =~= s.drop_first().drop_last());
        assert(s.drop_first().last() == s.last());
        assert(html_escape_spec(s) =~= escape_char(s[0]) + html_escape_spec(s.drop_first()));
    }
}

/// Unescaping escaped text gives the text back: escaping loses nothing and
/// never escapes twice.
pub proof fn lemma_escape_roundtrip(s: Seq<char>)
    ensures
        unescape_spec(html_escape_spec(s)) == s,
    decreases s.len(),
{
    if s.len() > 0 {
        lemma_escape_front(s);
        lemma_unescape_char(s[0], html_escape_spec(s.drop_first()));
        lemma_escape_roundtrip(s.drop_first());
        assert(seq![s[0]] + s.drop_first() =~= s);
    }
}

// ---------------------------------------------------------------------------
// Badges
// ---------------------------------------------------------------------------

pub open spec fn opt_str_view(o: Option<&str>) -> Option<Seq<char>> {
    match o {
        Some(s) => Some(s@),
        None => None,
    }
}

/// One reference in a badge's popover: `file:line`, linked when a URL
/// template is given, with `{file}` and `{line}` substituted in it.
pub open spec fn ref_html(r: (Seq<char>, usize), repo_url: Option<Seq<char>>) -> Seq<char> {
    let file = html_escape_spec(r.0);
    let line = decimal(r.1 as nat);
    match repo_url {
        Some(tpl) => {
            let url = replace_spec(replace_spec(tpl, "{file}"@, file), "{line}"@, line);
            "<a href=\""@ + url + "\">"@ + file + ":"@ + line + "</a>"@
        },
        None => "<span>"@ + file + ":"@ + line + "</span>"@,
    }
}

/// The popover entries of a list of references, in order.
pub open spec fn refs_html(refs: Seq<(Seq<char>, usize)>, repo_url: Option<Seq<char>>) -> Seq<char>
    decreases refs.len(),
{
    if refs.len() == 0 {
        seq![]
    } else {
        refs_html(refs.drop_last(), repo_url) + ref_html(refs.last(), repo_url)
    }
}

/// A badge: the kind and the number of references, styled as `zero` when
/// there are none, with a popover listing the references when there are
/// some.
pub open spec fn badge_spec(
    kind: Seq<char>,
    refs: Seq<(Seq<char>, usize)>,
    repo_url: Option<Seq<char>>,
) -> Seq<char> {
    let zero = if refs.len() == 0 {
        " zero"@
    } else {
        seq![]
    };
    let popover = if refs.len() == 0 {
        seq![]
    } else {
        "<div class=\"tracey-popover\">"@ + refs_html(refs, repo_url) + "</div>"@
    };
    "<span class=\"tracey-badge "@ + kind + zero + "\">"@ + kind + " "@ + decimal(refs.len())
        + popover + "</span>"@
}

/// Append a badge for `refs` to `s`.
pub fn badge(s: &mut String, kind: &str, refs: &[Ref], repo_url: Option<&str>)
    ensures
        final(s)@ == old(s)@ + badge_spec(kind@, refs_view(refs@), opt_str_view(repo_url)),
{
    let ghost url = opt_str_view(repo_url);
    let ghost rv = refs_view(refs@);
    let count = refs.len();
    s.append("<span class=\"tracey-badge ");
    s.append(kind);
    if count == 0 {
        s.append(" zero");
    }
    s.append("\">");
    s.append(kind);
    s.append(" ");
    let count_text = usize_to_string(count);
    s.append(count_text.as_str());
    let ghost head = s@;
    if count > 0 {
        s.append("<div class=\"tracey-popover\">");
        let ghost open = s@;
        for i in 0..count
            invariant
                count == refs@.len(),
                rv == refs_view(refs@),
                url == opt_str_view(repo_url),
                s@ == open + refs_html(rv.take(i as int), url),
        {
            proof {
                assert(rv.take(i + 1).drop_last() =~= rv.take(i as int));
                reveal_strlit("{file}");
                reveal_strlit("{line}");
            }
            let r = &refs[i];
            let file = html_escape(r.file.as_str());
            let line = usize_to_string(r.line);
            let ghost before = s@;
            match repo_url {
                Some(tpl) => {
                    let with_file = str_replace(tpl, "{file}", file.as_str());
                    let link = str_replace(with_file.as_str(), "{line}", line.as_str());
                    s.append("<a href=\"");
                    s.append(link.as_str());
                    s.append("\">");
                    s.append(file.as_str());
                    s.append(":");
                    s.append(line.as_str());
                    s.append("</a>");
                },
                None => {
                    s.append("<span>");
                    s.append(file.as_str());
                    s.append(":");
                    s.append(line.as_str());
                    s.append("</span>");
                },
            }
            proof {
                assert(rv.take(i + 1).last() == rv[i as int]);
                assert(s@ =~= before + ref_html(rv[i as int], url));
                assert(s@ =~= open + refs_html(rv.take(i + 1), url));
            }
        }
        s.append("</div>");
        proof {
            assert(rv.take(count as int) =~= rv);
        }
    }
    s.append("</span>");
    proof {
        assert(s@ =~= old(s)@ + badge_spec(kind@, rv, url));
    }
}

// ---------------------------------------------------------------------------
// Markers
// ---------------------------------------------------------------------------

pub open spec fn opt_coverage_view(o: Option<&Coverage>) -> Option<CoverageView> {
    match o {
        Some(c) => Some(c@),
        None => None,
    }
}

/// The anchor ID of a marker: `{prefix}-{id}`, escaped.
pub open spec fn anchor_spec(m: MarkerView) -> Seq<char> {
    html_escape_spec(m.prefix + seq!['-'] + rule_id_display(m.id))
}

/// The HTML block of a marker: a `div` with the anchor ID, a self-link
/// labelled with the rule ID, badges when coverage is given, and a blank
/// line after it.
pub open spec fn render_spec(m: MarkerView, cov: Option<CoverageView>, repo_url: Option<Seq<char>>) -> Seq<char> {
    let anchor = anchor_spec(m);
    let label = html_escape_spec(rule_id_display(m.id));
    let badges = match cov {
        Some(c) => "<span class=\"tracey-req-badges\">"@ + badge_spec("impl"@, c.impl_refs, repo_url)
            + badge_spec("verify"@, c.verify_refs, repo_url) + "</span>"@,
        None => seq![],
    };
    "<div class=\"tracey-req\" id=\""@ + anchor + "\"><a class=\"tracey-req-anchor\" href=\"#"@
        + anchor + "\">"@ + label + "</a>"@ + badges + "</div>\n\n"@
}

/// Render one marker to an HTML block. Always emits an anchor; emits badges
/// only when coverage data was loaded (so anchor-only mode stays clean).
/// Badges gain a hover popover listing each ref's `file:line`, linked via
/// `repo_url` template if set.
///
/// The trailing blank line is load-bearing: mdbook re-parses chapter content
/// with pulldown-cmark, and raw HTML must be followed by a blank line to
/// close the HTML block before markdown resumes.
pub fn render_marker(m: &Marker, cov: Option<&Coverage>, repo_url: Option<&str>) -> (r: String)
    ensures
        r@ == render_spec(m@, opt_coverage_view(cov), opt_str_view(repo_url)),
{
    let id = m.id.to_string();
    let mut anchor_text = String::new();
    anchor_text.append(m.prefix.as_str());
    push_char(&mut anchor_text, '-');
    anchor_text.append(id.as_str());
    let anchor = html_escape(anchor_text.as_str());
    let label = html_escape(id.as_str());

    let mut s = String::new();
    s.append("<div class=\"tracey-req\" id=\"");
    s.append(anchor.as_str());
    s.append("\"><a class=\"tracey-req-anchor\" href=\"#");
    s.append(anchor.as_str());
    s.append("\">");
    s.append(label.as_str());
    s.append("</a>");
    let ghost head = s@;
    match cov {
        Some(c) => {
            s.append("<span class=\"tracey-req-badges\">");
            badge(&mut s, "impl", c.impl_refs.as_slice(), repo_url);
            badge(&mut s, "verify", c.verify_refs.as_slice(), repo_url);
            s.append("</span>");
        },
        None => {},
    }
    s.append("</div>\n\n");
    proof {
        assert(anchor_text@ =~= m.prefix@ + seq!['-'] + rule_id_display(m.id@));
        assert(s@ =~= render_spec(m@, opt_coverage_view(cov), opt_str_view(repo_url)));
    }
    s
}

/// A block opens with `<div class="tracey-req" id="`, then the marker's
/// own prefix, `-` and its displayed rule ID, escaped, then `"`, and links
/// to that same anchor with `#`, labelled with the escaped rule ID.
/// Unescaping the anchor gives back `prefix-id` as written.
pub proof fn lemma_block_anchor(m: MarkerView, cov: Option<CoverageView>, repo_url: Option<Seq<char>>)
    ensures
        has_prefix(
            render_spec(m, cov, repo_url),
            "<div class=\"tracey-req\" id=\""@ + html_escape_spec(m.prefix + seq!['-'] + rule_id_display(m.id))
                + "\"><a class=\"tracey-req-anchor\" href=\"#"@ + html_escape_spec(
                m.prefix + seq!['-'] + rule_id_display(m.id),
            ) + "\">"@ + html_escape_spec(rule_id_display(m.id)) + "</a>"@,
        ),
        unescape_spec(html_escape_spec(m.prefix + seq!['-'] + rule_id_display(m.id))) == m.prefix
            + seq!['-'] + rule_id_display(m.id),
{
    let head = "<div class=\"tracey-req\" id=\""@ + html_escape_spec(m.prefix + seq!['-'] + rule_id_display(m.id))
        + "\"><a class=\"tracey-req-anchor\" href=\"#"@ + html_escape_spec(
        m.prefix + seq!['-'] + rule_id_display(m.id),
    ) + "\">"@ + html_escape_spec(rule_id_display(m.id)) + "</a>"@;
    let r = render_spec(m, cov, repo_url);
    let rest = match cov {
        Some(c) => "<span class=\"tracey-req-badges\">"@ + badge_spec("impl"@, c.impl_refs, repo_url)
            + badge_spec("verify"@, c.verify_refs, repo_url) + "</span>"@,
        None => seq![],
    } + "</div>\n\n"@;
    assert(r =~= head + rest);
    assert(r.take(head.len() as int) =~= head);
    lemma_escape_roundtrip(m.prefix + seq!['-'] + rule_id_display(m.id));
}

/// How many times `c` occurs in `s`.
pub open spec fn count_char(s: Seq<char>, c: char) -> nat
    decreases s.len(),
{
    if s.len() == 0 {
        0
    } else {
        count_char(s.drop_last(), c) + if s.last() == c {
            1nat
        } else {
            0nat
        }
    }
}

proof fn lemma_count_concat(a: Seq<char>, b: Seq<char>, c: char)
    ensures
        count_char(a + b, c) == count_char(a, c) + count_char(b, c),
    decreases b.len(),
{
    if b.len() == 0 {
        assert(a + b =~= a);
    } else {
        lemma_count_concat(a, b.drop_last(), c);
        assert((a + b).drop_last() =~= a + b.drop_last());
    }
}

proof fn lemma_count_none(s: Seq<char>, c: char)
    requires
        forall|i: int| 0 <= i < s.len() ==> #[trigger] s[i] != c,
    ensures
        count_char(s, c) == 0,
    decreases s.len(),
{
    if s.len() > 0 {
        lemma_count_none(s.drop_last(), c);
    }
}

proof fn lemma_count_one(s: Seq<char>, c: char, k: int)
    requires
        0 <= k < s.len(),
        s[k] == c,
        forall|i: int| 0 <= i < s.len() && i != k ==> #[trigger] s[i] != c,
    ensures
        count_char(s, c) == 1,
{
    let a = s.take(k);
    let b = s.skip(k + 1);
    assert(s =~= a + seq![c] + b);
    lemma_count_none(a, c);
    lemma_count_none(b, c);
    assert forall|i: int| 0 <= i < a.len() implies #[trigger] a[i] != c by {
        assert(a[i] == s[i]);
    }
    assert forall|i: int| 0 <= i < b.len() implies #[trigger] b[i] != c by {
        assert(b[i] == s[k + 1 + i]);
    }
    lemma_count_none(a, c);
    lemma_count_none(b, c);
    lemma_count_concat(a, seq![c], c);
    lemma_count_concat(a + seq![c], b, c);
    assert(seq![c].drop_last() =~= Seq::<char>::empty());
    assert(count_char(Seq::<char>::empty(), c) == 0);
    assert(count_char(seq![c], c) == 1);
}

/// The opening of a marker block, up to the end of its anchor link.
pub open spec fn block_head(m: MarkerView) -> Seq<char> {
    "<div class=\"tracey-req\" id=\""@ + anchor_spec(m) + "\"><a class=\"tracey-req-anchor\" href=\"#"@
        + anchor_spec(m) + "\">"@ + html_escape_spec(rule_id_display(m.id)) + "</a>"@
}

/// The structure of a marker block: it opens with `<div class="tracey-req"
/// id="`, closes with `</div>` and a blank line, and between the anchor link
/// and the close holds the impl badge and the verify badge exactly when
/// coverage is given. Without coverage the block holds no markup beyond its
/// four tags (`<div`, `<a`, `</a>`, `</div>`): escaping keeps the ID from
/// adding any.
pub proof fn lemma_block_structure(m: MarkerView, cov: Option<CoverageView>, repo_url: Option<Seq<char>>)
    ensures
        has_prefix(render_spec(m, cov, repo_url), "<div class=\"tracey-req\" id=\""@),
        render_spec(m, cov, repo_url) == block_head(m) + match cov {
            Some(c) => "<span class=\"tracey-req-badges\">"@ + badge_spec("impl"@, c.impl_refs, repo_url)
                + badge_spec("verify"@, c.verify_refs, repo_url) + "</span>"@,
            None => seq![],
        } + "</div>\n\n"@,
        cov is None ==> count_char(render_spec(m, cov, repo_url), '<') == 4,
{
    let head = block_head(m);
    let r = render_spec(m, cov, repo_url);
    assert(r =~= head + match cov {
        Some(c) => "<span class=\"tracey-req-badges\">"@ + badge_spec("impl"@, c.impl_refs, repo_url)
            + badge_spec("verify"@, c.verify_refs, repo_url) + "</span>"@,
        None => seq![],
    } + "</div>\n\n"@);
    let open = "<div class=\"tracey-req\" id=\""@;
    assert(r.take(open.len() as int) =~= open);
    if cov is None {
        let anchor = anchor_spec(m);
        let label = html_escape_spec(rule_id_display(m.id));
        lemma_escape_safe(m.prefix + seq!['-'] + rule_id_display(m.id));
        lemma_escape_safe(rule_id_display(m.id));
        lemma_count_none(anchor, '<');
        lemma_count_none(label, '<');
        let l1 = "<div class=\"tracey-req\" id=\""@;
        let l2 = "\"><a class=\"tracey-req-anchor\" href=\"#"@;
        let l3 = "\">"@;
        let l4 = "</a>"@;
        let l5 = "</div>\n\n"@;
        reveal_strlit("<div class=\"tracey-req\" id=\"");
        reveal_strlit("\"><a class=\"tracey-req-anchor\" href=\"#");
        reveal_strlit("\">");
        reveal_strlit("</a>");
        reveal_strlit("</div>\n\n");
        lemma_count_one(l1, '<', 0);
        lemma_count_one(l2, '<', 2);
        lemma_count_none(l3, '<');
        lemma_count_one(l4, '<', 0);
        lemma_count_one(l5, '<', 0);
        lemma_count_concat(l1, anchor, '<');
        lemma_count_concat(l1 + anchor, l2, '<');
        lemma_count_concat(l1 + anchor + l2, anchor, '<');
        lemma_count_concat(l1 + anchor + l2 + anchor, l3, '<');
        lemma_count_concat(l1 + anchor + l2 + anchor + l3, label, '<');
        lemma_count_concat(l1 + anchor + l2 + anchor + l3 + label, l4, '<');
        lemma_count_concat(head, seq![], '<');
        lemma_count_concat(head + seq![], l5, '<');
        assert(head + seq![] =~= head);
    }
}

// ---------------------------------------------------------------------------
// Counting badges
// ---------------------------------------------------------------------------

/// The opening of a badge.
pub open spec fn badge_open() -> Seq<char> {
    "<span class=\"tracey-badge "@
}

/// How many times `pat` occurs in `s`, overlapping occurrences included.
pub open spec fn count_occurrences(s: Seq<char>, pat: Seq<char>) -> nat
    decreases s.len(),
{
    if s.len() == 0 {
        0
    } else {
        (if has_prefix(s, pat) {
            1nat
        } else {
            0nat
        }) + count_occurrences(s.drop_first(), pat)
    }
}

/// No end of `a` shorter than `pat` is a beginning of `pat`, so no
/// occurrence of `pat` in `a + b` starts in `a` and ends in `b`.
spec fn no_straddle(a: Seq<char>, pat: Seq<char>) -> bool {
    forall|i: int|
        0 <= i < a.len() && a.len() - i < pat.len() ==> !has_prefix(pat, #[trigger] a.skip(i))
}

/// `pat` opens with `<` and holds no other `<`.
spec fn tag_pattern(pat: Seq<char>) -> bool {
    &&& pat.len() > 0
    &&& pat[0] == '<'
    &&& forall|j: int| 0 < j < pat.len() ==> #[trigger] pat[j] != '<'
}

spec fn no_lt(a: Seq<char>) -> bool {
    forall|i: int| 0 <= i < a.len() ==> #[trigger] a[i] != '<'
}

proof fn lemma_count_concat_parts(a: Seq<char>, b: Seq<char>, pat: Seq<char>)
    requires
        no_straddle(a, pat),
    ensures
        count_occurrences(a + b, pat) == count_occurrences(a, pat) + count_occurrences(b, pat),
    decreases a.len(),
{
    if a.len() == 0 {
        assert(a + b =~= b);
    } else {
        let t = a.drop_first();
        assert((a + b).drop_first() =~= t + b);
        assert forall|i: int| 0 <= i < t.len() && t.len() - i < pat.len() implies !has_prefix(
            pat,
            #[trigger] t.skip(i),
        ) by {
            assert(t.skip(i) =~= a.skip(i + 1));
        }
        lemma_count_concat_parts(t, b, pat);
        if a.len() >= pat.len() {
            assert((a + b).take(pat.len() as int) =~= a.take(pat.len() as int));
        } else {
            assert(a.skip(0) =~= a);
            assert(!has_prefix(pat, a));
            assert(!(pat.take(a.len() as int) =~= a));
            let k = choose|k: int| 0 <= k < a.len() && pat.take(a.len() as int)[k] != a[k];
            assert(pat.take(a.len() as int)[k] == pat[k]);
            if has_prefix(a + b, pat) {
                assert((a + b).take(pat.len() as int)[k] == pat[k]);
                assert((a + b)[k] == a[k]);
            }
        }
    }
}

/// Occurrences of `pat` in `a + b` are those in `a` and those in `b` when
/// none straddles the seam; the seam-free property carries over to `a + b`.
proof fn lemma_count_seam(a: Seq<char>, b: Seq<char>, pat: Seq<char>)
    requires
        no_straddle(a, pat),
        no_straddle(b, pat),
    ensures
        count_occurrences(a + b, pat) == count_occurrences(a, pat) + count_occurrences(b, pat),
        no_straddle(a + b, pat),
{
    lemma_count_concat_parts(a, b, pat);
    let ab = a + b;
    assert forall|i: int| 0 <= i < ab.len() && ab.len() - i < pat.len() implies !has_prefix(
        pat,
        #[trigger] ab.skip(i),
    ) by {
        if i >= a.len() {
            assert(ab.skip(i) =~= b.skip(i - a.len()));
        } else {
            let x = a.skip(i);
            assert(ab.skip(i) =~= x + b);
            assert(!has_prefix(pat, x));
            if has_prefix(pat, ab.skip(i)) {
                assert(pat.take(x.len() as int) =~= x) by {
                    assert forall|k: int| 0 <= k < x.len() implies pat.take(x.len() as int)[k]
                        == x[k] by {
                        assert(pat.take(ab.skip(i).len() as int)[k] == ab.skip(i)[k]);
                    }
                }
            }
        }
    }
}

/// Text without `<` holds no tag pattern and ends no straddle.
proof fn lemma_count_plain(a: Seq<char>, pat: Seq<char>)
    requires
        tag_pattern(pat),
        no_lt(a),
    ensures
        count_occurrences(a, pat) == 0,
        no_straddle(a, pat),
    decreases a.len(),
{
    if a.len() > 0 {
        let t = a.drop_first();
        assert(no_lt(t)) by {
            assert forall|i: int| 0 <= i < t.len() implies #[trigger] t[i] != '<' by {
                assert(t[i] == a[i + 1]);
            }
        }
        lemma_count_plain(t, pat);
        if has_prefix(a, pat) {
            assert(a.take(pat.len() as int)[0] == a[0]);
        }
    }
    assert forall|i: int| 0 <= i < a.len() && a.len() - i < pat.len() implies !has_prefix(
        pat,
        #[trigger] a.skip(i),
    ) by {
        if has_prefix(pat, a.skip(i)) {
            assert(pat.take(a.skip(i).len() as int)[0] == pat[0]);
            assert(a.skip(i)[0] == a[i]);
        }
    }
}

/// A text that opens with its only `<` and differs from `pat` at offset
/// `k` holds no occurrence of `pat` and ends no straddle.
proof fn lemma_count_tag_head(u: Seq<char>, k: int, pat: Seq<char>)
    requires
        tag_pattern(pat),
        u.len() > 0,
        forall|j: int| 0 < j < u.len() ==> #[trigger] u[j] != '<',
        0 <= k < pat.len(),
        k < u.len(),
        u[k] != pat[k],
    ensures
        count_occurrences(u, pat) == 0,
        no_straddle(u, pat),
{
    let v = u.drop_first();
    assert(no_lt(v)) by {
        assert forall|i: int| 0 <= i < v.len() implies #[trigger] v[i] != '<' by {
            assert(v[i] == u[i + 1]);
        }
    }
    lemma_count_plain(v, pat);
    if has_prefix(u, pat) {
        assert(u.take(pat.len() as int)[k] == u[k]);
    }
    assert forall|i: int| 0 <= i < u.len() && u.len() - i < pat.len() implies !has_prefix(
        pat,
        #[trigger] u.skip(i),
    ) by {
        if i == 0 {
            assert(u.skip(0) =~= u);
            if has_prefix(pat, u) {
                assert(pat.take(u.len() as int)[k] == pat[k]);
            }
        } else {
            assert(u.skip(i)[0] == u[i]);
            if has_prefix(pat, u.skip(i)) {
                assert(pat.take(u.skip(i).len() as int)[0] == pat[0]);
            }
        }
    }
}

/// A text whose only `<` is at `q` and which differs from `pat` at offset
/// `k` after it holds no occurrence of `pat` and ends no straddle.
proof fn lemma_count_other_tag(t: Seq<char>, q: int, k: int, pat: Seq<char>)
    requires
        tag_pattern(pat),
        0 <= q < t.len(),
        forall|j: int| 0 <= j < t.len() && j != q ==> #[trigger] t[j] != '<',
        0 <= k < pat.len(),
        q + k < t.len(),
        t[q + k] != pat[k],
    ensures
        count_occurrences(t, pat) == 0,
        no_straddle(t, pat),
{
    let a = t.take(q);
    let u = t.skip(q);
    assert(t =~= a + u);
    assert(no_lt(a)) by {
        assert forall|i: int| 0 <= i < a.len() implies #[trigger] a[i] != '<' by {
            assert(a[i] == t[i]);
        }
    }
    lemma_count_plain(a, pat);
    assert forall|j: int| 0 < j < u.len() implies #[trigger] u[j] != '<' by {
        assert(u[j] == t[q + j]);
    }
    assert(u[k] == t[q + k]);
    lemma_count_tag_head(u, k, pat);
    lemma_count_seam(a, u, pat);
}

/// A tag pattern occurs once in itself.
proof fn lemma_count_self(pat: Seq<char>)
    requires
        tag_pattern(pat),
    ensures
        count_occurrences(pat, pat) == 1,
        no_straddle(pat, pat),
{
    let v = pat.drop_first();
    assert(no_lt(v)) by {
        assert forall|i: int| 0 <= i < v.len() implies #[trigger] v[i] != '<' by {
            assert(v[i] == pat[i + 1]);
        }
    }
    lemma_count_plain(v, pat);
    assert(pat.take(pat.len() as int) =~= pat);
    assert forall|i: int| 0 <= i < pat.len() && pat.len() - i < pat.len() implies !has_prefix(
        pat,
        #[trigger] pat.skip(i),
    ) by {
        assert(pat.skip(i)[0] == pat[i]);
        if has_prefix(pat, pat.skip(i)) {
            assert(pat.take(pat.skip(i).len() as int)[0] == pat[0]);
        }
    }
}

proof fn lemma_badge_open()
    ensures
        tag_pattern(badge_open()),
        badge_open().len() == 26,
        badge_open()[1] == 's',
        badge_open()[5] == ' ',
        badge_open()[20] == 'b',
{
    reveal_strlit("<span class=\"tracey-badge ");
}

proof fn lemma_decimal_no_lt(n: nat)
    ensures
        no_lt(decimal(n)),
    decreases n,
{
    if n >= 10 {
        lemma_decimal_no_lt(n / 10);
        let d = decimal(n / 10);
        assert(decimal(n) == d.push(((n % 10) + 48) as char));
        assert forall|i: int| 0 <= i < decimal(n).len() implies #[trigger] decimal(n)[i] != '<' by {
            if i < d.len() {
                assert(decimal(n)[i] == d[i]);
            }
        }
    }
}

proof fn lemma_escape_no_lt(s: Seq<char>)
    ensures
        no_lt(html_escape_spec(s)),
{
    lemma_escape_safe(s);
}

proof fn lemma_replace_no_lt(s: Seq<char>, from: Seq<char>, to: Seq<char>)
    requires
        no_lt(s),
        no_lt(to),
    ensures
        no_lt(replace_spec(s, from, to)),
    decreases s.len(),
{
    if from.len() == 0 || s.len() < from.len() {
    } else {
        let r = replace_spec(s, from, to);
        if s.take(from.len() as int) == from {
            let rest = s.skip(from.len() as int);
            assert(no_lt(rest)) by {
                assert forall|i: int| 0 <= i < rest.len() implies #[trigger] rest[i] != '<' by {
                    assert(rest[i] == s[i + from.len()]);
                }
            }
            lemma_replace_no_lt(rest, from, to);
            let tail = replace_spec(rest, from, to);
            assert forall|i: int| 0 <= i < r.len() implies #[trigger] r[i] != '<' by {
                if i >= to.len() {
                    assert(r[i] == tail[i - to.len()]);
                }
            }
        } else {
            let rest = s.skip(1);
            assert(no_lt(rest)) by {
                assert forall|i: int| 0 <= i < rest.len() implies #[trigger] rest[i] != '<' by {
                    assert(rest[i] == s[i + 1]);
                }
            }
            lemma_replace_no_lt(rest, from, to);
            let tail = replace_spec(rest, from, to);
            assert forall|i: int| 0 <= i < r.len() implies #[trigger] r[i] != '<' by {
                if i >= 1 {
                    assert(r[i] == tail[i - 1]);
                }
            }
        }
    }
}

proof fn lemma_ref_count(r: (Seq<char>, usize), url: Option<Seq<char>>)
    requires
        url matches Some(u) ==> no_lt(u),
    ensures
        count_occurrences(ref_html(r, url), badge_open()) == 0,
        no_straddle(ref_html(r, url), badge_open()),
{
    let pat = badge_open();
    lemma_badge_open();
    let file = html_escape_spec(r.0);
    let line = decimal(r.1 as nat);
    lemma_escape_no_lt(r.0);
    lemma_decimal_no_lt(r.1 as nat);
    lemma_count_plain(file, pat);
    lemma_count_plain(line, pat);
    reveal_strlit(":");
    let colon = ":"@;
    lemma_count_plain(colon, pat);
    match url {
        Some(tpl) => {
            let with_file = replace_spec(tpl, "{file}"@, file);
            let link = replace_spec(with_file, "{line}"@, line);
            lemma_replace_no_lt(tpl, "{file}"@, file);
            lemma_replace_no_lt(with_file, "{line}"@, line);
            lemma_count_plain(link, pat);
            reveal_strlit("<a href=\"");
            reveal_strlit("\">");
            reveal_strlit("</a>");
            let a = "<a href=\""@;
            let q = "\">"@;
            let c = "</a>"@;
            lemma_count_other_tag(a, 0, 1, pat);
            lemma_count_plain(q, pat);
            lemma_count_other_tag(c, 0, 1, pat);
            lemma_count_seam(a, link, pat);
            lemma_count_seam(a + link, q, pat);
            lemma_count_seam(a + link + q, file, pat);
            lemma_count_seam(a + link + q + file, colon, pat);
            lemma_count_seam(a + link + q + file + colon, line, pat);
            lemma_count_seam(a + link + q + file + colon + line, c, pat);
        },
        None => {
            reveal_strlit("<span>");
            reveal_strlit("</span>");
            let a = "<span>"@;
            let c = "</span>"@;
            lemma_count_other_tag(a, 0, 5, pat);
            lemma_count_other_tag(c, 0, 1, pat);
            lemma_count_seam(a, file, pat);
            lemma_count_seam(a + file, colon, pat);
            lemma_count_seam(a + file + colon, line, pat);
            lemma_count_seam(a + file + colon + line, c, pat);
        },
    }
}

proof fn lemma_refs_count(refs: Seq<(Seq<char>, usize)>, url: Option<Seq<char>>)
    requires
        url matches Some(u) ==> no_lt(u),
    ensures
        count_occurrences(refs_html(refs, url), badge_open()) == 0,
        no_straddle(refs_html(refs, url), badge_open()),
    decreases refs.len(),
{
    let pat = badge_open();
    lemma_badge_open();
    if refs.len() == 0 {
        lemma_count_plain(seq![], pat);
    } else {
        lemma_refs_count(refs.drop_last(), url);
        lemma_ref_count(refs.last(), url);
        lemma_count_seam(refs_html(refs.drop_last(), url), ref_html(refs.last(), url), pat);
    }
}

proof fn lemma_badge_count(kind: Seq<char>, refs: Seq<(Seq<char>, usize)>, url: Option<Seq<char>>)
    requires
        no_lt(kind),
        url matches Some(u) ==> no_lt(u),
    ensures
        count_occurrences(badge_spec(kind, refs, url), badge_open()) == 1,
        no_straddle(badge_spec(kind, refs, url), badge_open()),
{
    let pat = badge_open();
    lemma_badge_open();
    lemma_count_self(pat);
    lemma_count_plain(kind, pat);
    reveal_strlit(" zero");
    reveal_strlit("\">");
    reveal_strlit(" ");
    reveal_strlit("<div class=\"tracey-popover\">");
    reveal_strlit("</div>");
    reveal_strlit("</span>");
    let zero = if refs.len() == 0 {
        " zero"@
    } else {
        seq![]
    };
    lemma_count_plain(zero, pat);
    let q = "\">"@;
    let sp = " "@;
    lemma_count_plain(q, pat);
    lemma_count_plain(sp, pat);
    let n = decimal(refs.len());
    lemma_decimal_no_lt(refs.len());
    lemma_count_plain(n, pat);
    let popover = if refs.len() == 0 {
        seq![]
    } else {
        "<div class=\"tracey-popover\">"@ + refs_html(refs, url) + "</div>"@
    };
    if refs.len() == 0 {
        lemma_count_plain(popover, pat);
    } else {
        let o = "<div class=\"tracey-popover\">"@;
        let c = "</div>"@;
        lemma_count_other_tag(o, 0, 1, pat);
        lemma_count_other_tag(c, 0, 1, pat);
        lemma_refs_count(refs, url);
        lemma_count_seam(o, refs_html(refs, url), pat);
        lemma_count_seam(o + refs_html(refs, url), c, pat);
    }
    let close = "</span>"@;
    lemma_count_other_tag(close, 0, 1, pat);
    lemma_count_seam(pat, kind, pat);
    lemma_count_seam(pat + kind, zero, pat);
    lemma_count_seam(pat + kind + zero, q, pat);
    lemma_count_seam(pat + kind + zero + q, kind, pat);
    lemma_count_seam(pat + kind + zero + q + kind, sp, pat);
    lemma_count_seam(pat + kind + zero + q + kind + sp, n, pat);
    lemma_count_seam(pat + kind + zero + q + kind + sp + n, popover, pat);
    lemma_count_seam(pat + kind + zero + q + kind + sp + n + popover, close, pat);
}

/// Each marker block holds the opening of a badge `<span class="tracey-badge `
/// exactly twice, the impl and the verify badge, when coverage is given,
/// and never without coverage; the block ends with `</div>` and a blank
/// line. This holds whenever the link template holds no `<`.
pub proof fn lemma_block_badges(m: MarkerView, cov: Option<CoverageView>, repo_url: Option<Seq<char>>)
    requires
        repo_url matches Some(u) ==> forall|i: int| 0 <= i < u.len() ==> u[i] != '<',
    ensures
        count_occurrences(render_spec(m, cov, repo_url), badge_open()) == if cov is Some {
            2nat
        } else {
            0nat
        },
        render_spec(m, cov, repo_url).len() >= 8,
        render_spec(m, cov, repo_url).skip(render_spec(m, cov, repo_url).len() - 8) == "</div>\n\n"@,
{
    let pat = badge_open();
    lemma_badge_open();
    let anchor = anchor_spec(m);
    let label = html_escape_spec(rule_id_display(m.id));
    lemma_escape_no_lt(m.prefix + seq!['-'] + rule_id_display(m.id));
    lemma_escape_no_lt(rule_id_display(m.id));
    lemma_count_plain(anchor, pat);
    lemma_count_plain(label, pat);
    reveal_strlit("<div class=\"tracey-req\" id=\"");
    reveal_strlit("\"><a class=\"tracey-req-anchor\" href=\"#");
    reveal_strlit("\">");
    reveal_strlit("</a>");
    reveal_strlit("</div>\n\n");
    reveal_strlit("<span class=\"tracey-req-badges\">");
    reveal_strlit("</span>");
    reveal_strlit("impl");
    reveal_strlit("verify");
    let l1 = "<div class=\"tracey-req\" id=\""@;
    let l2 = "\"><a class=\"tracey-req-anchor\" href=\"#"@;
    let l3 = "\">"@;
    let l4 = "</a>"@;
    let l5 = "</div>\n\n"@;
    lemma_count_other_tag(l1, 0, 1, pat);
    lemma_count_other_tag(l2, 2, 1, pat);
    lemma_count_plain(l3, pat);
    lemma_count_other_tag(l4, 0, 1, pat);
    lemma_count_other_tag(l5, 0, 1, pat);
    lemma_count_seam(l1, anchor, pat);
    lemma_count_seam(l1 + anchor, l2, pat);
    lemma_count_seam(l1 + anchor + l2, anchor, pat);
    lemma_count_seam(l1 + anchor + l2 + anchor, l3, pat);
    lemma_count_seam(l1 + anchor + l2 + anchor + l3, label, pat);
    lemma_count_seam(l1 + anchor + l2 + anchor + l3 + label, l4, pat);
    let head = l1 + anchor + l2 + anchor + l3 + label + l4;
    let badges = match cov {
        Some(c) => "<span class=\"tracey-req-badges\">"@ + badge_spec("impl"@, c.impl_refs, repo_url)
            + badge_spec("verify"@, c.verify_refs, repo_url) + "</span>"@,
        None => seq![],
    };
    if let Some(c) = repo_url {
        assert(no_lt(c));
    }
    match cov {
        Some(c) => {
            let o = "<span class=\"tracey-req-badges\">"@;
            let b1 = badge_spec("impl"@, c.impl_refs, repo_url);
            let b2 = badge_spec("verify"@, c.verify_refs, repo_url);
            let cl = "</span>"@;
            lemma_count_other_tag(o, 0, 20, pat);
            lemma_count_other_tag(cl, 0, 1, pat);
            lemma_badge_count("impl"@, c.impl_refs, repo_url);
            lemma_badge_count("verify"@, c.verify_refs, repo_url);
            lemma_count_seam(o, b1, pat);
            lemma_count_seam(o + b1, b2, pat);
            lemma_count_seam(o + b1 + b2, cl, pat);
        },
        None => {
            lemma_count_plain(badges, pat);
        },
    }
    lemma_count_seam(head, badges, pat);
    lemma_count_seam(head + badges, l5, pat);
    let r = render_spec(m, cov, repo_url);
    assert(r =~= head + badges + l5);
    assert(r.skip(r.len() - 8) =~= l5);
}

} // verus!
