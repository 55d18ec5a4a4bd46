//! mdbook preprocessor for [tracey](https://github.com/bearcove/tracey)
//! requirement annotations.
//!
//! Tracey defines requirements in spec markdown with `r[req.id]` markers.
//! mdbook renders those as raw text. This library turns each marker into
//! a styled anchor block (so you can link to `#r-req.id`), and — given
//! coverage data — decorates each anchor with impl/verify badges. Hover a
//! badge to see where the refs live; click through to GitHub.
use vstd::prelude::*;
use vstd::string::StringExecFns;
use vstd::string::StringSliceAdditionalSpecFns;
use vstd::utf8::*;

pub mod config;
pub mod coverage;
pub mod marker;
pub mod render;
pub mod text;
pub mod version;
pub mod worker;

use crate::config::{SpecConfig, TraceyConfig};
use crate::coverage::{Coverage, CoverageMap, CoverageView};
use crate::marker::{
    chapter_markers, find_markers, lemma_markers_placed, markers_placed, markers_view, Marker,
    MarkerView,
};
use crate::render::{opt_str_view, render_marker, render_spec, STYLE};
use crate::text::{
    bytes_lt, decimal, usize_to_string, lemma_boundary_after_ascii, lemma_boundary_at_ascii, lemma_bytes_lt_total,
    lemma_bytes_lt_transitive, lemma_str_bytes, str_eq, str_lt, str_slice, str_starts_with,
    has_prefix, trim_slashes, trim_trailing_slashes,
};

verus! {

broadcast use vstd::seq::group_seq_axioms;

/// The coverage map as a value, when one is given.
pub open spec fn opt_map_view(o: Option<&CoverageMap>) -> Option<Map<Seq<char>, CoverageView>> {
    match o {
        Some(m) => Some(m@),
        None => None,
    }
}

/// The coverage of a rule-ID base, looked up in the map when there is one.
pub open spec fn coverage_of(cov: Option<Map<Seq<char>, CoverageView>>, base: Seq<char>) -> Option<CoverageView> {
    match cov {
        Some(map) => if map.contains_key(base) {
            Some(map[base])
        } else {
            None
        },
        None => None,
    }
}

/// Where the text resumes after the first `k` markers: the end of the
/// `k`-th marker line, or 0 before any marker.
pub open spec fn resume_at(ms: Seq<MarkerView>, k: int) -> int {
    if k <= 0 {
        0
    } else {
        ms[k - 1].end
    }
}

/// The chapter text up to the end of the `k`-th marker, with the first `k`
/// marker lines replaced by their HTML.
pub open spec fn spliced_upto(
    t: Seq<u8>,
    ms: Seq<MarkerView>,
    cov: Option<Map<Seq<char>, CoverageView>>,
    repo_url: Option<Seq<char>>,
    k: int,
) -> Seq<char>
    decreases k,
{
    if k <= 0 {
        seq![]
    } else {
        spliced_upto(t, ms, cov, repo_url, k - 1) + decode_utf8(
            t.subrange(resume_at(ms, k - 1), ms[k - 1].start),
        ) + render_spec(ms[k - 1], coverage_of(cov, ms[k - 1].id.0), repo_url)
    }
}

/// The chapter text with every marker line replaced by its HTML and
/// everything else kept byte for byte; the stylesheet first when asked for.
pub open spec fn chapter_output(
    t: Seq<u8>,
    ms: Seq<MarkerView>,
    cov: Option<Map<Seq<char>, CoverageView>>,
    repo_url: Option<Seq<char>>,
    inject_style: bool,
) -> Seq<char> {
    (if inject_style {
        STYLE@
    } else {
        seq![]
    }) + spliced_upto(t, ms, cov, repo_url, ms.len() as int) + decode_utf8(
        t.subrange(resume_at(ms, ms.len() as int), t.len() as int),
    )
}

/// The base itself when the coverage map lacks it; nothing when the map
/// has it or when there is no map.
pub open spec fn miss_of(cov: Option<Map<Seq<char>, CoverageView>>, base: Seq<char>) -> Seq<Seq<char>> {
    match cov {
        Some(map) => if map.contains_key(base) {
            seq![]
        } else {
            seq![base]
        },
        None => seq![],
    }
}

/// The bases of the first `k` markers that the coverage map lacks, in
/// order; none when there is no map.
pub open spec fn missing_upto(ms: Seq<MarkerView>, cov: Option<Map<Seq<char>, CoverageView>>, k: int) -> Seq<Seq<char>>
    decreases k,
{
    if k <= 0 {
        seq![]
    } else {
        missing_upto(ms, cov, k - 1) + miss_of(cov, ms[k - 1].id.0)
    }
}

/// Without a coverage map nothing is missing.
pub proof fn lemma_no_miss_without_coverage(ms: Seq<MarkerView>)
    ensures
        missing(ms, None) == Seq::<Seq<char>>::empty(),
{
    assert forall|k: int| 0 <= k <= ms.len() implies missing_upto(ms, None, k) == Seq::<Seq<char>>::empty() by {
        lemma_missing_none(ms, k);
    }
}

proof fn lemma_missing_none(ms: Seq<MarkerView>, k: int)
    ensures
        missing_upto(ms, None, k) == Seq::<Seq<char>>::empty(),
    decreases k,
{
    if k > 0 {
        lemma_missing_none(ms, k - 1);
        assert(missing_upto(ms, None, k) =~= Seq::<Seq<char>>::empty());
    }
}

/// All the bases of `ms` that the coverage map lacks.
pub open spec fn missing(ms: Seq<MarkerView>, cov: Option<Map<Seq<char>, CoverageView>>) -> Seq<Seq<char>> {
    missing_upto(ms, cov, ms.len() as int)
}

pub open spec fn strings_view(v: Seq<String>) -> Seq<Seq<char>> {
    v.map_values(|s: String| s@)
}

proof fn lemma_line_boundary(t: Seq<u8>, p: int)
    requires
        valid_utf8(t),
        0 <= p <= t.len(),
        p == 0 || p == t.len() || t[p - 1] == 0x0a,
    ensures
        is_char_boundary(t, p),
{
    if p == 0 || p == t.len() {
        lemma_boundary_at_ascii(t, p);
    } else {
        lemma_boundary_after_ascii(t, p - 1);
    }
}

/// A lookup in the coverage map: a base that the map holds gets exactly
/// the map's coverage for it, whatever that coverage is, and is not
/// reported missing; a base the map lacks gets no coverage and is reported;
/// without a map nothing gets coverage and nothing is reported.
pub proof fn lemma_coverage_lookup(cov: Option<Map<Seq<char>, CoverageView>>, base: Seq<char>)
    ensures
        cov matches Some(m) ==> (m.contains_key(base) ==> coverage_of(cov, base) == Some(m[base])
            && miss_of(cov, base).len() == 0),
        cov matches Some(m) ==> (!m.contains_key(base) ==> coverage_of(cov, base) is None
            && miss_of(cov, base) == seq![base]),
        cov is None ==> coverage_of(cov, base) is None && miss_of(cov, base).len() == 0,
{
}

/// The chapter up to the end of the first `j` markers is a prefix of the
/// chapter up to the end of the first `n`; the rest is returned.
proof fn lemma_spliced_prefix(
    t: Seq<u8>,
    ms: Seq<MarkerView>,
    cov: Option<Map<Seq<char>, CoverageView>>,
    repo_url: Option<Seq<char>>,
    j: int,
    n: int,
) -> (rest: Seq<char>)
    requires
        0 <= j <= n,
    ensures
        spliced_upto(t, ms, cov, repo_url, n) == spliced_upto(t, ms, cov, repo_url, j) + rest,
    decreases n - j,
{
    if n == j {
        assert(spliced_upto(t, ms, cov, repo_url, n) =~= spliced_upto(t, ms, cov, repo_url, j) + seq![]);
        seq![]
    } else {
        let r = lemma_spliced_prefix(t, ms, cov, repo_url, j, n - 1);
        let g = decode_utf8(t.subrange(resume_at(ms, n - 1), ms[n - 1].start));
        let h = render_spec(ms[n - 1], coverage_of(cov, ms[n - 1].id.0), repo_url);
        assert(spliced_upto(t, ms, cov, repo_url, n) =~= spliced_upto(t, ms, cov, repo_url, j) + (r + g + h));
        r + g + h
    }
}

/// The HTML block that stands for the `k`-th marker of a chapter.
pub open spec fn marker_html(
    ms: Seq<MarkerView>,
    cov: Option<Map<Seq<char>, CoverageView>>,
    repo_url: Option<Seq<char>>,
    k: int,
) -> Seq<char> {
    render_spec(ms[k], coverage_of(cov, ms[k].id.0), repo_url)
}

/// The stylesheet when it is asked for, nothing otherwise.
pub open spec fn style_text(inject_style: bool) -> Seq<char> {
    if inject_style {
        STYLE@
    } else {
        seq![]
    }
}

/// A chapter without markers comes out as the stylesheet (when asked for)
/// followed by the whole text.
pub proof fn lemma_output_without_markers(
    t: Seq<u8>,
    ms: Seq<MarkerView>,
    cov: Option<Map<Seq<char>, CoverageView>>,
    repo_url: Option<Seq<char>>,
    inject_style: bool,
)
    requires
        ms.len() == 0,
    ensures
        chapter_output(t, ms, cov, repo_url, inject_style) == style_text(inject_style) + decode_utf8(
            t.subrange(0, t.len() as int),
        ),
{
    assert(chapter_output(t, ms, cov, repo_url, inject_style) =~= style_text(inject_style) + decode_utf8(
        t.subrange(0, t.len() as int),
    ));
}

/// The rewritten chapter opens with the stylesheet (when asked for), then
/// the text before the first marker line, unchanged, then that marker's
/// block; the rest follows.
pub proof fn lemma_output_opening(
    t: Seq<u8>,
    ms: Seq<MarkerView>,
    cov: Option<Map<Seq<char>, CoverageView>>,
    repo_url: Option<Seq<char>>,
    inject_style: bool,
) -> (rest: Seq<char>)
    requires
        ms.len() > 0,
    ensures
        chapter_output(t, ms, cov, repo_url, inject_style) == style_text(inject_style) + decode_utf8(
            t.subrange(0, ms[0].start),
        ) + marker_html(ms, cov, repo_url, 0) + rest,
{
    let n = ms.len() as int;
    let r = lemma_spliced_prefix(t, ms, cov, repo_url, 1, n);
    let tail = decode_utf8(t.subrange(resume_at(ms, n), t.len() as int));
    assert(spliced_upto(t, ms, cov, repo_url, 0) =~= seq![]);
    let out = chapter_output(t, ms, cov, repo_url, inject_style);
    assert(out =~= style_text(inject_style) + decode_utf8(t.subrange(0, ms[0].start)) + marker_html(
        ms,
        cov,
        repo_url,
        0,
    ) + (r + tail));
    r + tail
}

/// Between the blocks of two consecutive markers stands, unchanged, the
/// text that lies between their lines in the chapter: the rewritten chapter
/// reads `before`, block `k`, that text, block `k + 1`, `after`.
pub proof fn lemma_output_between(
    t: Seq<u8>,
    ms: Seq<MarkerView>,
    cov: Option<Map<Seq<char>, CoverageView>>,
    repo_url: Option<Seq<char>>,
    inject_style: bool,
    k: int,
) -> (around: (Seq<char>, Seq<char>))
    requires
        0 <= k,
        k + 1 < ms.len(),
    ensures
        chapter_output(t, ms, cov, repo_url, inject_style) == around.0 + marker_html(ms, cov, repo_url, k)
            + decode_utf8(t.subrange(ms[k].end, ms[k + 1].start)) + marker_html(ms, cov, repo_url, k + 1)
            + around.1,
{
    let n = ms.len() as int;
    let r = lemma_spliced_prefix(t, ms, cov, repo_url, k + 2, n);
    let tail = decode_utf8(t.subrange(resume_at(ms, n), t.len() as int));
    let before = style_text(inject_style) + spliced_upto(t, ms, cov, repo_url, k) + decode_utf8(
        t.subrange(resume_at(ms, k), ms[k].start),
    );
    let out = chapter_output(t, ms, cov, repo_url, inject_style);
    let s0 = spliced_upto(t, ms, cov, repo_url, k);
    let g0 = decode_utf8(t.subrange(resume_at(ms, k), ms[k].start));
    let g1 = decode_utf8(t.subrange(ms[k].end, ms[k + 1].start));
    let h0 = marker_html(ms, cov, repo_url, k);
    let h1 = marker_html(ms, cov, repo_url, k + 1);
    assert(resume_at(ms, k + 1) == ms[k].end);
    assert(spliced_upto(t, ms, cov, repo_url, k + 1) == s0 + g0 + h0);
    assert(spliced_upto(t, ms, cov, repo_url, k + 2) == spliced_upto(t, ms, cov, repo_url, k + 1) + g1 + h1);
    assert(out =~= before + marker_html(ms, cov, repo_url, k) + decode_utf8(
        t.subrange(ms[k].end, ms[k + 1].start),
    ) + marker_html(ms, cov, repo_url, k + 1) + (r + tail));
    (before, r + tail)
}

/// The rewritten chapter closes with the last marker's block followed by
/// the text after the last marker line, unchanged.
pub proof fn lemma_output_closing(
    t: Seq<u8>,
    ms: Seq<MarkerView>,
    cov: Option<Map<Seq<char>, CoverageView>>,
    repo_url: Option<Seq<char>>,
    inject_style: bool,
) -> (before: Seq<char>)
    requires
        ms.len() > 0,
    ensures
        chapter_output(t, ms, cov, repo_url, inject_style) == before + marker_html(
            ms,
            cov,
            repo_url,
            ms.len() - 1,
        ) + decode_utf8(t.subrange(ms[ms.len() - 1].end, t.len() as int)),
{
    let n = ms.len() as int;
    let b = style_text(inject_style) + spliced_upto(t, ms, cov, repo_url, n - 1) + decode_utf8(
        t.subrange(resume_at(ms, n - 1), ms[n - 1].start),
    );
    assert(chapter_output(t, ms, cov, repo_url, inject_style) =~= b + marker_html(ms, cov, repo_url, n - 1)
        + decode_utf8(t.subrange(ms[n - 1].end, t.len() as int)));
    b
}

/// Rewrite a chapter given its markers: copy the text between markers and
/// splice rendered HTML in place of each marker line. Markers whose base
/// the coverage map lacks are pushed onto `misses`.
pub fn render_chapter(
    content: &str,
    markers: &[Marker],
    coverage: Option<&CoverageMap>,
    repo_url: Option<&str>,
    inject_style: bool,
    misses: &mut Vec<String>,
) -> (r: String)
    requires
        markers_placed(content.spec_bytes(), markers_view(markers@)),
    ensures
        r@ == chapter_output(
            content.spec_bytes(),
            markers_view(markers@),
            opt_map_view(coverage),
            opt_str_view(repo_url),
            inject_style,
        ),
        strings_view(final(misses)@) == strings_view(old(misses)@) + missing(
            markers_view(markers@),
            opt_map_view(coverage),
        ),
{
    let ghost t = content.spec_bytes();
    let ghost ms = markers_view(markers@);
    let ghost cov = opt_map_view(coverage);
    let ghost url = opt_str_view(repo_url);
    let ghost style: Seq<char> = if inject_style {
        STYLE@
    } else {
        seq![]
    };
    let ghost old_misses = strings_view(misses@);
    proof {
        lemma_str_bytes(content);
    }
    let n = content.as_bytes().len();
    let mut out = String::new();
    if inject_style {
        out.append(STYLE);
    }
    let mut cursor: usize = 0;
    for i in 0..markers.len()
        invariant
            t == content.spec_bytes(),
            valid_utf8(t),
            n == t.len(),
            ms == markers_view(markers@),
            markers_placed(t, ms),
            cov == opt_map_view(coverage),
            url == opt_str_view(repo_url),
            cursor as int == resume_at(ms, i as int),
            cursor == 0 || t[cursor - 1] == 0x0a || cursor == n,
            cursor <= n,
            out@ == style + spliced_upto(t, ms, cov, url, i as int),
            strings_view(misses@) == old_misses + missing_upto(ms, cov, i as int),
    {
        let m = &markers[i];
        proof {
            assert(ms[i as int] == m@);
            if i > 0 {
                assert(ms[i - 1].end <= ms[i as int].start);
            }
            lemma_line_boundary(t, cursor as int);
            lemma_line_boundary(t, m.line_span.start as int);
        }
        let gap = str_slice(content, cursor, m.line_span.start);
        proof {
            lemma_str_bytes(gap);
        }
        out.append(gap);
        let cov_here = coverage_for(coverage, &m.id.base, misses);
        let html = render_marker(m, cov_here, repo_url);
        out.append(html.as_str());
        cursor = m.line_span.end;
        proof {
            assert(out@ =~= style + spliced_upto(t, ms, cov, url, i + 1));
            assert(strings_view(misses@) =~= old_misses + missing_upto(ms, cov, i + 1));
        }
    }
    proof {
        lemma_line_boundary(t, cursor as int);
        lemma_line_boundary(t, n as int);
    }
    let rest = str_slice(content, cursor, n);
    proof {
        lemma_str_bytes(rest);
    }
    out.append(rest);
    proof {
        assert(out@ =~= chapter_output(t, ms, cov, url, inject_style));
    }
    out
}

/// The coverage of `base` in the map, if any; a base that the map lacks is
/// pushed onto `misses`.
fn coverage_for<'a>(coverage: Option<&'a CoverageMap>, base: &String, misses: &mut Vec<String>) -> (r: Option<&'a Coverage>)
    ensures
        crate::render::opt_coverage_view(r) == coverage_of(opt_map_view(coverage), base@),
        strings_view(final(misses)@) == strings_view(old(misses)@) + miss_of(opt_map_view(coverage), base@),
{
    match coverage {
        Some(map) => match map.get(base.as_str()) {
            Some(c) => {
                assert(strings_view(misses@) =~= strings_view(misses@) + miss_of(opt_map_view(coverage), base@));
                Some(c)
            },
            None => {
                let ghost before = misses@;
                misses.push(base.clone());
                assert(strings_view(misses@) =~= strings_view(before) + miss_of(opt_map_view(coverage), base@));
                None
            },
        },
        None => {
            assert(strings_view(misses@) =~= strings_view(misses@) + miss_of(opt_map_view(coverage), base@));
            None
        },
    }
}

/// Rewrite one chapter's markdown. Returns `None` if no markers were found
/// (leaves chapters without tracey annotations byte-identical). When
/// `coverage` is `Some` but a marker's ID is absent from the map, the ID is
/// pushed onto `misses` so the caller can warn.
pub fn process_chapter(
    content: &str,
    coverage: Option<&CoverageMap>,
    repo_url: Option<&str>,
    inject_style: bool,
    misses: &mut Vec<String>,
) -> (r: Option<String>)
    ensures
        chapter_markers(content@).len() == 0 ==> r is None && final(misses)@ == old(misses)@,
        chapter_markers(content@).len() > 0 ==> {
            &&& r matches Some(out) && out@ == chapter_output(
                content.spec_bytes(),
                chapter_markers(content@),
                opt_map_view(coverage),
                opt_str_view(repo_url),
                inject_style,
            )
            &&& strings_view(final(misses)@) == strings_view(old(misses)@) + missing(
                chapter_markers(content@),
                opt_map_view(coverage),
            )
        },
{
    let markers = find_markers(content);
    if markers.len() == 0 {
        return None;
    }
    proof {
        let t = content.spec_bytes();
        let events = marker::markdown_events(content@);
        lemma_markers_placed(t, marker::code_mask_spec(t.len(), events), marker::para_starts_spec(t.len(), events));
    }
    Some(render_chapter(content, markers.as_slice(), coverage, repo_url, inject_style, misses))
}

/// Strictly increasing in the byte order of `String`s, hence without
/// repeats.
pub open spec fn strictly_sorted(v: Seq<Seq<char>>) -> bool {
    forall|i: int, j: int| 0 <= i < j < v.len() ==> bytes_lt(encode_utf8(#[trigger] v[i]), encode_utf8(#[trigger] v[j]))
}

/// Sort `names` in the order of `String`s and drop repeats.
pub fn sort_dedup(names: &mut Vec<String>)
    ensures
        strictly_sorted(strings_view(final(names)@)),
        forall|x: Seq<char>| strings_view(final(names)@).contains(x) <==> strings_view(old(names)@).contains(x),
{
    let ghost input = strings_view(names@);
    let mut out: Vec<String> = Vec::new();
    let n = names.len();
    for i in 0..n
        invariant
            n == names@.len(),
            input == strings_view(names@),
            strictly_sorted(strings_view(out@)),
            forall|x: Seq<char>| strings_view(out@).contains(x) <==> input.take(i as int).contains(x),
    {
        let name = &names[i];
        let ghost sv = strings_view(out@);
        let ghost x = name@;
        let mut j: usize = 0;
        while j < out.len() && str_lt(out[j].as_str(), name.as_str())
            invariant
                j <= out@.len(),
                sv == strings_view(out@),
                x == name@,
                forall|k: int| 0 <= k < j ==> bytes_lt(encode_utf8(#[trigger] sv[k]), encode_utf8(x)),
            decreases out@.len() - j,
        {
            j += 1;
        }
        proof {
            let pre = input.take(i as int);
            let post = input.take(i + 1);
            assert(post =~= pre.push(x));
            assert forall|y: Seq<char>| post.contains(y) <==> (pre.contains(y) || y == x) by {
                if post.contains(y) {
                    let k = choose|k: int| 0 <= k < post.len() && post[k] == y;
                    if k < i {
                        assert(pre[k] == y);
                    }
                }
                if pre.contains(y) {
                    let k = choose|k: int| 0 <= k < pre.len() && pre[k] == y;
                    assert(post[k] == y);
                }
                if y == x {
                    assert(post[i as int] == y);
                }
            }
        }
        if j < out.len() && str_eq(out[j].as_str(), name.as_str()) {
            proof {
                assert(sv[j as int] == x);
            }
        } else {
            proof {
                if j < sv.len() {
                    // out[j] is not below the new name and differs from it,
                    // so the name comes before it and everything after it.
                    lemma_bytes_lt_total(encode_utf8(sv[j as int]), encode_utf8(x));
                    if encode_utf8(sv[j as int]) == encode_utf8(x) {
                        encode_utf8_decode_utf8(sv[j as int]);
                        encode_utf8_decode_utf8(x);
                    }
                    assert forall|k: int| j <= k < sv.len() implies bytes_lt(encode_utf8(x), encode_utf8(#[trigger] sv[k])) by {
                        if k > j {
                            lemma_bytes_lt_transitive(encode_utf8(x), encode_utf8(sv[j as int]), encode_utf8(sv[k]));
                        }
                    }
                }
            }
            out.insert(j, name.clone());
            proof {
                let nv = strings_view(out@);
                assert(nv =~= sv.insert(j as int, x));
                assert forall|a: int, b: int| 0 <= a < b < nv.len() implies bytes_lt(encode_utf8(#[trigger] nv[a]), encode_utf8(#[trigger] nv[b])) by {
                    if b < j {
                    } else if a < j && b == j {
                    } else if a < j {
                        assert(nv[b] == sv[b - 1]);
                    } else if a == j {
                        assert(nv[b] == sv[b - 1]);
                    } else {
                        assert(nv[a] == sv[a - 1]);
                        assert(nv[b] == sv[b - 1]);
                    }
                }
                assert forall|y: Seq<char>| nv.contains(y) <==> (sv.contains(y) || y == x) by {
                    if nv.contains(y) {
                        let k = choose|k: int| 0 <= k < nv.len() && nv[k] == y;
                        if k < j {
                            assert(sv[k] == y);
                        } else if k > j {
                            assert(sv[k - 1] == y);
                        }
                    }
                    if sv.contains(y) {
                        let k = choose|k: int| 0 <= k < sv.len() && sv[k] == y;
                        if k < j {
                            assert(nv[k] == y);
                        } else {
                            assert(nv[k + 1] == y);
                        }
                    }
                    if y == x {
                        assert(nv[j as int] == y);
                    }
                }
            }
        }
    }
    proof {
        assert(input.take(n as int) =~= input);
    }
    *names = out;
}

/// The `source_url` of the first spec at or after `i` that has one.
pub open spec fn first_source_url(specs: Seq<SpecConfig>, i: int) -> Option<Seq<char>>
    decreases specs.len() - i,
{
    if i < 0 || i >= specs.len() {
        None
    } else {
        match specs[i].source_url {
            Some(u) => Some(u@),
            None => first_source_url(specs, i + 1),
        }
    }
}

/// The link template derived from the first spec's `source_url`: when,
/// without trailing slashes, it is a GitHub repository URL, its
/// `/blob/HEAD/{file}#L{line}` page; nothing otherwise.
pub open spec fn repo_url_spec(cfg: TraceyConfig) -> Option<Seq<char>> {
    match first_source_url(cfg.specs@, 0) {
        None => None,
        Some(u) => {
            let source = trim_slashes(u);
            if has_prefix(source, "https://github.com/"@) {
                Some(source + "/blob/HEAD/{file}#L{line}"@)
            } else {
                None
            }
        },
    }
}

/// Derive a `{file}`/`{line}` URL template from `SpecConfig.source_url` if
/// it looks like a GitHub repo. Returns `None` otherwise — refs render as
/// plain `<span>` in the popover. `/blob/HEAD/` resolves to the default
/// branch, whatever it is called.
pub fn derive_repo_url(cfg: &TraceyConfig) -> (r: Option<String>)
    ensures
        r matches Some(u) ==> repo_url_spec(*cfg) == Some(u@),
        r is None ==> repo_url_spec(*cfg) is None,
{
    let specs = &cfg.specs;
    let mut i: usize = 0;
    while i < specs.len() && specs[i].source_url.is_none()
        invariant
            i <= specs@.len(),
            first_source_url(specs@, i as int) == first_source_url(specs@, 0),
        decreases specs@.len() - i,
    {
        i += 1;
    }
    if i >= specs.len() {
        return None;
    }
    match &specs[i].source_url {
        Some(u) => {
            let source = trim_trailing_slashes(u.as_str());
            if str_starts_with(source, "https://github.com/") {
                let mut out = String::new();
                out.append(source);
                out.append("/blob/HEAD/{file}#L{line}");
                Some(out)
            } else {
                None
            }
        },
        None => None,
    }
}

/// The link template in use: only with tracey's configuration, and then
/// the explicit template when one is given, the one derived from the
/// configuration otherwise.
pub fn link_template(explicit: Option<&str>, tracey: Option<&TraceyConfig>) -> (r: Option<String>)
    ensures
        tracey is None ==> r is None,
        tracey matches Some(c) ==> match explicit {
            Some(u) => r matches Some(v) && v@ == u@,
            None => match r {
                Some(v) => repo_url_spec(*c) == Some(v@),
                None => repo_url_spec(*c) is None,
            },
        },
{
    match tracey {
        None => None,
        Some(c) => match explicit {
            Some(u) => Some(u.to_owned()),
            None => derive_repo_url(c),
        },
    }
}

/// The names joined with `, ` between them.
pub open spec fn join_names(names: Seq<Seq<char>>) -> Seq<char>
    decreases names.len(),
{
    if names.len() == 0 {
        seq![]
    } else if names.len() == 1 {
        names[0]
    } else {
        join_names(names.drop_last()) + ", "@ + names.last()
    }
}

/// The warning about rules that the coverage data lacks.
pub open spec fn missing_warning_text(names: Seq<Seq<char>>) -> Seq<char> {
    "mdbook-tracey: warning: "@ + decimal(names.len()) + " rule(s) not found in coverage scan: "@
        + join_names(names)
}

/// The warning about rules that the coverage data lacks; none when it lacks
/// none.
pub fn missing_rules_warning(names: &[String]) -> (r: Option<String>)
    ensures
        names@.len() == 0 ==> r is None,
        names@.len() > 0 ==> (r matches Some(w) && w@ == missing_warning_text(strings_view(names@))),
{
    if names.len() == 0 {
        return None;
    }
    let ghost sv = strings_view(names@);
    let mut list = String::new();
    list.append(names[0].as_str());
    for i in 1..names.len()
        invariant
            sv == strings_view(names@),
            names@.len() > 0,
            list@ == join_names(sv.take(i as int)),
    {
        proof {
            assert(sv.take(i + 1).drop_last() =~= sv.take(i as int));
        }
        list.append(", ");
        list.append(names[i].as_str());
    }
    proof {
        assert(sv.take(1) =~= seq![sv[0]]);
        assert(sv.take(names@.len() as int) =~= sv);
    }
    let count = usize_to_string(names.len());
    let mut w = String::new();
    w.append("mdbook-tracey: warning: ");
    w.append(count.as_str());
    w.append(" rule(s) not found in coverage scan: ");
    w.append(list.as_str());
    Some(w)
}

/// A chapter before the `i`-th has markers.
pub open spec fn markers_before(chapters: Seq<Seq<char>>, i: int) -> bool
    decreases i,
{
    if i <= 0 {
        false
    } else {
        markers_before(chapters, i - 1) || chapter_markers(chapters[i - 1]).len() > 0
    }
}

/// What a chapter becomes: unchanged without markers, rewritten with them.
pub open spec fn processed_chapter(
    text: Seq<char>,
    cov: Option<Map<Seq<char>, CoverageView>>,
    repo_url: Option<Seq<char>>,
    inject_style: bool,
) -> Seq<char> {
    if chapter_markers(text).len() == 0 {
        text
    } else {
        chapter_output(encode_utf8(text), chapter_markers(text), cov, repo_url, inject_style)
    }
}

proof fn lemma_markers_before(chapters: Seq<Seq<char>>, i: int, j: int)
    requires
        0 <= i < j,
        chapter_markers(chapters[i]).len() > 0,
    ensures
        markers_before(chapters, j),
    decreases j,
{
    if j - 1 > i {
        lemma_markers_before(chapters, i, j - 1);
    }
}

/// `markers_before(chapters, i)` says exactly that some chapter before the
/// `i`-th has markers; before the first chapter none does.
pub proof fn lemma_markers_before_iff(chapters: Seq<Seq<char>>, i: int)
    ensures
        markers_before(chapters, i) <==> exists|k: int|
            0 <= k < i && chapter_markers(#[trigger] chapters[k]).len() > 0,
    decreases i,
{
    if i > 0 {
        lemma_markers_before_iff(chapters, i - 1);
        if exists|k: int| 0 <= k < i && chapter_markers(#[trigger] chapters[k]).len() > 0 {
            let k = choose|k: int| 0 <= k < i && chapter_markers(#[trigger] chapters[k]).len() > 0;
            if k < i - 1 {
                assert(chapter_markers(chapters[k]).len() > 0);
            }
        }
    }
}

/// With markers, a chapter rewritten with the stylesheet is the stylesheet
/// followed by the chapter rewritten without it; without markers a chapter
/// is left as it is either way.
pub proof fn lemma_style_prepended(
    text: Seq<char>,
    cov: Option<Map<Seq<char>, CoverageView>>,
    repo_url: Option<Seq<char>>,
)
    ensures
        chapter_markers(text).len() > 0 ==> processed_chapter(text, cov, repo_url, true) == STYLE@
            + processed_chapter(text, cov, repo_url, false),
        chapter_markers(text).len() == 0 ==> processed_chapter(text, cov, repo_url, true) == text
            && processed_chapter(text, cov, repo_url, false) == text,
{
    if chapter_markers(text).len() > 0 {
        let t = encode_utf8(text);
        let ms = chapter_markers(text);
        assert(chapter_output(t, ms, cov, repo_url, true) =~= STYLE@ + chapter_output(t, ms, cov, repo_url, false));
    }
}

/// With the style on, the first chapter of the book that has markers,
/// whichever it is (the very first chapter included), is the stylesheet
/// followed by its rewritten text; every later chapter with markers gets
/// no stylesheet.
pub proof fn lemma_first_marked_chapter_styled(
    chapters: Seq<Seq<char>>,
    cov: Option<Map<Seq<char>, CoverageView>>,
    repo_url: Option<Seq<char>>,
    i: int,
)
    requires
        0 <= i < chapters.len(),
        chapter_markers(chapters[i]).len() > 0,
    ensures
        (forall|k: int| 0 <= k < i ==> chapter_markers(#[trigger] chapters[k]).len() == 0)
            ==> processed_chapter(chapters[i], cov, repo_url, true && !markers_before(chapters, i))
            == STYLE@ + processed_chapter(chapters[i], cov, repo_url, false),
        (exists|k: int| 0 <= k < i && chapter_markers(#[trigger] chapters[k]).len() > 0)
            ==> processed_chapter(chapters[i], cov, repo_url, true && !markers_before(chapters, i))
            == processed_chapter(chapters[i], cov, repo_url, false),
{
    lemma_markers_before_iff(chapters, i);
    lemma_style_prepended(chapters[i], cov, repo_url);
}

/// The stylesheet goes into at most one chapter of a book: the first one
/// with markers. A later chapter with markers always has one before it.
pub proof fn lemma_style_at_most_once(chapters: Seq<Seq<char>>, i: int, j: int)
    requires
        0 <= i < j < chapters.len(),
        chapter_markers(chapters[i]).len() > 0,
        chapter_markers(chapters[j]).len() > 0,
    ensures
        !(!markers_before(chapters, i) && !markers_before(chapters, j)),
        markers_before(chapters, j),
{
    lemma_markers_before(chapters, i, j);
}

/// The bases that the coverage map lacks, over the first `i` chapters.
pub open spec fn book_missing(
    chapters: Seq<Seq<char>>,
    cov: Option<Map<Seq<char>, CoverageView>>,
    i: int,
) -> Seq<Seq<char>>
    decreases i,
{
    if i <= 0 {
        seq![]
    } else {
        book_missing(chapters, cov, i - 1) + missing(chapter_markers(chapters[i - 1]), cov)
    }
}

/// The preprocessor.
pub struct Tracey;

impl Tracey {
    /// The preprocessor's name, `tracey`, under which `book.toml` configures
    /// it.
    pub fn name(&self) -> (r: &'static str)
        ensures
            r@ == "tracey"@,
    {
        "tracey"
    }

    /// Only the HTML renderer is supported.
    pub fn supports_renderer(&self, renderer: &str) -> (r: bool)
        ensures
            r == (renderer@ == "html"@),
    {
        str_eq(renderer, "html")
    }

    /// Rewrite every chapter of a book, given as its chapters' texts in
    /// book order. The stylesheet goes to the first chapter that has
    /// markers when `style` is set. Returns the rule-ID bases that the
    /// coverage map lacks, sorted and without repeats, for the warning.
    pub fn run(
        &self,
        chapters: &mut Vec<String>,
        coverage: Option<&CoverageMap>,
        repo_url: Option<&str>,
        style: bool,
    ) -> (misses: Vec<String>)
        ensures
            final(chapters)@.len() == old(chapters)@.len(),
            forall|i: int|
                0 <= i < old(chapters)@.len() ==> #[trigger] final(chapters)@[i]@ == processed_chapter(
                    old(chapters)@[i]@,
                    opt_map_view(coverage),
                    opt_str_view(repo_url),
                    style && !markers_before(strings_view(old(chapters)@), i),
                ),
            strictly_sorted(strings_view(misses@)),
            forall|x: Seq<char>|
                strings_view(misses@).contains(x) <==> book_missing(
                    strings_view(old(chapters)@),
                    opt_map_view(coverage),
                    old(chapters)@.len() as int,
                ).contains(x),
    {
        let ghost texts = strings_view(chapters@);
        let ghost cov = opt_map_view(coverage);
        let ghost url = opt_str_view(repo_url);
        let mut misses: Vec<String> = Vec::new();
        let mut styled = false;
        let n = chapters.len();
        for i in 0..n
            invariant
                n == texts.len(),
                chapters@.len() == n,
                cov == opt_map_view(coverage),
                url == opt_str_view(repo_url),
                styled == markers_before(texts, i as int),
                forall|k: int|
                    0 <= k < i ==> #[trigger] chapters@[k]@ == processed_chapter(
                        texts[k],
                        cov,
                        url,
                        style && !markers_before(texts, k),
                    ),
                forall|k: int| i <= k < n ==> #[trigger] chapters@[k]@ == texts[k],
                strings_view(misses@) == book_missing(texts, cov, i as int),
        {
            assert(chapters@[i as int]@ == texts[i as int]);
            let out = process_chapter(chapters[i].as_str(), coverage, repo_url, style && !styled, &mut misses);
            match out {
                Some(text) => {
                    chapters.set(i, text);
                    styled = true;
                },
                None => {},
            }
            proof {
                if chapter_markers(texts[i as int]).len() == 0 {
                    assert(missing(chapter_markers(texts[i as int]), cov) =~= Seq::<Seq<char>>::empty());
                }
                assert(book_missing(texts, cov, i + 1) =~= book_missing(texts, cov, i as int)
                    + missing(chapter_markers(texts[i as int]), cov));
            }
        }
        sort_dedup(&mut misses);
        misses
    }
}

} // verus!
