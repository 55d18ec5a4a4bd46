//! Feed fixture markdown through the marker/render pipeline.

use mdbook_tracey::coverage::CoverageMap;
use mdbook_tracey::marker::find_markers;
use mdbook_tracey::render::render_marker;

/// End-to-end chapter transform (the same splice as `process_chapter`,
/// minus the style-inject toggle which is tested separately).
fn transform(content: &str, cov: Option<&CoverageMap>) -> String {
    let markers = find_markers(content);
    let mut out = String::new();
    let mut cursor = 0;
    for m in &markers {
        out.push_str(&content[cursor..m.line_span.start]);
        let c = cov.and_then(|map| map.get(&m.id.base));
        out.push_str(&render_marker(m, c, None));
        cursor = m.line_span.end;
    }
    out.push_str(&content[cursor..]);
    out
}

const INLINE_MD: &str = "# Security

r[sec.drv.validate]
Derivations are validated before scheduling.

Additional validation checks (below) are enforced at other points.
These are **not** covered by `r[sec.drv.validate]` itself.

| Check | Component | Requirement |
|-------|-----------|-------------|
| NAR SHA-256 | Store | `r[sec.drv.validate]` |

When implementing r[sec.drv.validate] you should also consider the
threat model described above.
";

#[test]
fn inline_mentions_survive() {
    let out = transform(INLINE_MD, None);
    // Exactly one definition (the one at column 0); the table cell,
    // inline-code, and mid-sentence mentions are prose.
    assert_eq!(out.matches(r#"id="r-sec.drv.validate""#).count(), 1);
    // Prose mentions are still there verbatim.
    assert!(out.contains("`r[sec.drv.validate]`"));
    assert!(out.contains("When implementing r[sec.drv.validate]"));
}

const BOOK_CHAPTER: &str = "# Observability

## Log Lifecycle

r[obs.log.batch-64-100ms]
Log lines are batched (up to 64 lines or 100ms, whichever first) in `BuildLogBatch` messages.

> r[api.error-format]
> API errors must follow this format:
>
> ```json
> {\"error\": \"message\", \"code\": 400}
> ```

When implementing r[obs.log.batch-64-100ms] you should consider the batching trade-off.
The inline `r[obs.log.periodic-flush]` reference above is also prose.

```markdown
r[example.only]
This marker is inside a fence — not a definition.
```
";

#[test]
fn book_chapter_definitions() {
    let markers = find_markers(BOOK_CHAPTER);
    let bases: Vec<&str> = markers.iter().map(|m| m.id.base.as_str()).collect();
    assert_eq!(bases, ["obs.log.batch-64-100ms", "api.error-format"]);
    let out = transform(BOOK_CHAPTER, None);
    assert_eq!(out.matches(r#"class="tracey-req""#).count(), 2);
    assert!(out.contains("r[example.only]"));
    assert!(out.contains("`r[obs.log.periodic-flush]`"));
}

const CODE_FENCE_MD: &str = "# Examples

r[real.requirement]
Real requirement text.

```markdown
r[example.one]
An example inside a fence.
```

Inline `r[example.two]` is prose.

`r[example.two]`
";

#[test]
fn code_fences_left_alone() {
    let out = transform(CODE_FENCE_MD, None);
    // Only one real marker (r[real.requirement]); the fenced and inline
    // ones survive as literal text.
    assert_eq!(out.matches(r#"class="tracey-req""#).count(), 1);
    assert!(out.contains("r[example.one]"));
    assert!(out.contains("`r[example.two]`"));
}

const HTML_BLOCK_MD: &str = "# HTML

<pre>
r[section.rule-name]
Example of a requirement definition.
</pre>

<!--
r[commented.out]
-->

r[real.marker]
The real requirement.
";

#[test]
fn html_blocks_left_alone() {
    let out = transform(HTML_BLOCK_MD, None);
    // Only r[real.marker] gets an anchor; the <pre> example and the
    // <!-- --> commented marker survive as literal text.
    assert_eq!(out.matches(r#"class="tracey-req""#).count(), 1);
    assert!(out.contains("r[section.rule-name]"));
    assert!(out.contains("r[commented.out]"));
    assert!(out.contains(r#"id="r-real.marker""#));
}
