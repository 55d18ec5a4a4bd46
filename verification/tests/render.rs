use mdbook_tracey::coverage::{Coverage, Ref};
use mdbook_tracey::marker::{find_markers, Marker};
use mdbook_tracey::render::{badge, html_escape, render_marker, STYLE};

fn first(md: &str) -> Marker {
    find_markers(md).into_iter().next().unwrap()
}

fn rf(file: &str, line: usize) -> Ref {
    Ref {
        file: file.into(),
        line,
    }
}

#[test]
fn anchor_only() {
    let m = first("r[obs.log.batch]\n");
    let html = render_marker(&m, None, None);
    assert!(html.contains(r#"id="r-obs.log.batch""#));
    assert!(html.contains(r##"href="#r-obs.log.batch""##));
    assert!(!html.contains("tracey-badge"));
    assert!(html.ends_with("\n\n"));
}

#[test]
fn with_coverage() {
    let m = first("r[obs.log.batch]\n");
    let cov = Coverage {
        impl_refs: vec![rf("a.rs", 1), rf("b.rs", 2)],
        verify_refs: vec![rf("t.rs", 5)],
    };
    let html = render_marker(&m, Some(&cov), None);
    assert!(html.contains(">impl 2<"));
    assert!(html.contains(">verify 1<"));
    assert!(!html.contains("zero"));
}

#[test]
fn zero_count_styling() {
    let m = first("r[obs.log.batch]\n");
    let cov = Coverage {
        impl_refs: vec![rf("a.rs", 1)],
        verify_refs: vec![],
    };
    let html = render_marker(&m, Some(&cov), None);
    assert!(html.contains(r#"class="tracey-badge verify zero""#));
    assert!(!html.contains(r#"class="tracey-badge impl zero""#));
}

#[test]
fn version_in_label_and_anchor() {
    let m = first("r[auth.login+3]\n");
    let html = render_marker(&m, None, None);
    // The display form of a rule ID includes +N when version > 1.
    assert!(html.contains(">auth.login+3<"));
    assert!(html.contains(r#"id="r-auth.login+3""#));
}

#[test]
fn popover_with_repo_url() {
    let m = first("r[obs.log.batch]\n");
    let cov = Coverage {
        impl_refs: vec![rf("crates/foo/src/bar.rs", 42)],
        verify_refs: vec![],
    };
    let html = render_marker(
        &m,
        Some(&cov),
        Some("https://github.com/x/y/blob/main/{file}#L{line}"),
    );
    assert!(html.contains(r#"class="tracey-popover""#));
    assert!(html.contains(
        r#"<a href="https://github.com/x/y/blob/main/crates/foo/src/bar.rs#L42">crates/foo/src/bar.rs:42</a>"#
    ));
}

#[test]
fn popover_without_repo_url_renders_spans() {
    let m = first("r[obs.log.batch]\n");
    let cov = Coverage {
        impl_refs: vec![rf("src/a.rs", 10)],
        verify_refs: vec![],
    };
    let html = render_marker(&m, Some(&cov), None);
    assert!(html.contains(r#"class="tracey-popover""#));
    assert!(html.contains("<span>src/a.rs:10</span>"));
    assert!(!html.contains("<a href"));
}

#[test]
fn empty_refs_no_popover() {
    let m = first("r[obs.log.batch]\n");
    let cov = Coverage::default();
    let html = render_marker(&m, Some(&cov), None);
    assert!(!html.contains("tracey-popover"));
    // Badges still show with zero count.
    assert!(html.contains(">impl 0<"));
}

#[test]
fn popover_html_escapes_file_path() {
    let m = first("r[x.y]\n");
    let cov = Coverage {
        impl_refs: vec![rf("a<b>.rs", 1)],
        verify_refs: vec![],
    };
    let html = render_marker(&m, Some(&cov), Some("https://ex/{file}#L{line}"));
    assert!(html.contains("a&lt;b&gt;.rs:1"));
    assert!(html.contains("https://ex/a&lt;b&gt;.rs#L1"));
}

// --- further cases -----------------------------------------------------------

#[test]
fn exact_anchor_only_block() {
    let m = first("r[obs.log.batch]\n");
    assert_eq!(
        render_marker(&m, None, None),
        "<div class=\"tracey-req\" id=\"r-obs.log.batch\"><a class=\"tracey-req-anchor\" href=\"#r-obs.log.batch\">obs.log.batch</a></div>\n\n"
    );
}

#[test]
fn exact_badge() {
    let mut s = String::from("x");
    badge(&mut s, "impl", &[rf("a.rs", 7), rf("b.rs", 1234)], Some("u/{file}/{line}/{file}"));
    assert_eq!(
        s,
        "x<span class=\"tracey-badge impl\">impl 2<div class=\"tracey-popover\"><a href=\"u/a.rs/7/a.rs\">a.rs:7</a><a href=\"u/b.rs/1234/b.rs\">b.rs:1234</a></div></span>"
    );
    let mut z = String::new();
    badge(&mut z, "verify", &[], None);
    assert_eq!(z, "<span class=\"tracey-badge verify zero\">verify 0</span>");
}

#[test]
fn escape_replaces_all_specials() {
    assert_eq!(html_escape(r#"a&b<c>d"e'f"#), "a&amp;b&lt;c&gt;d&quot;e&#39;f");
    assert_eq!(html_escape("plain.id-1_x"), "plain.id-1_x");
    assert_eq!(html_escape("é<"), "é&lt;");
    assert_eq!(html_escape(""), "");
}

#[test]
fn escaped_rule_id_in_anchor() {
    let m = first("r[a<b>.c]\n");
    let html = render_marker(&m, None, None);
    assert!(html.contains(r#"id="r-a&lt;b&gt;.c""#));
    assert!(!html.contains("a<b>"));
}

#[test]
fn stylesheet_is_one_block() {
    assert!(STYLE.starts_with("<style>"));
    assert!(STYLE.ends_with("</style>\n\n"));
    assert!(!STYLE[..STYLE.len() - 2].contains('\n'));
    assert!(STYLE.contains(".tracey-popover{"));
}

#[test]
fn readme_marker_anchor() {
    let m = first("r[obs.log.batch-64-100ms]\nLog lines are batched.\n");
    let html = render_marker(&m, None, None);
    assert!(html.contains(r##"href="#r-obs.log.batch-64-100ms""##));
    assert!(html.contains(r#"class="tracey-req""#));
}

#[test]
fn badge_count_follows_coverage() {
    let m = first("r[obs.log.batch]\n");
    let open = r#"<span class="tracey-badge "#;
    let cov = Coverage {
        impl_refs: vec![rf("src/a.rs", 3), rf("src/b.rs", 9)],
        verify_refs: vec![],
    };
    let with = render_marker(&m, Some(&cov), Some("https://x/{file}#L{line}"));
    assert_eq!(with.matches(open).count(), 2);
    assert!(with.starts_with(r#"<div class="tracey-req" id=""#));
    assert!(with.ends_with("</div>\n\n"));
    let without = render_marker(&m, None, Some("https://x/{file}#L{line}"));
    assert_eq!(without.matches(open).count(), 0);
    assert!(without.ends_with("</div>\n\n"));
}

#[test]
fn escape_changes_only_special_text() {
    let plain = "obs.log/batch-64 100ms";
    assert_eq!(html_escape(plain), plain);
    for s in ["a&b", "<", "x>y", "\"q\"", "it's"] {
        let e = html_escape(s);
        assert_ne!(e, s);
        assert!(e.len() > s.len());
    }
    assert_eq!(html_escape(""), "");
}
