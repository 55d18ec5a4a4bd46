use mdbook_tracey::config::{Config, SpecConfig, TraceyConfig};
use mdbook_tracey::coverage::{Coverage, CoverageMap, Ref};
use mdbook_tracey::render::STYLE;
use mdbook_tracey::version::mdbook_version_warning;
use mdbook_tracey::{
    derive_repo_url, link_template, missing_rules_warning, process_chapter, sort_dedup, Tracey,
};

#[test]
fn chapter_without_markers_is_untouched() {
    let md = "# Title\n\nJust prose.\n";
    assert_eq!(process_chapter(md, None, None, true, &mut Vec::new()), None);
}

#[test]
fn marker_replaced_prose_preserved() {
    let md = "# Heading\n\nr[foo.bar]\nThe requirement text.\n\nAnother paragraph.\n";
    let out = process_chapter(md, None, None, false, &mut Vec::new()).unwrap();
    assert!(out.contains(r#"id="r-foo.bar""#));
    assert!(out.contains("The requirement text."));
    assert!(out.contains("Another paragraph."));
    assert!(!out.contains("r[foo.bar]"));
}

#[test]
fn style_injected_when_enabled() {
    let out = process_chapter("r[x.y]\n", None, None, true, &mut Vec::new()).unwrap();
    assert!(out.starts_with("<style>"));
    let out = process_chapter("r[x.y]\n", None, None, false, &mut Vec::new()).unwrap();
    assert!(!out.starts_with("<style>"));
}

#[test]
fn coverage_lookup_by_base() {
    let mut map = CoverageMap::new();
    fn rf(file: &str, line: usize) -> Ref {
        Ref {
            file: file.into(),
            line,
        }
    }
    map.insert(
        "foo.bar".into(),
        Coverage {
            impl_refs: vec![rf("a.rs", 1), rf("b.rs", 2), rf("c.rs", 3)],
            verify_refs: vec![rf("t.rs", 5)],
        },
    );
    // Coverage is keyed by base ID; a version suffix in the marker
    // shouldn't defeat the lookup.
    let out =
        process_chapter("r[foo.bar+2]\n", Some(&map), None, false, &mut Vec::new()).unwrap();
    assert!(out.contains("impl 3"));
    assert!(out.contains("verify 1"));
}

#[test]
fn coverage_miss_recorded() {
    let map = CoverageMap::new();
    let mut misses = Vec::new();
    let out = process_chapter("r[not.in.map]\n", Some(&map), None, false, &mut misses).unwrap();
    assert_eq!(misses, ["not.in.map"]);
    assert!(!out.contains("tracey-badge"));
}

#[test]
fn no_miss_without_coverage() {
    let mut misses = Vec::new();
    process_chapter("r[anything]\n", None, None, false, &mut misses).unwrap();
    assert!(misses.is_empty());
}

fn spec(name: &str, source_url: Option<&str>) -> SpecConfig {
    SpecConfig {
        name: name.into(),
        prefix: None,
        source_url: source_url.map(|s| s.into()),
    }
}

#[test]
fn derive_repo_url_github() {
    let mut cfg = TraceyConfig::default();
    cfg.specs.push(spec("rix", Some("https://github.com/lovesegfault/rix")));
    assert_eq!(
        derive_repo_url(&cfg),
        Some("https://github.com/lovesegfault/rix/blob/HEAD/{file}#L{line}".into())
    );
}

#[test]
fn derive_repo_url_trailing_slash() {
    let mut cfg = TraceyConfig::default();
    cfg.specs.push(spec("x", Some("https://github.com/foo/bar/")));
    assert_eq!(
        derive_repo_url(&cfg),
        Some("https://github.com/foo/bar/blob/HEAD/{file}#L{line}".into())
    );
}

#[test]
fn derive_repo_url_non_github() {
    let mut cfg = TraceyConfig::default();
    cfg.specs.push(spec("x", Some("https://gitlab.com/foo/bar")));
    assert_eq!(derive_repo_url(&cfg), None);
}

#[test]
fn derive_repo_url_none_when_unset() {
    assert_eq!(derive_repo_url(&TraceyConfig::default()), None);
}

// --- further cases -----------------------------------------------------------

#[test]
fn derive_repo_url_first_spec_with_source() {
    let mut cfg = TraceyConfig::default();
    cfg.specs.push(spec("a", None));
    cfg.specs.push(spec("b", Some("https://github.com/b/b//")));
    cfg.specs.push(spec("c", Some("https://github.com/c/c")));
    assert_eq!(
        derive_repo_url(&cfg),
        Some("https://github.com/b/b/blob/HEAD/{file}#L{line}".into())
    );
}

#[test]
fn exact_chapter_splice() {
    let md = "a\n\nr[x.y]\nb\n\n> r[z.w+2] tail\nc";
    let out = process_chapter(md, None, None, false, &mut Vec::new()).unwrap();
    assert_eq!(
        out,
        "a\n\n<div class=\"tracey-req\" id=\"r-x.y\"><a class=\"tracey-req-anchor\" href=\"#r-x.y\">x.y</a></div>\n\nb\n\n> r[z.w+2] tail\nc"
    );
    let styled = process_chapter(md, None, None, true, &mut Vec::new()).unwrap();
    assert_eq!(styled, format!("{STYLE}{out}"));
}

#[test]
fn misses_in_document_order() {
    let mut map = CoverageMap::new();
    map.insert("b.b".into(), Coverage::default());
    let mut misses = vec!["earlier".to_string()];
    process_chapter("r[c.c]\n\nr[b.b]\n\nr[a.a]\n", Some(&map), None, false, &mut misses).unwrap();
    assert_eq!(misses, ["earlier", "c.c", "a.a"]);
}

#[test]
fn sort_dedup_orders_and_dedups() {
    let mut names: Vec<String> = ["b", "a", "b", "ab", "", "a"].iter().map(|s| s.to_string()).collect();
    sort_dedup(&mut names);
    assert_eq!(names, ["", "a", "ab", "b"]);
}

#[test]
fn run_styles_first_marked_chapter_only() {
    let mut map = CoverageMap::new();
    map.insert("known".into(), Coverage::default());
    let mut chapters = vec![
        "prose\n".to_string(),
        "r[zeta]\n\nr[known]\n".to_string(),
        "r[alpha]\n\nr[zeta]\n".to_string(),
    ];
    let misses = Tracey.run(&mut chapters, Some(&map), None, true);
    assert_eq!(chapters[0], "prose\n");
    assert!(chapters[1].starts_with("<style>"));
    assert!(!chapters[2].starts_with("<style>"));
    assert!(chapters[2].contains(r#"id="r-alpha""#));
    assert_eq!(misses, ["alpha", "zeta"]);
}

#[test]
fn run_without_style() {
    let mut chapters = vec!["r[a]\n".to_string()];
    let misses = Tracey.run(&mut chapters, None, None, false);
    assert!(chapters[0].starts_with("<div"));
    assert!(misses.is_empty());
}

#[test]
fn preprocessor_identity() {
    assert_eq!(Tracey.name(), "tracey");
    assert!(Tracey.supports_renderer("html"));
    assert!(!Tracey.supports_renderer("markdown"));
    assert!(!Tracey.supports_renderer("HTML"));
}

#[test]
fn config_defaults() {
    let cfg = Config::default();
    assert!(cfg.style);
    assert!(cfg.coverage.is_none());
    assert!(cfg.tracey_config.is_none());
    assert!(cfg.repo_url.is_none());
}

#[test]
fn version_check_outcomes() {
    assert!(matches!(mdbook_version_warning("0.5.4", "0.5.4"), Ok(None)));
    assert!(matches!(mdbook_version_warning("0.5.9", "0.5.4"), Ok(None)));
    match mdbook_version_warning("0.4.40", "0.5.4") {
        Ok(Some(w)) => assert_eq!(
            w,
            "mdbook-tracey: warning: compiled against mdbook 0.5.4, invoked by mdbook 0.4.40"
        ),
        _ => panic!("expected a warning"),
    }
    let err = mdbook_version_warning("not a version", "0.5.4").unwrap_err();
    assert_eq!(err.invoked, "not a version");
    assert_eq!(err.compiled, "0.5.4");
    assert!(mdbook_version_warning("0.5.4", "not >< a req").is_err());
}

#[test]
fn link_template_precedence() {
    let mut cfg = TraceyConfig::default();
    cfg.specs.push(spec("x", Some("https://github.com/foo/bar")));
    assert_eq!(link_template(Some("u/{file}"), None), None);
    assert_eq!(link_template(None, None), None);
    assert_eq!(link_template(Some("u/{file}"), Some(&cfg)), Some("u/{file}".into()));
    assert_eq!(
        link_template(None, Some(&cfg)),
        Some("https://github.com/foo/bar/blob/HEAD/{file}#L{line}".into())
    );
    assert_eq!(link_template(None, Some(&TraceyConfig::default())), None);
}

#[test]
fn missing_rules_warning_text() {
    assert_eq!(missing_rules_warning(&[]), None);
    assert_eq!(
        missing_rules_warning(&["a.b".to_string()]),
        Some("mdbook-tracey: warning: 1 rule(s) not found in coverage scan: a.b".into())
    );
    assert_eq!(
        missing_rules_warning(&["a".to_string(), "b".to_string(), "c".to_string()]),
        Some("mdbook-tracey: warning: 3 rule(s) not found in coverage scan: a, b, c".into())
    );
}
