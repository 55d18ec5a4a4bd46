use mdbook_tracey::marker::{
    code_mask, code_mask_from_events, fill, find_markers, find_markers_masked,
    paragraph_starts, paragraph_starts_from_events, parse_leading_marker, MdEvent, MdEventKind,
    RuleId,
};

#[test]
fn standalone_column_zero() {
    let md = "r[obs.log.batch]\nLog lines are batched...\n";
    let markers = find_markers(md);
    assert_eq!(markers.len(), 1);
    assert_eq!(markers[0].prefix, "r");
    assert_eq!(markers[0].id.base, "obs.log.batch");
    assert_eq!(markers[0].id.version, 1);
    assert!(!markers[0].blockquote);
    // Span covers the marker line including its newline; replacing it
    // leaves the prose line as the start of the next paragraph.
    assert_eq!(&md[markers[0].line_span.clone()], "r[obs.log.batch]\n");
}

#[test]
fn indented_is_not_a_definition() {
    assert!(find_markers("  r[obs.log.batch]\n").is_empty());
}

#[test]
fn marker_blockquote_form() {
    let markers = find_markers("> r[api.error-format]\n> API errors...\n");
    assert_eq!(markers.len(), 1);
    assert_eq!(markers[0].id.base, "api.error-format");
    assert!(markers[0].blockquote);
}

#[test]
fn blockquote_no_space_after_gt() {
    let markers = find_markers(">r[x.y]\n");
    assert_eq!(markers.len(), 1);
    assert!(markers[0].blockquote);
}

#[test]
fn inline_mention_is_ignored() {
    assert!(find_markers("When implementing r[auth.login] you should...\n").is_empty());
}

#[test]
fn trailing_text_after_bracket_is_ignored() {
    // The closing `]` must end the line (modulo whitespace).
    assert!(find_markers("r[foo.bar] extra\n").is_empty());
}

#[test]
fn inside_fenced_code_is_ignored() {
    let md = "```markdown\nr[foo.bar]\n```\n";
    assert!(find_markers(md).is_empty());
}

#[test]
fn inside_inline_code_is_ignored() {
    // Even though the backticked text starts at col 0, pulldown-cmark
    // marks those bytes as inline code.
    assert!(find_markers("`r[foo.bar]`\n").is_empty());
}

#[test]
fn version_suffix() {
    let markers = find_markers("r[auth.login+3]\n");
    assert_eq!(markers.len(), 1);
    assert_eq!(markers[0].id.base, "auth.login");
    assert_eq!(markers[0].id.version, 3);
}

#[test]
fn attributes_dont_break_id_parse() {
    // Attributes after the ID (`status=draft` etc.) are valid tracey
    // syntax. They are not rendered, but they mustn't prevent detection.
    let markers = find_markers("r[foo.bar status=draft level=must]\n");
    assert_eq!(markers.len(), 1);
    assert_eq!(markers[0].id.base, "foo.bar");
}

#[test]
fn alternate_prefix() {
    let markers = find_markers("h2[stream.window]\n");
    assert_eq!(markers.len(), 1);
    assert_eq!(markers[0].prefix, "h2");
}

#[test]
fn malformed_version_left_alone() {
    // Rule IDs are permissive about segment structure but bad version
    // suffixes are rejected. Those lines render as-is.
    assert!(find_markers("r[foo.bar+]\n").is_empty());
    assert!(find_markers("r[foo.bar+0]\n").is_empty());
    assert!(find_markers("r[foo.bar+1+2]\n").is_empty());
}

#[test]
fn multiple_markers() {
    let md = "\
# Heading\n\
\n\
r[first.req]\n\
Text.\n\
\n\
r[second.req]\n\
More text.\n\
";
    let markers = find_markers(md);
    assert_eq!(markers.len(), 2);
    assert_eq!(markers[0].id.base, "first.req");
    assert_eq!(markers[1].id.base, "second.req");
}

#[test]
fn final_line_without_newline() {
    let markers = find_markers("r[end.of.file]");
    assert_eq!(markers.len(), 1);
    assert_eq!(markers[0].line_span, 0..14);
}

// --- further cases -----------------------------------------------------------

#[test]
fn crlf_line_endings() {
    let md = "intro\r\n\r\nr[a.b]\r\nbody\r\n";
    let markers = find_markers(md);
    assert_eq!(markers.len(), 1);
    assert_eq!(&md[markers[0].line_span.clone()], "r[a.b]\r\n");
    assert_eq!(markers[0].line_span, 9..17);
}

#[test]
fn unicode_whitespace_after_bracket_is_tolerated() {
    assert_eq!(find_markers("r[a.b] \t\n").len(), 1);
    assert_eq!(find_markers("r[a.b]\u{a0}\u{3000}\n").len(), 1);
    assert!(find_markers("r[a.b]\u{a0}x\n").is_empty());
}

#[test]
fn non_ascii_rule_id() {
    let md = "é\n\nr[über.größe+2]\n";
    let markers = find_markers(md);
    assert_eq!(markers.len(), 1);
    assert_eq!(markers[0].id.base, "über.größe");
    assert_eq!(markers[0].id.version, 2);
    assert_eq!(markers[0].line_span, 4..md.len());
}

#[test]
fn empty_brackets_and_uppercase_prefix_are_not_markers() {
    assert!(find_markers("r[]\n").is_empty());
    assert!(find_markers("R[a.b]\n").is_empty());
    assert!(find_markers("[a.b]\n").is_empty());
    assert!(find_markers("r [a.b]\n").is_empty());
    assert!(find_markers("").is_empty());
}

#[test]
fn only_one_space_after_gt_is_stripped() {
    assert!(find_markers(">  r[a.b]\n").is_empty());
    assert!(find_markers(" > r[a.b]\n").is_empty());
}

#[test]
fn version_edge_cases() {
    assert_eq!(find_markers("r[a+007]\n")[0].id.version, 7);
    assert_eq!(find_markers("r[a+4294967295]\n")[0].id.version, u32::MAX);
    assert!(find_markers("r[a+4294967296]\n").is_empty());
    assert!(find_markers("r[+1]\n").is_empty());
    assert!(find_markers("r[a+-1]\n").is_empty());
    assert!(find_markers("r[a+1x]\n").is_empty());
}

#[test]
fn leading_marker_pieces() {
    assert_eq!(parse_leading_marker("req[a.b c=d]  "), Some(("req", "a.b c=d")));
    assert_eq!(parse_leading_marker("r[a]b]"), None);
    assert_eq!(parse_leading_marker("r[a.b"), None);
    assert_eq!(parse_leading_marker("r9[x]"), Some(("r9", "x")));
}

#[test]
fn rule_id_display() {
    let plain = RuleId { base: "a.b".into(), version: 1 };
    let versioned = RuleId { base: "a.b".into(), version: 12 };
    assert_eq!(plain.to_string(), "a.b");
    assert_eq!(versioned.to_string(), "a.b+12");
}

#[test]
fn code_mask_covers_fences_and_spans() {
    let md = "a `b` c\n```\nx\n```\n";
    let mask = code_mask(md);
    assert_eq!(mask.len(), md.len());
    assert!(!mask[0]);
    assert!(mask[2] && mask[4]);
    assert!(!mask[6]);
    assert!(mask[8] && mask[12] && mask[16]);
}

#[test]
fn code_mask_from_events_rules() {
    let ev = |kind, start, end| MdEvent { kind, start, end };
    let events = [
        ev(MdEventKind::Other, 0, 2),
        ev(MdEventKind::CodeBlockStart, 2, 4),
        ev(MdEventKind::Other, 4, 5),
        ev(MdEventKind::CodeBlockEnd, 5, 6),
        ev(MdEventKind::Other, 6, 7),
        ev(MdEventKind::InlineCode, 7, 8),
        ev(MdEventKind::InlineCode, 9, 20),
        ev(MdEventKind::InlineCode, 9, 8),
    ];
    let mask = code_mask_from_events(10, &events);
    assert_eq!(
        mask,
        vec![false, false, true, true, true, true, false, true, false, false]
    );
}

#[test]
fn fill_within_and_outside() {
    let mut mask = vec![false; 4];
    fill(&mut mask, 1..3);
    assert_eq!(mask, vec![false, true, true, false]);
    fill(&mut mask, 2..5);
    assert_eq!(mask, vec![false, true, true, false]);
    fill(&mut mask, 3..4);
    assert_eq!(mask, vec![false, true, true, true]);
}

#[test]
fn masked_line_starts_are_skipped() {
    let md = "r[a.b]\nr[c.d]\n";
    let mut mask = vec![false; md.len()];
    mask[0] = true;
    let mut paras = vec![false; md.len()];
    paras[0] = true;
    paras[7] = true;
    let markers = find_markers_masked(md, &mask, &paras);
    assert_eq!(markers.len(), 1);
    assert_eq!(markers[0].id.base, "c.d");
    assert_eq!(find_markers_masked(md, &[], &paras).len(), 2);
    // A column-0 line where no paragraph starts defines nothing.
    assert_eq!(find_markers_masked(md, &[], &paras[..1]).len(), 1);
    assert!(find_markers_masked(md, &[], &[]).is_empty());
}

#[test]
fn displayed_id_parses_back() {
    for written in ["a.b", "a.b+1", "a.b+012", "x+4294967295"] {
        let first = find_markers(&format!("r[{written}]\n")).remove(0);
        let shown = first.id.to_string();
        let again = find_markers(&format!("r[{shown}]\n")).remove(0);
        assert_eq!(again.id, first.id);
    }
    assert_eq!(find_markers("r[a.b+012]\n")[0].id.to_string(), "a.b+12");
    assert_eq!(find_markers("r[a.b+1]\n")[0].id.to_string(), "a.b");
}

#[test]
fn paragraph_continuation_is_not_a_definition() {
    assert!(find_markers("Some prose.\nr[foo.bar]\n").is_empty());
    assert_eq!(find_markers("Some prose.\n\nr[foo.bar]\n").len(), 1);
    // Blockquote lines are taken as they are.
    assert_eq!(find_markers("> Quote.\n> r[foo.bar]\n").len(), 1);
}

#[test]
fn html_blocks_are_masked() {
    let md = "<!--\nr[commented.out]\n-->\n\n<pre>\nr[section.rule-name]\n</pre>\n\nr[real.marker]\n";
    let markers = find_markers(md);
    assert_eq!(markers.len(), 1);
    assert_eq!(markers[0].id.base, "real.marker");
    let mask = code_mask(md);
    assert!(mask[0] && mask[5]);
}

#[test]
fn paragraph_start_flags() {
    let md = "a\nb\n\nc\n";
    let paras = paragraph_starts(md);
    assert_eq!(paras, vec![true, false, false, false, false, true, false]);
    let ev = |kind, start, end| MdEvent { kind, start, end };
    let flags = paragraph_starts_from_events(
        4,
        &[ev(MdEventKind::ParagraphStart, 1, 3), ev(MdEventKind::Other, 2, 3), ev(MdEventKind::ParagraphStart, 9, 10)],
    );
    assert_eq!(flags, vec![false, true, false, false]);
}

#[test]
fn leading_marker_shape_cases() {
    assert_eq!(parse_leading_marker("[x]"), None);
    assert_eq!(parse_leading_marker("R[x]"), None);
    assert_eq!(parse_leading_marker("r[]"), None);
    assert_eq!(parse_leading_marker("r [x]"), None);
    assert_eq!(parse_leading_marker("r[x] y"), None);
    assert_eq!(parse_leading_marker("r[x]\t \n"), Some(("r", "x")));
    assert_eq!(parse_leading_marker("ab1[[x]"), Some(("ab1", "[x")));
}
