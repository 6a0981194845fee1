use codescout::tools::errors::ToolError;
use codescout::tools::headings::heading_level;
use codescout::tools::markdown::{BatchEdit, EditMarkdown, ReadMarkdown, ReadPlan, ReadRequest};
use codescout::tools::section_edit::EditSection;

fn recoverable_parts(e: ToolError) -> (String, String) {
    match e {
        ToolError::Recoverable { message, hint } => (message, hint),
        other => panic!("expected a recoverable error, got: {other:?}"),
    }
}

fn failed_message(e: ToolError) -> String {
    match e {
        ToolError::Failed { message } => message,
        other => panic!("expected a failure, got: {other:?}"),
    }
}

fn request(heading: Option<&str>, headings: Option<Vec<&str>>, start: Option<u64>, end: Option<u64>) -> ReadRequest {
    ReadRequest {
        heading: heading.map(|h| h.to_string()),
        headings: headings.map(|v| v.into_iter().map(|h| h.to_string()).collect()),
        start_line: start,
        end_line: end,
    }
}

fn batch_edit(heading: Option<&str>, action: Option<&str>, content: Option<&str>) -> BatchEdit {
    BatchEdit {
        heading: heading.map(|s| s.to_string()),
        action: action.map(|s| s.to_string()),
        content: content.map(|s| s.to_string()),
        old_string: None,
        new_string: None,
        replace_all: None,
    }
}

// ── edit_section ─────────────────────────────────────────────

#[test]
fn edit_section_names_itself() {
    assert_eq!(EditSection.name(), "edit_section");
    assert!(EditSection.description().starts_with("Edit a document section by heading."));
}

#[test]
fn edit_section_refuses_non_markdown() {
    assert!(EditSection.check_path("docs/guide.md").is_ok());
    assert!(EditSection.check_path("README.markdown").is_ok());
    let (message, hint) = recoverable_parts(EditSection.check_path("Cargo.toml").unwrap_err());
    assert_eq!(message, "edit_section currently supports Markdown files only");
    assert!(hint.contains("toml_key"));
}

#[test]
fn edit_section_applies_edit() {
    let out = EditSection
        .apply("# T\n## A\nold\n## B\nb\n", "## A", "replace", Some("new\n"))
        .unwrap();
    assert_eq!(out, "# T\n## A\n\nnew\n## B\nb\n");
}

#[test]
fn edit_section_reports_missing_heading() {
    let e = EditSection.apply("# T\n", "## Nope", "remove", None).unwrap_err();
    let (message, hint) = recoverable_parts(e);
    assert_eq!(message, "heading '## Nope' not found");
    assert_eq!(hint, "Check heading name and action.");
}

// ── read_markdown ────────────────────────────────────────────

#[test]
fn read_markdown_refuses_non_markdown() {
    let (message, hint) = recoverable_parts(ReadMarkdown.check_path("src/main.rs").unwrap_err());
    assert_eq!(message, "read_markdown only supports .md files");
    assert_eq!(hint, "Use read_file for non-markdown files.");
}

#[test]
fn read_markdown_default_is_heading_map() {
    assert!(matches!(ReadMarkdown.plan(request(None, None, None, None)), Ok(ReadPlan::HeadingMap)));
}

#[test]
fn read_markdown_single_and_multi_heading() {
    match ReadMarkdown.plan(request(Some("## A"), None, None, None)) {
        Ok(ReadPlan::Section { query }) => assert_eq!(query, "## A"),
        _ => panic!("expected one section"),
    }
    match ReadMarkdown.plan(request(None, Some(vec!["## A", "## B"]), None, None)) {
        Ok(ReadPlan::Sections { queries }) => assert_eq!(queries, vec!["## A", "## B"]),
        _ => panic!("expected sections"),
    }
}

#[test]
fn read_markdown_heading_params_exclusive() {
    let e = ReadMarkdown.plan(request(Some("## A"), Some(vec!["## B"]), None, None)).err().unwrap();
    assert_eq!(recoverable_parts(e).0, "heading and headings are mutually exclusive");
}

#[test]
fn read_markdown_navigation_excludes_range() {
    let e = ReadMarkdown.plan(request(Some("## A"), None, Some(1), Some(3))).err().unwrap();
    assert_eq!(
        recoverable_parts(e).0,
        "navigation parameters are mutually exclusive with start_line/end_line"
    );
}

#[test]
fn read_markdown_range_needs_both_ends() {
    let e = ReadMarkdown.plan(request(None, None, Some(1), None)).err().unwrap();
    assert_eq!(recoverable_parts(e).0, "both start_line and end_line are required");
}

#[test]
fn read_markdown_rejects_bad_range() {
    let e = ReadMarkdown.plan(request(None, None, Some(5), Some(2))).err().unwrap();
    let (message, hint) = recoverable_parts(e);
    assert_eq!(
        message,
        "invalid line range: start_line=5 end_line=2 (start_line must be >= 1 and end_line >= start_line)"
    );
    assert_eq!(hint, "Lines are 1-indexed. Example: start_line=1, end_line=50");
    assert!(ReadMarkdown.plan(request(None, None, Some(0), Some(2))).is_err());
}

#[test]
fn read_markdown_accepts_range() {
    match ReadMarkdown.plan(request(None, None, Some(2), Some(9))) {
        Ok(ReadPlan::Lines { start, end }) => assert_eq!((start, end), (2, 9)),
        _ => panic!("expected a line range"),
    }
}

#[test]
fn read_markdown_buffered_paging() {
    let page = ReadMarkdown.buffered_page(10, 40, 100, false);
    assert_eq!((page.first, page.last), (10, 49));
    assert_eq!(page.next, Some((41, 80)));
    let capped = ReadMarkdown.buffered_page(10, 40, 60, false);
    assert_eq!(capped.next, Some((41, 60)));
    let done = ReadMarkdown.buffered_page(3, 0, 0, true);
    assert_eq!((done.first, done.last, done.next), (3, 3, None));
}

#[test]
fn read_markdown_next_call_and_hint_text() {
    assert_eq!(
        ReadMarkdown.next_call("@file_1", 41, 80),
        "read_markdown(\"@file_1\", start_line=41, end_line=80)"
    );
    assert_eq!(
        ReadMarkdown.overflow_hint(250),
        "File has 250 lines. Use start_line/end_line for ranges, or heading/headings for sections"
    );
}

// ── edit_markdown ────────────────────────────────────────────

#[test]
fn edit_markdown_mode_exclusivity() {
    assert!(EditMarkdown.check_mode(true, false, false).is_ok());
    assert!(EditMarkdown.check_mode(false, true, true).is_ok());
    let (message, _) = recoverable_parts(EditMarkdown.check_mode(true, true, false).unwrap_err());
    assert_eq!(message, "edits array is mutually exclusive with top-level heading/action");
}

#[test]
fn edit_markdown_refuses_non_markdown() {
    let (message, hint) = recoverable_parts(EditMarkdown.check_path("a.txt").unwrap_err());
    assert_eq!(message, "edit_markdown only supports .md files");
    assert_eq!(hint, "Use edit_file for non-markdown files.");
}

#[test]
fn edit_markdown_batch_applies_in_order() {
    let doc = "# T\n## A\na\n## B\nb\n";
    let edits = vec![
        batch_edit(Some("## A"), Some("replace"), Some("x\n")),
        BatchEdit {
            heading: Some("## B".to_string()),
            action: Some("edit".to_string()),
            content: None,
            old_string: Some("b".to_string()),
            new_string: Some("c".to_string()),
            replace_all: None,
        },
    ];
    let out = EditMarkdown.apply_batch(doc, &edits).unwrap();
    assert_eq!(out, "# T\n## A\n\nx\n## B\nc\n");
}

#[test]
fn edit_markdown_batch_reports_failing_index() {
    let doc = "# T\n## A\na\n";
    let edits = vec![
        batch_edit(Some("## A"), Some("remove"), None),
        batch_edit(Some("## A"), Some("remove"), None),
    ];
    let (message, hint) = recoverable_parts(EditMarkdown.apply_batch(doc, &edits).unwrap_err());
    assert_eq!(message, "edits[1]: heading '## A' not found");
    assert_eq!(hint, "Check heading name and action.");
}

#[test]
fn edit_markdown_batch_missing_fields() {
    let doc = "# T\n";
    let e = EditMarkdown.apply_batch(doc, &vec![batch_edit(None, Some("remove"), None)]).unwrap_err();
    assert_eq!(failed_message(e), "edits[0]: missing required 'heading' field");
    let e = EditMarkdown.apply_batch(doc, &vec![batch_edit(Some("# T"), None, None)]).unwrap_err();
    assert_eq!(failed_message(e), "edits[0]: missing required 'action' field");
    let e = EditMarkdown.apply_batch(doc, &vec![batch_edit(Some("# T"), Some("edit"), None)]).unwrap_err();
    assert_eq!(failed_message(e), "edits[0]: old_string is required for action='edit'");
}

#[test]
fn edit_markdown_single_edit() {
    let doc = "# T\n## A\nfoo foo\n";
    let out = EditMarkdown
        .apply_single(doc, "## A", "edit", None, Some("foo"), Some("bar"), true)
        .unwrap();
    assert_eq!(out, "# T\n## A\nbar bar\n");
    let e = EditMarkdown
        .apply_single(doc, "## A", "edit", None, Some("zzz"), None, false)
        .unwrap_err();
    let (message, hint) = recoverable_parts(e);
    assert!(message.starts_with("old_string not found in section '## A'"));
    assert_eq!(hint, "Check heading name and old_string.");
}

// ── headings ─────────────────────────────────────────────────

#[test]
fn heading_level_reads_atx_headings() {
    assert_eq!(heading_level("# Title"), Some(1));
    assert_eq!(heading_level("### Rust"), Some(3));
    assert_eq!(heading_level("######\tSix"), Some(6));
    assert_eq!(heading_level("###"), Some(3));
    assert_eq!(heading_level("####### seven"), None);
    assert_eq!(heading_level("#hashtag"), None);
    assert_eq!(heading_level("plain text"), None);
}

#[test]
fn edits_end_with_one_newline() {
    let doc = "# T\n## A\na\n\n\n";
    let out = EditSection.apply(doc, "## A", "insert_after", Some("more\n\n\n")).unwrap();
    assert!(out.ends_with('\n') && !out.ends_with("\n\n"));
    let out = EditMarkdown.apply_single(doc, "## A", "edit", None, Some("a"), Some("b"), false).unwrap();
    assert_eq!(out, "# T\n## A\nb\n");
}

#[test]
fn batch_of_one_matches_single_edit() {
    let doc = "# T\n## A\na\n## B\nb\n";
    let single = EditMarkdown.apply_single(doc, "## B", "remove", None, None, None, false).unwrap();
    let batch = EditMarkdown
        .apply_batch(doc, &vec![batch_edit(Some("## B"), Some("remove"), None)])
        .unwrap();
    assert_eq!(single, batch);
}

#[test]
fn invalid_action_is_quoted_as_debug() {
    let e = EditSection.apply("# T\n## A\na\n", "## A", "frob\"x", Some("y")).unwrap_err();
    let (message, _) = recoverable_parts(e);
    assert_eq!(
        message,
        "invalid action \"frob\\\"x\"; expected replace, insert_before, insert_after, or remove"
    );
}

#[test]
fn single_edit_without_old_string_is_refused() {
    let e = EditMarkdown
        .apply_single("# T\n## A\na\n", "## A", "edit", None, None, Some("b"), false)
        .unwrap_err();
    match e {
        ToolError::MissingParameter { name } => assert_eq!(name, "old_string"),
        other => panic!("expected a missing parameter, got {other:?}"),
    }
}

#[test]
fn plan_content_reads_line_range() {
    let text = "l1\nl2\nl3\nl4\n";
    let plan = ReadMarkdown.plan(request(None, None, Some(2), Some(3))).unwrap();
    assert_eq!(ReadMarkdown.plan_content(text, &plan), Some("l2\nl3".to_string()));
    assert_eq!(ReadMarkdown.plan_content(text, &ReadPlan::HeadingMap), None);
}
