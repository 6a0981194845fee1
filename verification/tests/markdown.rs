use codescout::tools::markdown::{perform_scoped_edit, perform_section_edit};

#[test]
fn markdown_replace_body_only() {
    let content = "# Title\n## Setup\nold content\nmore old\n## Usage\nuse it\n";
    let result =
        perform_section_edit(content, "## Setup", "replace", Some("new content\n")).unwrap();
    assert_eq!(
        result,
        "# Title\n## Setup\n\nnew content\n## Usage\nuse it\n"
    );
}

#[test]
fn markdown_replace_with_heading() {
    let content = "# Title\n## Setup\nold content\n## Usage\nuse it\n";
    let result = perform_section_edit(
        content,
        "## Setup",
        "replace",
        Some("## Installation\nnew steps\n"),
    )
    .unwrap();
    assert_eq!(
        result,
        "# Title\n## Installation\nnew steps\n## Usage\nuse it\n"
    );
}

#[test]
fn markdown_replace_empty_section() {
    let content = "# Title\n## Empty\n## Next\nstuff\n";
    let result =
        perform_section_edit(content, "## Empty", "replace", Some("now has content\n"))
            .unwrap();
    assert_eq!(
        result,
        "# Title\n## Empty\n\nnow has content\n## Next\nstuff\n"
    );
}

#[test]
fn markdown_insert_before() {
    let content = "# Title\n## Setup\ncontent\n";
    let result = perform_section_edit(
        content,
        "## Setup",
        "insert_before",
        Some("## Prerequisites\ninstall stuff\n"),
    )
    .unwrap();
    assert_eq!(
        result,
        "# Title\n## Prerequisites\ninstall stuff\n## Setup\ncontent\n"
    );
}

#[test]
fn markdown_insert_after() {
    let content = "# Title\n## Setup\ncontent\n## Usage\nuse it\n";
    let result = perform_section_edit(
        content,
        "## Setup",
        "insert_after",
        Some("\n## Testing\ntest it\n"),
    )
    .unwrap();
    assert_eq!(
        result,
        "# Title\n## Setup\ncontent\n\n## Testing\ntest it\n## Usage\nuse it\n"
    );
}

#[test]
fn markdown_remove_section() {
    let content = "# Title\n## Setup\ncontent\n\n## Usage\nuse it\n";
    let result = perform_section_edit(content, "## Setup", "remove", None).unwrap();
    assert_eq!(result, "# Title\n## Usage\nuse it\n");
}

#[test]
fn markdown_remove_last_section() {
    let content = "# Title\n## Setup\ncontent\n";
    let result = perform_section_edit(content, "## Setup", "remove", None).unwrap();
    assert_eq!(result, "# Title\n");
}

#[test]
fn markdown_nested_section_replace() {
    let content =
        "# Title\n## Parent\nparent text\n### Child\nchild text\n## Sibling\nsibling\n";
    let result =
        perform_section_edit(content, "## Parent", "replace", Some("replaced all\n")).unwrap();
    assert_eq!(
        result,
        "# Title\n## Parent\n\nreplaced all\n## Sibling\nsibling\n"
    );
}

#[test]
fn markdown_trailing_newline_normalization() {
    let content = "# Title\n## Setup\ncontent";
    let result = perform_section_edit(content, "## Setup", "replace", Some("new")).unwrap();
    assert!(
        result.ends_with('\n'),
        "result should end with newline: {:?}",
        result
    );
}

#[test]
fn markdown_replace_body_preserves_blank_line_after_heading() {
    let content = "# Title\n\n## Goals\n\n- item 1\n- item 2\n\n## Next\n\nmore\n";
    let result =
        perform_section_edit(content, "Goals", "replace", Some("- new item\n")).unwrap();
    assert!(
        result.contains("## Goals\n\n- new item\n"),
        "should have blank line between heading and body: {:?}",
        result
    );
}

#[test]
fn markdown_replace_body_no_double_blank_when_content_starts_with_newline() {
    let content = "# Title\n\n## Goals\n\n- item 1\n";
    let result =
        perform_section_edit(content, "Goals", "replace", Some("\n- new item\n")).unwrap();
    assert!(
        result.contains("## Goals\n\n- new item\n"),
        "should not produce double blank line: {:?}",
        result
    );
    assert!(
        !result.contains("## Goals\n\n\n"),
        "must not have triple newline: {:?}",
        result
    );
}

#[test]
fn markdown_remove_only_section() {
    let content = "## Only\ncontent\n";
    let result = perform_section_edit(content, "## Only", "remove", None).unwrap();
    assert!(result.trim().is_empty() || result == "\n");
}

#[test]
fn markdown_consecutive_edits() {
    let content = "# Title\n## A\noriginal a\n## B\noriginal b\n";
    let after_first =
        perform_section_edit(content, "## A", "replace", Some("updated a\n")).unwrap();
    assert!(after_first.contains("updated a"));
    let after_second =
        perform_section_edit(&after_first, "## B", "replace", Some("updated b\n")).unwrap();
    assert!(after_second.contains("updated a"));
    assert!(after_second.contains("updated b"));
}

#[test]
fn markdown_smart_replace_detection_non_heading() {
    let content = "# Title\n## Setup\nold content\n";
    let result =
        perform_section_edit(content, "## Setup", "replace", Some("#hashtag comment\n"))
            .unwrap();
    assert!(result.contains("## Setup"));
    assert!(result.contains("#hashtag comment"));
}

#[test]
fn markdown_heading_inside_code_block_edit() {
    let content = "# Title\n## Real\ncontent\n```\n## Fake\n```\n";
    let result =
        perform_section_edit(content, "## Real", "replace", Some("new content\n")).unwrap();
    assert!(result.contains("## Real"));
    assert!(result.contains("new content"));
    assert!(result.contains("## Fake"));
}

#[test]
fn markdown_duplicate_heading_edit_error() {
    let content = "# Title\n## Example\nfirst\n## Other\n## Example\nsecond\n";
    let err = perform_section_edit(content, "## Example", "replace", Some("x")).unwrap_err();
    assert!(
        err.message().contains("found") && err.message().contains("times"),
        "unexpected error: {}",
        err.message()
    );
}

#[test]
fn markdown_heading_not_found() {
    let content = "# Title\n## Setup\ntext";
    let err =
        perform_section_edit(content, "## Nonexistent", "replace", Some("x")).unwrap_err();
    assert!(
        err.message().contains("not found"),
        "unexpected error: {}",
        err.message()
    );
}

#[test]
fn markdown_missing_content_for_replace() {
    let content = "# Title\n## Setup\ntext";
    let err = perform_section_edit(content, "## Setup", "replace", None).unwrap_err();
    assert!(
        err.message().contains("content"),
        "unexpected error: {}",
        err.message()
    );
}

#[test]
fn markdown_invalid_action() {
    let content = "# Title\n## Setup\ntext";
    let err = perform_section_edit(content, "## Setup", "invalid", Some("x")).unwrap_err();
    assert!(
        err.message().contains("invalid"),
        "unexpected error: {}",
        err.message()
    );
}

#[test]
fn scoped_edit_first_occurrence() {
    let content = "# Title\n## Setup\nfoo bar foo\nmore foo\n## Next\nfoo\n";
    let result = perform_scoped_edit(content, "## Setup", "foo", "baz", false).unwrap();
    assert_eq!(
        result,
        "# Title\n## Setup\nbaz bar foo\nmore foo\n## Next\nfoo\n"
    );
}

#[test]
fn scoped_edit_replace_all() {
    let content = "# Title\n## Setup\nfoo bar foo\nmore foo\n## Next\nfoo\n";
    let result = perform_scoped_edit(content, "## Setup", "foo", "baz", true).unwrap();
    assert_eq!(
        result,
        "# Title\n## Setup\nbaz bar baz\nmore baz\n## Next\nfoo\n"
    );
}

#[test]
fn scoped_edit_not_found() {
    let content = "# Title\n## Setup\ncontent\n";
    let err = perform_scoped_edit(content, "## Setup", "nonexistent", "x", false).unwrap_err();
    assert!(
        err.message().contains("not found"),
        "unexpected error: {}",
        err.message()
    );
}

#[test]
fn scoped_edit_does_not_affect_other_sections() {
    let content = "# Title\n## A\nhello world\n## B\nhello world\n";
    let result = perform_scoped_edit(content, "## A", "hello", "goodbye", false).unwrap();
    assert!(result.contains("## A\ngoodbye world"));
    assert!(result.contains("## B\nhello world"));
}

#[test]
fn scoped_edit_empty_replacement() {
    let content = "# Title\n## Setup\nremove this word\n";
    let result = perform_scoped_edit(content, "## Setup", " this", "", false).unwrap();
    assert_eq!(result, "# Title\n## Setup\nremove word\n");
}

#[test]
fn batch_replace_two_sections() {
    let content = "# Title\n## A\nold a\n## B\nold b\n";
    let after_a = perform_section_edit(content, "## A", "replace", Some("new a\n")).unwrap();
    let after_b = perform_section_edit(&after_a, "## B", "replace", Some("new b\n")).unwrap();
    assert!(after_b.contains("new a"));
    assert!(after_b.contains("new b"));
}

#[test]
fn batch_mixed_actions() {
    let content = "# Title\n## A\ncontent a\n## B\ncontent b\n## C\ncontent c\n";
    let step1 = perform_section_edit(content, "## A", "replace", Some("updated a\n")).unwrap();
    let step2 = perform_section_edit(&step1, "## B", "remove", None).unwrap();
    let step3 = perform_section_edit(
        &step2,
        "## C",
        "insert_after",
        Some("\n## D\nnew section\n"),
    )
    .unwrap();
    assert!(step3.contains("updated a"));
    assert!(!step3.contains("## B"));
    assert!(step3.contains("## D\nnew section"));
}

#[test]
fn batch_edit_action() {
    let content = "# Title\n## A\nhello world\n## B\nhello world\n";
    let result = perform_scoped_edit(content, "## A", "hello", "goodbye", false).unwrap();
    let result = perform_scoped_edit(&result, "## B", "hello", "hi", false).unwrap();
    assert!(result.contains("goodbye world"));
    assert!(result.contains("hi world"));
}
