use codescout::tools::section_coverage::SectionCoverage;

fn strings(v: &[&str]) -> Vec<String> {
    v.iter().map(|s| s.to_string()).collect()
}

const PATH: &str = "/tmp/notes.md";

#[test]
fn mark_seen_and_status() {
    let mut cov = SectionCoverage::new();
    let all = strings(&["# Title", "## A", "## B", "## C"]);
    let stamp = Some(100u128);
    assert!(cov.status(PATH, &all, stamp).is_none());
    cov.mark_seen(PATH, &strings(&["# Title", "## A"]), stamp);
    let s = cov.status(PATH, &all, stamp).unwrap();
    assert_eq!(s.read_count, 2);
    assert_eq!(s.total_count, 4);
    assert_eq!(s.unread, vec!["## B", "## C"]);
}

#[test]
fn mark_all_seen_no_unread() {
    let mut cov = SectionCoverage::new();
    let all = strings(&["# Title", "## A"]);
    cov.mark_seen(PATH, &strings(&["# Title", "## A"]), Some(7));
    let s = cov.status(PATH, &all, Some(7)).unwrap();
    assert!(s.unread.is_empty());
}

#[test]
fn mtime_invalidation() {
    let mut cov = SectionCoverage::new();
    cov.mark_seen(PATH, &strings(&["# Title", "## A"]), Some(1000));
    // The file was rewritten: its modification time moved on.
    let all = strings(&["# Title", "## A", "## B"]);
    assert!(cov.status(PATH, &all, Some(1050)).is_none());
}

#[test]
fn update_mtime_prevents_invalidation() {
    let mut cov = SectionCoverage::new();
    cov.mark_seen(PATH, &strings(&["# Title", "## A"]), Some(1000));
    // The tools rewrote the file themselves and recorded its new time.
    cov.update_mtime(PATH, Some(1050));
    let all = strings(&["# Title", "## A"]);
    assert!(cov.status(PATH, &all, Some(1050)).is_some());
}

#[test]
fn unread_hint_format() {
    let mut cov = SectionCoverage::new();
    cov.mark_seen(PATH, &strings(&["# Title"]), Some(1));
    let mut all = vec!["# Title".to_string()];
    for i in 0..7 {
        all.push(format!("## Section {i}"));
    }
    let hint = cov.unread_hint(PATH, &all, Some(1)).unwrap();
    assert!(hint.contains("7 unread"));
    assert!(hint.contains("2 more"));
}

#[test]
fn no_hint_when_no_coverage() {
    let mut cov = SectionCoverage::new();
    let all = strings(&["## A"]);
    assert!(cov.unread_hint(PATH, &all, Some(1)).is_none());
}

// ── Further cases ───────────────────────────────────────────

#[test]
fn unread_hint_exact_text() {
    let mut cov = SectionCoverage::new();
    cov.mark_seen(PATH, &strings(&["# Title"]), Some(1));
    let mut all = vec!["# Title".to_string()];
    for i in 0..7 {
        all.push(format!("## Section {i}"));
    }
    let hint = cov.unread_hint(PATH, &all, Some(1)).unwrap();
    assert_eq!(
        hint,
        "7 unread sections in this file: ## Section 0, ## Section 1, ## Section 2, \
         ## Section 3, ## Section 4, ... (2 more)"
    );
}

#[test]
fn unread_hint_without_more_suffix() {
    let mut cov = SectionCoverage::new();
    cov.mark_seen(PATH, &strings(&["## A"]), None);
    let hint = cov.unread_hint(PATH, &strings(&["## A", "## B", "## C"]), None).unwrap();
    assert_eq!(hint, "2 unread sections in this file: ## B, ## C");
}

#[test]
fn no_hint_when_all_read() {
    let mut cov = SectionCoverage::new();
    cov.mark_seen(PATH, &strings(&["## A", "## B"]), Some(3));
    assert!(cov.unread_hint(PATH, &strings(&["## A", "## B"]), Some(3)).is_none());
}

#[test]
fn unreadable_time_keeps_coverage() {
    let mut cov = SectionCoverage::new();
    cov.mark_seen(PATH, &strings(&["## A"]), Some(3));
    assert!(cov.status(PATH, &strings(&["## A"]), None).is_some());
}

#[test]
fn changed_file_stays_forgotten() {
    let mut cov = SectionCoverage::new();
    cov.mark_seen(PATH, &strings(&["## A"]), Some(3));
    assert!(cov.status(PATH, &strings(&["## A"]), Some(4)).is_none());
    assert!(cov.status(PATH, &strings(&["## A"]), Some(3)).is_none());
}

#[test]
fn marks_accumulate_per_file() {
    let mut cov = SectionCoverage::new();
    cov.mark_seen(PATH, &strings(&["## A"]), Some(3));
    cov.mark_seen(PATH, &strings(&["## B", "## A"]), Some(3));
    cov.mark_seen("/tmp/other.md", &strings(&["## C"]), Some(3));
    let s = cov.status(PATH, &strings(&["## A", "## B", "## C"]), Some(3)).unwrap();
    assert_eq!(s.read_count, 2);
    assert_eq!(s.unread, vec!["## C"]);
}
