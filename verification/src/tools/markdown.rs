//! Markdown-specific tools: `read_markdown` and `edit_markdown`.
//!
//! `ReadMarkdown` provides heading-based navigation for `.md` files (heading
//! map, single-section, multi-section, and line-range reads).
//!
//! `EditMarkdown` provides heading-addressed section editing with support for
//! `action="edit"` (scoped string replacement) and batch mode.
use vstd::prelude::*;
use crate::tools::headings::{
    compute_section_end, resolve_section, resolve_spec_lines, section_end, EditError,
    EditErrorView,
};
use crate::tools::section_edit::{
    has_prefix_of, has_text, lemma_join_at, lemma_resolved_heading, lemma_trim_keeps_front,
    resolved_line,
    ends_with_one_newline, law_normalized_ends_with_one_newline,
    joined_block, join_lines, join_lines_tail, normalize_trailing_newline, normalized, opt_view,
    result_view, section_edit,
};
use crate::tools::errors::{
    concat, is_markdown_path, markdown_path, recoverable, tool_result_view, ToolError,
    ToolErrorView,
};
use crate::tools::headings::error_message;
use crate::util::text::{extract_lines, select_lines};
use crate::util::strings::{
    has_suffix, lemma_trim_end_nl_ends, trim_end_nl,
    lines_of,
    decimal, decimal_string, str_eq,
    chars_of, contains, contains_chars, join, nl, push_char, push_str, replace_all,
    replace_all_chars, replace_first, replace_first_chars, split_lines, split_newlines, views,
    lemma_split_lines_nonempty,
};

verus! {

/// Pure string transformation: apply `action` to the section identified by
/// `heading_query`.
///
/// Returns the full modified file content (always ends with a single newline).
pub fn perform_section_edit(
    content: &str,
    heading_query: &str,
    action: &str,
    new_content: Option<&str>,
) -> (r: Result<String, EditError>)
    ensures
        result_view(r) == section_edit(content@, heading_query@, action@, opt_view(new_content)),
{
    crate::tools::section_edit::perform_section_edit(content, heading_query, action, new_content)
}

/// The text of the section (heading and body) between lines `h` and `e`,
/// with a trailing newline.
pub open spec fn section_text(ls: Seq<Seq<char>>, h: int, e: int) -> Seq<char> {
    join(ls.subrange(h, e), nl()) + nl()
}

/// The effect of replacing `old` by `new` inside the section a query names.
pub open spec fn scoped_edit(
    content: Seq<char>,
    q: Seq<char>,
    old: Seq<char>,
    new: Seq<char>,
    all: bool,
) -> Result<Seq<char>, EditErrorView> {
    let ls = split_lines(content);
    match resolve_spec_lines(ls, q) {
        Err(err) => Err(err),
        Ok((h, lvl)) => {
            let e = section_end(ls, h + 1, lvl);
            let section = section_text(ls, h, e);
            if !contains(section, old) {
                Err(EditErrorView::OldStringNotFound(q))
            } else {
                let replaced = if all {
                    replace_all(section, old, new)
                } else {
                    replace_first(section, old, new)
                };
                Ok(normalized(joined_block(ls.take(h)) + replaced + join(ls.skip(e), nl())))
            }
        },
    }
}

/// Perform a heading-scoped string replacement within a markdown file.
///
/// Finds the section identified by `heading_query`, locates `old_string`
/// within it, and replaces with `new_string`. If `replace_all` is true,
/// replaces all occurrences within the section; otherwise only the first.
///
/// Returns the full modified file content.
pub fn perform_scoped_edit(
    content: &str,
    heading_query: &str,
    old_string: &str,
    new_string: &str,
    replace_all: bool,
) -> (r: Result<String, EditError>)
    ensures
        result_view(r) == scoped_edit(content@, heading_query@, old_string@, new_string@, replace_all),
{
    let ls = split_newlines(content);
    proof {
        lemma_split_lines_nonempty(content@);
    }
    let ghost lv = views(ls@);
    let range = match resolve_section(&ls, heading_query) {
        Ok(range) => range,
        Err(e) => return Err(e),
    };
    let h = range.heading_idx;
    let end = compute_section_end(&ls, h + 1, range.level);
    let n = ls.len();
    let mut section = join_lines_tail(&ls, h, end);
    push_char(&mut section, '\n');
    let sv = chars_of(section.as_str());
    assert(sv@ =~= section_text(lv, h as int, end as int));
    let old = chars_of(old_string);
    if !contains_chars(&sv, &old) {
        return Err(EditError::OldStringNotFound { query: heading_query.to_owned() });
    }
    let new = chars_of(new_string);
    let new_section = if replace_all {
        replace_all_chars(&sv, &old, &new)
    } else {
        replace_first_chars(&sv, &old, &new)
    };
    let mut result = join_lines(&ls, 0, h);
    push_str(&mut result, new_section.as_str());
    let after = join_lines_tail(&ls, end, n);
    push_str(&mut result, after.as_str());
    assert(lv.subrange(0, h as int) =~= lv.take(h as int));
    assert(lv.subrange(end as int, n as int) =~= lv.skip(end as int));
    Ok(normalize_trailing_newline(result.as_str()))
}

// ---------------------------------------------------------------------------
// read_markdown
// ---------------------------------------------------------------------------

/// The `read_markdown` tool: heading-based navigation of Markdown files.
pub struct ReadMarkdown;

/// The navigation parameters of a `read_markdown` call.
pub struct ReadRequest {
    /// One section, by heading.
    pub heading: Option<String>,
    /// Several sections, by heading (the string items of the array).
    pub headings: Option<Vec<String>>,
    /// First line of a range (1-indexed).
    pub start_line: Option<u64>,
    /// Last line of a range (1-indexed, inclusive).
    pub end_line: Option<u64>,
}

/// The mathematical form of [`ReadRequest`].
pub struct ReadRequestView {
    pub heading: Option<Seq<char>>,
    pub headings: Option<Seq<Seq<char>>>,
    pub start_line: Option<u64>,
    pub end_line: Option<u64>,
}

impl View for ReadRequest {
    type V = ReadRequestView;

    open spec fn view(&self) -> ReadRequestView {
        ReadRequestView {
            heading: match self.heading {
                Some(h) => Some(h@),
                None => None,
            },
            headings: match self.headings {
                Some(hs) => Some(views(hs@)),
                None => None,
            },
            start_line: self.start_line,
            end_line: self.end_line,
        }
    }
}

/// What a `read_markdown` call reads.
#[derive(Debug)]
pub enum ReadPlan {
    /// Several sections, joined by a blank line.
    Sections { queries: Vec<String> },
    /// One section.
    Section { query: String },
    /// A range of lines.
    Lines { start: u64, end: u64 },
    /// The whole file, or its heading map when it is large.
    HeadingMap,
}

/// The mathematical form of [`ReadPlan`].
pub enum ReadPlanView {
    Sections(Seq<Seq<char>>),
    Section(Seq<char>),
    Lines(u64, u64),
    HeadingMap,
}

impl View for ReadPlan {
    type V = ReadPlanView;

    open spec fn view(&self) -> ReadPlanView {
        match self {
            ReadPlan::Sections { queries } => ReadPlanView::Sections(views(queries@)),
            ReadPlan::Section { query } => ReadPlanView::Section(query@),
            ReadPlan::Lines { start, end } => ReadPlanView::Lines(*start, *end),
            ReadPlan::HeadingMap => ReadPlanView::HeadingMap,
        }
    }
}

/// The message of an invalid line range.
pub open spec fn invalid_range_message(start: u64, end: u64) -> Seq<char> {
    "invalid line range: start_line="@ + decimal(start as nat) + " end_line="@ + decimal(end as nat)
        + " (start_line must be >= 1 and end_line >= start_line)"@
}

/// How a `read_markdown` call's parameters are checked and what it reads.
pub open spec fn read_plan(q: ReadRequestView) -> Result<ReadPlanView, ToolErrorView> {
    let has_nav = q.heading is Some || q.headings is Some;
    let has_range = q.start_line is Some || q.end_line is Some;
    if q.heading is Some && q.headings is Some {
        Err(
            ToolErrorView::Recoverable(
                "heading and headings are mutually exclusive"@,
                "Use heading for a single section, or headings for multiple sections."@,
            ),
        )
    } else if has_nav && has_range {
        Err(
            ToolErrorView::Recoverable(
                "navigation parameters are mutually exclusive with start_line/end_line"@,
                "Use heading/headings OR start_line+end_line, not both"@,
            ),
        )
    } else if (q.start_line is Some) != (q.end_line is Some) {
        Err(
            ToolErrorView::Recoverable(
                "both start_line and end_line are required"@,
                "Provide both start_line and end_line for a line range, e.g. start_line=1, end_line=50"@,
            ),
        )
    } else if q.headings is Some {
        Ok(ReadPlanView::Sections(q.headings->0))
    } else if q.heading is Some {
        Ok(ReadPlanView::Section(q.heading->0))
    } else if q.start_line is Some {
        let (s, e) = (q.start_line->0, q.end_line->0);
        if s == 0 || e < s {
            Err(
                ToolErrorView::Recoverable(
                    invalid_range_message(s, e),
                    "Lines are 1-indexed. Example: start_line=1, end_line=50"@,
                ),
            )
        } else {
            Ok(ReadPlanView::Lines(s, e))
        }
    } else {
        Ok(ReadPlanView::HeadingMap)
    }
}

/// Lines shown of a buffered range, and the range to read next when it
/// did not fit.
pub struct LinePage {
    /// First line shown (of the original file).
    pub first: usize,
    /// Last line shown (of the original file).
    pub last: usize,
    /// The next range of the buffered extract, when it was not complete.
    pub next: Option<(usize, usize)>,
}

impl ReadMarkdown {
    /// The tool's name.
    pub fn name(&self) -> (r: &'static str)
        ensures
            r@ == "read_markdown"@,
    {
        "read_markdown"
    }

    /// The tool's description.
    pub fn description(&self) -> (r: &'static str)
        ensures
            r@ == "Read a Markdown file with heading-based navigation. Returns heading map by default, or targeted sections via heading/headings params."@,
    {
        "Read a Markdown file with heading-based navigation. Returns heading map by default, or targeted sections via heading/headings params."
    }

    /// The JSON schema of the tool's input, as JSON text.
    pub fn input_schema_json(&self) -> (r: &'static str)
        ensures
            r@ == "{\"type\":\"object\",\"required\":[\"path\"],\"properties\":{\"path\":{\"type\":\"string\",\"description\":\"Markdown file path relative to project root\"},\"heading\":{\"type\":\"string\",\"description\":\"Markdown section by heading (e.g. \\\"## Auth\\\").\"},\"headings\":{\"type\":\"array\",\"items\":{\"type\":\"string\"},\"description\":\"List of headings to read (returns multiple sections). Mutually exclusive with heading.\"},\"start_line\":{\"type\":\"integer\",\"description\":\"First line (1-indexed). Pair with end_line.\"},\"end_line\":{\"type\":\"integer\",\"description\":\"Last line (1-indexed, inclusive). Pair with start_line.\"}}}"@,
    {
        "{\"type\":\"object\",\"required\":[\"path\"],\"properties\":{\"path\":{\"type\":\"string\",\"description\":\"Markdown file path relative to project root\"},\"heading\":{\"type\":\"string\",\"description\":\"Markdown section by heading (e.g. \\\"## Auth\\\").\"},\"headings\":{\"type\":\"array\",\"items\":{\"type\":\"string\"},\"description\":\"List of headings to read (returns multiple sections). Mutually exclusive with heading.\"},\"start_line\":{\"type\":\"integer\",\"description\":\"First line (1-indexed). Pair with end_line.\"},\"end_line\":{\"type\":\"integer\",\"description\":\"Last line (1-indexed, inclusive). Pair with start_line.\"}}}"
    }

    /// Refuse files that are not Markdown.
    pub fn check_path(&self, path: &str) -> (r: Result<(), ToolError>)
        ensures
            r is Ok <==> is_markdown_path(path@),
            r matches Err(e) ==> e@ == ToolErrorView::Recoverable(
                "read_markdown only supports .md files"@,
                "Use read_file for non-markdown files."@,
            ),
    {
        if markdown_path(path) {
            Ok(())
        } else {
            Err(recoverable("read_markdown only supports .md files", "Use read_file for non-markdown files."))
        }
    }

    /// Check a call's navigation parameters and decide what it reads.
    pub fn plan(&self, req: ReadRequest) -> (r: Result<ReadPlan, ToolError>)
        ensures
            tool_result_view(r) == read_plan(req@),
    {
        let ghost q = req@;
        let has_nav = req.heading.is_some() || req.headings.is_some();
        let has_range = req.start_line.is_some() || req.end_line.is_some();
        if req.heading.is_some() && req.headings.is_some() {
            return Err(
                recoverable(
                    "heading and headings are mutually exclusive",
                    "Use heading for a single section, or headings for multiple sections.",
                ),
            );
        }
        if has_nav && has_range {
            return Err(
                recoverable(
                    "navigation parameters are mutually exclusive with start_line/end_line",
                    "Use heading/headings OR start_line+end_line, not both",
                ),
            );
        }
        if req.start_line.is_some() != req.end_line.is_some() {
            return Err(
                recoverable(
                    "both start_line and end_line are required",
                    "Provide both start_line and end_line for a line range, e.g. start_line=1, end_line=50",
                ),
            );
        }
        match req.headings {
            Some(hs) => {
                return Ok(ReadPlan::Sections { queries: hs });
            },
            None => {},
        }
        match req.heading {
            Some(h) => {
                return Ok(ReadPlan::Section { query: h });
            },
            None => {},
        }
        match (req.start_line, req.end_line) {
            (Some(s), Some(e)) => {
                if s == 0 || e < s {
                    let mut m = String::new();
                    push_str(&mut m, "invalid line range: start_line=");
                    let sd = decimal_string(s);
                    push_str(&mut m, sd.as_str());
                    push_str(&mut m, " end_line=");
                    let ed = decimal_string(e);
                    push_str(&mut m, ed.as_str());
                    push_str(&mut m, " (start_line must be >= 1 and end_line >= start_line)");
                    assert(m@ =~= invalid_range_message(s, e));
                    return Err(
                        recoverable(
                            m.as_str(),
                            "Lines are 1-indexed. Example: start_line=1, end_line=50",
                        ),
                    );
                }
                Ok(ReadPlan::Lines { start: s, end: e })
            },
            _ => Ok(ReadPlan::HeadingMap),
        }
    }

    /// The content a line-range read returns for the file text: the lines
    /// of the plan's range joined with newlines, as [`extract_lines`] gives
    /// them. Plans that read by heading or map the headings are answered
    /// from the file's heading structure instead; for those this gives `None`.
    pub fn plan_content(&self, text: &str, plan: &ReadPlan) -> (r: Option<String>)
        ensures
            match plan@ {
                ReadPlanView::Lines(s, e) => r matches Some(c) && c@ == join(
                    select_lines(lines_of(text@), s as usize as nat, e as usize as nat),
                    nl(),
                ),
                _ => r is None,
            },
    {
        match plan {
            ReadPlan::Lines { start, end } => Some(extract_lines(text, *start as usize, *end as usize)),
            _ => None,
        }
    }

    /// The shown range of a buffered line extract that starts at line
    /// `start` and shows `lines_shown` of its `total` lines, and, when it is
    /// not `complete`, the range of the buffer to read next (as long again,
    /// capped at the buffer's end).
    pub fn buffered_page(&self, start: usize, lines_shown: usize, total: usize, complete: bool) -> (r:
        LinePage)
        requires
            start + lines_shown <= usize::MAX,
            !complete ==> lines_shown + lines_shown <= usize::MAX,
        ensures
            r.first == start,
            r.last == start + if lines_shown > 0 {
                lines_shown - 1
            } else {
                0
            },
            complete ==> r.next is None,
            !complete ==> r.next == Some(
                (
                    (lines_shown + 1) as usize,
                    if lines_shown + lines_shown <= total {
                        (lines_shown + lines_shown) as usize
                    } else {
                        total
                    },
                ),
            ),
    {
        let last = start + lines_shown.saturating_sub(1);
        let next = if complete {
            None
        } else {
            let next_start = lines_shown + 1;
            let wanted = next_start + lines_shown - 1;
            let next_end = if wanted < total {
                wanted
            } else {
                total
            };
            Some((next_start, next_end))
        };
        LinePage { first: start, last, next }
    }

    /// The call that reads the next range of a buffered extract:
    /// `read_markdown("<id>", start_line=<s>, end_line=<e>)`.
    pub fn next_call(&self, file_id: &str, start: usize, end: usize) -> (r: String)
        ensures
            r@ == "read_markdown(\""@ + file_id@ + "\", start_line="@ + decimal(start as nat)
                + ", end_line="@ + decimal(end as nat) + ")"@,
    {
        let mut s = String::new();
        push_str(&mut s, "read_markdown(\"");
        push_str(&mut s, file_id);
        push_str(&mut s, "\", start_line=");
        let a = decimal_string(start as u64);
        push_str(&mut s, a.as_str());
        push_str(&mut s, ", end_line=");
        let b = decimal_string(end as u64);
        push_str(&mut s, b.as_str());
        push_str(&mut s, ")");
        s
    }

    /// The hint shown when a file is cut short in exploring mode.
    pub fn overflow_hint(&self, total_lines: usize) -> (r: String)
        ensures
            r@ == "File has "@ + decimal(total_lines as nat)
                + " lines. Use start_line/end_line for ranges, or heading/headings for sections"@,
    {
        let mut s = String::new();
        push_str(&mut s, "File has ");
        let d = decimal_string(total_lines as u64);
        push_str(&mut s, d.as_str());
        push_str(&mut s, " lines. Use start_line/end_line for ranges, or heading/headings for sections");
        s
    }
}

// ---------------------------------------------------------------------------
// edit_markdown
// ---------------------------------------------------------------------------

/// The `edit_markdown` tool: heading-addressed editing, single or batched.
pub struct EditMarkdown;

/// One operation of a batch (the fields of an item of `edits`).
pub struct BatchEdit {
    pub heading: Option<String>,
    pub action: Option<String>,
    pub content: Option<String>,
    pub old_string: Option<String>,
    pub new_string: Option<String>,
    pub replace_all: Option<bool>,
}

/// The mathematical form of [`BatchEdit`].
pub struct BatchEditView {
    pub heading: Option<Seq<char>>,
    pub action: Option<Seq<char>>,
    pub content: Option<Seq<char>>,
    pub old_string: Option<Seq<char>>,
    pub new_string: Option<Seq<char>>,
    pub replace_all: Option<bool>,
}

/// The view of an optional owned string.
pub open spec fn opt_string_view(o: Option<String>) -> Option<Seq<char>> {
    match o {
        Some(s) => Some(s@),
        None => None,
    }
}

impl View for BatchEdit {
    type V = BatchEditView;

    open spec fn view(&self) -> BatchEditView {
        BatchEditView {
            heading: opt_string_view(self.heading),
            action: opt_string_view(self.action),
            content: opt_string_view(self.content),
            old_string: opt_string_view(self.old_string),
            new_string: opt_string_view(self.new_string),
            replace_all: self.replace_all,
        }
    }
}

/// The views of a sequence of batch edits.
pub open spec fn batch_views(es: Seq<BatchEdit>) -> Seq<BatchEditView> {
    es.map_values(|e: BatchEdit| e@)
}

/// The result of one edit, single or batched: a scoped replacement for
/// action `edit`, a section edit otherwise; a refusal becomes a recoverable
/// error whose message starts with `prefix`.
pub open spec fn edit_outcome(
    c: Seq<char>,
    heading: Seq<char>,
    action: Seq<char>,
    content: Option<Seq<char>>,
    old_string: Seq<char>,
    new_string: Seq<char>,
    replace_all: bool,
    prefix: Seq<char>,
    scoped_hint: Seq<char>,
) -> Result<Seq<char>, ToolErrorView> {
    if action == "edit"@ {
        match scoped_edit(c, heading, old_string, new_string, replace_all) {
            Ok(t) => Ok(t),
            Err(e) => Err(ToolErrorView::Recoverable(prefix + error_message(e), scoped_hint)),
        }
    } else {
        match crate::tools::section_edit::section_edit(c, heading, action, content) {
            Ok(t) => Ok(t),
            Err(e) => Err(
                ToolErrorView::Recoverable(prefix + error_message(e), "Check heading name and action."@),
            ),
        }
    }
}

/// `edits[<i>]: `.
pub open spec fn edit_tag(i: nat) -> Seq<char> {
    "edits["@ + decimal(i) + "]: "@
}

/// Edit `i` of a batch applied to `c`.
pub open spec fn batch_step(c: Seq<char>, e: BatchEditView, i: nat) -> Result<Seq<char>, ToolErrorView> {
    match e.heading {
        None => Err(ToolErrorView::Failed(edit_tag(i) + "missing required 'heading' field"@)),
        Some(h) => match e.action {
            None => Err(ToolErrorView::Failed(edit_tag(i) + "missing required 'action' field"@)),
            Some(a) => if a == "edit"@ && e.old_string is None {
                Err(ToolErrorView::Failed(edit_tag(i) + "old_string is required for action='edit'"@))
            } else {
                edit_outcome(
                    c,
                    h,
                    a,
                    e.content,
                    if e.old_string is Some {
                        e.old_string->0
                    } else {
                        Seq::<char>::empty()
                    },
                    if e.new_string is Some {
                        e.new_string->0
                    } else {
                        Seq::<char>::empty()
                    },
                    e.replace_all == Some(true),
                    edit_tag(i),
                    "Check heading name and old_string content."@,
                )
            },
        },
    }
}

/// A batch applied in order, stopping at the first edit that fails.
pub open spec fn batch_result(c: Seq<char>, es: Seq<BatchEditView>) -> Result<Seq<char>, ToolErrorView>
    decreases es.len(),
{
    if es.len() == 0 {
        Ok(c)
    } else {
        match batch_result(c, es.drop_last()) {
            Err(e) => Err(e),
            Ok(c1) => batch_step(c1, es.last(), (es.len() - 1) as nat),
        }
    }
}

/// A single (non-batch) edit: action `edit` needs `old_string`.
pub open spec fn single_result(
    c: Seq<char>,
    heading: Seq<char>,
    action: Seq<char>,
    content: Option<Seq<char>>,
    old_string: Option<Seq<char>>,
    new_string: Option<Seq<char>>,
    replace_all: bool,
) -> Result<Seq<char>, ToolErrorView> {
    if action == "edit"@ && old_string is None {
        Err(ToolErrorView::MissingParameter("old_string"@))
    } else {
        single_outcome(c, heading, action, content, old_string, new_string, replace_all)
    }
}

/// A single edit whose parameters are all there.
pub open spec fn single_outcome(
    c: Seq<char>,
    heading: Seq<char>,
    action: Seq<char>,
    content: Option<Seq<char>>,
    old_string: Option<Seq<char>>,
    new_string: Option<Seq<char>>,
    replace_all: bool,
) -> Result<Seq<char>, ToolErrorView> {
    edit_outcome(
        c,
        heading,
        action,
        content,
        if old_string is Some {
            old_string->0
        } else {
            Seq::<char>::empty()
        },
        if new_string is Some {
            new_string->0
        } else {
            Seq::<char>::empty()
        },
        replace_all,
        Seq::<char>::empty(),
        "Check heading name and old_string."@,
    )
}

fn opt_as_str(o: &Option<String>) -> (r: Option<&str>)
    ensures
        opt_view(r) == opt_string_view(*o),
{
    match o {
        Some(s) => Some(s.as_str()),
        None => None,
    }
}

fn run_edit(
    c: &str,
    heading: &str,
    action: &str,
    content: Option<&str>,
    old_string: &str,
    new_string: &str,
    replace_all: bool,
    prefix: &str,
    scoped_hint: &str,
) -> (r: Result<String, ToolError>)
    ensures
        tool_result_view(r) == edit_outcome(
            c@,
            heading@,
            action@,
            opt_view(content),
            old_string@,
            new_string@,
            replace_all,
            prefix@,
            scoped_hint@,
        ),
{
    if str_eq(action, "edit") {
        match perform_scoped_edit(c, heading, old_string, new_string, replace_all) {
            Ok(t) => Ok(t),
            Err(e) => {
                let m = e.message();
                let full = concat(prefix, m.as_str());
                Err(recoverable(full.as_str(), scoped_hint))
            },
        }
    } else {
        match perform_section_edit(c, heading, action, content) {
            Ok(t) => Ok(t),
            Err(e) => {
                let m = e.message();
                let full = concat(prefix, m.as_str());
                Err(recoverable(full.as_str(), "Check heading name and action."))
            },
        }
    }
}

fn failed_at(i: usize, what: &str) -> (r: ToolError)
    ensures
        r@ == ToolErrorView::Failed(edit_tag(i as nat) + what@),
{
    let tag = edit_tag_string(i);
    let m = concat(tag.as_str(), what);
    ToolError::Failed { message: m }
}

fn edit_tag_string(i: usize) -> (r: String)
    ensures
        r@ == edit_tag(i as nat),
{
    let mut s = String::new();
    push_str(&mut s, "edits[");
    let d = decimal_string(i as u64);
    push_str(&mut s, d.as_str());
    push_str(&mut s, "]: ");
    s
}

fn batch_edit_step(content: &str, e: &BatchEdit, i: usize) -> (r: Result<String, ToolError>)
    ensures
        tool_result_view(r) == batch_step(content@, e@, i as nat),
{
    let heading = match &e.heading {
        Some(h) => h.as_str(),
        None => {
            return Err(failed_at(i, "missing required 'heading' field"));
        },
    };
    let action = match &e.action {
        Some(a) => a.as_str(),
        None => {
            return Err(failed_at(i, "missing required 'action' field"));
        },
    };
    if str_eq(action, "edit") && e.old_string.is_none() {
        return Err(failed_at(i, "old_string is required for action='edit'"));
    }
    let old_string = match &e.old_string {
        Some(o) => o.as_str(),
        None => "",
    };
    let new_string = match &e.new_string {
        Some(n) => n.as_str(),
        None => "",
    };
    let replace_all = match e.replace_all {
        Some(b) => b,
        None => false,
    };
    let tag = edit_tag_string(i);
    proof {
        reveal_strlit("");
        assert(""@ =~= Seq::<char>::empty());
    }
    run_edit(
        content,
        heading,
        action,
        opt_as_str(&e.content),
        old_string,
        new_string,
        replace_all,
        tag.as_str(),
        "Check heading name and old_string content.",
    )
}

proof fn lemma_batch_prefix_err(c: Seq<char>, es: Seq<BatchEditView>, k: int)
    requires
        0 <= k <= es.len(),
        batch_result(c, es.take(k)) is Err,
    ensures
        batch_result(c, es) == batch_result(c, es.take(k)),
    decreases es.len(),
{
    if k == es.len() {
        assert(es.take(k) =~= es);
    } else {
        assert(es.drop_last().take(k) =~= es.take(k));
        lemma_batch_prefix_err(c, es.drop_last(), k);
    }
}

impl EditMarkdown {
    /// The tool's name.
    pub fn name(&self) -> (r: &'static str)
        ensures
            r@ == "edit_markdown"@,
    {
        "edit_markdown"
    }

    /// The tool's description.
    pub fn description(&self) -> (r: &'static str)
        ensures
            r@ == "Edit a Markdown document by heading. Actions: replace, insert_before, insert_after, remove, edit. Supports batch mode via edits array."@,
    {
        "Edit a Markdown document by heading. Actions: replace, insert_before, insert_after, remove, edit. Supports batch mode via edits array."
    }

    /// The JSON schema of the tool's input, as JSON text.
    pub fn input_schema_json(&self) -> (r: &'static str)
        ensures
            r@ == "{\"type\":\"object\",\"required\":[\"path\"],\"properties\":{\"path\":{\"type\":\"string\",\"description\":\"Markdown file path\"},\"heading\":{\"type\":\"string\",\"description\":\"Target section heading (fuzzy matched)\"},\"action\":{\"type\":\"string\",\"enum\":[\"replace\",\"insert_before\",\"insert_after\",\"remove\",\"edit\"],\"description\":\"Operation to perform\"},\"content\":{\"type\":\"string\",\"description\":\"New content for replace/insert actions (body only \u{2014} heading preserved on replace)\"},\"old_string\":{\"type\":\"string\",\"description\":\"For action='edit': exact text to find within section\"},\"new_string\":{\"type\":\"string\",\"description\":\"For action='edit': replacement text\"},\"replace_all\":{\"type\":\"boolean\",\"default\":false,\"description\":\"For action='edit': replace all occurrences\"},\"edits\":{\"type\":\"array\",\"items\":{\"type\":\"object\",\"required\":[\"heading\",\"action\"],\"properties\":{\"heading\":{\"type\":\"string\"},\"action\":{\"type\":\"string\",\"enum\":[\"replace\",\"insert_before\",\"insert_after\",\"remove\",\"edit\"]},\"content\":{\"type\":\"string\"},\"old_string\":{\"type\":\"string\"},\"new_string\":{\"type\":\"string\"},\"replace_all\":{\"type\":\"boolean\"}}},\"description\":\"Batch mode: array of edit operations applied atomically. Mutually exclusive with top-level heading/action.\"}}}"@,
    {
        "{\"type\":\"object\",\"required\":[\"path\"],\"properties\":{\"path\":{\"type\":\"string\",\"description\":\"Markdown file path\"},\"heading\":{\"type\":\"string\",\"description\":\"Target section heading (fuzzy matched)\"},\"action\":{\"type\":\"string\",\"enum\":[\"replace\",\"insert_before\",\"insert_after\",\"remove\",\"edit\"],\"description\":\"Operation to perform\"},\"content\":{\"type\":\"string\",\"description\":\"New content for replace/insert actions (body only \u{2014} heading preserved on replace)\"},\"old_string\":{\"type\":\"string\",\"description\":\"For action='edit': exact text to find within section\"},\"new_string\":{\"type\":\"string\",\"description\":\"For action='edit': replacement text\"},\"replace_all\":{\"type\":\"boolean\",\"default\":false,\"description\":\"For action='edit': replace all occurrences\"},\"edits\":{\"type\":\"array\",\"items\":{\"type\":\"object\",\"required\":[\"heading\",\"action\"],\"properties\":{\"heading\":{\"type\":\"string\"},\"action\":{\"type\":\"string\",\"enum\":[\"replace\",\"insert_before\",\"insert_after\",\"remove\",\"edit\"]},\"content\":{\"type\":\"string\"},\"old_string\":{\"type\":\"string\"},\"new_string\":{\"type\":\"string\"},\"replace_all\":{\"type\":\"boolean\"}}},\"description\":\"Batch mode: array of edit operations applied atomically. Mutually exclusive with top-level heading/action.\"}}}"
    }

    /// Refuse files that are not Markdown.
    pub fn check_path(&self, path: &str) -> (r: Result<(), ToolError>)
        ensures
            r is Ok <==> is_markdown_path(path@),
            r matches Err(e) ==> e@ == ToolErrorView::Recoverable(
                "edit_markdown only supports .md files"@,
                "Use edit_file for non-markdown files."@,
            ),
    {
        if markdown_path(path) {
            Ok(())
        } else {
            Err(recoverable("edit_markdown only supports .md files", "Use edit_file for non-markdown files."))
        }
    }

    /// Batch mode (an `edits` array) excludes a top-level heading or action.
    pub fn check_mode(&self, has_edits: bool, has_heading: bool, has_action: bool) -> (r: Result<
        (),
        ToolError,
    >)
        ensures
            r is Ok <==> !(has_edits && (has_heading || has_action)),
            r matches Err(e) ==> e@ == ToolErrorView::Recoverable(
                "edits array is mutually exclusive with top-level heading/action"@,
                "Use either edits=[] for batch mode, or heading+action for single edit."@,
            ),
    {
        if has_edits && (has_heading || has_action) {
            Err(
                recoverable(
                    "edits array is mutually exclusive with top-level heading/action",
                    "Use either edits=[] for batch mode, or heading+action for single edit.",
                ),
            )
        } else {
            Ok(())
        }
    }

    /// Apply a batch of edits in order to `file_content`; the first edit
    /// that fails fails the whole batch, so nothing is written.
    pub fn apply_batch(&self, file_content: &str, edits: &Vec<BatchEdit>) -> (r: Result<
        String,
        ToolError,
    >)
        ensures
            tool_result_view(r) == batch_result(file_content@, batch_views(edits@)),
    {
        let ghost es = batch_views(edits@);
        let mut content = file_content.to_owned();
        let mut i: usize = 0;
        while i < edits.len()
            invariant
                i <= edits.len(),
                es == batch_views(edits@),
                batch_result(file_content@, es.take(i as int)) == Ok::<Seq<char>, ToolErrorView>(
                    content@,
                ),
            decreases edits.len() - i,
        {
            proof {
                assert(es.take(i + 1).drop_last() =~= es.take(i as int));
                assert(es.take(i + 1).last() == edits@[i as int]@);
            }
            match batch_edit_step(content.as_str(), &edits[i], i) {
                Ok(t) => {
                    content = t;
                },
                Err(err) => {
                    proof {
                        lemma_batch_prefix_err(file_content@, es, i + 1);
                    }
                    return Err(err);
                },
            }
            i += 1;
        }
        proof {
            assert(es.take(edits.len() as int) =~= es);
        }
        Ok(content)
    }

    /// Apply one edit to `file_content`: a scoped replacement of
    /// `old_string` by `new_string` (default empty) for action `edit`, a
    /// section edit with `content` otherwise.
    pub fn apply_single(
        &self,
        file_content: &str,
        heading: &str,
        action: &str,
        content: Option<&str>,
        old_string: Option<&str>,
        new_string: Option<&str>,
        replace_all: bool,
    ) -> (r: Result<String, ToolError>)
        ensures
            tool_result_view(r) == single_result(
                file_content@,
                heading@,
                action@,
                opt_view(content),
                opt_view(old_string),
                opt_view(new_string),
                replace_all,
            ),
    {
        if str_eq(action, "edit") && old_string.is_none() {
            return Err(ToolError::MissingParameter { name: "old_string".to_owned() });
        }
        let o = match old_string {
            Some(o) => o,
            None => "",
        };
        let n = match new_string {
            Some(n) => n,
            None => "",
        };
        proof {
            reveal_strlit("");
            assert(""@ =~= Seq::<char>::empty());
        }
        run_edit(
            file_content,
            heading,
            action,
            content,
            o,
            n,
            replace_all,
            "",
            "Check heading name and old_string.",
        )
    }
}

// ---------------------------------------------------------------------------
// Laws of batch editing
// ---------------------------------------------------------------------------

proof fn lemma_step_index_free(c: Seq<char>, e: BatchEditView, i: nat, j: nat)
    ensures
        (batch_step(c, e, i) is Ok) == (batch_step(c, e, j) is Ok),
        batch_step(c, e, i) is Ok ==> batch_step(c, e, i) == batch_step(c, e, j),
{
}

/// A batch of one edit changes the file exactly as the same edit made
/// alone: both succeed or both fail, and on success give the same content.
pub proof fn law_batch_of_one_is_single(c: Seq<char>, e: BatchEditView)
    requires
        e.heading is Some,
        e.action is Some,
        e.action->0 == "edit"@ ==> e.old_string is Some,
    ensures
        (batch_result(c, seq![e]) is Ok) == (single_result(
            c,
            e.heading->0,
            e.action->0,
            e.content,
            e.old_string,
            e.new_string,
            e.replace_all == Some(true),
        ) is Ok),
        batch_result(c, seq![e]) is Ok ==> batch_result(c, seq![e]) == single_result(
            c,
            e.heading->0,
            e.action->0,
            e.content,
            e.old_string,
            e.new_string,
            e.replace_all == Some(true),
        ),
{
    assert(seq![e].drop_last() =~= Seq::<BatchEditView>::empty());
    assert(seq![e].last() == e);
    assert(batch_result(c, Seq::<BatchEditView>::empty()) == Ok::<Seq<char>, ToolErrorView>(c));
    assert(batch_result(c, seq![e]) == batch_step(c, e, 0));
}

/// Edits of a batch apply in sequence: after a first part of the batch
/// succeeds, the rest succeeds on the whole batch exactly when it succeeds
/// on the first part's result, with the same content.
pub proof fn law_batch_applies_in_sequence(
    c: Seq<char>,
    first: Seq<BatchEditView>,
    rest: Seq<BatchEditView>,
    mid: Seq<char>,
)
    requires
        batch_result(c, first) == Ok::<Seq<char>, ToolErrorView>(mid),
    ensures
        (batch_result(c, first + rest) is Ok) == (batch_result(mid, rest) is Ok),
        batch_result(c, first + rest) is Ok ==> batch_result(c, first + rest) == batch_result(
            mid,
            rest,
        ),
    decreases rest.len(),
{
    if rest.len() == 0 {
        assert(first + rest =~= first);
    } else {
        let r0 = rest.drop_last();
        assert((first + rest).drop_last() =~= first + r0);
        assert((first + rest).last() == rest.last());
        law_batch_applies_in_sequence(c, first, r0, mid);
        if let Ok(m1) = batch_result(mid, r0) {
            lemma_step_index_free(
                m1,
                rest.last(),
                (first.len() + rest.len() - 1) as nat,
                (rest.len() - 1) as nat,
            );
        }
    }
}

/// A successful scoped replacement gives a file that ends with exactly one
/// newline.
pub proof fn law_scoped_edit_ends_with_one_newline(
    content: Seq<char>,
    q: Seq<char>,
    old: Seq<char>,
    new: Seq<char>,
    all: bool,
)
    ensures
        scoped_edit(content, q, old, new, all) matches Ok(t) ==> ends_with_one_newline(t),
{
    let ls = split_lines(content);
    if let Ok((h, lvl)) = resolve_spec_lines(ls, q) {
        let e = section_end(ls, h + 1, lvl);
        let section = section_text(ls, h, e);
        law_normalized_ends_with_one_newline(
            joined_block(ls.take(h)) + replace_all(section, old, new) + join(ls.skip(e), nl()),
        );
        law_normalized_ends_with_one_newline(
            joined_block(ls.take(h)) + replace_first(section, old, new) + join(ls.skip(e), nl()),
        );
    }
}

/// A line-range read with `1 <= start_line <= end_line` (and no heading
/// given) is always accepted and reads exactly that range, a single line
/// included; a range is refused only when `start_line` is 0 or `end_line`
/// is before it.
pub proof fn law_line_range_accepted_iff_ordered(s: u64, e: u64)
    ensures
        ({
            let q = ReadRequestView {
                heading: None,
                headings: None,
                start_line: Some(s),
                end_line: Some(e),
            };
            &&& 1 <= s <= e ==> read_plan(q) == Ok::<ReadPlanView, ToolErrorView>(
                ReadPlanView::Lines(s, e),
            )
            &&& (s == 0 || e < s) ==> read_plan(q) is Err
        }),
{
}

proof fn lemma_section_end_bounds(ls: Seq<Seq<char>>, i: int, level: nat)
    requires
        0 <= i,
    ensures
        0 <= section_end(ls, i, level) <= ls.len(),
        i <= ls.len() ==> i <= section_end(ls, i, level),
    decreases ls.len() - i,
{
    if i < ls.len() {
        lemma_section_end_bounds(ls, i + 1, level);
    }
}

proof fn lemma_trim_keeps_trimmed_front(a: Seq<char>, b: Seq<char>)
    ensures
        has_prefix_of(trim_end_nl(a + b), trim_end_nl(a)),
    decreases b.len(),
{
    lemma_trim_end_nl_ends(a);
    let ta = trim_end_nl(a);
    if b.len() == 0 {
        assert(a + b =~= a);
        assert(ta.subrange(0, ta.len() as int) =~= ta);
    } else if b.last() == '\n' {
        lemma_trim_keeps_trimmed_front(a, b.drop_last());
        assert((a + b).drop_last() =~= a + b.drop_last());
        assert((a + b).last() == '\n');
        assert(trim_end_nl(a + b) == trim_end_nl((a + b).drop_last()));
    } else {
        assert((a + b).last() == b.last());
        assert(trim_end_nl(a + b) == a + b);
        assert((a + b).subrange(0, ta.len() as int) =~= ta) by {
            assert forall|i: int| 0 <= i < ta.len() implies (a + b)[i] == ta[i] by {
                assert(ta[i] == a.subrange(0, ta.len() as int)[i]);
            }
        }
    }
}

/// Normalising `before + mid + after` keeps `before` up to its trailing
/// newlines, and keeps `after` up to its trailing newlines when it has text.
proof fn lemma_normalized_frame(before: Seq<char>, mid: Seq<char>, after: Seq<char>)
    ensures
        has_prefix_of(normalized(before + mid + after), trim_end_nl(before)),
        has_text(after) ==> has_suffix(
            normalized(before + mid + after),
            trim_end_nl(after) + nl(),
        ),
{
    assert(before + mid + after =~= before + (mid + after));
    lemma_trim_keeps_trimmed_front(before, mid + after);
    lemma_trim_end_nl_ends(before + mid + after);
    let t = normalized(before + mid + after);
    let tm = trim_end_nl(before + mid + after);
    assert(t.subrange(0, trim_end_nl(before).len() as int) =~= tm.subrange(
        0,
        trim_end_nl(before).len() as int,
    ));
    if has_text(after) {
        lemma_trim_keeps_front(before + mid, after);
        let tr = trim_end_nl(after);
        assert(t == before + mid + tr + nl());
        assert(t.skip(t.len() - (tr + nl()).len()) =~= tr + nl());
    }
}

/// A scoped replacement changes the named section only: the result starts
/// with the text before that section as it was (up to its trailing blank
/// lines), and, when text follows the section, ends with that text as it
/// was (up to the one final newline). So an edit can never land in another
/// section, before or after.
pub proof fn law_scoped_edit_stays_in_section(
    content: Seq<char>,
    q: Seq<char>,
    old: Seq<char>,
    new: Seq<char>,
    all: bool,
)
    requires
        scoped_edit(content, q, old, new, all) is Ok,
    ensures
        ({
            let ls = split_lines(content);
            let h = resolved_line(ls, q);
            let lvl = resolve_spec_lines(ls, q)->Ok_0.1;
            let e = section_end(ls, h + 1, lvl);
            let before = joined_block(ls.take(h));
            let after = join(ls.skip(e), nl());
            let t = scoped_edit(content, q, old, new, all)->Ok_0;
            &&& has_prefix_of(content, before)
            &&& has_prefix_of(t, trim_end_nl(before))
            &&& e < ls.len() ==> has_suffix(content, after)
            &&& e < ls.len() && has_text(after) ==> has_suffix(t, trim_end_nl(after) + nl())
        }),
{
    let ls = split_lines(content);
    lemma_resolved_heading(content, q);
    let h = resolved_line(ls, q);
    let lvl = resolve_spec_lines(ls, q)->Ok_0.1;
    let e = section_end(ls, h + 1, lvl);
    lemma_section_end_bounds(ls, h + 1, lvl);
    let before = joined_block(ls.take(h));
    let after = join(ls.skip(e), nl());
    let section = section_text(ls, h, e);
    let replaced = if all {
        replace_all(section, old, new)
    } else {
        replace_first(section, old, new)
    };
    let t = scoped_edit(content, q, old, new, all)->Ok_0;
    assert(t == normalized(before + replaced + after));
    lemma_normalized_frame(before, replaced, after);
    assert(content.subrange(0, before.len() as int) =~= before);
    if e < ls.len() {
        crate::util::strings::lemma_join_split(content);
        lemma_join_at(ls, e);
        let front = joined_block(ls.take(e));
        assert(content.skip(content.len() - after.len()) =~= after) by {
            assert(content == front + after);
        }
    }
}

} // verus!
