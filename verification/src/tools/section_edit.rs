//! `edit_section` tool — heading-addressed Markdown section editing.
use vstd::prelude::*;
use crate::tools::headings::{
    compute_section_end, heading_level_chars, targets, heading_level_of, resolve_section,
    resolve_spec_lines, section_end, EditError, EditErrorView,
};
use crate::tools::errors::{
    is_markdown_path, markdown_path, recoverable, tool_result_view, ToolError, ToolErrorView,
};
use crate::tools::headings::error_message;
use crate::util::strings::{
    has_suffix,
    chars_of, ends_with_char, join, join_range, lines, lines_of, nl, push_char, push_str,
    split_lines, split_newlines, str_eq, string_of, sub_chars, trim, trim_chars, trim_end,
    trim_end_index, trim_end_nl, views, lemma_split_lines_nonempty, lemma_trim_end_nl_from_index,
    lemma_trim_end_nl_ends,
};

verus! {

// ---------------------------------------------------------------------------
// Spec
// ---------------------------------------------------------------------------

/// The view of an optional string argument.
pub open spec fn opt_view(o: Option<&str>) -> Option<Seq<char>> {
    match o {
        Some(s) => Some(s@),
        None => None,
    }
}

/// The view of an edit result.
pub open spec fn result_view(r: Result<String, EditError>) -> Result<Seq<char>, EditErrorView> {
    match r {
        Ok(s) => Ok(s@),
        Err(e) => Err(e@),
    }
}

/// Lines joined with `\n`, followed by one more `\n` (nothing for no lines).
pub open spec fn joined_block(ls: Seq<Seq<char>>) -> Seq<char> {
    if ls.len() == 0 {
        Seq::<char>::empty()
    } else {
        join(ls, nl()) + nl()
    }
}

/// `s` with a newline appended unless it already ends with one.
pub open spec fn with_trailing_newline(s: Seq<char>) -> Seq<char> {
    if ends_with_char(s, '\n') {
        s
    } else {
        s.push('\n')
    }
}

/// `s` with its trailing newlines replaced by exactly one.
pub open spec fn normalized(s: Seq<char>) -> Seq<char> {
    trim_end_nl(s).push('\n')
}

/// Does new content open with a Markdown heading line (then it replaces the
/// section's heading too)?
pub open spec fn starts_with_heading(n: Seq<char>) -> bool {
    lines_of(n).len() > 0 && heading_level_of(trim_end(lines_of(n)[0])) is Some
}

/// Separator between a kept heading and new body text: one blank line,
/// unless the body already starts with a newline.
pub open spec fn body_separator(n: Seq<char>) -> Seq<char> {
    if n.len() > 0 && n[0] == '\n' {
        nl()
    } else {
        seq!['\n', '\n']
    }
}

/// The text (before normalisation) of replacing section `h..e` by `n`.
pub open spec fn replaced_text(ls: Seq<Seq<char>>, h: int, e: int, n: Seq<char>) -> Seq<char> {
    if starts_with_heading(n) {
        joined_block(ls.take(h)) + with_trailing_newline(n) + join(ls.skip(e), nl())
    } else {
        joined_block(ls.take(h)) + ls[h] + body_separator(n) + with_trailing_newline(n) + join(
            ls.skip(e),
            nl(),
        )
    }
}

/// Where removal of section `..e` stops: one blank line after it goes too.
pub open spec fn removal_end(ls: Seq<Seq<char>>, e: int) -> int {
    if e < ls.len() && trim(ls[e]).len() == 0 {
        e + 1
    } else {
        e
    }
}

/// The effect of `action` on the section a query names.
pub open spec fn section_edit(
    content: Seq<char>,
    q: Seq<char>,
    action: Seq<char>,
    new: Option<Seq<char>>,
) -> Result<Seq<char>, EditErrorView> {
    let ls = split_lines(content);
    match resolve_spec_lines(ls, q) {
        Err(err) => Err(err),
        Ok((h, lvl)) => {
            let e = section_end(ls, h + 1, lvl);
            if action == "replace"@ {
                match new {
                    Some(n) => Ok(normalized(replaced_text(ls, h, e, n))),
                    None => Err(EditErrorView::MissingContent("replace"@)),
                }
            } else if action == "insert_before"@ {
                match new {
                    Some(n) => Ok(
                        normalized(
                            joined_block(ls.take(h)) + with_trailing_newline(n) + join(
                                ls.skip(h),
                                nl(),
                            ),
                        ),
                    ),
                    None => Err(EditErrorView::MissingContent("insert_before"@)),
                }
            } else if action == "insert_after"@ {
                match new {
                    Some(n) => Ok(
                        normalized(joined_block(ls.take(e)) + n + join(ls.skip(e), nl())),
                    ),
                    None => Err(EditErrorView::MissingContent("insert_after"@)),
                }
            } else if action == "remove"@ {
                Ok(
                    normalized(
                        joined_block(ls.take(h)) + join(ls.skip(removal_end(ls, e)), nl()),
                    ),
                )
            } else {
                Err(EditErrorView::InvalidAction(action))
            }
        },
    }
}

// ---------------------------------------------------------------------------
// Helpers
// ---------------------------------------------------------------------------

/// Join a non-tail slice of lines back into a string.
/// Always appends a '\n' after the last element to act as a separator toward
/// the next part. Returns "" for an empty slice.
pub fn join_lines(ls: &Vec<String>, lo: usize, hi: usize) -> (r: String)
    requires
        lo <= hi <= ls.len(),
    ensures
        r@ == joined_block(views(ls@).subrange(lo as int, hi as int)),
{
    if lo == hi {
        return String::new();
    }
    proof {
        reveal_strlit("\n");
        assert("\n"@ =~= nl());
    }
    let mut out = join_range(ls, lo, hi, "\n");
    push_char(&mut out, '\n');
    out
}

/// Join a tail slice (including any trailing "" from `split('\n')`), which
/// restores the original text faithfully.
pub fn join_lines_tail(ls: &Vec<String>, lo: usize, hi: usize) -> (r: String)
    requires
        lo <= hi <= ls.len(),
    ensures
        r@ == join(views(ls@).subrange(lo as int, hi as int), nl()),
{
    proof {
        reveal_strlit("\n");
        assert("\n"@ =~= nl());
    }
    join_range(ls, lo, hi, "\n")
}

/// Ensure `s` ends with a newline.
pub fn ensure_trailing_newline(s: &str) -> (r: String)
    ensures
        r@ == with_trailing_newline(s@),
{
    let v = chars_of(s);
    let mut out = s.to_owned();
    if v.len() == 0 || v[v.len() - 1] != '\n' {
        push_char(&mut out, '\n');
    }
    out
}

/// Normalise the final result to end with exactly one newline.
pub fn normalize_trailing_newline(s: &str) -> (r: String)
    ensures
        r@ == normalized(s@),
{
    let v = chars_of(s);
    let mut k = v.len();
    while k > 0 && v[k - 1] == '\n'
        invariant
            k <= v.len(),
            v@ == s@,
            forall|i: int| k <= i < v.len() ==> v@[i] == '\n',
        decreases k,
    {
        k -= 1;
    }
    proof {
        lemma_trim_end_nl_from_index(s@, k as int);
    }
    let mut out = string_of(&v, 0, k);
    push_char(&mut out, '\n');
    out
}

fn starts_with_heading_exec(s: &str) -> (r: bool)
    ensures
        r == starts_with_heading(s@),
{
    let ls = lines(s);
    if ls.len() == 0 {
        return false;
    }
    let first = chars_of(ls[0].as_str());
    let j = trim_end_index(&first, 0);
    let t = sub_chars(&first, 0, j);
    assert(first@.subrange(0, first@.len() as int) =~= first@);
    heading_level_chars(&t).is_some()
}

/// Pure string transformation: apply `action` to the section identified by
/// `heading_query`.
///
/// Returns the full modified file content (always ends with a single newline).
pub fn perform_section_edit(
    content: &str,
    heading_query: &str,
    action: &str,
    new_content: Option<&str>,
) -> (r: Result<String, EditError>)
    ensures
        result_view(r) == section_edit(content@, heading_query@, action@, opt_view(new_content)),
{
    let ls = split_newlines(content);
    proof {
        lemma_split_lines_nonempty(content@);
    }
    let ghost lv = views(ls@);
    let range = match resolve_section(&ls, heading_query) {
        Ok(range) => range,
        Err(e) => return Err(e),
    };
    let h = range.heading_idx;
    let end = compute_section_end(&ls, h + 1, range.level);
    let n = ls.len();
    assert(lv.subrange(0, h as int) =~= lv.take(h as int));
    assert(lv.subrange(end as int, n as int) =~= lv.skip(end as int));
    if str_eq(action, "replace") {
        let new = match new_content {
            Some(new) => new,
            None => return Err(EditError::MissingContent { action: "replace".to_owned() }),
        };
        let mut result = join_lines(&ls, 0, h);
        if starts_with_heading_exec(new) {
            let body = ensure_trailing_newline(new);
            push_str(&mut result, body.as_str());
        } else {
            push_str(&mut result, ls[h].as_str());
            let nv = chars_of(new);
            if nv.len() > 0 && nv[0] == '\n' {
                push_char(&mut result, '\n');
            } else {
                push_char(&mut result, '\n');
                push_char(&mut result, '\n');
            }
            let body = ensure_trailing_newline(new);
            push_str(&mut result, body.as_str());
        }
        let after = join_lines_tail(&ls, end, n);
        push_str(&mut result, after.as_str());
        assert(result@ =~= replaced_text(lv, h as int, end as int, new@));
        Ok(normalize_trailing_newline(result.as_str()))
    } else if str_eq(action, "insert_before") {
        let new = match new_content {
            Some(new) => new,
            None => return Err(EditError::MissingContent { action: "insert_before".to_owned() }),
        };
        let mut result = join_lines(&ls, 0, h);
        let body = ensure_trailing_newline(new);
        push_str(&mut result, body.as_str());
        let rest = join_lines_tail(&ls, h, n);
        push_str(&mut result, rest.as_str());
        assert(lv.subrange(h as int, n as int) =~= lv.skip(h as int));
        Ok(normalize_trailing_newline(result.as_str()))
    } else if str_eq(action, "insert_after") {
        let new = match new_content {
            Some(new) => new,
            None => return Err(EditError::MissingContent { action: "insert_after".to_owned() }),
        };
        let mut result = join_lines(&ls, 0, end);
        push_str(&mut result, new);
        let after = join_lines_tail(&ls, end, n);
        push_str(&mut result, after.as_str());
        assert(lv.subrange(0, end as int) =~= lv.take(end as int));
        Ok(normalize_trailing_newline(result.as_str()))
    } else if str_eq(action, "remove") {
        let mut remove_end = end;
        if remove_end < n {
            let line = chars_of(ls[remove_end].as_str());
            let t = trim_chars(&line);
            if t.len() == 0 {
                remove_end += 1;
            }
        }
        let mut result = join_lines(&ls, 0, h);
        let after = join_lines_tail(&ls, remove_end, n);
        push_str(&mut result, after.as_str());
        assert(lv.subrange(remove_end as int, n as int) =~= lv.skip(remove_end as int));
        Ok(normalize_trailing_newline(result.as_str()))
    } else {
        Err(EditError::InvalidAction { action: action.to_owned() })
    }
}

// ---------------------------------------------------------------------------
// The edit_section tool
// ---------------------------------------------------------------------------

/// The failure a refused section edit is reported as: its message, with a
/// hint to check the heading and the action.
pub open spec fn edit_failure(e: EditErrorView) -> ToolErrorView {
    ToolErrorView::Recoverable(error_message(e), "Check heading name and action."@)
}

/// The `edit_section` tool: heading-addressed editing of Markdown files.
pub struct EditSection;

impl EditSection {
    /// The tool's name.
    pub fn name(&self) -> (r: &'static str)
        ensures
            r@ == "edit_section"@,
    {
        "edit_section"
    }

    /// The tool's description.
    pub fn description(&self) -> (r: &'static str)
        ensures
            r@ == "Edit a document section by heading. Actions: replace, insert_before, insert_after, remove. Supports Markdown."@,
    {
        "Edit a document section by heading. Actions: replace, insert_before, insert_after, remove. Supports Markdown."
    }

    /// The JSON schema of the tool's input, as JSON text.
    pub fn input_schema_json(&self) -> (r: &'static str)
        ensures
            r@ == "{\"type\":\"object\",\"properties\":{\"path\":{\"type\":\"string\",\"description\":\"File path\"},\"heading\":{\"type\":\"string\",\"description\":\"Section heading to target, e.g. '## Auth'\"},\"action\":{\"type\":\"string\",\"enum\":[\"replace\",\"insert_before\",\"insert_after\",\"remove\"],\"description\":\"Operation to perform\"},\"content\":{\"type\":\"string\",\"description\":\"New content. Required for replace/insert_before/insert_after.\"}},\"required\":[\"path\",\"heading\",\"action\"]}"@,
    {
        "{\"type\":\"object\",\"properties\":{\"path\":{\"type\":\"string\",\"description\":\"File path\"},\"heading\":{\"type\":\"string\",\"description\":\"Section heading to target, e.g. '## Auth'\"},\"action\":{\"type\":\"string\",\"enum\":[\"replace\",\"insert_before\",\"insert_after\",\"remove\"],\"description\":\"Operation to perform\"},\"content\":{\"type\":\"string\",\"description\":\"New content. Required for replace/insert_before/insert_after.\"}},\"required\":[\"path\",\"heading\",\"action\"]}"
    }

    /// Refuse files that are not Markdown.
    pub fn check_path(&self, path: &str) -> (r: Result<(), ToolError>)
        ensures
            r is Ok <==> is_markdown_path(path@),
            r matches Err(e) ==> e@ == ToolErrorView::Recoverable(
                "edit_section currently supports Markdown files only"@,
                "For TOML use edit_file with toml_key, for JSON use edit_file with json_path."@,
            ),
    {
        if markdown_path(path) {
            Ok(())
        } else {
            Err(
                recoverable(
                    "edit_section currently supports Markdown files only",
                    "For TOML use edit_file with toml_key, for JSON use edit_file with json_path.",
                ),
            )
        }
    }

    /// The new content of a file after the requested edit, or the error
    /// reported to the caller.
    pub fn apply(
        &self,
        file_content: &str,
        heading: &str,
        action: &str,
        content: Option<&str>,
    ) -> (r: Result<String, ToolError>)
        ensures
            tool_result_view(r) == match section_edit(file_content@, heading@, action@, opt_view(content)) {
                Ok(t) => Ok(t),
                Err(e) => Err(edit_failure(e)),
            },
    {
        match perform_section_edit(file_content, heading, action, content) {
            Ok(t) => Ok(t),
            Err(e) => {
                let m = e.message();
                Err(recoverable(m.as_str(), "Check heading name and action."))
            },
        }
    }
}

// ---------------------------------------------------------------------------
// Laws
// ---------------------------------------------------------------------------

/// Ends with exactly one newline.
pub open spec fn ends_with_one_newline(t: Seq<char>) -> bool {
    t.len() > 0 && t.last() == '\n' && (t.len() == 1 || t[t.len() - 2] != '\n')
}

/// Normalising makes a text end with exactly one newline, and does nothing
/// more to a text that already does.
pub proof fn law_normalized_ends_with_one_newline(s: Seq<char>)
    ensures
        ends_with_one_newline(normalized(s)),
        normalized(normalized(s)) == normalized(s),
{
    lemma_trim_end_nl_ends(s);
    let t = trim_end_nl(s);
    let n = normalized(s);
    assert(n.drop_last() =~= t);
    assert(trim_end_nl(n) == trim_end_nl(t));
    if t.len() > 0 {
        assert(n[n.len() - 2] == t.last());
    }
    assert(trim_end_nl(t) == t);
}

/// Whatever the edit, a successful section edit gives a file that ends
/// with exactly one newline.
pub proof fn law_section_edit_ends_with_one_newline(
    content: Seq<char>,
    q: Seq<char>,
    action: Seq<char>,
    new: Option<Seq<char>>,
)
    ensures
        section_edit(content, q, action, new) matches Ok(t) ==> ends_with_one_newline(t),
{
    let ls = split_lines(content);
    if let Ok((h, lvl)) = resolve_spec_lines(ls, q) {
        let e = section_end(ls, h + 1, lvl);
        match new {
            Some(n) => {
                law_normalized_ends_with_one_newline(replaced_text(ls, h, e, n));
                law_normalized_ends_with_one_newline(
                    joined_block(ls.take(h)) + with_trailing_newline(n) + join(ls.skip(h), nl()),
                );
                law_normalized_ends_with_one_newline(joined_block(ls.take(e)) + n + join(ls.skip(e), nl()));
            },
            None => {},
        }
        law_normalized_ends_with_one_newline(
            joined_block(ls.take(h)) + join(ls.skip(removal_end(ls, e)), nl()),
        );
    }
}

/// A section edit fails exactly on these inputs, with this error: a query
/// that no heading answers, or several do; then an action that is none of
/// `replace`, `insert_before`, `insert_after`, `remove`; then, for the three
/// actions that insert text, no content. Every other edit succeeds.
pub proof fn law_section_edit_errors(
    content: Seq<char>,
    q: Seq<char>,
    action: Seq<char>,
    new: Option<Seq<char>>,
)
    ensures
        ({
            let ls = split_lines(content);
            let t = targets(ls, q, ls.len() as int);
            let inserts = action == "replace"@ || action == "insert_before"@ || action
                == "insert_after"@;
            &&& t.len() == 0 ==> section_edit(content, q, action, new) == Err::<Seq<char>, EditErrorView>(
                EditErrorView::HeadingNotFound(q),
            )
            &&& t.len() > 1 ==> section_edit(content, q, action, new) == Err::<Seq<char>, EditErrorView>(
                EditErrorView::AmbiguousHeading(q, t.len()),
            )
            &&& t.len() == 1 && !inserts && action != "remove"@ ==> section_edit(content, q, action, new)
                == Err::<Seq<char>, EditErrorView>(EditErrorView::InvalidAction(action))
            &&& t.len() == 1 && inserts && new is None ==> section_edit(content, q, action, new)
                == Err::<Seq<char>, EditErrorView>(EditErrorView::MissingContent(action))
            &&& t.len() == 1 && (action == "remove"@ || (inserts && new is Some)) ==> section_edit(
                content,
                q,
                action,
                new,
            ) is Ok
        }),
{
    reveal_strlit("replace");
    reveal_strlit("insert_before");
    reveal_strlit("insert_after");
    reveal_strlit("remove");
    assert("remove"@ != "replace"@) by {
        assert("remove"@[2] != "replace"@[2]);
    }
    assert("remove"@ != "insert_before"@) by {
        assert("remove"@.len() != "insert_before"@.len());
    }
    assert("remove"@ != "insert_after"@) by {
        assert("remove"@.len() != "insert_after"@.len());
    }
}

// ---------------------------------------------------------------------------
// Laws on where an edit puts text
// ---------------------------------------------------------------------------

/// The line a query resolves to (0 when it resolves to none).
pub open spec fn resolved_line(ls: Seq<Seq<char>>, q: Seq<char>) -> int {
    match resolve_spec_lines(ls, q) {
        Ok((h, _)) => h,
        Err(_) => 0,
    }
}

/// `s` has a character other than a newline.
pub open spec fn has_text(s: Seq<char>) -> bool {
    exists|i: int| 0 <= i < s.len() && s[i] != '\n'
}

/// The pieces of `split('\n')` hold no newline.
pub proof fn lemma_split_pieces_have_no_newline(s: Seq<char>)
    ensures
        forall|i: int, j: int|
            0 <= i < split_lines(s).len() && 0 <= j < split_lines(s)[i].len() ==> #[trigger] split_lines(
                s,
            )[i][j] != '\n',
    decreases s.len(),
{
    if s.len() > 0 {
        let p = s.drop_last();
        lemma_split_pieces_have_no_newline(p);
        lemma_split_lines_nonempty(p);
        let ps = split_lines(p);
        assert forall|i: int, j: int|
            0 <= i < split_lines(s).len() && 0 <= j < split_lines(s)[i].len() implies #[trigger] split_lines(
            s,
        )[i][j] != '\n' by {
            if s.last() == '\n' {
                if i < ps.len() {
                    assert(split_lines(s)[i] == ps[i]);
                }
            } else {
                if i < ps.len() - 1 {
                    assert(split_lines(s)[i] == ps[i]);
                } else {
                    assert(split_lines(s)[i] == ps.last().push(s.last()));
                    if j < ps.last().len() {
                        assert(ps.last()[j] == ps[ps.len() - 1][j]);
                    }
                }
            }
        }
    }
}

/// Joined lines split at any line: the lines before it, each ended by a
/// newline, then the rest joined.
pub proof fn lemma_join_at(ls: Seq<Seq<char>>, k: int)
    requires
        0 <= k < ls.len(),
    ensures
        join(ls, nl()) == joined_block(ls.take(k)) + join(ls.skip(k), nl()),
    decreases ls.len(),
{
    if k == 0 {
        assert(ls.take(0) =~= Seq::<Seq<char>>::empty());
        assert(ls.skip(0) =~= ls);
        assert(joined_block(ls.take(0)) =~= Seq::<char>::empty());
    } else if k == ls.len() - 1 {
        assert(ls.take(k) =~= ls.drop_last());
        assert(ls.skip(k) =~= seq![ls.last()]);
        assert(join(ls.skip(k), nl()) == ls.last());
    } else {
        let d = ls.drop_last();
        lemma_join_at(d, k);
        assert(d.take(k) =~= ls.take(k));
        assert(ls.skip(k).drop_last() =~= d.skip(k));
        assert(ls.skip(k).last() == ls.last());
        assert(join(ls.skip(k), nl()) == join(d.skip(k), nl()) + nl() + ls.last());
    }
}

/// Removing trailing newlines from `x + y` never reaches into `x` when `y`
/// has other text.
pub proof fn lemma_trim_keeps_front(x: Seq<char>, y: Seq<char>)
    requires
        has_text(y),
    ensures
        trim_end_nl(x + y) == x + trim_end_nl(y),
    decreases y.len(),
{
    if y.last() == '\n' {
        let i = choose|i: int| 0 <= i < y.len() && y[i] != '\n';
        assert(has_text(y.drop_last())) by {
            assert(y.drop_last()[i] == y[i]);
        }
        lemma_trim_keeps_front(x, y.drop_last());
        assert((x + y).drop_last() =~= x + y.drop_last());
    } else {
        assert((x + y).last() == y.last());
    }
}

/// Removing trailing newlines keeps a front part that does not end in one,
/// and what follows it, if anything, starts where the rest started.
pub proof fn lemma_trim_after_line(z: Seq<char>, r: Seq<char>)
    requires
        z.len() > 0,
        z.last() != '\n',
        r.len() == 0 || r[0] == '\n',
    ensures
        has_prefix_of(trim_end_nl(z + r), z),
        trim_end_nl(z + r).len() == z.len() || trim_end_nl(z + r)[z.len() as int] == '\n',
{
    lemma_trim_len_at_least(z, r);
    lemma_trim_end_nl_ends(z + r);
    let t = trim_end_nl(z + r);
    let zr = z + r;
    assert(t == zr.subrange(0, t.len() as int));
    if t.len() > z.len() {
        assert(t[z.len() as int] == zr[z.len() as int]);
    }
    assert(t.subrange(0, z.len() as int) =~= z) by {
        assert forall|i: int| 0 <= i < z.len() implies t[i] == z[i] by {
            assert(t[i] == zr[i]);
        }
    }
}

proof fn lemma_trim_len_at_least(z: Seq<char>, r: Seq<char>)
    requires
        z.len() > 0,
        z.last() != '\n',
    ensures
        trim_end_nl(z + r).len() >= z.len(),
        trim_end_nl(z + r) == (z + r).subrange(0, trim_end_nl(z + r).len() as int),
    decreases r.len(),
{
    lemma_trim_end_nl_ends(z + r);
    if r.len() > 0 && r.last() == '\n' {
        lemma_trim_len_at_least(z, r.drop_last());
        assert((z + r).drop_last() =~= z + r.drop_last());
    } else if r.len() == 0 {
        assert(z + r =~= z);
        assert((z + r).last() == z.last());
    } else {
        assert((z + r).last() == r.last());
    }
}

/// `s` starts with `p`.
pub open spec fn has_prefix_of(s: Seq<char>, p: Seq<char>) -> bool {
    p.len() <= s.len() && s.subrange(0, p.len() as int) == p
}

proof fn lemma_targets_valid(ls: Seq<Seq<char>>, q: Seq<char>, n: int)
    requires
        0 <= n <= ls.len(),
    ensures
        forall|k: int|
            0 <= k < targets(ls, q, n).len() ==> 0 <= #[trigger] targets(ls, q, n)[k] < n
                && crate::tools::headings::is_target(ls, targets(ls, q, n)[k], q),
    decreases n,
{
    if n > 0 {
        lemma_targets_valid(ls, q, n - 1);
        let t = targets(ls, q, n - 1);
        assert forall|k: int| 0 <= k < targets(ls, q, n).len() implies 0 <= #[trigger] targets(
            ls,
            q,
            n,
        )[k] < n && crate::tools::headings::is_target(ls, targets(ls, q, n)[k], q) by {
            if k < t.len() {
                assert(targets(ls, q, n)[k] == t[k]);
            }
        }
    }
}

/// The line a query resolves to is a line of the text, holds no newline,
/// and is not empty (it starts with `#`).
pub proof fn lemma_resolved_heading(content: Seq<char>, q: Seq<char>)
    requires
        resolve_spec_lines(split_lines(content), q) is Ok,
    ensures
        ({
            let ls = split_lines(content);
            let h = resolved_line(ls, q);
            &&& 0 <= h < ls.len()
            &&& ls[h].len() > 0
            &&& ls[h][0] == '#'
            &&& forall|j: int| 0 <= j < ls[h].len() ==> ls[h][j] != '\n'
            &&& content == joined_block(ls.take(h)) + join(ls.skip(h), nl())
        }),
{
    let ls = split_lines(content);
    lemma_targets_valid(ls, q, ls.len() as int);
    let t = targets(ls, q, ls.len() as int);
    let h = t[0];
    assert(0 <= h < ls.len());
    assert(heading_level_of(ls[h]) is Some);
    assert(ls[h].len() > 0 && ls[h][0] == '#');
    lemma_split_pieces_have_no_newline(content);
    assert forall|j: int| 0 <= j < ls[h].len() implies ls[h][j] != '\n' by {
        assert(split_lines(content)[h][j] != '\n');
    }
    crate::util::strings::lemma_join_split(content);
    lemma_join_at(ls, h);
}

proof fn lemma_join_from(ls: Seq<Seq<char>>, k: int)
    requires
        0 <= k < ls.len(),
    ensures
        join(ls.skip(k), nl()) == ls[k] + if k + 1 < ls.len() {
            nl() + join(ls.skip(k + 1), nl())
        } else {
            Seq::<char>::empty()
        },
{
    let r = ls.skip(k);
    if k + 1 < ls.len() {
        lemma_join_at(r, 1);
        assert(r.take(1) =~= seq![ls[k]]);
        assert(r.skip(1) =~= ls.skip(k + 1));
        assert(join(r.take(1), nl()) == ls[k]);
    } else {
        assert(r =~= seq![ls[k]]);
    }
}

/// `insert_before` puts the new content, ended by a newline if it lacks
/// one, right before the target heading, and changes nothing else: the
/// result starts with the text before the heading (exactly as it was) and
/// then the new content; the heading line follows as a whole line of its
/// own, and the heading and everything after it end the result unchanged
/// (up to the one final newline).
pub proof fn law_insert_before_keeps_heading_line(content: Seq<char>, q: Seq<char>, n: Seq<char>)
    requires
        section_edit(content, q, "insert_before"@, Some(n)) is Ok,
    ensures
        ({
            let ls = split_lines(content);
            let h = resolved_line(ls, q);
            let before = joined_block(ls.take(h));
            let rest = join(ls.skip(h), nl());
            let t = section_edit(content, q, "insert_before"@, Some(n))->Ok_0;
            let p = before.len() + n.len() + if n.len() > 0 && n.last() == '\n' {
                0int
            } else {
                1int
            };
            &&& content == before + rest
            &&& has_prefix_of(t, before + n)
            &&& p <= t.len() && t[p - 1] == '\n'
            &&& p + ls[h].len() < t.len()
            &&& t.subrange(p, p + ls[h].len()) == ls[h]
            &&& t[p + ls[h].len()] == '\n'
            &&& has_suffix(t, trim_end_nl(rest) + nl())
        }),
{
    reveal_strlit("insert_before");
    reveal_strlit("replace");
    assert("insert_before"@ != "replace"@) by {
        assert("insert_before"@.len() != "replace"@.len());
    }
    let ls = split_lines(content);
    lemma_resolved_heading(content, q);
    let h = resolved_line(ls, q);
    let before = joined_block(ls.take(h));
    let rest = join(ls.skip(h), nl());
    let w = before + with_trailing_newline(n);
    let t = section_edit(content, q, "insert_before"@, Some(n))->Ok_0;
    assert(t == normalized(w + rest));
    let hl = ls[h];
    lemma_join_from(ls, h);
    let r = if h + 1 < ls.len() {
        nl() + join(ls.skip(h + 1), nl())
    } else {
        Seq::<char>::empty()
    };
    assert(rest == hl + r);
    assert(has_text(rest)) by {
        assert(rest[0] == hl[0]);
    }
    lemma_trim_keeps_front(w, rest);
    assert(hl.last() != '\n') by {
        assert(hl[hl.len() - 1] != '\n');
    }
    lemma_trim_after_line(hl, r);
    let tr = trim_end_nl(rest);
    assert(t == w + tr + nl());
    let p = w.len() as int;
    assert(w.len() == before.len() + n.len() + if n.len() > 0 && n.last() == '\n' {
        0int
    } else {
        1int
    });
    assert(t.subrange(0, (before + n).len() as int) =~= before + n) by {
        assert forall|i: int| 0 <= i < (before + n).len() implies t[i] == (before + n)[i] by {
            assert(t[i] == w[i]);
            if n.len() > 0 && n.last() == '\n' {
            } else {
                assert(w == (before + n).push('\n'));
            }
        }
    }
    assert(t[p - 1] == w[p - 1]);
    assert(w[p - 1] == '\n');
    assert(t.subrange(p, p + hl.len()) =~= hl) by {
        assert forall|i: int| 0 <= i < hl.len() implies t[p + i] == hl[i] by {
            assert(t[p + i] == tr[i]);
            assert(tr.subrange(0, hl.len() as int)[i] == tr[i]);
        }
    }
    if tr.len() == hl.len() {
        assert(t[p + hl.len()] == nl()[0]);
    } else {
        assert(t[p + hl.len()] == tr[hl.len() as int]);
    }
    assert(t.skip(t.len() - (tr + nl()).len()) =~= tr + nl());
}

} // verus!
