//! Markdown heading recognition and heading-addressed section lookup.
use vstd::prelude::*;
use crate::util::strings::{
    chars_of, decimal, decimal_string, has_prefix, push_str, split_lines, trim, trim_chars,
    trim_start, trim_start_index, chars_eq,
};

verus! {

// ---------------------------------------------------------------------------
// Errors of section editing
// ---------------------------------------------------------------------------

/// Why a heading-addressed edit was refused.
#[derive(Debug)]
pub enum EditError {
    /// No heading matches the query.
    HeadingNotFound { query: String },
    /// More than one heading matches the query.
    AmbiguousHeading { query: String, count: usize },
    /// The action needs `content` and none was given.
    MissingContent { action: String },
    /// The action is not one of the supported ones.
    InvalidAction { action: String },
    /// A scoped edit's `old_string` does not occur in the section.
    OldStringNotFound { query: String },
}

/// The mathematical form of [`EditError`].
pub enum EditErrorView {
    HeadingNotFound(Seq<char>),
    AmbiguousHeading(Seq<char>, nat),
    MissingContent(Seq<char>),
    InvalidAction(Seq<char>),
    OldStringNotFound(Seq<char>),
}

impl View for EditError {
    type V = EditErrorView;

    open spec fn view(&self) -> EditErrorView {
        match self {
            EditError::HeadingNotFound { query } => EditErrorView::HeadingNotFound(query@),
            EditError::AmbiguousHeading { query, count } => EditErrorView::AmbiguousHeading(
                query@,
                *count as nat,
            ),
            EditError::MissingContent { action } => EditErrorView::MissingContent(action@),
            EditError::InvalidAction { action } => EditErrorView::InvalidAction(action@),
            EditError::OldStringNotFound { query } => EditErrorView::OldStringNotFound(query@),
        }
    }
}

/// A string as `{:?}` writes it: in double quotes, with `"`, `\` and
/// control or non-printable characters escaped.
pub uninterp spec fn debug_text(s: Seq<char>) -> Seq<char>;

/// `format!("{:?}", s)`, std's `Debug` of a string slice. Claimed: the result
/// is `debug_text` of the argument, a function of the argument alone (the
/// escaping rules depend on no locale or state). Nothing more of the
/// escaping is stated.
#[verifier::external_body]
fn debug_quoted(s: &str) -> (r: String)
    ensures
        r@ == debug_text(s@),
{
    format!("{:?}", s)
}

/// The text of an edit error, as shown to the user.
pub open spec fn error_message(e: EditErrorView) -> Seq<char> {
    match e {
        EditErrorView::HeadingNotFound(q) => "heading '"@ + q + "' not found"@,
        EditErrorView::AmbiguousHeading(q, n) => "heading '"@ + q + "' found "@ + decimal(n)
            + " times; use a more specific heading"@,
        EditErrorView::MissingContent(a) => "content is required for the "@ + a + " action"@,
        EditErrorView::InvalidAction(a) => "invalid action "@ + debug_text(a)
            + "; expected replace, insert_before, insert_after, or remove"@,
        EditErrorView::OldStringNotFound(q) => "old_string not found in section '"@ + q
            + "'. The text must match exactly (whitespace-sensitive)."@,
    }
}

impl EditError {
    /// The error's message (what `to_string()` gave).
    pub fn message(&self) -> (r: String)
        ensures
            r@ == error_message(self@),
    {
        let mut out = String::new();
        match self {
            EditError::HeadingNotFound { query } => {
                push_str(&mut out, "heading '");
                push_str(&mut out, query.as_str());
                push_str(&mut out, "' not found");
            },
            EditError::AmbiguousHeading { query, count } => {
                push_str(&mut out, "heading '");
                push_str(&mut out, query.as_str());
                push_str(&mut out, "' found ");
                let n = decimal_string(*count as u64);
                push_str(&mut out, n.as_str());
                push_str(&mut out, " times; use a more specific heading");
            },
            EditError::MissingContent { action } => {
                push_str(&mut out, "content is required for the ");
                push_str(&mut out, action.as_str());
                push_str(&mut out, " action");
            },
            EditError::InvalidAction { action } => {
                push_str(&mut out, "invalid action ");
                let quoted = debug_quoted(action.as_str());
                push_str(&mut out, quoted.as_str());
                push_str(&mut out, "; expected replace, insert_before, insert_after, or remove");
            },
            EditError::OldStringNotFound { query } => {
                push_str(&mut out, "old_string not found in section '");
                push_str(&mut out, query.as_str());
                push_str(&mut out, "'. The text must match exactly (whitespace-sensitive).");
            },
        }
        proof {
            match self@ {
                EditErrorView::HeadingNotFound(q) => {
                    assert(out@ =~= error_message(self@));
                },
                EditErrorView::AmbiguousHeading(q, n) => {
                    assert(out@ =~= error_message(self@));
                },
                EditErrorView::MissingContent(a) => {
                    assert(out@ =~= error_message(self@));
                },
                EditErrorView::InvalidAction(a) => {
                    assert(out@ =~= error_message(self@));
                },
                EditErrorView::OldStringNotFound(q) => {
                    assert(out@ =~= error_message(self@));
                },
            }
        }
        out
    }
}

// ---------------------------------------------------------------------------
// Headings
// ---------------------------------------------------------------------------

/// Number of `#` characters the line starts with.
pub open spec fn leading_hashes(s: Seq<char>) -> nat
    decreases s.len(),
{
    if s.len() > 0 && s[0] == '#' {
        1 + leading_hashes(s.drop_first())
    } else {
        0
    }
}

/// ATX heading level: a line that starts with one to six `#` followed by the
/// end of the line, a space or a tab is a heading of that level.
pub open spec fn heading_level_of(line: Seq<char>) -> Option<nat> {
    let n = leading_hashes(line);
    if 1 <= n <= 6 && (n == line.len() || line[n as int] == ' ' || line[n as int] == '\t') {
        Some(n)
    } else {
        None
    }
}

/// The text of a heading line: what follows the `#`s, trimmed.
pub open spec fn heading_text(line: Seq<char>) -> Seq<char> {
    trim(line.skip(leading_hashes(line) as int))
}

/// A code fence line (` ``` ` or `~~~` after leading whitespace).
pub open spec fn is_fence(line: Seq<char>) -> bool {
    let t = trim_start(line);
    has_prefix(t, seq!['`', '`', '`']) || has_prefix(t, seq!['~', '~', '~'])
}

/// Is line `i` inside a fenced code block?
pub open spec fn fence_open(ls: Seq<Seq<char>>, i: int) -> bool
    decreases i,
{
    if i <= 0 {
        false
    } else {
        fence_open(ls, i - 1) != is_fence(ls[i - 1])
    }
}

/// Does a heading line answer the query? A query starting with `#` names the
/// whole heading line; any other query names the heading's text.
pub open spec fn query_matches(line: Seq<char>, q: Seq<char>) -> bool {
    let tq = trim(q);
    if tq.len() > 0 && tq[0] == '#' {
        trim(line) == tq
    } else {
        heading_text(line) == tq
    }
}

/// Line `i` is a heading outside code fences that answers the query.
pub open spec fn is_target(ls: Seq<Seq<char>>, i: int, q: Seq<char>) -> bool {
    &&& !fence_open(ls, i)
    &&& heading_level_of(ls[i]) is Some
    &&& query_matches(ls[i], q)
}

/// Indices below `n` of the lines that are targets of the query, in order.
pub open spec fn targets(ls: Seq<Seq<char>>, q: Seq<char>, n: int) -> Seq<int>
    decreases n,
{
    if n <= 0 {
        Seq::<int>::empty()
    } else {
        let t = targets(ls, q, n - 1);
        if is_target(ls, n - 1, q) {
            t.push(n - 1)
        } else {
            t
        }
    }
}

/// End (exclusive) of a section whose body starts at line `i`: the next
/// heading of the same or a higher level, or the end of the text. Headings in
/// code fences count here too.
pub open spec fn section_end(ls: Seq<Seq<char>>, i: int, level: nat) -> int
    decreases ls.len() - i,
{
    if i >= ls.len() {
        ls.len() as int
    } else if heading_level_of(ls[i]) matches Some(l) && l <= level {
        i
    } else {
        section_end(ls, i + 1, level)
    }
}

proof fn lemma_leading_hashes(s: Seq<char>, k: int)
    requires
        0 <= k <= s.len(),
        forall|j: int| 0 <= j < k ==> s[j] == '#',
    ensures
        leading_hashes(s) >= k,
        (k == s.len() || s[k] != '#') ==> leading_hashes(s) == k,
    decreases k,
{
    if k > 0 {
        lemma_leading_hashes(s.drop_first(), k - 1);
    }
}

/// The level of a Markdown heading line (`# ` to `###### `), or `None`.
pub fn heading_level_chars(v: &Vec<char>) -> (r: Option<usize>)
    ensures
        r matches Some(n) ==> heading_level_of(v@) == Some(n as nat),
        r is None ==> heading_level_of(v@) is None,
{
    let mut n: usize = 0;
    while n < v.len() && n < 7 && v[n] == '#'
        invariant
            n <= v.len(),
            n <= 7,
            forall|j: int| 0 <= j < n ==> v@[j] == '#',
        decreases v.len() - n,
    {
        n += 1;
    }
    proof {
        lemma_leading_hashes(v@, n as int);
    }
    if 1 <= n && n <= 6 && (n == v.len() || v[n] == ' ' || v[n] == '\t') {
        Some(n)
    } else {
        None
    }
}

/// The level of a Markdown heading line (`# ` to `###### `), or `None`.
pub fn heading_level(line: &str) -> (r: Option<usize>)
    ensures
        r matches Some(n) ==> heading_level_of(line@) == Some(n as nat),
        r is None ==> heading_level_of(line@) is None,
{
    let v = chars_of(line);
    heading_level_chars(&v)
}

fn is_fence_chars(v: &Vec<char>) -> (r: bool)
    ensures
        r == is_fence(v@),
{
    let k = trim_start_index(v);
    let ghost t = v@.subrange(k as int, v.len() as int);
    if v.len() - k >= 3 {
        let a = v[k];
        let b = v[k + 1];
        let c = v[k + 2];
        assert(t.subrange(0, 3) =~= seq![a, b, c]);
        (a == '`' && b == '`' && c == '`') || (a == '~' && b == '~' && c == '~')
    } else {
        false
    }
}

/// Where a section starts: its heading line (0-based) and level.
pub struct SectionRange {
    pub heading_idx: usize,
    pub level: usize,
}

/// Does `line` (a heading) answer the trimmed query `tq`?
fn query_matches_chars(line: &Vec<char>, tq: &Vec<char>, q: Ghost<Seq<char>>) -> (r: bool)
    requires
        tq@ == trim(q@),
    ensures
        r == query_matches(line@, q@),
{
    if tq.len() > 0 && tq[0] == '#' {
        let t = trim_chars(line);
        chars_eq(&t, tq)
    } else {
        let mut n: usize = 0;
        while n < line.len() && line[n] == '#'
            invariant
                n <= line.len(),
                forall|j: int| 0 <= j < n ==> line@[j] == '#',
            decreases line.len() - n,
        {
            n += 1;
        }
        proof {
            lemma_leading_hashes(line@, n as int);
        }
        let mut rest: Vec<char> = Vec::new();
        let mut i = n;
        while i < line.len()
            invariant
                n <= i <= line.len(),
                rest@ == line@.subrange(n as int, i as int),
            decreases line.len() - i,
        {
            rest.push(line[i]);
            i += 1;
            assert(rest@ =~= line@.subrange(n as int, i as int));
        }
        assert(rest@ =~= line@.skip(n as int));
        let t = trim_chars(&rest);
        chars_eq(&t, tq)
    }
}

/// Find the section a query names among the `split('\n')` lines of a text.
pub fn resolve_section(ls: &Vec<String>, query: &str) -> (r: Result<SectionRange, EditError>)
    requires
        ls@.len() >= 1,
    ensures
        match (r, resolve_spec_lines(crate::util::strings::views(ls@), query@)) {
            (Ok(sr), Ok((h, lvl))) => sr.heading_idx == h && sr.level == lvl && h < ls@.len(),
            (Err(e), Err(ev)) => e@ == ev,
            _ => false,
        },
{
    let ghost lv = crate::util::strings::views(ls@);
    let qv = chars_of(query);
    let tq = trim_chars(&qv);
    let mut in_fence = false;
    let mut count: usize = 0;
    let mut first: usize = 0;
    let mut first_level: usize = 0;
    let mut i: usize = 0;
    while i < ls.len()
        invariant
            i <= ls.len(),
            lv == crate::util::strings::views(ls@),
            tq@ == trim(query@),
            in_fence == fence_open(lv, i as int),
            count == targets(lv, query@, i as int).len(),
            count <= i,
            count > 0 ==> first == targets(lv, query@, i as int)[0] && first < i
                && heading_level_of(lv[first as int]) == Some(first_level as nat),
        decreases ls.len() - i,
    {
        let line = chars_of(ls[i].as_str());
        assert(line@ == lv[i as int]);
        let fence = is_fence_chars(&line);
        if !in_fence {
            match heading_level_chars(&line) {
                Some(level) => {
                    if query_matches_chars(&line, &tq, Ghost(query@)) {
                        if count == 0 {
                            first = i;
                            first_level = level;
                        }
                        count += 1;
                    }
                },
                None => {},
            }
        }
        in_fence = in_fence != fence;
        i += 1;
    }
    if count == 0 {
        Err(EditError::HeadingNotFound { query: query.to_owned() })
    } else if count > 1 {
        Err(EditError::AmbiguousHeading { query: query.to_owned(), count })
    } else {
        Ok(SectionRange { heading_idx: first, level: first_level })
    }
}

/// Locate the section a query names among the `split('\n')` lines of a
/// text: the 0-based index of its heading line and the heading's level.
pub open spec fn resolve_spec_lines(ls: Seq<Seq<char>>, q: Seq<char>) -> Result<(int, nat), EditErrorView> {
    let t = targets(ls, q, ls.len() as int);
    if t.len() == 0 {
        Err(EditErrorView::HeadingNotFound(q))
    } else if t.len() > 1 {
        Err(EditErrorView::AmbiguousHeading(q, t.len()))
    } else {
        Ok((t[0], heading_level_of(ls[t[0]])->0))
    }
}

/// End (exclusive) of the section whose body starts at `start`.
pub fn compute_section_end(ls: &Vec<String>, start: usize, level: usize) -> (r: usize)
    requires
        start <= ls.len(),
    ensures
        r == section_end(crate::util::strings::views(ls@), start as int, level as nat),
        start <= r <= ls.len(),
{
    let ghost lv = crate::util::strings::views(ls@);
    let mut i = start;
    while i < ls.len()
        invariant
            start <= i <= ls.len(),
            lv == crate::util::strings::views(ls@),
            section_end(lv, start as int, level as nat) == section_end(lv, i as int, level as nat),
        decreases ls.len() - i,
    {
        let line = chars_of(ls[i].as_str());
        match heading_level_chars(&line) {
            Some(l) => {
                if l <= level {
                    return i;
                }
            },
            None => {},
        }
        i += 1;
    }
    i
}

} // verus!
