//! Text processing helpers.
use vstd::prelude::*;
use crate::util::strings::{
    byte_len, chars_of, join, join_range, lines, lines_of, nl, push_char, split_lines, string_of,
    utf8_len, views,
};

verus! {

/// The ellipsis appended by [`truncate`].
pub open spec fn ellipsis() -> char {
    '…'
}

/// What [`truncate`] returns.
pub open spec fn truncated(s: Seq<char>, max_chars: nat) -> Seq<char> {
    if s.len() <= max_chars {
        s
    } else {
        s.take(max_chars as int).push(ellipsis())
    }
}

/// The lines with 1-based numbers in `start..=end`, in order.
pub open spec fn select_lines(ls: Seq<Seq<char>>, start: nat, end: nat) -> Seq<Seq<char>> {
    let lo: int = if start == 0 { 0 } else { start - 1 };
    let hi: int = if end < ls.len() { end as int } else { ls.len() as int };
    if lo < hi { ls.subrange(lo, hi) } else { Seq::<Seq<char>>::empty() }
}

/// Bytes the lines take when each is followed by a separator.
pub open spec fn lines_cost(ls: Seq<Seq<char>>) -> nat
    decreases ls.len(),
{
    if ls.len() == 0 {
        0
    } else {
        lines_cost(ls.drop_last()) + byte_len(ls.last()) + 1
    }
}

/// Truncate a string to at most `max_chars` characters, appending `…` if cut.
pub fn truncate(s: &str, max_chars: usize) -> (r: String)
    ensures
        r@ == truncated(s@, max_chars as nat),
{
    let chars = chars_of(s);
    if chars.len() <= max_chars {
        s.to_owned()
    } else {
        let mut out = string_of(&chars, 0, max_chars);
        push_char(&mut out, '…');
        out
    }
}

/// Count lines in a string. An empty string has 0 lines.
pub fn count_lines(s: &str) -> (n: usize)
    ensures
        n == lines_of(s@).len(),
{
    if s.is_empty() {
        return 0;
    }
    let ls = lines(s);
    ls.len()
}

/// Extract a line range from text (1-indexed, inclusive). Returns empty string
/// if the range is out of bounds.
pub fn extract_lines(text: &str, start_line: usize, end_line: usize) -> (r: String)
    ensures
        r@ == join(select_lines(lines_of(text@), start_line as nat, end_line as nat), nl()),
{
    let ls = lines(text);
    let lo: usize = if start_line == 0 { 0 } else { start_line - 1 };
    let hi: usize = if end_line < ls.len() { end_line } else { ls.len() };
    if lo < hi {
        proof {
            reveal_strlit("\n");
            assert("\n"@ =~= nl());
        }
        join_range(&ls, lo, hi, "\n")
    } else {
        String::new()
    }
}

/// What [`extract_lines_to_budget`] promises of its result for a budget of
/// `budget > 0` bytes over the selected lines `sel`.
pub open spec fn budget_result(
    sel: Seq<Seq<char>>,
    budget: nat,
    content: Seq<char>,
    shown: nat,
    complete: bool,
) -> bool {
    &&& shown <= sel.len()
    &&& content == join(sel.take(shown as int), nl())
    &&& complete == (shown == sel.len())
    // safety valve: at least one line whenever there is one
    &&& (sel.len() > 0 ==> shown >= 1)
    // every shown line fits, except a lone first line
    &&& (shown <= 1 || lines_cost(sel.take(shown as int)) <= budget)
    // the next line would not have fit
    &&& (shown < sel.len() ==> lines_cost(sel.take(shown + 1 as int)) > budget)
}

/// Extract lines from `start_line` to `end_line` (1-indexed, inclusive) without
/// exceeding `byte_budget` bytes. Returns `(content, lines_shown, complete)`.
///
/// - `content`: the extracted lines joined with `\n`
/// - `lines_shown`: number of lines included
/// - `complete`: true if all lines in the requested range were included
///
/// Each line counts its UTF-8 bytes plus one for the separator. At least one
/// line is always included (even if it exceeds the budget) so a caller that
/// retries the same range always makes progress; a zero budget returns nothing.
pub fn extract_lines_to_budget(
    text: &str,
    start_line: usize,
    end_line: usize,
    byte_budget: usize,
) -> (r: (String, usize, bool))
    ensures
        byte_budget == 0 ==> r.0@.len() == 0 && r.1 == 0 && !r.2,
        byte_budget > 0 ==> budget_result(
            select_lines(lines_of(text@), start_line as nat, end_line as nat),
            byte_budget as nat,
            r.0@,
            r.1 as nat,
            r.2,
        ),
{
    if byte_budget == 0 {
        return (String::new(), 0, false);
    }
    let ls = lines(text);
    let lo: usize = if start_line == 0 { 0 } else { start_line - 1 };
    let hi: usize = if end_line < ls.len() { end_line } else { ls.len() };
    let lo: usize = if lo < hi { lo } else { hi };
    let ghost sel = select_lines(lines_of(text@), start_line as nat, end_line as nat);
    assert(sel =~= views(ls@).subrange(lo as int, hi as int));
    // Sums are kept in u128: a line's size plus what is already used stays
    // below 2^68, so no addition can wrap.
    let mut used: u128 = 0;
    let mut i = lo;
    let mut complete = true;
    while i < hi && complete
        invariant
            lo <= i <= hi <= ls.len(),
            sel == views(ls@).subrange(lo as int, hi as int),
            used == lines_cost(sel.take(i - lo)),
            i - lo <= 1 || used <= byte_budget,
            used <= byte_budget || i - lo == 1,
            used <= 0x4_0000_0000_0000_0000,
            !complete ==> i < hi && lines_cost(sel.take(i - lo + 1)) > byte_budget && i > lo,
        decreases hi - i, if complete { 1int } else { 0int },
    {
        let lb: u128 = utf8_len(ls[i].as_str()) + 1;
        let ghost k = i - lo;
        assert(sel.take(k + 1).drop_last() =~= sel.take(k));
        assert(sel.take(k + 1).last() == ls@[i as int]@);
        if i > lo && used + lb > byte_budget as u128 {
            complete = false;
        } else {
            used = used + lb;
            i += 1;
        }
    }
    let shown = i - lo;
    assert(views(ls@).subrange(lo as int, i as int) =~= sel.take(shown as int));
    proof {
        reveal_strlit("\n");
        assert("\n"@ =~= nl());
    }
    let content = join_range(&ls, lo, i, "\n");
    (content, shown, complete)
}

// ---------------------------------------------------------------------------
// Laws
// ---------------------------------------------------------------------------

proof fn lemma_lines_cost_monotone(ls: Seq<Seq<char>>, k: int, m: int)
    requires
        0 <= k <= m <= ls.len(),
    ensures
        lines_cost(ls.take(k)) <= lines_cost(ls.take(m)),
    decreases m - k,
{
    if k < m {
        lemma_lines_cost_monotone(ls, k, m - 1);
        assert(ls.take(m).drop_last() =~= ls.take(m - 1));
    }
}

/// The budgeted extract is determined by the text, the range and the
/// budget: any two results the contract allows are the same.
pub proof fn law_budget_result_is_unique(
    sel: Seq<Seq<char>>,
    budget: nat,
    c1: Seq<char>,
    s1: nat,
    k1: bool,
    c2: Seq<char>,
    s2: nat,
    k2: bool,
)
    requires
        budget_result(sel, budget, c1, s1, k1),
        budget_result(sel, budget, c2, s2, k2),
    ensures
        s1 == s2,
        c1 == c2,
        k1 == k2,
{
    if s1 < s2 {
        lemma_lines_cost_monotone(sel, (s1 + 1) as int, s2 as int);
    } else if s2 < s1 {
        lemma_lines_cost_monotone(sel, (s2 + 1) as int, s1 as int);
    }
}

/// With a budget that holds the whole range, the budgeted extract is the
/// plain extract of the range, and complete.
pub proof fn law_ample_budget_reads_whole_range(
    sel: Seq<Seq<char>>,
    budget: nat,
    content: Seq<char>,
    shown: nat,
    complete: bool,
)
    requires
        budget_result(sel, budget, content, shown, complete),
        lines_cost(sel) <= budget,
    ensures
        shown == sel.len(),
        complete,
        content == join(sel, nl()),
{
    if shown < sel.len() {
        lemma_lines_cost_monotone(sel, (shown + 1) as int, sel.len() as int);
        assert(sel.take(sel.len() as int) =~= sel);
    }
    assert(sel.take(sel.len() as int) =~= sel);
}

/// Reading lines `1..=count_lines(text)` reads every line of the text.
pub proof fn law_full_range_reads_every_line(text: Seq<char>)
    ensures
        select_lines(lines_of(text), 1, lines_of(text).len()) == lines_of(text),
{
    let ls = lines_of(text);
    if ls.len() > 0 {
        assert(ls.subrange(0, ls.len() as int) =~= ls);
    }
}

proof fn lemma_byte_len_concat(a: Seq<char>, b: Seq<char>)
    ensures
        byte_len(a + b) == byte_len(a) + byte_len(b),
    decreases a.len(),
{
    if a.len() == 0 {
        assert(a + b =~= b);
    } else {
        lemma_byte_len_concat(a.drop_first(), b);
        assert((a + b).drop_first() =~= a.drop_first() + b);
        assert((a + b)[0] == a[0]);
    }
}

proof fn lemma_joined_cost(ls: Seq<Seq<char>>)
    requires
        ls.len() > 0,
    ensures
        byte_len(join(ls, nl())) + 1 == lines_cost(ls),
    decreases ls.len(),
{
    reveal_with_fuel(vstd::utf8::encode_utf8, 2);
    assert(byte_len(nl()) == 1) by {
        vstd::utf8::char_is_scalar('\n');
        assert(nl().drop_first() =~= Seq::<char>::empty());
    }
    assert(lines_cost(ls) == lines_cost(ls.drop_last()) + byte_len(ls.last()) + 1);
    if ls.len() > 1 {
        lemma_joined_cost(ls.drop_last());
        lemma_byte_len_concat(join(ls.drop_last(), nl()), nl());
        lemma_byte_len_concat(join(ls.drop_last(), nl()) + nl(), ls.last());
        assert(join(ls, nl()) == join(ls.drop_last(), nl()) + nl() + ls.last());
    } else {
        assert(ls.drop_last() =~= Seq::<Seq<char>>::empty());
        assert(lines_cost(ls.drop_last()) == 0);
        assert(join(ls, nl()) == ls[0]);
        assert(ls.last() == ls[0]);
    }
}

/// In bytes: the shown lines, joined, fit the budget with their separator,
/// unless only one line is shown; and an incomplete extract stopped only
/// because the next line, with its separator, would not have fit.
pub proof fn law_budget_bounds_in_bytes(
    sel: Seq<Seq<char>>,
    budget: nat,
    content: Seq<char>,
    shown: nat,
    complete: bool,
)
    requires
        budget_result(sel, budget, content, shown, complete),
    ensures
        shown >= 2 ==> byte_len(content) + 1 <= budget,
        !complete ==> byte_len(content) + 1 + byte_len(sel[shown as int]) + 1 > budget,
{
    let taken = sel.take(shown as int);
    if shown >= 1 {
        lemma_joined_cost(taken);
    } else {
        assert(taken =~= Seq::<Seq<char>>::empty());
    }
    if !complete {
        assert(sel.take((shown + 1) as int).drop_last() =~= taken);
        assert(sel.take((shown + 1) as int).last() == sel[shown as int]);
    }
}

/// The number of `\n` characters in `s`.
pub open spec fn newline_count(s: Seq<char>) -> nat
    decreases s.len(),
{
    if s.len() == 0 {
        0
    } else {
        newline_count(s.drop_last()) + if s.last() == '\n' {
            1nat
        } else {
            0nat
        }
    }
}

proof fn lemma_split_count(s: Seq<char>)
    ensures
        split_lines(s).len() == newline_count(s) + 1,
    decreases s.len(),
{
    if s.len() > 0 {
        lemma_split_count(s.drop_last());
    }
}

/// A text has one line per newline, plus one for a last line without a
/// newline; so only the empty text has no lines.
pub proof fn law_line_count(s: Seq<char>)
    ensures
        lines_of(s).len() == newline_count(s) + if s.len() > 0 && s.last() != '\n' {
            1nat
        } else {
            0nat
        },
        (lines_of(s).len() == 0) == (s.len() == 0),
{
    lemma_split_count(s);
    if s.len() > 0 && s.last() == '\n' {
        assert(newline_count(s) >= 1);
    }
}

} // verus!
