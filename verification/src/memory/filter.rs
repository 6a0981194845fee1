//! Filtering of memory files down to requested `### ` sections.
use vstd::prelude::*;
use crate::util::strings::{
    sub_chars,
    chars_of, ends_with_char, eq_ignore_case, eq_ignore_case_chars, has_prefix, join, join_range,
    lines, lines_of, nl, push_char, push_str, string_of, trim, trim_chars, views,
};

verus! {

/// The result of [`filter_sections`].
#[derive(Debug, PartialEq)]
pub struct FilterResult {
    /// Filtered markdown: preamble + matched section bodies.
    pub content: String,
    /// True if at least one requested section was found.
    pub matched: bool,
    /// Requested sections not found — preserves caller-supplied casing.
    pub missing: Vec<String>,
    /// All `### ` headings present in the file, normalized (trimmed), in file order.
    pub available: Vec<String>,
}

/// A `### ` heading line: the only kind that starts a section here.
pub open spec fn is_h3(line: Seq<char>) -> bool {
    has_prefix(line, seq!['#', '#', '#', ' '])
}

/// The heading of a `### ` line: what follows the marker, trimmed.
pub open spec fn h3_name(line: Seq<char>) -> Seq<char> {
    trim(line.skip(4))
}

/// Indices below `n` of the `### ` lines, in order.
pub open spec fn h3_indices(ls: Seq<Seq<char>>, n: int) -> Seq<int>
    decreases n,
{
    if n <= 0 {
        Seq::<int>::empty()
    } else if is_h3(ls[n - 1]) {
        h3_indices(ls, n - 1).push(n - 1)
    } else {
        h3_indices(ls, n - 1)
    }
}

/// The lines before the first `### ` heading.
pub open spec fn preamble(ls: Seq<Seq<char>>, hs: Seq<int>) -> Seq<Seq<char>> {
    if hs.len() == 0 {
        ls
    } else {
        ls.take(hs[0])
    }
}

/// One past the last line of block `k` (the next heading, or the end).
pub open spec fn block_end(ls: Seq<Seq<char>>, hs: Seq<int>, k: int) -> int {
    if k + 1 < hs.len() {
        hs[k + 1]
    } else {
        ls.len() as int
    }
}

/// Block `k`: its heading line and body lines.
pub open spec fn block_lines(ls: Seq<Seq<char>>, hs: Seq<int>, k: int) -> Seq<Seq<char>> {
    ls.subrange(hs[k], block_end(ls, hs, k))
}

/// Block `k`'s normalized heading.
pub open spec fn block_name(ls: Seq<Seq<char>>, hs: Seq<int>, k: int) -> Seq<char> {
    h3_name(ls[hs[k]])
}

/// Is `name` among the requested sections (ASCII case ignored)?
pub open spec fn requested(secs: Seq<Seq<char>>, name: Seq<char>) -> bool {
    exists|j: int| 0 <= j < secs.len() && eq_ignore_case(secs[j], name)
}

/// Does some block carry the heading `s` (ASCII case ignored)?
pub open spec fn present(ls: Seq<Seq<char>>, hs: Seq<int>, s: Seq<char>) -> bool {
    exists|k: int| 0 <= k < hs.len() && eq_ignore_case(block_name(ls, hs, k), s)
}

/// Lines of the requested blocks among the first `k`, in file order.
pub open spec fn matched_lines(ls: Seq<Seq<char>>, hs: Seq<int>, secs: Seq<Seq<char>>, k: int) -> Seq<
    Seq<char>,
>
    decreases k,
{
    if k <= 0 {
        Seq::<Seq<char>>::empty()
    } else if requested(secs, block_name(ls, hs, k - 1)) {
        matched_lines(ls, hs, secs, k - 1) + block_lines(ls, hs, k - 1)
    } else {
        matched_lines(ls, hs, secs, k - 1)
    }
}

/// The test "no block carries this heading".
pub open spec fn absent(ls: Seq<Seq<char>>, hs: Seq<int>) -> spec_fn(Seq<char>) -> bool {
    |s: Seq<char>| !present(ls, hs, s)
}

/// The requested sections no block carries, in request order.
pub open spec fn missing_sections(ls: Seq<Seq<char>>, hs: Seq<int>, secs: Seq<Seq<char>>) -> Seq<
    Seq<char>,
> {
    secs.filter(absent(ls, hs))
}

/// What [`filter_sections`] returns, field by field.
pub open spec fn filtered(content: Seq<char>, secs: Seq<Seq<char>>, r: FilterResult) -> bool {
    let ls = lines_of(content);
    let hs = h3_indices(ls, ls.len() as int);
    let kept = matched_lines(ls, hs, secs, hs.len() as int);
    &&& r.content@ == join(preamble(ls, hs) + kept, nl()) + (if ends_with_char(content, '\n') {
        nl()
    } else {
        Seq::<char>::empty()
    })
    &&& r.matched == (kept.len() > 0)
    &&& views(r.missing@) == missing_sections(ls, hs, secs)
    &&& views(r.available@) == Seq::new(hs.len(), |k: int| block_name(ls, hs, k))
}

/// The views of the requested section names.
pub open spec fn section_views(sections: Seq<&str>) -> Seq<Seq<char>> {
    sections.map_values(|s: &str| s@)
}

/// The views of character vectors.
pub open spec fn char_views(v: Seq<Vec<char>>) -> Seq<Seq<char>> {
    v.map_values(|x: Vec<char>| x@)
}

fn any_eq_ignore_case(cands: &Vec<Vec<char>>, s: &Vec<char>) -> (r: bool)
    ensures
        r == exists|j: int| 0 <= j < cands@.len() && eq_ignore_case(char_views(cands@)[j], s@),
{
    let mut j: usize = 0;
    while j < cands.len()
        invariant
            j <= cands.len(),
            forall|i: int| 0 <= i < j ==> !eq_ignore_case(char_views(cands@)[i], s@),
        decreases cands.len() - j,
    {
        if eq_ignore_case_chars(&cands[j], s) {
            assert(eq_ignore_case(char_views(cands@)[j as int], s@));
            return true;
        }
        j += 1;
    }
    false
}

proof fn lemma_eq_ignore_case_symmetric(a: Seq<char>, b: Seq<char>)
    ensures
        eq_ignore_case(a, b) == eq_ignore_case(b, a),
{
}

/// Filter markdown content to only the requested `### Heading` sections.
///
/// `sections` must be non-empty: callers check for an empty request before
/// asking for a filter.
///
/// Always returns a `FilterResult`. The caller checks `result.matched` to
/// decide whether to return content or an error.
pub fn filter_sections(content: &str, sections: &[&str]) -> (r: FilterResult)
    requires
        sections@.len() > 0,
    ensures
        filtered(content@, section_views(sections@), r),
{
    let ls = lines(content);
    let ghost lv = views(ls@);
    let ghost hs_spec = h3_indices(lv, lv.len() as int);
    let ghost secs_v = section_views(sections@);

    // --- Find the `### ` headings ---
    let mut hs: Vec<usize> = Vec::new();
    let mut names: Vec<Vec<char>> = Vec::new();
    let mut i: usize = 0;
    while i < ls.len()
        invariant
            i <= ls.len(),
            lv == views(ls@),
            lv == lines_of(content@),
            hs@.len() == h3_indices(lv, i as int).len(),
            forall|k: int| 0 <= k < hs@.len() ==> hs@[k] as int == h3_indices(lv, i as int)[k],
            forall|k: int| 0 <= k < hs@.len() ==> hs@[k] < i,
            forall|k1: int, k2: int| 0 <= k1 < k2 < hs@.len() ==> hs@[k1] < hs@[k2],
            names@.len() == hs@.len(),
            forall|k: int| 0 <= k < hs@.len() ==> #[trigger] names@[k]@ == h3_name(lv[hs@[k] as int]),
        decreases ls.len() - i,
    {
        let line = chars_of(ls[i].as_str());
        assert(line@ == lv[i as int]);
        if line.len() >= 4 && line[0] == '#' && line[1] == '#' && line[2] == '#' && line[3] == ' ' {
            assert(line@.subrange(0, 4) =~= seq!['#', '#', '#', ' ']);
            let rest = sub_chars(&line, 4, line.len());
            assert(rest@ =~= line@.skip(4));
            let name = trim_chars(&rest);
            hs.push(i);
            names.push(name);
        } else {
            assert(!is_h3(line@)) by {
                if line@.len() >= 4 {
                    assert(line@.subrange(0, 4)[0] == line@[0]);
                    assert(line@.subrange(0, 4)[1] == line@[1]);
                    assert(line@.subrange(0, 4)[2] == line@[2]);
                    assert(line@.subrange(0, 4)[3] == line@[3]);
                }
            }
        }
        i += 1;
    }
    let nb = hs.len();
    assert(forall|k: int| 0 <= k < nb ==> hs@[k] as int == hs_spec[k]);

    // --- Which blocks were requested ---
    let mut secs: Vec<Vec<char>> = Vec::new();
    let mut j: usize = 0;
    while j < sections.len()
        invariant
            j <= sections@.len(),
            secs_v == section_views(sections@),
            secs@.len() == j,
            forall|k: int| 0 <= k < j ==> #[trigger] secs@[k]@ == secs_v[k],
        decreases sections@.len() - j,
    {
        secs.push(chars_of(sections[j]));
        j += 1;
    }
    assert(char_views(secs@) =~= secs_v);

    // --- Output lines: preamble, then the lines of requested blocks ---
    let pre_end = if nb == 0 { ls.len() } else { hs[0] };
    let mut out: Vec<String> = Vec::new();
    let mut p: usize = 0;
    while p < pre_end
        invariant
            p <= pre_end <= ls.len(),
            lv == views(ls@),
            views(out@) == lv.subrange(0, p as int),
        decreases pre_end - p,
    {
        let ghost old_views = views(out@);
        let c = ls[p].clone();
        assert(c@ == lv[p as int]);
        out.push(c);
        assert(views(out@) =~= old_views.push(lv[p as int]));
        p += 1;
        assert(views(out@) =~= lv.subrange(0, p as int));
    }
    assert(views(out@) =~= preamble(lv, hs_spec));
    let pre_len = out.len();
    let mut k: usize = 0;
    while k < nb
        invariant
            k <= nb == hs@.len() == hs_spec.len(),
            lv == views(ls@),
            forall|m: int| 0 <= m < nb ==> hs@[m] as int == hs_spec[m],
            forall|m: int| 0 <= m < nb ==> hs@[m] < ls.len(),
            forall|m1: int, m2: int| 0 <= m1 < m2 < nb ==> hs@[m1] < hs@[m2],
            names@.len() == nb,
            forall|m: int| 0 <= m < nb ==> #[trigger] names@[m]@ == block_name(lv, hs_spec, m),
            char_views(secs@) == secs_v,
            views(out@) == preamble(lv, hs_spec) + matched_lines(lv, hs_spec, secs_v, k as int),
            out@.len() == pre_len + matched_lines(lv, hs_spec, secs_v, k as int).len(),
        decreases nb - k,
    {
        let ghost before = views(out@);
        proof {
            assert forall|j: int| 0 <= j < secs_v.len() implies eq_ignore_case(
                secs_v[j],
                names@[k as int]@,
            ) == eq_ignore_case(names@[k as int]@, secs_v[j]) by {
                lemma_eq_ignore_case_symmetric(secs_v[j], names@[k as int]@);
            }
        }
        if any_eq_ignore_case(&secs, &names[k]) {
            let start = hs[k];
            let end = if k + 1 < nb { hs[k + 1] } else { ls.len() };
            assert(end as int == block_end(lv, hs_spec, k as int));
            let mut q = start;
            while q < end
                invariant
                    start <= q <= end <= ls.len(),
                    lv == views(ls@),
                    views(out@) == before + lv.subrange(start as int, q as int),
                decreases end - q,
            {
                let ghost old_views = views(out@);
                let c = ls[q].clone();
                assert(c@ == lv[q as int]);
                out.push(c);
                assert(views(out@) =~= old_views.push(lv[q as int]));
                q += 1;
                assert(views(out@) =~= before + lv.subrange(start as int, q as int));
            }
            assert(views(out@) =~= preamble(lv, hs_spec) + matched_lines(
                lv,
                hs_spec,
                secs_v,
                k + 1,
            ));
        } else {
            assert(views(out@) =~= preamble(lv, hs_spec) + matched_lines(
                lv,
                hs_spec,
                secs_v,
                k + 1,
            ));
        }
        k += 1;
    }
    let matched = out.len() > pre_len;
    proof {
        reveal_strlit("\n");
        assert("\n"@ =~= nl());
    }
    let mut result_content = join_range(&out, 0, out.len(), "\n");
    assert(views(out@).subrange(0, out@.len() as int) =~= views(out@));
    let cv = chars_of(content);
    if cv.len() > 0 && cv[cv.len() - 1] == '\n' {
        push_char(&mut result_content, '\n');
    }

    // --- Requested sections with no block ---
    let mut missing: Vec<String> = Vec::new();
    let mut j: usize = 0;
    while j < sections.len()
        invariant
            j <= sections@.len() == secs@.len(),
            char_views(secs@) == secs_v,
            secs_v == section_views(sections@),
            lv == lines_of(content@),
            hs_spec == h3_indices(lv, lv.len() as int),
            names@.len() == nb == hs_spec.len(),
            forall|m: int| 0 <= m < nb ==> #[trigger] names@[m]@ == block_name(lv, hs_spec, m),
            views(missing@) == secs_v.take(j as int).filter(absent(lv, hs_spec)),
        decreases sections@.len() - j,
    {
        let ghost prev = secs_v.take(j as int);
        assert(secs_v.take(j + 1).drop_last() =~= prev);
        let found = any_eq_ignore_case(&names, &secs[j]);
        assert(found == present(lv, hs_spec, secs_v[j as int])) by {
            assert(char_views(secs@)[j as int] == secs_v[j as int]);
            if found {
                let k = choose|k: int|
                    0 <= k < names@.len() && eq_ignore_case(char_views(names@)[k], secs@[j as int]@);
                assert(names@[k]@ == block_name(lv, hs_spec, k));
            } else {
                assert forall|k: int| 0 <= k < hs_spec.len() implies !eq_ignore_case(
                    block_name(lv, hs_spec, k),
                    secs_v[j as int],
                ) by {
                    assert(names@[k]@ == block_name(lv, hs_spec, k));
                    assert(char_views(names@)[k] == names@[k]@);
                }
            }
        }
        let ghost before = views(missing@);
        if !found {
            let sj: &str = sections[j];
            let owned = sj.to_owned();
            assert(owned@ == secs_v[j as int]);
            missing.push(owned);
            assert(views(missing@) =~= before.push(secs_v[j as int]));
        } else {
            assert(views(missing@) =~= before);
        }
        proof {
            reveal(Seq::filter);
            let t = secs_v.take(j + 1);
            assert(t.drop_last() =~= prev);
            assert(t.last() == secs_v[j as int]);
            assert(absent(lv, hs_spec)(t.last()) == !found);
        }
        j += 1;
    }
    assert(secs_v.take(sections@.len() as int) =~= secs_v);

    // --- Every heading, in file order ---
    let mut available: Vec<String> = Vec::new();
    let mut m: usize = 0;
    while m < nb
        invariant
            m <= nb == names@.len(),
            forall|t: int| 0 <= t < nb ==> #[trigger] names@[t]@ == block_name(lv, hs_spec, t),
            views(available@) == Seq::new(m as nat, |t: int| block_name(lv, hs_spec, t)),
            nb == hs_spec.len(),
            lv == lines_of(content@),
            hs_spec == h3_indices(lv, lv.len() as int),
        decreases nb - m,
    {
        let ghost old_views = views(available@);
        let name = string_of(&names[m], 0, names[m].len());
        assert(names@[m as int]@.subrange(0, names@[m as int]@.len() as int) =~= names@[m as int]@);
        available.push(name);
        assert(views(available@) =~= old_views.push(block_name(lv, hs_spec, m as int)));
        m += 1;
        assert(views(available@) =~= Seq::new(m as nat, |t: int| block_name(lv, hs_spec, t)));
    }
    let ghost kept = matched_lines(lv, hs_spec, secs_v, hs_spec.len() as int);
    assert(result_content@ == join(preamble(lv, hs_spec) + kept, nl()) + (if ends_with_char(
        content@,
        '\n',
    ) {
        nl()
    } else {
        Seq::<char>::empty()
    }));
    assert(matched == (kept.len() > 0));
    assert(views(missing@) == missing_sections(lv, hs_spec, secs_v));
    FilterResult { content: result_content, matched, missing, available }
}

// ---------------------------------------------------------------------------
// Laws
// ---------------------------------------------------------------------------

proof fn lemma_h3_indices(ls: Seq<Seq<char>>, n: int)
    requires
        0 <= n <= ls.len(),
    ensures
        forall|a: int, b: int|
            0 <= a < b < h3_indices(ls, n).len() ==> h3_indices(ls, n)[a] < h3_indices(ls, n)[b],
        forall|a: int| 0 <= a < h3_indices(ls, n).len() ==> 0 <= #[trigger] h3_indices(ls, n)[a] < n,
    decreases n,
{
    if n > 0 {
        lemma_h3_indices(ls, n - 1);
        let prev = h3_indices(ls, n - 1);
        let cur = h3_indices(ls, n);
        if is_h3(ls[n - 1]) {
            assert(cur == prev.push(n - 1));
            assert forall|a: int| 0 <= a < cur.len() implies 0 <= #[trigger] cur[a] < n by {
                if a < prev.len() {
                    assert(cur[a] == prev[a]);
                }
            }
            assert forall|a: int, b: int| 0 <= a < b < cur.len() implies cur[a] < cur[b] by {
                assert(cur[a] == prev[a]);
                if b < prev.len() {
                    assert(cur[b] == prev[b]);
                }
            }
        } else {
            assert(cur == prev);
        }
    }
}

proof fn lemma_matched_nonempty(ls: Seq<Seq<char>>, secs: Seq<Seq<char>>, k: int)
    requires
        0 <= k <= h3_indices(ls, ls.len() as int).len(),
    ensures
        (matched_lines(ls, h3_indices(ls, ls.len() as int), secs, k).len() > 0) <==> (exists|j: int|
            0 <= j < k && requested(secs, #[trigger] block_name(ls, h3_indices(ls, ls.len() as int), j))),
    decreases k,
{
    let hs = h3_indices(ls, ls.len() as int);
    if k > 0 {
        lemma_matched_nonempty(ls, secs, k - 1);
        lemma_h3_indices(ls, ls.len() as int);
        assert(hs[k - 1] < block_end(ls, hs, k - 1));
        assert(block_lines(ls, hs, k - 1).len() > 0);
        if exists|j: int| 0 <= j < k - 1 && requested(secs, #[trigger] block_name(ls, hs, j)) {
            let j = choose|j: int| 0 <= j < k - 1 && requested(secs, #[trigger] block_name(ls, hs, j));
            assert(0 <= j < k && requested(secs, block_name(ls, hs, j)));
        }
    }
}

proof fn lemma_filter_shorter(s: Seq<Seq<char>>, p: spec_fn(Seq<char>) -> bool)
    ensures
        (s.filter(p).len() < s.len()) <==> (exists|j: int| 0 <= j < s.len() && !p(#[trigger] s[j])),
    decreases s.len(),
{
    reveal(Seq::filter);
    if s.len() > 0 {
        let t = s.drop_last();
        lemma_filter_shorter(t, p);
        t.lemma_filter_len(p);
        if exists|j: int| 0 <= j < t.len() && !p(#[trigger] t[j]) {
            let j = choose|j: int| 0 <= j < t.len() && !p(#[trigger] t[j]);
            assert(s[j] == t[j]);
        }
        if exists|j: int| 0 <= j < s.len() && !p(#[trigger] s[j]) {
            let j = choose|j: int| 0 <= j < s.len() && !p(#[trigger] s[j]);
            if j < t.len() {
                assert(t[j] == s[j]);
            }
        }
    }
}

/// A filter reports a match exactly when at least one requested section is
/// in the file, which is exactly when fewer sections are missing than were
/// requested.
pub proof fn law_matched_iff_some_section_found(content: Seq<char>, secs: Seq<Seq<char>>)
    ensures
        ({
            let ls = lines_of(content);
            let hs = h3_indices(ls, ls.len() as int);
            &&& (matched_lines(ls, hs, secs, hs.len() as int).len() > 0) <==> (exists|j: int|
                0 <= j < secs.len() && present(ls, hs, #[trigger] secs[j]))
            &&& (matched_lines(ls, hs, secs, hs.len() as int).len() > 0) <==> (missing_sections(
                ls,
                hs,
                secs,
            ).len() < secs.len())
        }),
{
    let ls = lines_of(content);
    let hs = h3_indices(ls, ls.len() as int);
    lemma_matched_nonempty(ls, secs, hs.len() as int);
    lemma_filter_shorter(secs, absent(ls, hs));
    if exists|j: int| 0 <= j < secs.len() && present(ls, hs, #[trigger] secs[j]) {
        let j = choose|j: int| 0 <= j < secs.len() && present(ls, hs, #[trigger] secs[j]);
        let k = choose|k: int| 0 <= k < hs.len() && eq_ignore_case(block_name(ls, hs, k), secs[j]);
        assert(eq_ignore_case(secs[j], block_name(ls, hs, k)));
        assert(requested(secs, block_name(ls, hs, k)));
    }
    if exists|k: int| 0 <= k < hs.len() && requested(secs, #[trigger] block_name(ls, hs, k)) {
        let k = choose|k: int| 0 <= k < hs.len() && requested(secs, #[trigger] block_name(ls, hs, k));
        let j = choose|j: int| 0 <= j < secs.len() && eq_ignore_case(secs[j], block_name(ls, hs, k));
        assert(eq_ignore_case(block_name(ls, hs, k), secs[j]));
        assert(present(ls, hs, secs[j]));
    }
    assert forall|j: int| 0 <= j < secs.len() implies (!absent(ls, hs)(#[trigger] secs[j])) == present(
        ls,
        hs,
        secs[j],
    ) by {}
}

} // verus!
