//! Character-level string model shared by the text tools.
//!
//! Strings are viewed as `Seq<char>`. This module defines, as spec functions,
//! the std string operations the tools are built from (`split('\n')`,
//! `lines()`, `join`, `trim`, `eq_ignore_ascii_case`, ...) and gives verified
//! executable versions of them.
use vstd::prelude::*;
use vstd::utf8::encode_utf8;

verus! {

// ---------------------------------------------------------------------------
// Spec model
// ---------------------------------------------------------------------------

/// `s.split('\n')`: the pieces between newline characters (always at least one).
pub open spec fn split_lines(s: Seq<char>) -> Seq<Seq<char>>
    decreases s.len(),
{
    if s.len() == 0 {
        seq![Seq::<char>::empty()]
    } else {
        let p = split_lines(s.drop_last());
        if s.last() == '\n' {
            p.push(Seq::<char>::empty())
        } else {
            p.update(p.len() - 1, p.last().push(s.last()))
        }
    }
}

/// `parts.join(sep)`.
pub open spec fn join(parts: Seq<Seq<char>>, sep: Seq<char>) -> Seq<char>
    decreases parts.len(),
{
    if parts.len() == 0 {
        Seq::<char>::empty()
    } else if parts.len() == 1 {
        parts[0]
    } else {
        join(parts.drop_last(), sep) + sep + parts.last()
    }
}

/// `"\n"` as a sequence.
pub open spec fn nl() -> Seq<char> {
    seq!['\n']
}

/// Drop one trailing carriage return.
pub open spec fn strip_cr(p: Seq<char>) -> Seq<char> {
    if p.len() > 0 && p.last() == '\r' {
        p.drop_last()
    } else {
        p
    }
}

/// `s.lines()`: split at `\n`; a line ended by `\n` loses one trailing `\r`;
/// a final line ending does not start another line.
pub open spec fn lines_of(s: Seq<char>) -> Seq<Seq<char>> {
    let parts = split_lines(s);
    if s.len() == 0 {
        Seq::<Seq<char>>::empty()
    } else if s.last() == '\n' {
        Seq::new((parts.len() - 1) as nat, |i: int| strip_cr(parts[i]))
    } else {
        Seq::new(
            parts.len(),
            |i: int|
                if i < parts.len() - 1 {
                    strip_cr(parts[i])
                } else {
                    parts[i]
                },
        )
    }
}

/// `s.starts_with(p)`.
pub open spec fn has_prefix(s: Seq<char>, p: Seq<char>) -> bool {
    p.len() <= s.len() && s.subrange(0, p.len() as int) == p
}

/// `s.ends_with(p)`.
pub open spec fn has_suffix(s: Seq<char>, p: Seq<char>) -> bool {
    p.len() <= s.len() && s.skip(s.len() - p.len()) == p
}

/// `s.ends_with(c)`.
pub open spec fn ends_with_char(s: Seq<char>, c: char) -> bool {
    s.len() > 0 && s.last() == c
}

/// `s` holds `p` starting at index `i`.
pub open spec fn occurs_at(s: Seq<char>, p: Seq<char>, i: int) -> bool {
    0 <= i && i + p.len() <= s.len() && s.subrange(i, i + p.len()) == p
}

/// `s.contains(p)`.
pub open spec fn contains(s: Seq<char>, p: Seq<char>) -> bool {
    exists|i: int| occurs_at(s, p, i)
}

/// `char::is_whitespace`: the Unicode `White_Space` property.
pub open spec fn is_ws(c: char) -> bool {
    ||| ('\u{9}' <= c && c <= '\u{d}')
    ||| c == ' '
    ||| c == '\u{85}'
    ||| c == '\u{a0}'
    ||| c == '\u{1680}'
    ||| ('\u{2000}' <= c && c <= '\u{200a}')
    ||| c == '\u{2028}'
    ||| c == '\u{2029}'
    ||| c == '\u{202f}'
    ||| c == '\u{205f}'
    ||| c == '\u{3000}'
}

/// `s.trim_end()`.
pub open spec fn trim_end(s: Seq<char>) -> Seq<char>
    decreases s.len(),
{
    if s.len() > 0 && is_ws(s.last()) {
        trim_end(s.drop_last())
    } else {
        s
    }
}

/// `s.trim_start()`.
pub open spec fn trim_start(s: Seq<char>) -> Seq<char>
    decreases s.len(),
{
    if s.len() > 0 && is_ws(s[0]) {
        trim_start(s.drop_first())
    } else {
        s
    }
}

/// `s.trim()`.
pub open spec fn trim(s: Seq<char>) -> Seq<char> {
    trim_end(trim_start(s))
}

/// `s.trim_end_matches('\n')`.
pub open spec fn trim_end_nl(s: Seq<char>) -> Seq<char>
    decreases s.len(),
{
    if s.len() > 0 && s.last() == '\n' {
        trim_end_nl(s.drop_last())
    } else {
        s
    }
}

/// The code of `c.to_ascii_lowercase()`.
pub open spec fn ascii_lower(c: char) -> int {
    if 'A' <= c && c <= 'Z' {
        (c as u32) + 32
    } else {
        (c as u32) as int
    }
}

/// `a.eq_ignore_ascii_case(b)`, stated per character (equivalent to the
/// byte-wise definition, since ASCII folding never touches non-ASCII bytes).
pub open spec fn eq_ignore_case(a: Seq<char>, b: Seq<char>) -> bool {
    a.len() == b.len() && forall|i: int| 0 <= i < a.len() ==> ascii_lower(a[i]) == ascii_lower(b[i])
}

/// Number of bytes in the UTF-8 encoding of `s` (what `str::len` returns).
pub open spec fn byte_len(s: Seq<char>) -> nat {
    encode_utf8(s).len()
}

/// The decimal digit for `d < 10`.
pub open spec fn digit_char(d: nat) -> char {
    if d == 0 {
        '0'
    } else if d == 1 {
        '1'
    } else if d == 2 {
        '2'
    } else if d == 3 {
        '3'
    } else if d == 4 {
        '4'
    } else if d == 5 {
        '5'
    } else if d == 6 {
        '6'
    } else if d == 7 {
        '7'
    } else if d == 8 {
        '8'
    } else {
        '9'
    }
}

/// Decimal notation of `n`, as `format!("{}", n)` writes it.
pub open spec fn decimal(n: nat) -> Seq<char>
    decreases n,
{
    if n < 10 {
        seq![digit_char(n)]
    } else {
        decimal(n / 10).push(digit_char(n % 10))
    }
}

/// The views of a sequence of `String`s.
pub open spec fn views(v: Seq<String>) -> Seq<Seq<char>> {
    v.map_values(|s: String| s@)
}

// ---------------------------------------------------------------------------
// Lemmas
// ---------------------------------------------------------------------------

pub proof fn lemma_split_lines_nonempty(s: Seq<char>)
    ensures
        split_lines(s).len() >= 1,
    decreases s.len(),
{
    if s.len() > 0 {
        lemma_split_lines_nonempty(s.drop_last());
    }
}

/// Joining the pieces of `split('\n')` with `"\n"` gives back the text.
pub proof fn lemma_join_split(s: Seq<char>)
    ensures
        join(split_lines(s), nl()) == s,
    decreases s.len(),
{
    if s.len() > 0 {
        let t = s.drop_last();
        lemma_join_split(t);
        lemma_split_lines_nonempty(t);
        let p = split_lines(t);
        if s.last() == '\n' {
            assert(split_lines(s).drop_last() =~= p);
            assert(s =~= t + nl() + Seq::<char>::empty());
        } else {
            let q = split_lines(s);
            if p.len() == 1 {
                assert(q[0] =~= s);
            } else {
                assert(q.drop_last() =~= p.drop_last());
                assert(s =~= (join(p.drop_last(), nl()) + nl() + p.last()).push(s.last()));
            }
        }
    }
}

pub proof fn lemma_trim_end_nl_ends(s: Seq<char>)
    ensures
        trim_end_nl(s).len() == 0 || trim_end_nl(s).last() != '\n',
        trim_end_nl(s).len() <= s.len(),
        trim_end_nl(s) == s.subrange(0, trim_end_nl(s).len() as int),
    decreases s.len(),
{
    if s.len() > 0 && s.last() == '\n' {
        lemma_trim_end_nl_ends(s.drop_last());
    } else {
        assert(s.subrange(0, s.len() as int) =~= s);
    }
}

pub proof fn lemma_trim_end_shape(s: Seq<char>)
    ensures
        trim_end(s).len() <= s.len(),
        trim_end(s) == s.subrange(0, trim_end(s).len() as int),
        trim_end(s).len() == 0 || !is_ws(trim_end(s).last()),
        forall|i: int| trim_end(s).len() <= i < s.len() ==> is_ws(s[i]),
    decreases s.len(),
{
    if s.len() > 0 && is_ws(s.last()) {
        lemma_trim_end_shape(s.drop_last());
        assert forall|i: int| trim_end(s).len() <= i < s.len() implies is_ws(s[i]) by {
            if i < s.len() - 1 {
                assert(s.drop_last()[i] == s[i]);
            }
        }
    } else {
        assert(s.subrange(0, s.len() as int) =~= s);
    }
}

pub proof fn lemma_trim_start_shape(s: Seq<char>)
    ensures
        trim_start(s).len() <= s.len(),
        trim_start(s) == s.subrange(s.len() - trim_start(s).len(), s.len() as int),
        trim_start(s).len() == 0 || !is_ws(trim_start(s)[0]),
        forall|i: int| 0 <= i < s.len() - trim_start(s).len() ==> is_ws(s[i]),
    decreases s.len(),
{
    if s.len() > 0 && is_ws(s[0]) {
        lemma_trim_start_shape(s.drop_first());
        let r = trim_start(s.drop_first());
        assert(s.drop_first().subrange(s.drop_first().len() - r.len(), s.drop_first().len() as int)
            =~= s.subrange(s.len() - r.len(), s.len() as int));
        assert forall|i: int| 0 <= i < s.len() - trim_start(s).len() implies is_ws(s[i]) by {
            if i > 0 {
                assert(s.drop_first()[i - 1] == s[i]);
            }
        }
    } else {
        assert(s.subrange(0, s.len() as int) =~= s);
    }
}

/// `trim_end` is determined by the position of the last non-whitespace char.
pub proof fn lemma_trim_end_from_index(s: Seq<char>, k: int)
    requires
        0 <= k <= s.len(),
        k == 0 || !is_ws(s[k - 1]),
        forall|i: int| k <= i < s.len() ==> is_ws(s[i]),
    ensures
        trim_end(s) == s.subrange(0, k),
    decreases s.len(),
{
    if s.len() > k {
        lemma_trim_end_from_index(s.drop_last(), k);
        assert(s.drop_last().subrange(0, k) =~= s.subrange(0, k));
    } else {
        assert(s.subrange(0, k) =~= s);
    }
}

/// `trim_start` is determined by the position of the first non-whitespace char.
pub proof fn lemma_trim_start_from_index(s: Seq<char>, k: int)
    requires
        0 <= k <= s.len(),
        k == s.len() || !is_ws(s[k]),
        forall|i: int| 0 <= i < k ==> is_ws(s[i]),
    ensures
        trim_start(s) == s.subrange(k, s.len() as int),
    decreases s.len(),
{
    if k > 0 {
        lemma_trim_start_from_index(s.drop_first(), k - 1);
        assert(s.drop_first().subrange(k - 1, s.drop_first().len() as int) =~= s.subrange(
            k,
            s.len() as int,
        ));
    } else {
        assert(s.subrange(0, s.len() as int) =~= s);
    }
}

pub proof fn lemma_trim_end_nl_from_index(s: Seq<char>, k: int)
    requires
        0 <= k <= s.len(),
        k == 0 || s[k - 1] != '\n',
        forall|i: int| k <= i < s.len() ==> s[i] == '\n',
    ensures
        trim_end_nl(s) == s.subrange(0, k),
    decreases s.len(),
{
    if s.len() > k {
        lemma_trim_end_nl_from_index(s.drop_last(), k);
        assert(s.drop_last().subrange(0, k) =~= s.subrange(0, k));
    } else {
        assert(s.subrange(0, k) =~= s);
    }
}

pub proof fn lemma_decimal_len(n: nat)
    ensures
        decimal(n).len() >= 1,
        n < 10 ==> decimal(n).len() == 1,
    decreases n,
{
    if n >= 10 {
        lemma_decimal_len(n / 10);
    }
}

pub proof fn lemma_byte_len_push(s: Seq<char>, c: char)
    ensures
        byte_len(s.push(c)) == byte_len(s) + encode_utf8(seq![c]).len(),
    decreases s.len(),
{
    if s.len() == 0 {
        assert(s.push(c) =~= seq![c]);
    } else {
        lemma_byte_len_push(s.drop_first(), c);
        assert(s.push(c).drop_first() =~= s.drop_first().push(c));
    }
}

// ---------------------------------------------------------------------------
// Executable helpers
// ---------------------------------------------------------------------------

/// Append one character: `String::push`. Claimed: the characters of the
/// string afterwards are those before it followed by `c`.
#[verifier::external_body]
pub(crate) fn push_char(s: &mut String, c: char)
    ensures
        final(s)@ == old(s)@.push(c),
{
    s.push(c);
}

/// The characters of `s`.
pub fn chars_of(s: &str) -> (r: Vec<char>)
    ensures
        r@ == s@,
{
    let mut out: Vec<char> = Vec::new();
    for c in it: s.chars()
        invariant
            it.seq() == s@,
            out@ == it.seq().take(it.index() as int),
    {
        out.push(c);
    }
    assert(out@ =~= s@);
    out
}

/// A `String` holding `v[lo..hi]`.
pub fn string_of(v: &Vec<char>, lo: usize, hi: usize) -> (r: String)
    requires
        lo <= hi <= v.len(),
    ensures
        r@ == v@.subrange(lo as int, hi as int),
{
    let mut out = String::new();
    let mut i = lo;
    while i < hi
        invariant
            lo <= i <= hi <= v.len(),
            out@ == v@.subrange(lo as int, i as int),
        decreases hi - i,
    {
        push_char(&mut out, v[i]);
        i += 1;
        assert(out@ =~= v@.subrange(lo as int, i as int));
    }
    out
}

/// Append `other` to `s`.
pub fn push_str(s: &mut String, other: &str)
    ensures
        final(s)@ == old(s)@ + other@,
{
    s.append(other);
}

/// `s.split('\n')`, collected.
pub fn split_newlines(s: &str) -> (r: Vec<String>)
    ensures
        views(r@) == split_lines(s@),
{
    let chars = chars_of(s);
    let mut out: Vec<String> = Vec::new();
    let mut cur = String::new();
    let mut i: usize = 0;
    while i < chars.len()
        invariant
            i <= chars.len(),
            chars@ == s@,
            views(out@).push(cur@) == split_lines(chars@.take(i as int)),
        decreases chars.len() - i,
    {
        let c = chars[i];
        let ghost pre = chars@.take(i as int);
        assert(chars@.take(i + 1).drop_last() =~= pre);
        proof { lemma_split_lines_nonempty(pre); }
        let ghost old_out = views(out@);
        let ghost old_cur = cur@;
        if c == '\n' {
            let done = cur;
            out.push(done);
            cur = String::new();
            assert(views(out@) =~= old_out.push(old_cur));
        } else {
            push_char(&mut cur, c);
            assert(views(out@) =~= old_out);
        }
        assert(views(out@).push(cur@) =~= split_lines(chars@.take(i + 1)));
        i += 1;
    }
    assert(chars@.take(chars.len() as int) =~= s@);
    out.push(cur);
    assert(views(out@) =~= split_lines(s@));
    out
}

/// Bytes in the UTF-8 encoding of `c` (`char::len_utf8`).
pub fn utf8_width(c: char) -> (w: u128)
    ensures
        w == encode_utf8(seq![c]).len(),
        1 <= w <= 4,
{
    proof {
        vstd::utf8::char_is_scalar(c);
        let one = seq![c];
        assert(one[0] == c);
        assert(one.drop_first() =~= Seq::<char>::empty());
        assert(encode_utf8(one.drop_first()) =~= Seq::<u8>::empty());
        assert(encode_utf8(one) =~= vstd::utf8::encode_scalar(c as u32) + encode_utf8(
            one.drop_first(),
        ));
        assert(encode_utf8(one) =~= vstd::utf8::encode_scalar(c as u32));
    }
    let v = c as u32;
    if v <= 0x7f {
        1
    } else if v <= 0x7ff {
        2
    } else if v <= 0xffff {
        3
    } else {
        4
    }
}

/// Bytes in the UTF-8 encoding of `s` (`str::len`), computed from its chars.
pub fn utf8_len(s: &str) -> (n: u128)
    ensures
        n == byte_len(s@),
        n <= 4 * s@.len(),
        n <= 0x3_ffff_ffff_ffff_fffc,
{
    let len = s.unicode_len();
    let mut n: u128 = 0;
    let ghost mut done = Seq::<char>::empty();
    for c in it: s.chars()
        invariant
            it.seq() == s@,
            done == it.seq().take(it.index() as int),
            n == byte_len(done),
            n <= 4 * done.len(),
            s@.len() == len,
    {
        proof {
            lemma_byte_len_push(done, c);
        }
        n = n + utf8_width(c);
        proof {
            done = done.push(c);
        }
        assert(done =~= it.seq().take(it.index() + 1));
    }
    assert(done =~= s@);
    n
}

/// `s.lines()`, collected.
pub fn lines(s: &str) -> (r: Vec<String>)
    ensures
        views(r@) == lines_of(s@),
{
    let chars = chars_of(s);
    let mut out: Vec<String> = Vec::new();
    let mut cur: Vec<char> = Vec::new();
    let mut i: usize = 0;
    while i < chars.len()
        invariant
            i <= chars.len(),
            chars@ == s@,
            split_lines(chars@.take(i as int)).len() == out@.len() + 1,
            cur@ == split_lines(chars@.take(i as int)).last(),
            forall|j: int|
                0 <= j < out@.len() ==> #[trigger] out@[j]@ == strip_cr(
                    split_lines(chars@.take(i as int))[j],
                ),
        decreases chars.len() - i,
    {
        let c = chars[i];
        let ghost pre = chars@.take(i as int);
        let ghost old_out = out@;
        assert(chars@.take(i + 1).drop_last() =~= pre);
        proof {
            lemma_split_lines_nonempty(pre);
        }
        if c == '\n' {
            let n = cur.len();
            let end = if n > 0 && cur[n - 1] == '\r' {
                n - 1
            } else {
                n
            };
            let line = string_of(&cur, 0, end);
            assert(line@ == strip_cr(cur@)) by {
                if n > 0 && cur@[n - 1] == '\r' {
                    assert(cur@.subrange(0, end as int) =~= cur@.drop_last());
                } else {
                    assert(cur@.subrange(0, end as int) =~= cur@);
                }
            }
            out.push(line);
            cur = Vec::new();
            assert forall|j: int| 0 <= j < out@.len() implies #[trigger] out@[j]@ == strip_cr(
                split_lines(chars@.take(i + 1))[j],
            ) by {
                if j < old_out.len() {
                    assert(out@[j] == old_out[j]);
                }
            }
            assert(cur@ =~= split_lines(chars@.take(i + 1)).last());
        } else {
            cur.push(c);
            assert forall|j: int| 0 <= j < out@.len() implies #[trigger] out@[j]@ == strip_cr(
                split_lines(chars@.take(i + 1))[j],
            ) by {}
            assert(cur@ =~= split_lines(chars@.take(i + 1)).last());
        }
        i += 1;
    }
    assert(chars@.take(chars.len() as int) =~= s@);
    if chars.len() > 0 && chars[chars.len() - 1] != '\n' {
        let n = cur.len();
        let last = string_of(&cur, 0, n);
        assert(last@ =~= cur@);
        out.push(last);
    }
    assert(views(out@) =~= lines_of(s@));
    out
}

/// `parts[lo..hi].join(sep)`.
pub fn join_range(parts: &Vec<String>, lo: usize, hi: usize, sep: &str) -> (r: String)
    requires
        lo <= hi <= parts.len(),
    ensures
        r@ == join(views(parts@).subrange(lo as int, hi as int), sep@),
{
    let mut out = String::new();
    let mut i = lo;
    while i < hi
        invariant
            lo <= i <= hi <= parts.len(),
            out@ == join(views(parts@).subrange(lo as int, i as int), sep@),
        decreases hi - i,
    {
        let ghost prev = views(parts@).subrange(lo as int, i as int);
        if i > lo {
            push_str(&mut out, sep);
        }
        push_str(&mut out, parts[i].as_str());
        assert(views(parts@).subrange(lo as int, i + 1).drop_last() =~= prev);
        i += 1;
        assert(out@ =~= join(views(parts@).subrange(lo as int, i as int), sep@));
    }
    out
}

/// Is `c` whitespace (`char::is_whitespace`)?
pub fn is_whitespace(c: char) -> (b: bool)
    ensures
        b == is_ws(c),
{
    ('\u{9}' <= c && c <= '\u{d}') || c == ' ' || c == '\u{85}' || c == '\u{a0}' || c
        == '\u{1680}' || ('\u{2000}' <= c && c <= '\u{200a}') || c == '\u{2028}' || c
        == '\u{2029}' || c == '\u{202f}' || c == '\u{205f}' || c == '\u{3000}'
}

/// `v[lo..hi]` as a new vector.
pub fn sub_chars(v: &Vec<char>, lo: usize, hi: usize) -> (r: Vec<char>)
    requires
        lo <= hi <= v.len(),
    ensures
        r@ == v@.subrange(lo as int, hi as int),
{
    let mut out: Vec<char> = Vec::new();
    let mut i = lo;
    while i < hi
        invariant
            lo <= i <= hi <= v.len(),
            out@ == v@.subrange(lo as int, i as int),
        decreases hi - i,
    {
        out.push(v[i]);
        i += 1;
        assert(out@ =~= v@.subrange(lo as int, i as int));
    }
    out
}

/// Index of the first non-whitespace char of `v` (or its length).
pub fn trim_start_index(v: &Vec<char>) -> (k: usize)
    ensures
        k <= v.len(),
        trim_start(v@) == v@.subrange(k as int, v.len() as int),
{
    let mut k: usize = 0;
    while k < v.len() && is_whitespace(v[k])
        invariant
            k <= v.len(),
            forall|i: int| 0 <= i < k ==> is_ws(v@[i]),
        decreases v.len() - k,
    {
        k += 1;
    }
    proof {
        lemma_trim_start_from_index(v@, k as int);
    }
    k
}

/// End of `trim_end(v[lo..])`, as an index into `v`.
pub fn trim_end_index(v: &Vec<char>, lo: usize) -> (j: usize)
    requires
        lo <= v.len(),
    ensures
        lo <= j <= v.len(),
        trim_end(v@.subrange(lo as int, v.len() as int)) == v@.subrange(lo as int, j as int),
{
    let mut j: usize = v.len();
    while j > lo && is_whitespace(v[j - 1])
        invariant
            lo <= j <= v.len(),
            forall|i: int| j <= i < v.len() ==> is_ws(v@[i]),
        decreases j,
    {
        j -= 1;
    }
    proof {
        let t = v@.subrange(lo as int, v.len() as int);
        lemma_trim_end_from_index(t, j - lo);
        assert(t.subrange(0, j - lo) =~= v@.subrange(lo as int, j as int));
    }
    j
}

/// `v.trim()`.
pub fn trim_chars(v: &Vec<char>) -> (r: Vec<char>)
    ensures
        r@ == trim(v@),
{
    let k = trim_start_index(v);
    let j = trim_end_index(v, k);
    sub_chars(v, k, j)
}

/// `a == b` on string slices.
pub fn str_eq(a: &str, b: &str) -> (r: bool)
    ensures
        r == (a@ == b@),
{
    let x = chars_of(a);
    let y = chars_of(b);
    chars_eq(&x, &y)
}

/// `a == b` on character vectors.
pub fn chars_eq(x: &Vec<char>, y: &Vec<char>) -> (r: bool)
    ensures
        r == (x@ == y@),
{
    if x.len() != y.len() {
        return false;
    }
    let mut i: usize = 0;
    while i < x.len()
        invariant
            x.len() == y.len(),
            i <= x.len(),
            forall|j: int| 0 <= j < i ==> x@[j] == y@[j],
        decreases x.len() - i,
    {
        if x[i] != y[i] {
            return false;
        }
        i += 1;
    }
    assert(x@ =~= y@);
    true
}

/// Does `v` hold `p` at index `at`?
pub fn occurs_at_exec(v: &Vec<char>, p: &Vec<char>, at: usize) -> (r: bool)
    ensures
        r == occurs_at(v@, p@, at as int),
{
    if at > v.len() || p.len() > v.len() - at {
        return false;
    }
    let mut i: usize = 0;
    while i < p.len()
        invariant
            at + p.len() <= v.len(),
            i <= p.len(),
            forall|j: int| 0 <= j < i ==> v@[at + j] == p@[j],
        decreases p.len() - i,
    {
        if v[at + i] != p[i] {
            assert(v@.subrange(at as int, at + p.len())[i as int] != p@[i as int]);
            return false;
        }
        i += 1;
    }
    assert(v@.subrange(at as int, at + p.len()) =~= p@);
    true
}

/// `s.replace(p, r)`: every leftmost non-overlapping occurrence of `p`
/// replaced by `r` (an empty `p` matches between all characters and at both ends).
pub open spec fn replace_all(s: Seq<char>, p: Seq<char>, r: Seq<char>) -> Seq<char>
    decreases s.len(),
{
    if p.len() == 0 {
        if s.len() == 0 {
            r
        } else {
            r + seq![s[0]] + replace_all(s.skip(1), p, r)
        }
    } else if s.len() < p.len() {
        s
    } else if s.take(p.len() as int) == p {
        r + replace_all(s.skip(p.len() as int), p, r)
    } else {
        seq![s[0]] + replace_all(s.skip(1), p, r)
    }
}

/// `s.replacen(p, r, 1)`: the first occurrence of `p` replaced by `r`.
pub open spec fn replace_first(s: Seq<char>, p: Seq<char>, r: Seq<char>) -> Seq<char>
    decreases s.len(),
{
    if p.len() == 0 {
        r + s
    } else if s.len() < p.len() {
        s
    } else if s.take(p.len() as int) == p {
        r + s.skip(p.len() as int)
    } else {
        seq![s[0]] + replace_first(s.skip(1), p, r)
    }
}

proof fn lemma_occurs_at_take(s: Seq<char>, p: Seq<char>, i: int)
    requires
        0 <= i,
        i + p.len() <= s.len(),
    ensures
        occurs_at(s, p, i) == (s.skip(i).take(p.len() as int) == p),
{
    assert(s.skip(i).take(p.len() as int) =~= s.subrange(i, i + p.len()));
}

/// `s.contains(p)`.
pub fn contains_chars(v: &Vec<char>, p: &Vec<char>) -> (r: bool)
    ensures
        r == contains(v@, p@),
{
    let mut i: usize = 0;
    loop
        invariant
            i <= v.len(),
            forall|j: int| 0 <= j < i ==> !occurs_at(v@, p@, j),
        decreases v.len() - i,
    {
        if occurs_at_exec(v, p, i) {
            return true;
        }
        if i == v.len() {
            assert forall|j: int| !occurs_at(v@, p@, j) by {
                if j > i {
                    assert(!(j + p@.len() <= v@.len()));
                }
            }
            return false;
        }
        i += 1;
    }
}

/// `s.replace(p, r)`.
pub fn replace_all_chars(v: &Vec<char>, p: &Vec<char>, r: &Vec<char>) -> (out: String)
    ensures
        out@ == replace_all(v@, p@, r@),
{
    let mut out = String::new();
    let mut i: usize = 0;
    assert(v@.skip(0) =~= v@);
    while i < v.len()
        invariant
            i <= v.len(),
            replace_all(v@, p@, r@) == out@ + replace_all(v@.skip(i as int), p@, r@),
        decreases v.len() - i,
    {
        let ghost rest = v@.skip(i as int);
        let ghost before = out@;
        if p.len() == 0 {
            push_chars(&mut out, r);
            push_char(&mut out, v[i]);
            i += 1;
            assert(rest.skip(1) =~= v@.skip(i as int));
            assert(out@ + replace_all(v@.skip(i as int), p@, r@) =~= before + replace_all(
                rest,
                p@,
                r@,
            ));
        } else if p.len() > v.len() - i {
            let tail = sub_chars(v, i, v.len());
            assert(tail@ =~= rest);
            push_chars(&mut out, &tail);
            i = v.len();
            assert(v@.skip(i as int) =~= Seq::<char>::empty());
        } else if occurs_at_exec(v, p, i) {
            proof {
                lemma_occurs_at_take(v@, p@, i as int);
            }
            push_chars(&mut out, r);
            i += p.len();
            assert(rest.skip(p@.len() as int) =~= v@.skip(i as int));
            assert(out@ + replace_all(v@.skip(i as int), p@, r@) =~= before + replace_all(
                rest,
                p@,
                r@,
            ));
        } else {
            proof {
                lemma_occurs_at_take(v@, p@, i as int);
            }
            push_char(&mut out, v[i]);
            i += 1;
            assert(rest.skip(1) =~= v@.skip(i as int));
            assert(out@ + replace_all(v@.skip(i as int), p@, r@) =~= before + replace_all(
                rest,
                p@,
                r@,
            ));
        }
    }
    if p.len() == 0 {
        push_chars(&mut out, r);
    }
    assert(out@ =~= replace_all(v@, p@, r@));
    out
}

/// `s.replacen(p, r, 1)`.
pub fn replace_first_chars(v: &Vec<char>, p: &Vec<char>, r: &Vec<char>) -> (out: String)
    ensures
        out@ == replace_first(v@, p@, r@),
{
    let mut out = String::new();
    if p.len() == 0 {
        push_chars(&mut out, r);
        let all = sub_chars(v, 0, v.len());
        assert(all@ =~= v@);
        push_chars(&mut out, &all);
        return out;
    }
    let mut i: usize = 0;
    assert(v@.skip(0) =~= v@);
    while i < v.len()
        invariant
            i <= v.len(),
            p.len() > 0,
            replace_first(v@, p@, r@) == out@ + replace_first(v@.skip(i as int), p@, r@),
        decreases v.len() - i,
    {
        let ghost rest = v@.skip(i as int);
        let ghost before = out@;
        if p.len() > v.len() - i {
            let tail = sub_chars(v, i, v.len());
            assert(tail@ =~= rest);
            push_chars(&mut out, &tail);
            assert(out@ =~= replace_first(v@, p@, r@));
            return out;
        } else if occurs_at_exec(v, p, i) {
            proof {
                lemma_occurs_at_take(v@, p@, i as int);
            }
            push_chars(&mut out, r);
            let tail = sub_chars(v, i + p.len(), v.len());
            assert(tail@ =~= rest.skip(p@.len() as int));
            push_chars(&mut out, &tail);
            assert(out@ =~= replace_first(v@, p@, r@));
            return out;
        } else {
            proof {
                lemma_occurs_at_take(v@, p@, i as int);
            }
            push_char(&mut out, v[i]);
            i += 1;
            assert(rest.skip(1) =~= v@.skip(i as int));
            assert(out@ + replace_first(v@.skip(i as int), p@, r@) =~= before + replace_first(
                rest,
                p@,
                r@,
            ));
        }
    }
    assert(out@ =~= replace_first(v@, p@, r@));
    out
}

/// Append the characters of `v`.
pub fn push_chars(s: &mut String, v: &Vec<char>)
    ensures
        final(s)@ == old(s)@ + v@,
{
    let mut i: usize = 0;
    while i < v.len()
        invariant
            i <= v.len(),
            s@ == old(s)@ + v@.take(i as int),
        decreases v.len() - i,
    {
        push_char(s, v[i]);
        i += 1;
        assert(s@ =~= old(s)@ + v@.take(i as int));
    }
    assert(v@.take(v.len() as int) =~= v@);
}

/// Decimal notation of `n`.
pub fn decimal_string(n: u64) -> (r: String)
    ensures
        r@ == decimal(n as nat),
    decreases n,
{
    let d = n % 10;
    let c = if d == 0 {
        '0'
    } else if d == 1 {
        '1'
    } else if d == 2 {
        '2'
    } else if d == 3 {
        '3'
    } else if d == 4 {
        '4'
    } else if d == 5 {
        '5'
    } else if d == 6 {
        '6'
    } else if d == 7 {
        '7'
    } else if d == 8 {
        '8'
    } else {
        '9'
    };
    let mut out = if n < 10 {
        String::new()
    } else {
        decimal_string(n / 10)
    };
    push_char(&mut out, c);
    assert(out@ =~= decimal(n as nat));
    out
}

/// `a.eq_ignore_ascii_case(b)` on character vectors.
pub fn eq_ignore_case_chars(a: &Vec<char>, b: &Vec<char>) -> (r: bool)
    ensures
        r == eq_ignore_case(a@, b@),
{
    if a.len() != b.len() {
        return false;
    }
    let mut i: usize = 0;
    while i < a.len()
        invariant
            a.len() == b.len(),
            i <= a.len(),
            forall|j: int| 0 <= j < i ==> ascii_lower(a@[j]) == ascii_lower(b@[j]),
        decreases a.len() - i,
    {
        let x = a[i];
        let y = b[i];
        proof {
            vstd::utf8::char_is_scalar(x);
            vstd::utf8::char_is_scalar(y);
        }
        let lx: u32 = if 'A' <= x && x <= 'Z' { x as u32 + 32 } else { x as u32 };
        let ly: u32 = if 'A' <= y && y <= 'Z' { y as u32 + 32 } else { y as u32 };
        if lx != ly {
            return false;
        }
        i += 1;
    }
    true
}

/// `s.contains(p)` on string slices.
pub fn str_contains(s: &str, p: &str) -> (r: bool)
    ensures
        r == contains(s@, p@),
{
    let v = chars_of(s);
    let q = chars_of(p);
    contains_chars(&v, &q)
}

/// `s.starts_with(p)` on string slices.
pub fn str_starts_with(s: &str, p: &str) -> (r: bool)
    ensures
        r == has_prefix(s@, p@),
{
    let v = chars_of(s);
    let q = chars_of(p);
    occurs_at_exec(&v, &q, 0)
}

/// `s.strip_prefix(p)`, as an owned string.
pub fn strip_prefix_str(s: &str, p: &str) -> (r: Option<String>)
    ensures
        match r {
            Some(rest) => has_prefix(s@, p@) && rest@ == s@.skip(p@.len() as int),
            None => !has_prefix(s@, p@),
        },
{
    let v = chars_of(s);
    let q = chars_of(p);
    if occurs_at_exec(&v, &q, 0) {
        let rest = string_of(&v, q.len(), v.len());
        assert(rest@ =~= s@.skip(p@.len() as int));
        Some(rest)
    } else {
        None
    }
}

/// `s.ends_with(p)` on string slices.
pub fn str_ends_with(s: &str, p: &str) -> (r: bool)
    ensures
        r == has_suffix(s@, p@),
{
    let v = chars_of(s);
    let q = chars_of(p);
    if q.len() > v.len() {
        return false;
    }
    let r = occurs_at_exec(&v, &q, v.len() - q.len());
    assert(v@.subrange(v.len() - q.len(), v.len() - q.len() + q.len()) =~= v@.skip(
        v.len() - q.len(),
    ));
    r
}

} // verus!
