//! Mux protocol layer: ID remapping and document state tracking.
//!
//! This module provides the core protocol logic for multiplexing multiple
//! LSP clients over a single LSP server connection. It handles:
//!
//! - **ID remapping**: tagging outbound request IDs with a client identifier
//!   so responses can be routed back to the correct client.
//! - **Document state**: tracking which clients have which files open so that
//!   `didOpen`/`didClose` notifications are only forwarded when the refcount
//!   transitions (first opener / last closer).
use vstd::prelude::*;
use crate::util::strings::{
    chars_of, decimal, decimal_string, push_char, push_str, str_eq, string_of, views,
};

verus! {

// ---------------------------------------------------------------------------
// ID remapping
// ---------------------------------------------------------------------------

/// A JSON-RPC request id, as far as the mux reads it.
#[derive(Debug, PartialEq, Eq)]
pub enum RequestId {
    /// A number that fits `i64`.
    Int(i64),
    /// A number above `i64::MAX` that fits `u64`.
    UInt(u64),
    /// A string id.
    Str(String),
    /// Any other JSON value (floating-point number, null, bool, array,
    /// object), held as its JSON text.
    Other(String),
}

/// The mathematical form of [`RequestId`].
pub enum RequestIdView {
    Int(int),
    UInt(nat),
    Str(Seq<char>),
    Other(Seq<char>),
}

impl View for RequestId {
    type V = RequestIdView;

    open spec fn view(&self) -> RequestIdView {
        match self {
            RequestId::Int(n) => RequestIdView::Int(*n as int),
            RequestId::UInt(n) => RequestIdView::UInt(*n as nat),
            RequestId::Str(s) => RequestIdView::Str(s@),
            RequestId::Other(t) => RequestIdView::Other(t@),
        }
    }
}

/// Decimal notation of an integer, with a leading `-` when negative.
pub open spec fn signed_decimal(n: int) -> Seq<char> {
    if n < 0 {
        seq!['-'] + decimal((-n) as nat)
    } else {
        decimal(n as nat)
    }
}

/// How an id is written after the tag (`Display` of the JSON value; a
/// string is written without quotes).
pub open spec fn id_text(id: RequestIdView) -> Seq<char> {
    match id {
        RequestIdView::Int(n) => signed_decimal(n),
        RequestIdView::UInt(n) => decimal(n),
        RequestIdView::Str(s) => s,
        RequestIdView::Other(t) => t,
    }
}

/// `tag:id`.
pub open spec fn tagged(id: RequestIdView, tag: Seq<char>) -> Seq<char> {
    tag + seq![':'] + id_text(id)
}

/// Tag a client's request ID with their tag prefix.
///
/// Numeric ID 1 with tag "a" → string `"a:1"`
/// String ID "req-5" with tag "b" → string `"b:req-5"`
pub fn tag_request_id(id: &RequestId, tag: &str) -> (r: RequestId)
    ensures
        r@ == RequestIdView::Str(tagged(id@, tag@)),
{
    let mut out = tag.to_owned();
    push_char(&mut out, ':');
    match id {
        RequestId::Int(n) => {
            if *n < 0 {
                push_char(&mut out, '-');
                let m: u64 = (-(*n as i128)) as u64;
                let d = decimal_string(m);
                push_str(&mut out, d.as_str());
            } else {
                let d = decimal_string(*n as u64);
                push_str(&mut out, d.as_str());
            }
        },
        RequestId::UInt(n) => {
            let d = decimal_string(*n);
            push_str(&mut out, d.as_str());
        },
        RequestId::Str(s) => {
            push_str(&mut out, s.as_str());
        },
        RequestId::Other(t) => {
            push_str(&mut out, t.as_str());
        },
    }
    assert(out@ =~= tagged(id@, tag@));
    RequestId::Str(out)
}

/// Is `c` an ASCII digit?
pub open spec fn is_digit(c: char) -> bool {
    '0' <= c && c <= '9'
}

/// The value of a digit character.
pub open spec fn digit_value(c: char) -> nat {
    ((c as u32) - ('0' as u32)) as nat
}

/// The value of a run of decimal digits.
pub open spec fn digits_value(s: Seq<char>) -> nat
    decreases s.len(),
{
    if s.len() == 0 {
        0
    } else {
        digits_value(s.drop_last()) * 10 + digit_value(s.last())
    }
}

/// A non-empty run of ASCII digits.
pub open spec fn all_digits(s: Seq<char>) -> bool {
    s.len() > 0 && forall|i: int| 0 <= i < s.len() ==> is_digit(s[i])
}

/// `s.parse::<i64>()`: an optional `+` or `-`, then at least one digit, and
/// a value in range.
pub open spec fn parse_i64(s: Seq<char>) -> Option<int> {
    let neg = s.len() > 0 && s[0] == '-';
    let d = if s.len() > 0 && (s[0] == '-' || s[0] == '+') {
        s.skip(1)
    } else {
        s
    };
    let v: int = if neg {
        -digits_value(d)
    } else {
        digits_value(d) as int
    };
    if all_digits(d) && i64::MIN <= v <= i64::MAX {
        Some(v)
    } else {
        None
    }
}

/// `s.parse::<u64>()`: an optional `+`, then at least one digit, and a value
/// in range.
pub open spec fn parse_u64(s: Seq<char>) -> Option<nat> {
    let d = if s.len() > 0 && s[0] == '+' {
        s.skip(1)
    } else {
        s
    };
    if all_digits(d) && digits_value(d) <= u64::MAX {
        Some(digits_value(d))
    } else {
        None
    }
}

/// Index of the first `:`.
pub open spec fn first_colon(s: Seq<char>) -> Option<int> {
    if exists|i: int| 0 <= i < s.len() && s[i] == ':' {
        Some(choose|i: int| 0 <= i < s.len() && s[i] == ':' && forall|j: int| 0 <= j < i ==> s[j] != ':')
    } else {
        None
    }
}

/// The id restored from the text after the tag: a number when it parses as
/// one, else the string.
pub open spec fn restored_id(raw: Seq<char>) -> RequestIdView {
    match parse_i64(raw) {
        Some(n) => RequestIdView::Int(n),
        None => match parse_u64(raw) {
            Some(n) => RequestIdView::UInt(n),
            None => RequestIdView::Str(raw),
        },
    }
}

/// What [`untag_response_id`] returns: for a string `tag:rest` (split at
/// the first colon), the tag and the restored id.
pub open spec fn untagged(id: RequestIdView) -> Option<(Seq<char>, RequestIdView)> {
    match id {
        RequestIdView::Str(s) => match first_colon(s) {
            Some(p) => Some((s.take(p), restored_id(s.skip(p + 1)))),
            None => None,
        },
        _ => None,
    }
}

proof fn lemma_digits_value_prefix(s: Seq<char>, k: int)
    requires
        0 <= k <= s.len(),
    ensures
        digits_value(s.take(k)) <= digits_value(s),
    decreases s.len(),
{
    if k < s.len() {
        assert(s.drop_last().take(k) =~= s.take(k));
        lemma_digits_value_prefix(s.drop_last(), k);
    } else {
        assert(s.take(k) =~= s);
    }
}

/// Parse a run of digits (`d`, all digits, non-empty) into a value of at
/// most `u64::MAX`, or `None` when it is larger.
fn parse_digits(v: &Vec<char>, lo: usize) -> (r: Option<u64>)
    requires
        lo <= v.len(),
        all_digits(v@.skip(lo as int)),
    ensures
        r matches Some(n) ==> n == digits_value(v@.skip(lo as int)),
        r is None ==> digits_value(v@.skip(lo as int)) > u64::MAX,
{
    let ghost d = v@.skip(lo as int);
    let mut acc: u128 = 0;
    let mut i = lo;
    assert(d.take(0) =~= Seq::<char>::empty());
    while i < v.len()
        invariant
            lo <= i <= v.len(),
            d == v@.skip(lo as int),
            all_digits(d),
            acc == digits_value(d.take(i - lo)),
            acc <= u64::MAX,
        decreases v.len() - i,
    {
        let c = v[i];
        assert(d[i - lo] == c);
        assert(d.take(i - lo + 1).drop_last() =~= d.take(i - lo));
        let dv: u128 = (c as u32 - '0' as u32) as u128;
        acc = acc * 10 + dv;
        i += 1;
        if acc > 0xffff_ffff_ffff_ffff {
            proof {
                lemma_digits_value_prefix(d, i - lo);
            }
            return None;
        }
    }
    assert(d.take(i - lo) =~= d);
    Some(acc as u64)
}

fn all_digits_from(v: &Vec<char>, lo: usize) -> (r: bool)
    requires
        lo <= v.len(),
    ensures
        r == all_digits(v@.skip(lo as int)),
{
    if lo == v.len() {
        return false;
    }
    let mut i = lo;
    while i < v.len()
        invariant
            lo <= i <= v.len(),
            forall|j: int| lo <= j < i ==> is_digit(v@[j]),
        decreases v.len() - i,
    {
        if !('0' <= v[i] && v[i] <= '9') {
            assert(!is_digit(v@.skip(lo as int)[i - lo]));
            return false;
        }
        i += 1;
    }
    true
}

fn parse_i64_exec(v: &Vec<char>) -> (r: Option<i64>)
    ensures
        r matches Some(n) ==> parse_i64(v@) == Some(n as int),
        r is None ==> parse_i64(v@) is None,
{
    let neg = v.len() > 0 && v[0] == '-';
    let lo: usize = if v.len() > 0 && (v[0] == '-' || v[0] == '+') { 1 } else { 0 };
    assert(v@.skip(0) =~= v@);
    if !all_digits_from(v, lo) {
        return None;
    }
    match parse_digits(v, lo) {
        None => None,
        Some(m) => {
            if neg {
                if m <= 0x8000_0000_0000_0000 {
                    Some((-(m as i128)) as i64)
                } else {
                    None
                }
            } else if m <= 0x7fff_ffff_ffff_ffff {
                Some(m as i64)
            } else {
                None
            }
        },
    }
}

fn parse_u64_exec(v: &Vec<char>) -> (r: Option<u64>)
    ensures
        r matches Some(n) ==> parse_u64(v@) == Some(n as nat),
        r is None ==> parse_u64(v@) is None,
{
    let lo: usize = if v.len() > 0 && v[0] == '+' { 1 } else { 0 };
    assert(v@.skip(0) =~= v@);
    if !all_digits_from(v, lo) {
        return None;
    }
    parse_digits(v, lo)
}

/// Extract the client tag and original ID from a tagged response ID.
///
/// `"a:1"` → `Some(("a", Int(1)))`
/// `"b:req-5"` → `Some(("b", Str("req-5")))`
///
/// Returns `None` if the ID is not a string or has no colon separator.
pub fn untag_response_id(id: &RequestId) -> (r: Option<(String, RequestId)>)
    ensures
        match (r, untagged(id@)) {
            (Some((t, orig)), Some((tv, ov))) => t@ == tv && orig@ == ov,
            (None, None) => true,
            _ => false,
        },
{
    let s = match id {
        RequestId::Str(s) => s,
        _ => return None,
    };
    let v = chars_of(s.as_str());
    let mut p: usize = 0;
    while p < v.len() && v[p] != ':'
        invariant
            p <= v.len(),
            v@ == s@,
            forall|j: int| 0 <= j < p ==> v@[j] != ':',
        decreases v.len() - p,
    {
        p += 1;
    }
    if p == v.len() {
        return None;
    }
    assert(first_colon(v@) == Some(p as int)) by {
        assert(exists|i: int| 0 <= i < v@.len() && v@[i] == ':');
        let q = choose|i: int|
            0 <= i < v@.len() && v@[i] == ':' && forall|j: int| 0 <= j < i ==> v@[j] != ':';
        assert(q == p as int) by {
            if q < p {
                assert(v@[q] != ':');
            } else if q > p {
                assert(v@[p as int] == ':');
            }
        }
    }
    let tag = string_of(&v, 0, p);
    assert(v@.subrange(0, p as int) =~= v@.take(p as int));
    let raw = sub_chars_from(&v, p + 1);
    let original = match parse_i64_exec(&raw) {
        Some(n) => RequestId::Int(n),
        None => match parse_u64_exec(&raw) {
            Some(n) => RequestId::UInt(n),
            None => RequestId::Str(string_of(&raw, 0, raw.len())),
        },
    };
    assert(raw@.subrange(0, raw@.len() as int) =~= raw@);
    Some((tag, original))
}

fn sub_chars_from(v: &Vec<char>, lo: usize) -> (r: Vec<char>)
    requires
        lo <= v.len(),
    ensures
        r@ == v@.skip(lo as int),
{
    let r = crate::util::strings::sub_chars(v, lo, v.len());
    assert(r@ =~= v@.skip(lo as int));
    r
}

// ---------------------------------------------------------------------------
// Document state
// ---------------------------------------------------------------------------

/// One open document: who has it open and its version counter.
struct DocEntry {
    uri: String,
    clients: Vec<String>,
    version: i64,
}

/// What the state records of one document: the set of client tags that have
/// it open, and its monotonic version counter.
pub type DocView = (Set<Seq<char>>, int);

spec fn entry_view(e: DocEntry) -> DocView {
    (views(e.clients@).to_set(), e.version as int)
}

spec fn uris(s: Seq<DocEntry>) -> Seq<Seq<char>> {
    s.map_values(|e: DocEntry| e.uri@)
}

spec fn has_uri(s: Seq<DocEntry>, u: Seq<char>) -> bool {
    exists|i: int| 0 <= i < s.len() && s[i].uri@ == u
}

spec fn index_of(s: Seq<DocEntry>, u: Seq<char>) -> int {
    choose|i: int| 0 <= i < s.len() && s[i].uri@ == u
}

spec fn doc_map(s: Seq<DocEntry>) -> Map<Seq<char>, DocView> {
    Map::new(|u: Seq<char>| has_uri(s, u), |u: Seq<char>| entry_view(s[index_of(s, u)]))
}

spec fn entries_wf(s: Seq<DocEntry>) -> bool {
    &&& uris(s).no_duplicates()
    &&& forall|i: int| 0 <= i < s.len() ==> views(#[trigger] s[i].clients@).no_duplicates()
}

proof fn lemma_doc_map_at(s: Seq<DocEntry>, i: int)
    requires
        entries_wf(s),
        0 <= i < s.len(),
    ensures
        doc_map(s).dom().contains(s[i].uri@),
        doc_map(s)[s[i].uri@] == entry_view(s[i]),
{
    let u = s[i].uri@;
    assert(has_uri(s, u));
    let j = index_of(s, u);
    assert(uris(s)[i] == u && uris(s)[j] == u);
    assert(i == j);
    assert(doc_map(s)[u] == entry_view(s[j]));
}

proof fn lemma_doc_map_update(s: Seq<DocEntry>, i: int, e: DocEntry)
    requires
        entries_wf(s),
        0 <= i < s.len(),
        e.uri@ == s[i].uri@,
    ensures
        doc_map(s.update(i, e)) == doc_map(s).insert(e.uri@, entry_view(e)),
{
    let t = s.update(i, e);
    assert(uris(t) =~= uris(s));
    assert forall|u: Seq<char>| #[trigger] has_uri(t, u) == has_uri(s, u) by {
        if has_uri(s, u) {
            let j = choose|j: int| 0 <= j < s.len() && s[j].uri@ == u;
            assert(t[j].uri@ == u);
        }
        if has_uri(t, u) {
            let j = choose|j: int| 0 <= j < t.len() && t[j].uri@ == u;
            assert(s[j].uri@ == u);
        }
    }
    assert forall|u: Seq<char>| #[trigger] doc_map(t).dom().contains(u) implies doc_map(t)[u]
        == doc_map(s).insert(e.uri@, entry_view(e))[u] by {
        let j = index_of(t, u);
        let k = index_of(s, u);
        assert(uris(t)[j] == u);
        assert(uris(s)[k] == u);
        if u == e.uri@ {
            assert(uris(t)[i] == u);
        } else {
            assert(j != i);
        }
    }
    assert(doc_map(t) =~= doc_map(s).insert(e.uri@, entry_view(e)));
}

proof fn lemma_doc_map_push(s: Seq<DocEntry>, e: DocEntry)
    requires
        entries_wf(s),
        !has_uri(s, e.uri@),
    ensures
        doc_map(s.push(e)) == doc_map(s).insert(e.uri@, entry_view(e)),
{
    let t = s.push(e);
    assert forall|u: Seq<char>| #[trigger] has_uri(t, u) == (has_uri(s, u) || u == e.uri@) by {
        if has_uri(s, u) {
            let j = choose|j: int| 0 <= j < s.len() && s[j].uri@ == u;
            assert(t[j].uri@ == u);
        }
        if u == e.uri@ {
            assert(t[s.len() as int].uri@ == u);
        }
        if has_uri(t, u) && u != e.uri@ {
            let j = choose|j: int| 0 <= j < t.len() && t[j].uri@ == u;
            assert(s[j].uri@ == u);
        }
    }
    assert forall|u: Seq<char>| #[trigger] doc_map(t).dom().contains(u) implies doc_map(t)[u]
        == doc_map(s).insert(e.uri@, entry_view(e))[u] by {
        let j = index_of(t, u);
        if u == e.uri@ {
            if j < s.len() {
                assert(s[j].uri@ == u);
            }
        } else {
            let k = index_of(s, u);
            assert(uris(s)[k] == u);
            assert(t[j] == s[j]);
            assert(uris(s)[j] == u);
        }
    }
    assert(doc_map(t) =~= doc_map(s).insert(e.uri@, entry_view(e)));
}

proof fn lemma_doc_map_remove(s: Seq<DocEntry>, i: int)
    requires
        entries_wf(s),
        0 <= i < s.len(),
    ensures
        doc_map(s.remove(i)) == doc_map(s).remove(s[i].uri@),
        entries_wf(s.remove(i)),
{
    let t = s.remove(i);
    let u0 = s[i].uri@;
    assert forall|a: int, b: int|
        0 <= a < t.len() && 0 <= b < t.len() && a != b implies uris(t)[a] != uris(t)[b] by {
        let a2 = if a < i { a } else { a + 1 };
        let b2 = if b < i { b } else { b + 1 };
        assert(t[a] == s[a2] && t[b] == s[b2]);
        assert(uris(s)[a2] != uris(s)[b2]);
    }
    assert forall|a: int| 0 <= a < t.len() implies views(#[trigger] t[a].clients@).no_duplicates() by {
        let a2 = if a < i { a } else { a + 1 };
        assert(t[a] == s[a2]);
    }
    assert forall|u: Seq<char>| #[trigger] has_uri(t, u) == (has_uri(s, u) && u != u0) by {
        if has_uri(t, u) {
            let j = choose|j: int| 0 <= j < t.len() && t[j].uri@ == u;
            let j2 = if j < i { j } else { j + 1 };
            assert(t[j] == s[j2]);
            assert(uris(s)[j2] == u && uris(s)[i] == u0);
        }
        if has_uri(s, u) && u != u0 {
            let j = choose|j: int| 0 <= j < s.len() && s[j].uri@ == u;
            let j2 = if j < i { j } else { j - 1 };
            assert(t[j2] == s[j]);
        }
    }
    assert forall|u: Seq<char>| #[trigger] doc_map(t).dom().contains(u) implies doc_map(t)[u]
        == doc_map(s).remove(u0)[u] by {
        let j = index_of(t, u);
        let k = index_of(s, u);
        let j2 = if j < i { j } else { j + 1 };
        assert(t[j] == s[j2]);
        assert(uris(s)[j2] == u && uris(s)[k] == u);
    }
    assert(doc_map(t) =~= doc_map(s).remove(u0));
}

/// Tracks which clients have which documents open against the shared LSP server.
///
/// The mux must suppress duplicate `didOpen`/`didClose` notifications: only the
/// first opener triggers `didOpen`, and only the last closer triggers `didClose`.
/// Version numbers are remapped to a monotonically increasing sequence per URI
/// so the server never sees out-of-order versions from interleaved clients.
///
/// The records are kept in lists of distinct keys rather than in a
/// `HashMap` and `HashSet`: vstd specifies those only for key types that
/// obey its key model, which it grants to primitive types, not to `String`,
/// and granting it here would take an assumption.
pub struct DocumentState {
    /// URI → (client tags that have it open, monotonic version counter)
    files: Vec<DocEntry>,
}

impl View for DocumentState {
    type V = Map<Seq<char>, DocView>;

    closed spec fn view(&self) -> Map<Seq<char>, DocView> {
        doc_map(self.files@)
    }
}

/// The record of `u` in `m`, or no clients and version 0.
pub open spec fn doc_or_new(m: Map<Seq<char>, DocView>, u: Seq<char>) -> DocView {
    if m.dom().contains(u) {
        m[u]
    } else {
        (Set::<Seq<char>>::empty(), 0)
    }
}

/// Whether `open(u, _)` forwards `didOpen`: nobody had `u` open.
pub open spec fn open_forwards(m: Map<Seq<char>, DocView>, u: Seq<char>) -> bool {
    doc_or_new(m, u).0 == Set::<Seq<char>>::empty()
}

/// The records after client `t` opens `u`.
pub open spec fn after_open(m: Map<Seq<char>, DocView>, u: Seq<char>, t: Seq<char>) -> Map<
    Seq<char>,
    DocView,
> {
    m.insert(u, (doc_or_new(m, u).0.insert(t), doc_or_new(m, u).1))
}

/// `t` is the one client that has the document open.
pub open spec fn sole_opener(clients: Set<Seq<char>>, t: Seq<char>) -> bool {
    clients.contains(t) && clients.remove(t) == Set::<Seq<char>>::empty()
}

/// Whether `close(u, t)` forwards `didClose`: `t` was the last client of `u`.
pub open spec fn close_forwards(m: Map<Seq<char>, DocView>, u: Seq<char>, t: Seq<char>) -> bool {
    m.dom().contains(u) && sole_opener(m[u].0, t)
}

/// The records after client `t` closes `u`.
pub open spec fn after_close(m: Map<Seq<char>, DocView>, u: Seq<char>, t: Seq<char>) -> Map<
    Seq<char>,
    DocView,
> {
    if !m.dom().contains(u) {
        m
    } else if close_forwards(m, u, t) {
        m.remove(u)
    } else {
        m.insert(u, (m[u].0.remove(t), m[u].1))
    }
}

/// The version `next_version(u)` hands out.
pub open spec fn next_version_of(m: Map<Seq<char>, DocView>, u: Seq<char>) -> int {
    doc_or_new(m, u).1 + 1
}

/// The records after `next_version(u)`.
pub open spec fn after_next_version(m: Map<Seq<char>, DocView>, u: Seq<char>) -> Map<
    Seq<char>,
    DocView,
> {
    m.insert(u, (doc_or_new(m, u).0, next_version_of(m, u)))
}

/// Was `tag` the sole opener of document `u`?
pub open spec fn closes_on_disconnect(m: Map<Seq<char>, DocView>, u: Seq<char>, tag: Seq<char>) -> bool {
    m.dom().contains(u) && sole_opener(m[u].0, tag)
}

/// The records left after client `tag` disconnects: `tag` leaves every
/// document, and the documents it alone had open are forgotten.
pub open spec fn after_disconnect(m: Map<Seq<char>, DocView>, tag: Seq<char>) -> Map<
    Seq<char>,
    DocView,
> {
    Map::new(
        |u: Seq<char>| m.dom().contains(u) && !closes_on_disconnect(m, u, tag),
        |u: Seq<char>| (m[u].0.remove(tag), m[u].1),
    )
}

proof fn lemma_after_disconnect_insert(
    m: Map<Seq<char>, DocView>,
    u: Seq<char>,
    d: DocView,
    tag: Seq<char>,
)
    requires
        !m.dom().contains(u),
    ensures
        sole_opener(d.0, tag) ==> after_disconnect(m.insert(u, d), tag) == after_disconnect(
            m,
            tag,
        ),
        !sole_opener(d.0, tag) ==> after_disconnect(m.insert(u, d), tag) == after_disconnect(
            m,
            tag,
        ).insert(u, (d.0.remove(tag), d.1)),
        forall|x: Seq<char>|
            #[trigger] closes_on_disconnect(m.insert(u, d), x, tag) == (closes_on_disconnect(
                m,
                x,
                tag,
            ) || (x == u && sole_opener(d.0, tag))),
{
    if sole_opener(d.0, tag) {
        assert(after_disconnect(m.insert(u, d), tag) =~= after_disconnect(m, tag));
    } else {
        assert(after_disconnect(m.insert(u, d), tag) =~= after_disconnect(m, tag).insert(
            u,
            (d.0.remove(tag), d.1),
        ));
    }
}

proof fn lemma_entries_wf_take(s: Seq<DocEntry>, n: int)
    requires
        entries_wf(s),
        0 <= n <= s.len(),
    ensures
        entries_wf(s.take(n)),
        forall|u: Seq<char>| has_uri(s.take(n), u) ==> has_uri(s, u),
        n < s.len() ==> !has_uri(s.take(n), s[n].uri@),
        n < s.len() ==> s.take(n + 1) == s.take(n).push(s[n]),
{
    let t = s.take(n);
    assert forall|a: int, b: int|
        0 <= a < t.len() && 0 <= b < t.len() && a != b implies uris(t)[a] != uris(t)[b] by {
        assert(uris(s)[a] != uris(s)[b]);
    }
    assert forall|a: int| 0 <= a < t.len() implies views(#[trigger] t[a].clients@).no_duplicates() by {
        assert(t[a] == s[a]);
    }
    assert forall|u: Seq<char>| has_uri(t, u) implies has_uri(s, u) by {
        let j = choose|j: int| 0 <= j < t.len() && t[j].uri@ == u;
        assert(s[j].uri@ == u);
    }
    if n < s.len() {
        if has_uri(t, s[n].uri@) {
            let j = choose|j: int| 0 <= j < t.len() && t[j].uri@ == s[n].uri@;
            assert(uris(s)[j] == uris(s)[n]);
        }
        assert(s.take(n + 1) =~= t.push(s[n]));
    }
}

impl DocumentState {
    /// The state's internal consistency (each URI recorded once, each client
    /// once per URI).
    pub closed spec fn wf(&self) -> bool {
        entries_wf(self.files@)
    }

    pub fn new() -> (r: Self)
        ensures
            r.wf(),
            r@ == Map::<Seq<char>, DocView>::empty(),
    {
        let r = DocumentState { files: Vec::new() };
        assert(r@ =~= Map::<Seq<char>, DocView>::empty());
        r
    }

    fn find(&self, uri: &str) -> (r: Option<usize>)
        requires
            self.wf(),
        ensures
            r matches Some(i) ==> i < self.files@.len() && self.files@[i as int].uri@ == uri@,
            r is None ==> !has_uri(self.files@, uri@),
    {
        let mut i: usize = 0;
        while i < self.files.len()
            invariant
                i <= self.files@.len(),
                forall|j: int| 0 <= j < i ==> self.files@[j].uri@ != uri@,
            decreases self.files@.len() - i,
        {
            if str_eq(self.files[i].uri.as_str(), uri) {
                return Some(i);
            }
            i += 1;
        }
        None
    }

    /// The version last handed out for `uri` (0 when none was).
    pub fn current_version(&self, uri: &str) -> (r: i64)
        requires
            self.wf(),
        ensures
            r == doc_or_new(self@, uri@).1,
    {
        match self.find(uri) {
            Some(i) => {
                proof {
                    lemma_doc_map_at(self.files@, i as int);
                }
                self.files[i].version
            },
            None => 0,
        }
    }

    /// Client opens a file. Returns `true` if `didOpen` should be forwarded
    /// to the LSP server (i.e. this is the first opener).
    pub fn open(&mut self, uri: &str, tag: &str) -> (r: bool)
        requires
            old(self).wf(),
        ensures
            final(self).wf(),
            r == open_forwards(old(self)@, uri@),
            final(self)@ == after_open(old(self)@, uri@, tag@),
    {
        let ghost s0 = self.files@;
        match self.find(uri) {
            Some(i) => {
                proof {
                    lemma_doc_map_at(s0, i as int);
                }
                let mut e = self.files.remove(i);
                let ghost c0 = views(e.clients@);
                let is_first = e.clients.len() == 0;
                assert(is_first == (c0.to_set() == Set::<Seq<char>>::empty())) by {
                    if c0.len() > 0 {
                        assert(c0.to_set().contains(c0[0]));
                    } else {
                        assert(c0.to_set() =~= Set::<Seq<char>>::empty());
                    }
                }
                match find_tag(&e.clients, tag) {
                    None => {
                        e.clients.push(tag.to_owned());
                        assert(views(e.clients@) =~= c0.push(tag@));
                        proof {
                            lemma_push_to_set(c0, tag@);
                        }
                    },
                    Some(j) => {
                        assert(c0[j as int] == tag@);
                        assert(c0.to_set() =~= c0.to_set().insert(tag@));
                    },
                }
                self.files.insert(i, e);
                assert(self.files@ =~= s0.update(i as int, e));
                proof {
                    lemma_doc_map_update(s0, i as int, e);
                    assert(uris(self.files@) =~= uris(s0));
                    assert forall|a: int| 0 <= a < self.files@.len() implies views(
                        #[trigger] self.files@[a].clients@,
                    ).no_duplicates() by {
                        if a != i {
                            assert(self.files@[a] == s0[a]);
                        }
                    }
                }
                is_first
            },
            None => {
                let mut clients: Vec<String> = Vec::new();
                clients.push(tag.to_owned());
                let e = DocEntry { uri: uri.to_owned(), clients, version: 0 };
                self.files.push(e);
                proof {
                    lemma_doc_map_push(s0, e);
                    assert(views(e.clients@) =~= Seq::<Seq<char>>::empty().push(tag@));
                    lemma_push_to_set(Seq::<Seq<char>>::empty(), tag@);
                    assert(Seq::<Seq<char>>::empty().to_set() =~= Set::<Seq<char>>::empty());
                    assert(uris(self.files@) =~= uris(s0).push(uri@));
                    assert forall|a: int, b: int|
                        0 <= a < self.files@.len() && 0 <= b < self.files@.len() && a != b implies uris(
                        self.files@,
                    )[a] != uris(self.files@)[b] by {
                        if a == s0.len() {
                            assert(s0[b].uri@ != uri@);
                        } else if b == s0.len() {
                            assert(s0[a].uri@ != uri@);
                        }
                    }
                    assert forall|a: int| 0 <= a < self.files@.len() implies views(
                        #[trigger] self.files@[a].clients@,
                    ).no_duplicates() by {
                        if a < s0.len() {
                            assert(self.files@[a] == s0[a]);
                        }
                    }
                }
                true
            },
        }
    }

    /// Client closes a file. Returns `true` if `didClose` should be forwarded
    /// to the LSP server (i.e. this was the last closer).
    pub fn close(&mut self, uri: &str, tag: &str) -> (r: bool)
        requires
            old(self).wf(),
        ensures
            final(self).wf(),
            r == close_forwards(old(self)@, uri@, tag@),
            final(self)@ == after_close(old(self)@, uri@, tag@),
    {
        let ghost s0 = self.files@;
        match self.find(uri) {
            None => false,
            Some(i) => {
                proof {
                    lemma_doc_map_at(s0, i as int);
                }
                let mut e = self.files.remove(i);
                let ghost c0 = views(e.clients@);
                let opener = match find_tag(&e.clients, tag) {
                    Some(j) => {
                        e.clients.remove(j);
                        proof {
                            lemma_remove_to_set(c0, j as int);
                            assert(views(e.clients@) =~= c0.remove(j as int));
                            assert(c0.to_set().contains(tag@)) by {
                                assert(c0[j as int] == tag@);
                            }
                        }
                        true
                    },
                    None => {
                        assert(c0.to_set() =~= c0.to_set().remove(tag@));
                        false
                    },
                };
                let rest_empty = e.clients.len() == 0;
                assert(rest_empty == (views(e.clients@).to_set() == Set::<Seq<char>>::empty())) by {
                    if views(e.clients@).len() > 0 {
                        assert(views(e.clients@).to_set().contains(views(e.clients@)[0]));
                    } else {
                        assert(views(e.clients@).to_set() =~= Set::<Seq<char>>::empty());
                    }
                }
                if opener && rest_empty {
                    proof {
                        lemma_doc_map_remove(s0, i as int);
                    }
                    return true;
                }
                self.files.insert(i, e);
                assert(self.files@ =~= s0.update(i as int, e));
                proof {
                    lemma_doc_map_update(s0, i as int, e);
                    assert(uris(self.files@) =~= uris(s0));
                    assert forall|a: int| 0 <= a < self.files@.len() implies views(
                        #[trigger] self.files@[a].clients@,
                    ).no_duplicates() by {
                        if a != i {
                            assert(self.files@[a] == s0[a]);
                        }
                    }
                }
                false
            },
        }
    }

    /// Get the next monotonic version for a `didChange` on this URI.
    ///
    /// Each call increments the counter, ensuring the LSP server always sees
    /// strictly increasing version numbers regardless of which client sent
    /// the change.
    pub fn next_version(&mut self, uri: &str) -> (r: i64)
        requires
            old(self).wf(),
            doc_or_new(old(self)@, uri@).1 < i64::MAX,
        ensures
            final(self).wf(),
            r == next_version_of(old(self)@, uri@),
            final(self)@ == after_next_version(old(self)@, uri@),
    {
        let ghost s0 = self.files@;
        match self.find(uri) {
            Some(i) => {
                proof {
                    lemma_doc_map_at(s0, i as int);
                }
                let mut e = self.files.remove(i);
                e.version = e.version + 1;
                let v = e.version;
                self.files.insert(i, e);
                assert(self.files@ =~= s0.update(i as int, e));
                proof {
                    lemma_doc_map_update(s0, i as int, e);
                    assert(uris(self.files@) =~= uris(s0));
                    assert forall|a: int| 0 <= a < self.files@.len() implies views(
                        #[trigger] self.files@[a].clients@,
                    ).no_duplicates() by {
                        if a != i {
                            assert(self.files@[a] == s0[a]);
                        }
                    }
                }
                v
            },
            None => {
                let e = DocEntry { uri: uri.to_owned(), clients: Vec::new(), version: 1 };
                self.files.push(e);
                proof {
                    lemma_doc_map_push(s0, e);
                    assert(views(e.clients@).to_set() =~= Set::<Seq<char>>::empty());
                    assert(uris(self.files@) =~= uris(s0).push(uri@));
                    assert forall|a: int, b: int|
                        0 <= a < self.files@.len() && 0 <= b < self.files@.len() && a != b implies uris(
                        self.files@,
                    )[a] != uris(self.files@)[b] by {
                        if a == s0.len() {
                            assert(s0[b].uri@ != uri@);
                        } else if b == s0.len() {
                            assert(s0[a].uri@ != uri@);
                        }
                    }
                    assert forall|a: int| 0 <= a < self.files@.len() implies views(
                        #[trigger] self.files@[a].clients@,
                    ).no_duplicates() by {
                        if a < s0.len() {
                            assert(self.files@[a] == s0[a]);
                        }
                    }
                }
                1
            },
        }
    }

    /// Remove all file ownership for a disconnecting client.
    ///
    /// Returns URIs that need `didClose` forwarded (files where this client
    /// was the sole opener), each once.
    pub fn disconnect(&mut self, tag: &str) -> (r: Vec<String>)
        requires
            old(self).wf(),
        ensures
            final(self).wf(),
            final(self)@ == after_disconnect(old(self)@, tag@),
            views(r@).no_duplicates(),
            forall|u: Seq<char>| #[trigger]
                views(r@).contains(u) == closes_on_disconnect(old(self)@, u, tag@),
    {
        let mut pending: Vec<DocEntry> = Vec::new();
        std::mem::swap(&mut pending, &mut self.files);
        let ghost s0 = pending@;
        let total = pending.len();
        assert(s0.take(0) =~= Seq::<DocEntry>::empty());
        assert(doc_map(Seq::<DocEntry>::empty()) =~= Map::<Seq<char>, DocView>::empty());
        assert(after_disconnect(Map::<Seq<char>, DocView>::empty(), tag@) =~= Map::<
            Seq<char>,
            DocView,
        >::empty());
        let mut kept: Vec<DocEntry> = Vec::new();
        let mut closed: Vec<String> = Vec::new();
        let mut i: usize = 0;
        while pending.len() > 0
            invariant
                entries_wf(s0),
                s0.len() <= usize::MAX,
                i + pending@.len() == s0.len(),
                pending@ == s0.skip(i as int),
                entries_wf(kept@),
                forall|u: Seq<char>| has_uri(kept@, u) ==> has_uri(s0.take(i as int), u),
                doc_map(kept@) == after_disconnect(doc_map(s0.take(i as int)), tag@),
                views(closed@).no_duplicates(),
                forall|u: Seq<char>| #[trigger]
                    views(closed@).contains(u) == closes_on_disconnect(
                        doc_map(s0.take(i as int)),
                        u,
                        tag@,
                    ),
            decreases pending@.len(),
        {
            let ghost before = s0.take(i as int);
            proof {
                lemma_entries_wf_take(s0, i as int);
                assert(s0[i as int] == pending@[0]);
                lemma_doc_map_push(before, s0[i as int]);
            }
            let mut e = pending.remove(0);
            assert(pending@ =~= s0.skip(i + 1));
            let ghost d = entry_view(e);
            let ghost c0 = views(e.clients@);
            let opener = match find_tag(&e.clients, tag) {
                Some(j) => {
                    e.clients.remove(j);
                    proof {
                        lemma_remove_to_set(c0, j as int);
                        assert(views(e.clients@) =~= c0.remove(j as int));
                        assert(c0.to_set().contains(tag@)) by {
                            assert(c0[j as int] == tag@);
                        }
                    }
                    true
                },
                None => {
                    assert(c0.to_set() =~= c0.to_set().remove(tag@));
                    false
                },
            };
            assert(views(e.clients@).to_set() == d.0.remove(tag@));
            assert(opener == d.0.contains(tag@));
            let none_left = opener && e.clients.len() == 0;
            assert(none_left == sole_opener(d.0, tag@)) by {
                if views(e.clients@).len() > 0 {
                    assert(views(e.clients@).to_set().contains(views(e.clients@)[0]));
                } else {
                    assert(views(e.clients@).to_set() =~= Set::<Seq<char>>::empty());
                }
            }
            proof {
                lemma_after_disconnect_insert(doc_map(before), e.uri@, d, tag@);
            }
            if none_left {
                let ghost cv = views(closed@);
                let u = e.uri;
                proof {
                    if cv.contains(u@) {
                        assert(closes_on_disconnect(doc_map(before), u@, tag@));
                    }
                    lemma_push_to_set(cv, u@);
                }
                closed.push(u);
                assert(views(closed@) =~= cv.push(u@));
                assert forall|x: Seq<char>| #[trigger] views(closed@).contains(x)
                    == (cv.contains(x) || x == u@) by {
                    assert(views(closed@).to_set().contains(x) == cv.to_set().insert(u@).contains(x));
                }
            } else {
                let ghost k0 = kept@;
                proof {
                    if has_uri(k0, e.uri@) {
                        assert(has_uri(before, e.uri@));
                    }
                    lemma_doc_map_push(k0, e);
                }
                kept.push(e);
                proof {
                    assert(uris(kept@) =~= uris(k0).push(e.uri@));
                    assert forall|a: int, b: int|
                        0 <= a < kept@.len() && 0 <= b < kept@.len() && a != b implies uris(
                            kept@,
                        )[a] != uris(kept@)[b] by {
                        if a == k0.len() {
                            assert(k0[b].uri@ != e.uri@);
                        } else if b == k0.len() {
                            assert(k0[a].uri@ != e.uri@);
                        }
                    }
                    assert forall|a: int| 0 <= a < kept@.len() implies views(
                        #[trigger] kept@[a].clients@,
                    ).no_duplicates() by {
                        if a < k0.len() {
                            assert(kept@[a] == k0[a]);
                        }
                    }
                    assert forall|u: Seq<char>| has_uri(kept@, u) implies has_uri(
                        s0.take(i + 1),
                        u,
                    ) by {
                        let j = choose|j: int| 0 <= j < kept@.len() && kept@[j].uri@ == u;
                        if j < k0.len() {
                            assert(k0[j].uri@ == u);
                            assert(has_uri(k0, u));
                            assert(has_uri(before, u));
                            let m = choose|m: int| 0 <= m < before.len() && before[m].uri@ == u;
                            assert(s0.take(i + 1)[m].uri@ == u);
                        } else {
                            assert(s0.take(i + 1)[i as int].uri@ == u);
                        }
                    }
                }
            }
            i += 1;
        }
        assert(s0.take(i as int) =~= s0);
        self.files = kept;
        closed
    }
}

impl Default for DocumentState {
    fn default() -> (r: Self)
        ensures
            r.wf(),
            r@ == Map::<Seq<char>, DocView>::empty(),
    {
        Self::new()
    }
}

proof fn lemma_push_to_set(c: Seq<Seq<char>>, x: Seq<char>)
    ensures
        c.push(x).to_set() == c.to_set().insert(x),
        !c.contains(x) && c.no_duplicates() ==> c.push(x).no_duplicates(),
{
    assert forall|y: Seq<char>| #[trigger] c.push(x).contains(y) == (c.contains(y) || y == x) by {
        if c.contains(y) {
            let k = choose|k: int| 0 <= k < c.len() && c[k] == y;
            assert(c.push(x)[k] == y);
        }
        if y == x {
            assert(c.push(x)[c.len() as int] == y);
        }
        if c.push(x).contains(y) && y != x {
            let k = choose|k: int| 0 <= k < c.len() + 1 && c.push(x)[k] == y;
            assert(c[k] == y);
        }
    }
    assert(c.push(x).to_set() =~= c.to_set().insert(x));
    if !c.contains(x) && c.no_duplicates() {
        assert forall|a: int, b: int|
            0 <= a < c.len() + 1 && 0 <= b < c.len() + 1 && a != b implies c.push(x)[a] != c.push(
            x,
        )[b] by {
            if a == c.len() {
                assert(c[b] != x);
            } else if b == c.len() {
                assert(c[a] != x);
            }
        }
    }
}

proof fn lemma_remove_to_set(c: Seq<Seq<char>>, j: int)
    requires
        0 <= j < c.len(),
        c.no_duplicates(),
    ensures
        c.remove(j).to_set() == c.to_set().remove(c[j]),
        c.remove(j).no_duplicates(),
{
    let t = c.remove(j);
    assert forall|y: Seq<char>| #[trigger] t.contains(y) == (c.contains(y) && y != c[j]) by {
        if t.contains(y) {
            let k = choose|k: int| 0 <= k < t.len() && t[k] == y;
            let k2 = if k < j { k } else { k + 1 };
            assert(t[k] == c[k2]);
        }
        if c.contains(y) && y != c[j] {
            let k = choose|k: int| 0 <= k < c.len() && c[k] == y;
            let k2 = if k < j { k } else { k - 1 };
            assert(t[k2] == c[k]);
        }
    }
    assert(t.to_set() =~= c.to_set().remove(c[j]));
    assert forall|a: int, b: int| 0 <= a < t.len() && 0 <= b < t.len() && a != b implies t[a]
        != t[b] by {
        let a2 = if a < j { a } else { a + 1 };
        let b2 = if b < j { b } else { b + 1 };
        assert(t[a] == c[a2] && t[b] == c[b2]);
    }
}

/// Position of `tag` among the client tags.
fn find_tag(clients: &Vec<String>, tag: &str) -> (r: Option<usize>)
    ensures
        r matches Some(j) ==> j < clients@.len() && clients@[j as int]@ == tag@,
        r is None ==> !views(clients@).contains(tag@),
{
    let mut j: usize = 0;
    while j < clients.len()
        invariant
            j <= clients@.len(),
            forall|k: int| 0 <= k < j ==> clients@[k]@ != tag@,
        decreases clients@.len() - j,
    {
        if str_eq(clients[j].as_str(), tag) {
            return Some(j);
        }
        j += 1;
    }
    None
}

// ---------------------------------------------------------------------------
// Laws
// ---------------------------------------------------------------------------

/// A client that opens a document nobody had open, and closes it again,
/// triggers both `didOpen` and `didClose`, and leaves the records as they were.
pub proof fn law_open_then_close_restores(m: Map<Seq<char>, DocView>, u: Seq<char>, t: Seq<char>)
    requires
        !m.dom().contains(u),
    ensures
        open_forwards(m, u),
        close_forwards(after_open(m, u, t), u, t),
        after_close(after_open(m, u, t), u, t) == m,
{
    assert(Set::<Seq<char>>::empty().insert(t).remove(t) =~= Set::<Seq<char>>::empty());
    assert(after_open(m, u, t).remove(u) =~= m);
}

/// Only the first opener triggers `didOpen`: once a client has a document
/// open, any later open of it is suppressed.
pub proof fn law_second_open_suppressed(
    m: Map<Seq<char>, DocView>,
    u: Seq<char>,
    t1: Seq<char>,
    t2: Seq<char>,
)
    ensures
        !open_forwards(after_open(m, u, t1), u),
{
    assert(after_open(m, u, t1)[u].0.contains(t1));
}

/// Only the last closer triggers `didClose`: with two clients on a fresh
/// document, the first close is suppressed and the second forwarded, after
/// which the records are back where they started.
pub proof fn law_last_closer_forwards(
    m: Map<Seq<char>, DocView>,
    u: Seq<char>,
    a: Seq<char>,
    b: Seq<char>,
)
    requires
        !m.dom().contains(u),
        a != b,
    ensures
        !close_forwards(after_open(after_open(m, u, a), u, b), u, a),
        close_forwards(after_close(after_open(after_open(m, u, a), u, b), u, a), u, b),
        after_close(after_close(after_open(after_open(m, u, a), u, b), u, a), u, b) == m,
{
    let m2 = after_open(after_open(m, u, a), u, b);
    assert(m2[u].0 =~= Set::<Seq<char>>::empty().insert(a).insert(b));
    assert(m2[u].0.remove(a).contains(b));
    let m3 = after_close(m2, u, a);
    assert(m3[u].0 =~= Set::<Seq<char>>::empty().insert(b));
    assert(m3[u].0.remove(b) =~= Set::<Seq<char>>::empty());
    assert(m3.remove(u) =~= m);
}

/// Versions handed out for a document strictly increase from call to call,
/// and asking for one document's version leaves every other document alone.
pub proof fn law_versions_increase(m: Map<Seq<char>, DocView>, u: Seq<char>, w: Seq<char>)
    requires
        w != u,
    ensures
        next_version_of(after_next_version(m, u), u) == next_version_of(m, u) + 1,
        doc_or_new(after_next_version(m, u), w) == doc_or_new(m, w),
{
}

/// After a client disconnects it has no document open, every document it
/// shared stays open for the others, and exactly the documents it alone held
/// are reported for `didClose`.
pub proof fn law_disconnect_releases_client(m: Map<Seq<char>, DocView>, t: Seq<char>, u: Seq<char>)
    ensures
        after_disconnect(m, t).dom().contains(u) ==> !after_disconnect(m, t)[u].0.contains(t),
        m.dom().contains(u) ==> (after_disconnect(m, t).dom().contains(u) || closes_on_disconnect(
            m,
            u,
            t,
        )),
        after_disconnect(m, t).dom().contains(u) ==> after_disconnect(m, t)[u].1 == m[u].1,
{
}

/// A document's version counter is kept by every operation but the one
/// that forgets the document: opens, closes that do not forward, and
/// disconnects of a client that was not its sole opener leave it as it was,
/// so the versions handed out for a document keep increasing.
pub proof fn law_versions_kept_until_forgotten(
    m: Map<Seq<char>, DocView>,
    u: Seq<char>,
    t: Seq<char>,
    x: Seq<char>,
)
    ensures
        doc_or_new(after_open(m, u, t), x).1 == doc_or_new(m, x).1,
        !close_forwards(m, u, t) ==> doc_or_new(after_close(m, u, t), x).1 == doc_or_new(m, x).1,
        !closes_on_disconnect(m, x, t) ==> doc_or_new(after_disconnect(m, t), x).1 == doc_or_new(
            m,
            x,
        ).1,
        x != u ==> doc_or_new(after_next_version(m, u), x) == doc_or_new(m, x),
{
}

/// Ids that survive the trip through a tag: numbers, and strings that do
/// not read as a number.
pub open spec fn routable(id: RequestIdView) -> bool {
    match id {
        RequestIdView::Int(n) => i64::MIN <= n <= i64::MAX,
        RequestIdView::UInt(n) => n <= u64::MAX,
        RequestIdView::Str(s) => parse_i64(s) is None && parse_u64(s) is None,
        RequestIdView::Other(_) => false,
    }
}

/// The id as JSON classifies it: a non-negative number that fits `i64` is
/// read as one, whichever way it was held.
pub open spec fn canonical_id(id: RequestIdView) -> RequestIdView {
    match id {
        RequestIdView::UInt(n) => if n <= i64::MAX {
            RequestIdView::Int(n as int)
        } else {
            id
        },
        _ => id,
    }
}

proof fn lemma_digit_char(d: nat)
    requires
        d < 10,
    ensures
        is_digit(crate::util::strings::digit_char(d)),
        digit_value(crate::util::strings::digit_char(d)) == d,
{
    assert('0' as u32 == 48);
    assert('9' as u32 == 57);
    if d == 0 {
        assert('0' as u32 == 48);
    } else if d == 1 {
        assert('1' as u32 == 49);
    } else if d == 2 {
        assert('2' as u32 == 50);
    } else if d == 3 {
        assert('3' as u32 == 51);
    } else if d == 4 {
        assert('4' as u32 == 52);
    } else if d == 5 {
        assert('5' as u32 == 53);
    } else if d == 6 {
        assert('6' as u32 == 54);
    } else if d == 7 {
        assert('7' as u32 == 55);
    } else if d == 8 {
        assert('8' as u32 == 56);
    } else {
        assert('9' as u32 == 57);
    }
}

proof fn lemma_decimal_digits(n: nat)
    ensures
        all_digits(decimal(n)),
        digits_value(decimal(n)) == n,
    decreases n,
{
    lemma_digit_char(n % 10);
    let d = decimal(n);
    if n >= 10 {
        lemma_decimal_digits(n / 10);
        assert(d.drop_last() =~= decimal(n / 10));
        assert(d.last() == crate::util::strings::digit_char(n % 10));
        assert(digits_value(d) == digits_value(decimal(n / 10)) * 10 + digit_value(d.last()));
        assert(n == (n / 10) * 10 + n % 10);
    } else {
        assert(d.drop_last() =~= Seq::<char>::empty());
        assert(d.last() == crate::util::strings::digit_char(n));
        assert(digits_value(d) == digits_value(d.drop_last()) * 10 + digit_value(d.last()));
        assert(digits_value(Seq::<char>::empty()) == 0);
    }
}

/// A response id tagged for a client comes back, untagged, as the client's
/// tag and the client's own id: so every response is routed to the client
/// that sent the request, with the id it used (as a JSON number reads: an
/// unsigned id that fits `i64` comes back as that same number).
pub proof fn law_untag_inverts_tag(id: RequestIdView, tag: Seq<char>)
    requires
        routable(id),
        forall|i: int| 0 <= i < tag.len() ==> tag[i] != ':',
    ensures
        untagged(RequestIdView::Str(tagged(id, tag))) == Some((tag, canonical_id(id))),
{
    let s = tagged(id, tag);
    let p = tag.len() as int;
    assert(s[p] == ':');
    assert(first_colon(s) == Some(p)) by {
        assert(exists|i: int| 0 <= i < s.len() && s[i] == ':');
        let q = choose|i: int|
            0 <= i < s.len() && s[i] == ':' && forall|j: int| 0 <= j < i ==> s[j] != ':';
        assert(q == p) by {
            if q < p {
                assert(s[q] == tag[q]);
            } else if q > p {
                assert(s[p] == ':');
            }
        }
    }
    assert(s.take(p) =~= tag);
    assert(s.skip(p + 1) =~= id_text(id));
    match id {
        RequestIdView::Int(n) => {
            if n < 0 {
                lemma_decimal_digits((-n) as nat);
                assert(id_text(id).skip(1) =~= decimal((-n) as nat));
            } else {
                lemma_decimal_digits(n as nat);
                assert(id_text(id)[0] != '-' && id_text(id)[0] != '+');
            }
        },
        RequestIdView::UInt(n) => {
            lemma_decimal_digits(n);
            assert(id_text(id)[0] != '-' && id_text(id)[0] != '+');
        },
        _ => {},
    }
}

} // verus!
