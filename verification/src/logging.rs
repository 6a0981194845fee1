//! Log-file housekeeping: the numbered rotation of the debug log, which
//! diagnostic logs are pruned, and the instance id that names a
//! diagnostic log.
use vstd::prelude::*;
use vstd::relations::injective_on;
use vstd::set_lib::{lemma_int_range, lemma_map_size, lemma_subset_equality, set_int_range};
use crate::util::strings::{decimal, decimal_string, has_prefix, has_suffix, push_char, push_str, str_ends_with, str_starts_with};

verus! {

// ---------------------------------------------------------------------------
// Debug-log rotation
// ---------------------------------------------------------------------------

/// Numbered backups of the debug log that are kept.
pub const KEEP_BACKUPS: u32 = 3;

/// `debug.log.<i>`.
pub open spec fn backup_name(i: nat) -> Seq<char> {
    "debug.log."@ + decimal(i)
}

/// The file operations of one rotation: the file deleted, then the renames
/// in the order they are made.
pub struct LogRotation {
    pub remove: String,
    pub moves: Vec<(String, String)>,
}

fn backup_file(i: u32) -> (r: String)
    ensures
        r@ == backup_name(i as nat),
{
    let mut s = String::new();
    push_str(&mut s, "debug.log.");
    let d = decimal_string(i as u64);
    push_str(&mut s, d.as_str());
    s
}

/// The rotation of the debug log: the oldest backup is deleted, each
/// backup moves one number up (highest first, so none is overwritten), and
/// the current log becomes backup 1.
pub fn debug_log_rotation() -> (r: LogRotation)
    ensures
        r.remove@ == backup_name(KEEP_BACKUPS as nat),
        r.moves.len() == KEEP_BACKUPS,
        forall|k: int|
            0 <= k < KEEP_BACKUPS - 1 ==> (#[trigger] r.moves@[k]).0@ == backup_name(
                (KEEP_BACKUPS - 1 - k) as nat,
            ) && r.moves@[k].1@ == backup_name((KEEP_BACKUPS - k) as nat),
        r.moves@[KEEP_BACKUPS - 1].0@ == "debug.log"@,
        r.moves@[KEEP_BACKUPS - 1].1@ == backup_name(1),
{
    let remove = backup_file(KEEP_BACKUPS);
    let mut moves: Vec<(String, String)> = Vec::new();
    let mut i: u32 = KEEP_BACKUPS - 1;
    while i >= 1
        invariant
            0 <= i < KEEP_BACKUPS,
            moves.len() == KEEP_BACKUPS - 1 - i,
            forall|k: int|
                0 <= k < moves.len() ==> (#[trigger] moves@[k]).0@ == backup_name(
                    (KEEP_BACKUPS - 1 - k) as nat,
                ) && moves@[k].1@ == backup_name((KEEP_BACKUPS - k) as nat),
        decreases i,
    {
        let from = backup_file(i);
        let to = backup_file(i + 1);
        moves.push((from, to));
        i -= 1;
    }
    let mut current = String::new();
    push_str(&mut current, "debug.log");
    let one = backup_file(1);
    moves.push((current, one));
    LogRotation { remove, moves }
}

// ---------------------------------------------------------------------------
// Diagnostic-log pruning
// ---------------------------------------------------------------------------

/// Diagnostic logs that are kept, newest first.
pub const KEEP_DIAGNOSTICS: usize = 6;

/// A diagnostic log file: `diagnostic-*.log`.
pub open spec fn is_diagnostic_log(name: Seq<char>) -> bool {
    has_prefix(name, "diagnostic-"@) && has_suffix(name, ".log"@)
}

/// The diagnostic logs among directory entries (name and modification
/// stamp), in listing order.
pub open spec fn diagnostics(e: Seq<(Seq<char>, u128)>) -> Seq<(Seq<char>, u128)>
    decreases e.len(),
{
    if e.len() == 0 {
        e
    } else {
        let r = diagnostics(e.drop_last());
        if is_diagnostic_log(e.last().0) {
            r.push(e.last())
        } else {
            r
        }
    }
}

/// Entry `j` comes before entry `i` when sorted newest first by a stable
/// sort: it is newer, or as new and listed earlier.
pub open spec fn precedes(d: Seq<(Seq<char>, u128)>, j: int, i: int) -> bool {
    d[j].1 > d[i].1 || (d[j].1 == d[i].1 && j < i)
}

/// How many of the first `u` entries come before entry `i`.
pub open spec fn count_before(d: Seq<(Seq<char>, u128)>, i: int, u: int) -> nat
    decreases u,
{
    if u <= 0 {
        0
    } else {
        count_before(d, i, u - 1) + if precedes(d, u - 1, i) {
            1nat
        } else {
            0nat
        }
    }
}

/// The position of entry `i` once sorted newest first.
pub open spec fn rank(d: Seq<(Seq<char>, u128)>, i: int) -> nat {
    count_before(d, i, d.len() as int)
}

/// The names, in listing order, of the first `u` entries whose position is
/// past the kept ones.
pub open spec fn stale_upto(d: Seq<(Seq<char>, u128)>, u: int) -> Seq<Seq<char>>
    decreases u,
{
    if u <= 0 {
        Seq::<Seq<char>>::empty()
    } else {
        let r = stale_upto(d, u - 1);
        if rank(d, u - 1) >= KEEP_DIAGNOSTICS {
            r.push(d[u - 1].0)
        } else {
            r
        }
    }
}

/// The diagnostic logs to delete: all but the newest six.
pub open spec fn stale_diagnostics(e: Seq<(Seq<char>, u128)>) -> Seq<Seq<char>> {
    stale_upto(diagnostics(e), diagnostics(e).len() as int)
}

/// The views of directory entries.
pub open spec fn entry_views(v: Seq<(String, u128)>) -> Seq<(Seq<char>, u128)> {
    v.map_values(|e: (String, u128)| (e.0@, e.1))
}

/// Of the directory entries `(file name, modification stamp)`, the names
/// of the diagnostic logs to delete so that only the six most recent
/// remain.
pub fn diagnostic_logs_to_remove(entries: &Vec<(String, u128)>) -> (r: Vec<String>)
    ensures
        crate::util::strings::views(r@) == stale_diagnostics(entry_views(entries@)),
{
    let ghost e = entry_views(entries@);
    let mut diag: Vec<(String, u128)> = Vec::new();
    let mut i: usize = 0;
    while i < entries.len()
        invariant
            i <= entries.len(),
            e == entry_views(entries@),
            entry_views(diag@) == diagnostics(e.take(i as int)),
        decreases entries.len() - i,
    {
        let name = entries[i].0.as_str();
        let stamp = entries[i].1;
        proof {
            assert(e.take(i + 1).drop_last() =~= e.take(i as int));
        }
        if str_starts_with(name, "diagnostic-") && str_ends_with(name, ".log") {
            let ghost before = entry_views(diag@);
            diag.push((name.to_owned(), stamp));
            assert(entry_views(diag@) =~= before.push((name@, stamp)));
        }
        i += 1;
    }
    proof {
        assert(e.take(entries.len() as int) =~= e);
    }
    let ghost d = entry_views(diag@);
    let mut out: Vec<String> = Vec::new();
    let mut k: usize = 0;
    while k < diag.len()
        invariant
            k <= diag.len(),
            d == entry_views(diag@),
            crate::util::strings::views(out@) == stale_upto(d, k as int),
        decreases diag.len() - k,
    {
        let mine = diag[k].1;
        let mut before: usize = 0;
        let mut j: usize = 0;
        while j < diag.len()
            invariant
                j <= diag.len(),
                k < diag.len(),
                d == entry_views(diag@),
                mine == d[k as int].1,
                before == count_before(d, k as int, j as int),
                before <= j,
            decreases diag.len() - j,
        {
            let other = diag[j].1;
            if other > mine || (other == mine && j < k) {
                before += 1;
            }
            j += 1;
        }
        if before >= KEEP_DIAGNOSTICS {
            let ghost prev = crate::util::strings::views(out@);
            out.push(diag[k].0.clone());
            assert(crate::util::strings::views(out@) =~= prev.push(d[k as int].0));
        }
        k += 1;
    }
    out
}

proof fn lemma_precedes_counts(d: Seq<(Seq<char>, u128)>, i: int, k: int, u: int)
    requires
        0 <= i < d.len(),
        0 <= k < d.len(),
        precedes(d, i, k),
        0 <= u <= d.len(),
    ensures
        count_before(d, i, u) + (if i < u {
            1nat
        } else {
            0nat
        }) <= count_before(d, k, u),
    decreases u,
{
    if u > 0 {
        lemma_precedes_counts(d, i, k, u - 1);
    }
}

/// A diagnostic log that is deleted is never newer than one that is kept:
/// pruning keeps the most recent files.
pub proof fn law_pruning_keeps_newest(d: Seq<(Seq<char>, u128)>, kept: int, removed: int)
    requires
        0 <= kept < d.len(),
        0 <= removed < d.len(),
        rank(d, kept) < KEEP_DIAGNOSTICS,
        rank(d, removed) >= KEEP_DIAGNOSTICS,
    ensures
        d[kept].1 >= d[removed].1,
{
    if d[removed].1 > d[kept].1 {
        lemma_precedes_counts(d, removed, kept, d.len() as int);
    }
}

proof fn lemma_count_before_bound(d: Seq<(Seq<char>, u128)>, i: int, u: int)
    requires
        0 <= i < d.len(),
        0 <= u <= d.len(),
    ensures
        count_before(d, i, u) + (if i < u {
            1int
        } else {
            0int
        }) <= u,
    decreases u,
{
    if u > 0 {
        lemma_count_before_bound(d, i, u - 1);
    }
}

proof fn lemma_rank_injective(d: Seq<(Seq<char>, u128)>, i: int, k: int)
    requires
        0 <= i < d.len(),
        0 <= k < d.len(),
        i != k,
    ensures
        rank(d, i) != rank(d, k),
{
    if precedes(d, i, k) {
        lemma_precedes_counts(d, i, k, d.len() as int);
    } else {
        assert(precedes(d, k, i));
        lemma_precedes_counts(d, k, i, d.len() as int);
    }
}

/// The indices `< u` of entries ranked past the kept ones.
pub open spec fn stale_indices(d: Seq<(Seq<char>, u128)>, u: int) -> Set<int> {
    set_int_range(0, u).filter(|i: int| rank(d, i) >= KEEP_DIAGNOSTICS)
}

proof fn lemma_stale_upto_len(d: Seq<(Seq<char>, u128)>, u: int)
    requires
        0 <= u <= d.len(),
    ensures
        stale_indices(d, u).finite(),
        stale_upto(d, u).len() == stale_indices(d, u).len(),
    decreases u,
{
    lemma_int_range(0, u);
    if u == 0 {
        assert(stale_indices(d, 0) =~= Set::<int>::empty());
    } else {
        lemma_stale_upto_len(d, u - 1);
        if rank(d, u - 1) >= KEEP_DIAGNOSTICS {
            assert(stale_indices(d, u) =~= stale_indices(d, u - 1).insert(u - 1));
        } else {
            assert(stale_indices(d, u) =~= stale_indices(d, u - 1));
        }
    }
}

/// Pruning keeps exactly the six newest diagnostic logs: of `n` of them,
/// `n - 6` are deleted when there are more than six, none otherwise.
pub proof fn law_pruning_keeps_six(d: Seq<(Seq<char>, u128)>)
    ensures
        stale_upto(d, d.len() as int).len() == if d.len() > KEEP_DIAGNOSTICS {
            d.len() - KEEP_DIAGNOSTICS
        } else {
            0
        },
{
    let n = d.len() as int;
    let all = set_int_range(0, n);
    let f = |i: int| rank(d, i) as int;
    lemma_int_range(0, n);
    assert(injective_on(f, all)) by {
        assert forall|a: int, b: int|
            all.contains(a) && all.contains(b) && #[trigger] f(a) == #[trigger] f(b) implies a == b by {
            if a != b {
                lemma_rank_injective(d, a, b);
            }
        }
    }
    let ranks = all.map(f);
    lemma_map_size(all, ranks, f);
    assert(ranks.subset_of(all)) by {
        assert forall|r: int| ranks.contains(r) implies all.contains(r) by {
            let i = choose|i: int| all.contains(i) && f(i) == r;
            lemma_count_before_bound(d, i, n);
        }
    }
    lemma_subset_equality(ranks, all);
    let stale = stale_indices(d, n);
    lemma_stale_upto_len(d, n);
    if n > KEEP_DIAGNOSTICS {
        let top = set_int_range(KEEP_DIAGNOSTICS as int, n);
        lemma_int_range(KEEP_DIAGNOSTICS as int, n);
        assert(stale.map(f) =~= top) by {
            assert forall|r: int| top.contains(r) implies stale.map(f).contains(r) by {
                assert(ranks.contains(r));
                let i = choose|i: int| all.contains(i) && f(i) == r;
                assert(stale.contains(i));
            }
            assert forall|r: int| stale.map(f).contains(r) implies top.contains(r) by {
                let i = choose|i: int| stale.contains(i) && f(i) == r;
                lemma_count_before_bound(d, i, n);
            }
        }
        assert(injective_on(f, stale));
        lemma_map_size(stale, top, f);
    } else {
        assert(stale =~= Set::<int>::empty()) by {
            assert forall|i: int| !stale.contains(i) by {
                if all.contains(i) {
                    lemma_count_before_bound(d, i, n);
                }
            }
        }
    }
}

proof fn lemma_diagnostics_members(e: Seq<(Seq<char>, u128)>)
    ensures
        forall|k: int|
            0 <= k < diagnostics(e).len() ==> is_diagnostic_log(#[trigger] diagnostics(e)[k].0)
                && e.contains(diagnostics(e)[k]),
    decreases e.len(),
{
    if e.len() > 0 {
        let p = e.drop_last();
        lemma_diagnostics_members(p);
        assert forall|k: int| 0 <= k < diagnostics(e).len() implies is_diagnostic_log(
            #[trigger] diagnostics(e)[k].0,
        ) && e.contains(diagnostics(e)[k]) by {
            if k < diagnostics(p).len() {
                assert(diagnostics(e)[k] == diagnostics(p)[k]);
                assert(is_diagnostic_log(diagnostics(p)[k].0));
                assert(p.contains(diagnostics(p)[k]));
                let j = choose|j: int| 0 <= j < p.len() && p[j] == diagnostics(p)[k];
                assert(e[j] == p[j]);
            } else {
                assert(diagnostics(e)[k] == e.last());
                assert(e[e.len() - 1] == e.last());
            }
        }
    }
}

proof fn lemma_stale_upto_members(d: Seq<(Seq<char>, u128)>, u: int)
    requires
        0 <= u <= d.len(),
    ensures
        forall|k: int|
            0 <= k < stale_upto(d, u).len() ==> exists|i: int|
                0 <= i < u && #[trigger] stale_upto(d, u)[k] == d[i].0,
    decreases u,
{
    if u > 0 {
        lemma_stale_upto_members(d, u - 1);
        let r = stale_upto(d, u - 1);
        assert forall|k: int| 0 <= k < stale_upto(d, u).len() implies exists|i: int|
            0 <= i < u && #[trigger] stale_upto(d, u)[k] == d[i].0 by {
            if k < r.len() {
                assert(stale_upto(d, u)[k] == r[k]);
                let i = choose|i: int| 0 <= i < u - 1 && r[k] == d[i].0;
                assert(0 <= i < u && stale_upto(d, u)[k] == d[i].0);
            } else {
                assert(stale_upto(d, u)[k] == d[u - 1].0);
            }
        }
    }
}

/// Pruning deletes only diagnostic logs that are in the directory: every
/// other file is left alone.
pub proof fn law_pruning_touches_only_diagnostic_logs(e: Seq<(Seq<char>, u128)>)
    ensures
        forall|k: int|
            0 <= k < stale_diagnostics(e).len() ==> is_diagnostic_log(
                #[trigger] stale_diagnostics(e)[k],
            ) && exists|j: int| 0 <= j < e.len() && e[j].0 == stale_diagnostics(e)[k],
{
    let d = diagnostics(e);
    lemma_diagnostics_members(e);
    lemma_stale_upto_members(d, d.len() as int);
    assert forall|k: int| 0 <= k < stale_diagnostics(e).len() implies is_diagnostic_log(
        #[trigger] stale_diagnostics(e)[k],
    ) && exists|j: int| 0 <= j < e.len() && e[j].0 == stale_diagnostics(e)[k] by {
        let i = choose|i: int| 0 <= i < d.len() && stale_diagnostics(e)[k] == d[i].0;
        assert(is_diagnostic_log(d[i].0) && e.contains(d[i]));
        let j = choose|j: int| 0 <= j < e.len() && e[j] == d[i];
        assert(e[j].0 == stale_diagnostics(e)[k]);
    }
}

/// The file name of the diagnostic log of an instance: `diagnostic-<id>.log`.
pub open spec fn diagnostic_log_name(id: Seq<char>) -> Seq<char> {
    "diagnostic-"@ + id + ".log"@
}

/// The file name of the diagnostic log of instance `id`.
pub fn diagnostic_log_file(id: &str) -> (r: String)
    ensures
        r@ == diagnostic_log_name(id@),
{
    let mut s = String::new();
    push_str(&mut s, "diagnostic-");
    push_str(&mut s, id);
    push_str(&mut s, ".log");
    s
}

/// Every diagnostic log an instance writes is one that pruning counts, so
/// old ones are eventually deleted.
pub proof fn law_instance_logs_are_pruned_kind(id: Seq<char>)
    ensures
        is_diagnostic_log(diagnostic_log_name(id)),
{
    let n = diagnostic_log_name(id);
    let p = "diagnostic-"@;
    let q = ".log"@;
    assert(n.subrange(0, p.len() as int) =~= p);
    assert(n.skip(n.len() - q.len()) =~= q);
}

// ---------------------------------------------------------------------------
// Instance id
// ---------------------------------------------------------------------------

/// The lowercase hexadecimal digit for `d < 16`.
pub open spec fn hex_digit(d: nat) -> char {
    if d < 10 {
        crate::util::strings::digit_char(d)
    } else if d == 10 {
        'a'
    } else if d == 11 {
        'b'
    } else if d == 12 {
        'c'
    } else if d == 13 {
        'd'
    } else if d == 14 {
        'e'
    } else {
        'f'
    }
}

/// `format!("{:04x}", n)` for `n < 65536`: four lowercase hex digits.
pub open spec fn hex4(n: nat) -> Seq<char> {
    seq![hex_digit(n / 4096), hex_digit((n / 256) % 16), hex_digit((n / 16) % 16), hex_digit(n % 16)]
}

fn hex_char(d: u64) -> (c: char)
    requires
        d < 16,
    ensures
        c == hex_digit(d as nat),
{
    if d == 0 {
        '0'
    } else if d == 1 {
        '1'
    } else if d == 2 {
        '2'
    } else if d == 3 {
        '3'
    } else if d == 4 {
        '4'
    } else if d == 5 {
        '5'
    } else if d == 6 {
        '6'
    } else if d == 7 {
        '7'
    } else if d == 8 {
        '8'
    } else if d == 9 {
        '9'
    } else if d == 10 {
        'a'
    } else if d == 11 {
        'b'
    } else if d == 12 {
        'c'
    } else if d == 13 {
        'd'
    } else if d == 14 {
        'e'
    } else {
        'f'
    }
}

/// The instance id naming a diagnostic log: the low 16 bits of a hash, as
/// four lowercase hex digits.
pub fn instance_id(hash: u64) -> (r: String)
    ensures
        r@ == hex4((hash % 65536) as nat),
{
    let n = hash % 65536;
    let mut s = String::new();
    push_char(&mut s, hex_char(n / 4096));
    push_char(&mut s, hex_char((n / 256) % 16));
    push_char(&mut s, hex_char((n / 16) % 16));
    push_char(&mut s, hex_char(n % 16));
    assert(s@ =~= hex4(n as nat));
    s
}

/// A lowercase hexadecimal digit.
pub open spec fn is_hex_digit(c: char) -> bool {
    ('0' <= c && c <= '9') || ('a' <= c && c <= 'f')
}

/// Every instance id is exactly four lowercase hex digits.
pub proof fn law_instance_id_is_four_hex_digits(n: nat)
    requires
        n < 65536,
    ensures
        hex4(n).len() == 4,
        forall|k: int| 0 <= k < 4 ==> is_hex_digit(#[trigger] hex4(n)[k]),
{
    assert forall|k: int| 0 <= k < 4 implies is_hex_digit(#[trigger] hex4(n)[k]) by {
        let d: nat = if k == 0 {
            n / 4096
        } else if k == 1 {
            (n / 256) % 16
        } else if k == 2 {
            (n / 16) % 16
        } else {
            n % 16
        };
        assert(hex4(n)[k] == hex_digit(d));
    }
}

} // verus!
