//! Which Markdown sections of which files have been read in this session.
//!
//! A file is identified by its path; the caller reads the file's
//! modification time (when it can) and hands it in as a stamp. A change of
//! stamp since the sections were read forgets what was read.
use vstd::prelude::*;
use crate::util::keyed::KeyedList;
use crate::util::strings::{decimal, decimal_string, join, join_range, push_str, str_eq, views};

verus! {

/// What is known of the session: per path, the headings read, and the
/// modification stamp last recorded.
pub type CoverageView = (Map<Seq<char>, Set<Seq<char>>>, Map<Seq<char>, u128>);

/// The headings read in `path` so far (none if it was never read).
pub open spec fn seen_in(c: CoverageView, path: Seq<char>) -> Set<Seq<char>> {
    if c.0.dom().contains(path) {
        c.0[path]
    } else {
        Set::<Seq<char>>::empty()
    }
}

/// Record a stamp, when one could be read.
pub open spec fn with_stamp(
    m: Map<Seq<char>, u128>,
    path: Seq<char>,
    stamp: Option<u128>,
) -> Map<Seq<char>, u128> {
    match stamp {
        Some(t) => m.insert(path, t),
        None => m,
    }
}

/// The state after `headings` of `path` were read.
pub open spec fn after_mark_seen(
    c: CoverageView,
    path: Seq<char>,
    headings: Seq<Seq<char>>,
    stamp: Option<u128>,
) -> CoverageView {
    (c.0.insert(path, seen_in(c, path) + headings.to_set()), with_stamp(c.1, path, stamp))
}

/// The state after the stamp of `path` was refreshed.
pub open spec fn after_update_mtime(c: CoverageView, path: Seq<char>, stamp: Option<u128>) -> CoverageView {
    (c.0, with_stamp(c.1, path, stamp))
}

/// The file changed since its stamp was recorded.
pub open spec fn is_stale(c: CoverageView, path: Seq<char>, current: Option<u128>) -> bool {
    c.1.dom().contains(path) && current is Some && current->0 != c.1[path]
}

/// What was read of `path` still stands.
pub open spec fn is_valid(c: CoverageView, path: Seq<char>, current: Option<u128>) -> bool {
    c.0.dom().contains(path) && !is_stale(c, path, current)
}

/// The state after `path` was checked against its current stamp: a read
/// file that changed is forgotten.
pub open spec fn after_validate(c: CoverageView, path: Seq<char>, current: Option<u128>) -> CoverageView {
    if c.0.dom().contains(path) && is_stale(c, path, current) {
        (c.0.remove(path), c.1.remove(path))
    } else {
        c
    }
}

/// The headings of `all`, in order, that are not in `seen`.
pub open spec fn unread_of(all: Seq<Seq<char>>, seen: Set<Seq<char>>) -> Seq<Seq<char>>
    decreases all.len(),
{
    if all.len() == 0 {
        Seq::<Seq<char>>::empty()
    } else {
        let r = unread_of(all.drop_last(), seen);
        if seen.contains(all.last()) {
            r
        } else {
            r.push(all.last())
        }
    }
}

/// The reminder shown for unread sections: their count, the first five,
/// and how many more there are.
pub open spec fn hint_text(unread: Seq<Seq<char>>) -> Seq<char> {
    let n = unread.len();
    let shown = if n > 5 {
        unread.take(5)
    } else {
        unread
    };
    let suffix = if n > 5 {
        ", ... ("@ + decimal((n - 5) as nat) + " more)"@
    } else {
        Seq::<char>::empty()
    };
    decimal(n) + " unread sections in this file: "@ + join(shown, ", "@) + suffix
}

/// How much of a file's heading list has been read.
pub struct CoverageStatus {
    pub read_count: usize,
    pub total_count: usize,
    pub unread: Vec<String>,
}

/// Session-scoped tracking of which Markdown sections have been read.
///
/// The records are kept in lists of distinct keys rather than in a
/// `HashMap` and `HashSet`: vstd specifies those only for key types that
/// obey its key model, which it grants to primitive types, not to `String`,
/// and granting it here would take an assumption.
pub struct SectionCoverage {
    seen: KeyedList<Vec<String>>,
    mtimes: KeyedList<u128>,
}

impl View for SectionCoverage {
    type V = CoverageView;

    closed spec fn view(&self) -> CoverageView {
        (self.seen@.map_values(|v: Vec<String>| views(v@).to_set()), self.mtimes@)
    }
}

fn contains_string(v: &Vec<String>, s: &str) -> (r: bool)
    ensures
        r == views(v@).contains(s@),
{
    let mut i: usize = 0;
    while i < v.len()
        invariant
            i <= v.len(),
            forall|j: int| 0 <= j < i ==> v@[j]@ != s@,
        decreases v.len() - i,
    {
        if str_eq(v[i].as_str(), s) {
            proof {
                assert(views(v@)[i as int] == s@);
            }
            return true;
        }
        i += 1;
    }
    proof {
        if views(v@).contains(s@) {
            let j = choose|j: int| 0 <= j < views(v@).len() && views(v@)[j] == s@;
            assert(v@[j]@ == s@);
        }
    }
    false
}

impl SectionCoverage {
    /// The lists behind the state keep their keys distinct.
    pub closed spec fn wf(&self) -> bool {
        self.seen.wf() && self.mtimes.wf()
    }

    /// Nothing read yet.
    pub fn new() -> (r: Self)
        ensures
            r.wf(),
            r@.0 == Map::<Seq<char>, Set<Seq<char>>>::empty(),
            r@.1 == Map::<Seq<char>, u128>::empty(),
    {
        let r = SectionCoverage { seen: KeyedList::new(), mtimes: KeyedList::new() };
        assert(r@.0 =~= Map::<Seq<char>, Set<Seq<char>>>::empty());
        r
    }

    /// Record that `headings` of `path` were read; `stamp` is the file's
    /// modification time, when it could be read.
    pub fn mark_seen(&mut self, path: &str, headings: &[String], stamp: Option<u128>)
        requires
            old(self).wf(),
        ensures
            final(self).wf(),
            final(self)@ == after_mark_seen(old(self)@, path@, views(headings@), stamp),
    {
        let ghost c = self@;
        let mut set = match self.seen.remove(path) {
            Some(v) => v,
            None => Vec::new(),
        };
        let ghost base = seen_in(c, path@);
        assert(views(set@).to_set() =~= base + views(headings@).take(0).to_set());
        let mut i: usize = 0;
        while i < headings.len()
            invariant
                i <= headings.len(),
                views(set@).to_set() == base + views(headings@).take(i as int).to_set(),
            decreases headings.len() - i,
        {
            let h = &headings[i];
            let ghost before = views(set@);
            if !contains_string(&set, h.as_str()) {
                set.push(h.clone());
                assert(views(set@) =~= before.push(h@));
            }
            proof {
                assert(views(headings@).take(i + 1) =~= views(headings@).take(i as int).push(h@));
                assert(views(set@).to_set() =~= base + views(headings@).take(i + 1).to_set()) by {
                    assert forall|x: Seq<char>| #[trigger] views(set@).contains(x) == (
                    before.contains(x) || x == h@) by {
                        if views(set@).contains(x) && !before.contains(x) && x != h@ {
                            let j = choose|j: int| 0 <= j < views(set@).len() && views(set@)[j] == x;
                            assert(j < before.len() ==> before[j] == x);
                        }
                        if before.contains(x) {
                            let j = choose|j: int| 0 <= j < before.len() && before[j] == x;
                            assert(views(set@)[j] == x);
                        }
                        if x == h@ && !before.contains(x) {
                            assert(views(set@)[before.len() as int] == x);
                        }
                    }
                    assert forall|x: Seq<char>| #[trigger] views(headings@).take(i + 1).contains(x) == (
                    views(headings@).take(i as int).contains(x) || x == h@) by {
                        let t = views(headings@).take(i as int);
                        if t.contains(x) {
                            let j = choose|j: int| 0 <= j < t.len() && t[j] == x;
                            assert(views(headings@).take(i + 1)[j] == x);
                        }
                        if x == h@ {
                            assert(views(headings@).take(i + 1)[i as int] == x);
                        }
                    }
                    assert forall|x: Seq<char>| #[trigger] views(set@).to_set().contains(x) == (base
                        + views(headings@).take(i + 1).to_set()).contains(x) by {
                        assert(before.to_set().contains(x) == before.contains(x));
                        assert(views(headings@).take(i as int).to_set().contains(x)
                            == views(headings@).take(i as int).contains(x));
                    }
                }
            }
            i += 1;
        }
        proof {
            assert(views(headings@).take(headings.len() as int) =~= views(headings@));
        }
        let ghost fin = views(set@).to_set();
        self.seen.insert(path, set);
        if let Some(t) = stamp {
            self.mtimes.insert(path, t);
        }
        assert(self@.0 =~= c.0.insert(path@, fin));
        assert(self@ == after_mark_seen(c, path@, views(headings@), stamp));
    }

    /// Refresh the recorded stamp of `path` (after the tools changed the
    /// file themselves), when one could be read.
    pub fn update_mtime(&mut self, path: &str, stamp: Option<u128>)
        requires
            old(self).wf(),
        ensures
            final(self).wf(),
            final(self)@ == after_update_mtime(old(self)@, path@, stamp),
    {
        if let Some(t) = stamp {
            self.mtimes.insert(path, t);
        }
    }

    fn validate(&mut self, path: &str, current: Option<u128>) -> (r: bool)
        requires
            old(self).wf(),
        ensures
            final(self).wf(),
            final(self)@ == after_validate(old(self)@, path@, current),
            r == is_valid(old(self)@, path@, current),
    {
        let ghost c = self@;
        if self.seen.get(path).is_none() {
            return false;
        }
        let stale = match self.mtimes.get(path) {
            Some(stored) => match current {
                Some(now) => now != *stored,
                None => false,
            },
            None => false,
        };
        if stale {
            let _ = self.seen.remove(path);
            let _ = self.mtimes.remove(path);
            assert(self@.0 =~= c.0.remove(path@));
            return false;
        }
        true
    }

    /// How much of `path` has been read, against its full heading list;
    /// `None` when nothing of it has been read, or it changed since
    /// (`current` is its modification time now, when it could be read).
    pub fn status(&mut self, path: &str, all_headings: &[String], current: Option<u128>) -> (r:
        Option<CoverageStatus>)
        requires
            old(self).wf(),
        ensures
            final(self).wf(),
            final(self)@ == after_validate(old(self)@, path@, current),
            match r {
                Some(st) => {
                    &&& is_valid(old(self)@, path@, current)
                    &&& views(st.unread@) == unread_of(views(all_headings@), old(self)@.0[path@])
                    &&& st.total_count == all_headings.len()
                    &&& st.read_count == all_headings.len() - st.unread.len()
                },
                None => !is_valid(old(self)@, path@, current),
            },
    {
        if !self.validate(path, current) {
            return None;
        }
        let seen = match self.seen.get(path) {
            Some(v) => v,
            None => {
                return None;
            },
        };
        let ghost set = self@.0[path@];
        assert(set == views(seen@).to_set());
        let mut unread: Vec<String> = Vec::new();
        let mut i: usize = 0;
        while i < all_headings.len()
            invariant
                i <= all_headings.len(),
                set == views(seen@).to_set(),
                views(unread@) == unread_of(views(all_headings@).take(i as int), set),
                unread.len() <= i,
            decreases all_headings.len() - i,
        {
            let h = &all_headings[i];
            let ghost before = views(unread@);
            proof {
                assert(views(all_headings@).take(i + 1).drop_last() =~= views(all_headings@).take(
                    i as int,
                ));
            }
            if !contains_string(seen, h.as_str()) {
                unread.push(h.clone());
                assert(views(unread@) =~= before.push(h@));
            }
            i += 1;
        }
        proof {
            assert(views(all_headings@).take(all_headings.len() as int) =~= views(all_headings@));
        }
        let total = all_headings.len();
        let read = total - unread.len();
        Some(CoverageStatus { read_count: read, total_count: total, unread })
    }

    /// A reminder of the sections of `path` not read yet, or `None` when
    /// all were read, or nothing was read, or the file changed since.
    pub fn unread_hint(&mut self, path: &str, all_headings: &[String], current: Option<u128>) -> (r:
        Option<String>)
        requires
            old(self).wf(),
        ensures
            final(self).wf(),
            final(self)@ == after_validate(old(self)@, path@, current),
            match r {
                Some(h) => {
                    &&& is_valid(old(self)@, path@, current)
                    &&& unread_of(views(all_headings@), old(self)@.0[path@]).len() > 0
                    &&& h@ == hint_text(unread_of(views(all_headings@), old(self)@.0[path@]))
                },
                None => !is_valid(old(self)@, path@, current) || unread_of(
                    views(all_headings@),
                    old(self)@.0[path@],
                ).len() == 0,
            },
    {
        let status = match self.status(path, all_headings, current) {
            Some(s) => s,
            None => {
                return None;
            },
        };
        let unread = status.unread;
        let n = unread.len();
        if n == 0 {
            return None;
        }
        let shown = if n > 5 {
            5
        } else {
            n
        };
        let mut out = decimal_string(n as u64);
        push_str(&mut out, " unread sections in this file: ");
        let preview = join_range(&unread, 0, shown, ", ");
        push_str(&mut out, preview.as_str());
        if n > 5 {
            push_str(&mut out, ", ... (");
            let more = decimal_string((n - 5) as u64);
            push_str(&mut out, more.as_str());
            push_str(&mut out, " more)");
        }
        proof {
            let u = views(unread@);
            assert(u.subrange(0, shown as int) =~= if n > 5 {
                u.take(5)
            } else {
                u
            });
        }
        Some(out)
    }
}

// ---------------------------------------------------------------------------
// Laws
// ---------------------------------------------------------------------------

proof fn lemma_unread_of(all: Seq<Seq<char>>, seen: Set<Seq<char>>)
    ensures
        forall|k: int|
            0 <= k < unread_of(all, seen).len() ==> !seen.contains(
                #[trigger] unread_of(all, seen)[k],
            ) && all.contains(unread_of(all, seen)[k]),
        (forall|k: int| 0 <= k < all.len() ==> seen.contains(#[trigger] all[k])) ==> unread_of(
            all,
            seen,
        ).len() == 0,
    decreases all.len(),
{
    if all.len() > 0 {
        let p = all.drop_last();
        lemma_unread_of(p, seen);
        let r = unread_of(p, seen);
        assert forall|k: int| 0 <= k < unread_of(all, seen).len() implies !seen.contains(
            #[trigger] unread_of(all, seen)[k],
        ) && all.contains(unread_of(all, seen)[k]) by {
            if k < r.len() {
                assert(unread_of(all, seen)[k] == r[k]);
                let j = choose|j: int| 0 <= j < p.len() && p[j] == r[k];
                assert(all[j] == p[j]);
            } else {
                assert(all[all.len() - 1] == all.last());
            }
        }
        if forall|k: int| 0 <= k < all.len() ==> seen.contains(#[trigger] all[k]) {
            assert forall|k: int| 0 <= k < p.len() implies seen.contains(#[trigger] p[k]) by {
                assert(p[k] == all[k]);
            }
            assert(seen.contains(all[all.len() - 1]));
        }
    }
}

/// Headings just marked as read are never reported unread: right after
/// `mark_seen`, checked against the stamp it recorded, the file's coverage
/// stands and none of those headings is among the unread ones.
pub proof fn law_marked_headings_are_read(
    c: CoverageView,
    path: Seq<char>,
    headings: Seq<Seq<char>>,
    stamp: Option<u128>,
    all: Seq<Seq<char>>,
)
    ensures
        is_valid(after_mark_seen(c, path, headings, stamp), path, stamp),
        forall|k: int|
            0 <= k < unread_of(all, after_mark_seen(c, path, headings, stamp).0[path]).len()
                ==> !headings.contains(
                #[trigger] unread_of(all, after_mark_seen(c, path, headings, stamp).0[path])[k],
            ),
{
    let c1 = after_mark_seen(c, path, headings, stamp);
    lemma_unread_of(all, c1.0[path]);
    assert forall|k: int| 0 <= k < unread_of(all, c1.0[path]).len() implies !headings.contains(
        #[trigger] unread_of(all, c1.0[path])[k],
    ) by {
        let x = unread_of(all, c1.0[path])[k];
        assert(!c1.0[path].contains(x));
        assert(headings.to_set().contains(x) == headings.contains(x));
    }
}

/// Once every heading of a file has been read, there is nothing unread
/// and no reminder.
pub proof fn law_all_read_leaves_nothing(all: Seq<Seq<char>>, seen: Set<Seq<char>>)
    requires
        forall|k: int| 0 <= k < all.len() ==> seen.contains(#[trigger] all[k]),
    ensures
        unread_of(all, seen).len() == 0,
{
    lemma_unread_of(all, seen);
}

/// A file whose stamp changed since its sections were read has no
/// coverage, and stays without it: what was read of it is forgotten.
pub proof fn law_changed_file_is_forgotten(
    c: CoverageView,
    path: Seq<char>,
    current: Option<u128>,
    later: Option<u128>,
)
    requires
        is_stale(c, path, current),
    ensures
        !is_valid(c, path, current),
        !is_valid(after_validate(c, path, current), path, later),
        c.0.dom().contains(path) ==> !after_validate(c, path, current).1.dom().contains(path),
{
}

/// Refreshing the stamp of a file that was read keeps its coverage valid
/// against that stamp, and keeps what was read.
pub proof fn law_refreshed_stamp_keeps_coverage(c: CoverageView, path: Seq<char>, t: u128)
    requires
        c.0.dom().contains(path),
    ensures
        is_valid(after_update_mtime(c, path, Some(t)), path, Some(t)),
        after_update_mtime(c, path, Some(t)).0 == c.0,
{
}

} // verus!
