//! A small map from string keys to values, kept as a list of distinct keys.
//! Its view is a `Map` from each key's characters to its value.
use vstd::prelude::*;

verus! {

/// The keys of a list of entries, as character sequences.
pub open spec fn keys_of<V>(s: Seq<(String, V)>) -> Seq<Seq<char>> {
    s.map_values(|e: (String, V)| e.0@)
}

/// The map that a list of entries with distinct keys stands for.
pub open spec fn map_of<V>(s: Seq<(String, V)>) -> Map<Seq<char>, V> {
    Map::new(|k: Seq<char>| keys_of(s).contains(k), |k: Seq<char>| s[keys_of(s).index_of(k)].1)
}

proof fn lemma_map_of_at<V>(s: Seq<(String, V)>, i: int)
    requires
        keys_of(s).no_duplicates(),
        0 <= i < s.len(),
    ensures
        map_of(s).dom().contains(s[i].0@),
        map_of(s)[s[i].0@] == s[i].1,
{
    let k = s[i].0@;
    assert(keys_of(s)[i] == k);
    let j = keys_of(s).index_of(k);
    assert(keys_of(s)[j] == k);
    assert(i == j);
}

proof fn lemma_map_of_set<V>(s: Seq<(String, V)>, i: int, e: (String, V))
    requires
        keys_of(s).no_duplicates(),
        0 <= i < s.len(),
        e.0@ == s[i].0@,
    ensures
        keys_of(s.update(i, e)) == keys_of(s),
        map_of(s.update(i, e)) == map_of(s).insert(e.0@, e.1),
{
    let t = s.update(i, e);
    assert(keys_of(t) =~= keys_of(s));
    assert(keys_of(s)[i] == e.0@);
    assert(map_of(t).dom() =~= map_of(s).insert(e.0@, e.1).dom());
    assert forall|k: Seq<char>| #[trigger] map_of(t).dom().contains(k) implies map_of(t)[k]
        == map_of(s).insert(e.0@, e.1)[k] by {
        let j = keys_of(t).index_of(k);
        let m = keys_of(s).index_of(k);
        assert(keys_of(t)[j] == k);
        assert(keys_of(s)[m] == k);
        if k == e.0@ {
            assert(keys_of(t)[i] == k);
        } else {
            assert(j != i);
        }
    }
    assert(map_of(t) =~= map_of(s).insert(e.0@, e.1));
}

proof fn lemma_map_of_push<V>(s: Seq<(String, V)>, e: (String, V))
    requires
        keys_of(s).no_duplicates(),
        !keys_of(s).contains(e.0@),
    ensures
        keys_of(s.push(e)).no_duplicates(),
        map_of(s.push(e)) == map_of(s).insert(e.0@, e.1),
{
    let t = s.push(e);
    assert(keys_of(t) =~= keys_of(s).push(e.0@));
    assert forall|a: int, b: int|
        0 <= a < keys_of(t).len() && 0 <= b < keys_of(t).len() && a != b implies keys_of(t)[a]
        != keys_of(t)[b] by {
        if a < s.len() && b < s.len() {
        } else if a < s.len() {
            assert(keys_of(s)[a] == keys_of(t)[a]);
        } else {
            assert(keys_of(s)[b] == keys_of(t)[b]);
        }
    }
    assert forall|k: Seq<char>| #[trigger]
        keys_of(t).contains(k) == (keys_of(s).contains(k) || k == e.0@) by {
        if keys_of(s).contains(k) {
            let j = keys_of(s).index_of(k);
            assert(keys_of(t)[j] == k);
        }
        if k == e.0@ {
            assert(keys_of(t)[s.len() as int] == k);
        }
    }
    assert forall|k: Seq<char>| #[trigger] map_of(t).dom().contains(k) implies map_of(t)[k]
        == map_of(s).insert(e.0@, e.1)[k] by {
        let j = keys_of(t).index_of(k);
        assert(keys_of(t)[j] == k);
        if k == e.0@ {
            assert(j == s.len());
        } else {
            let m = keys_of(s).index_of(k);
            assert(keys_of(s)[m] == k);
            assert(keys_of(t)[m] == k);
            assert(j == m);
        }
    }
    assert(map_of(t) =~= map_of(s).insert(e.0@, e.1));
}

proof fn lemma_map_of_remove<V>(s: Seq<(String, V)>, i: int)
    requires
        keys_of(s).no_duplicates(),
        0 <= i < s.len(),
    ensures
        keys_of(s.remove(i)).no_duplicates(),
        map_of(s.remove(i)) == map_of(s).remove(s[i].0@),
{
    let t = s.remove(i);
    let k0 = s[i].0@;
    assert(keys_of(t) =~= keys_of(s).remove(i));
    assert forall|a: int, b: int|
        0 <= a < keys_of(t).len() && 0 <= b < keys_of(t).len() && a != b implies keys_of(t)[a]
        != keys_of(t)[b] by {
        let a2 = if a < i { a } else { a + 1 };
        let b2 = if b < i { b } else { b + 1 };
        assert(keys_of(t)[a] == keys_of(s)[a2]);
        assert(keys_of(t)[b] == keys_of(s)[b2]);
    }
    assert forall|k: Seq<char>| #[trigger]
        keys_of(t).contains(k) == (keys_of(s).contains(k) && k != k0) by {
        if keys_of(t).contains(k) {
            let j = keys_of(t).index_of(k);
            assert(keys_of(t)[j] == k);
            let j2 = if j < i { j } else { j + 1 };
            assert(keys_of(s)[j2] == k);
            assert(keys_of(s)[i] == k0);
            assert(j2 != i);
        }
        if keys_of(s).contains(k) && k != k0 {
            let j = keys_of(s).index_of(k);
            assert(keys_of(s)[j] == k);
            assert(j != i);
            let j2 = if j < i { j } else { j - 1 };
            assert(keys_of(t)[j2] == k);
        }
    }
    assert forall|k: Seq<char>| #[trigger] map_of(t).dom().contains(k) implies map_of(t)[k]
        == map_of(s).remove(k0)[k] by {
        assert(keys_of(t).contains(k));
        let j = keys_of(t).index_of(k);
        assert(keys_of(t)[j] == k);
        let j2 = if j < i { j } else { j + 1 };
        assert(t[j] == s[j2]);
        lemma_map_of_at(s, j2);
    }
    assert(map_of(t) =~= map_of(s).remove(k0));
}

/// A map from string keys to values.
pub struct KeyedList<V> {
    entries: Vec<(String, V)>,
}

impl<V> View for KeyedList<V> {
    type V = Map<Seq<char>, V>;

    closed spec fn view(&self) -> Map<Seq<char>, V> {
        map_of(self.entries@)
    }
}

impl<V> KeyedList<V> {
    /// No key occurs twice.
    pub closed spec fn wf(&self) -> bool {
        keys_of(self.entries@).no_duplicates()
    }

    /// An empty map.
    pub fn new() -> (r: Self)
        ensures
            r.wf(),
            r@ == Map::<Seq<char>, V>::empty(),
    {
        let r = KeyedList { entries: Vec::new() };
        assert(r@ =~= Map::<Seq<char>, V>::empty());
        r
    }

    fn position(&self, key: &str) -> (r: Option<usize>)
        requires
            self.wf(),
        ensures
            match r {
                Some(i) => i < self.entries.len() && self.entries@[i as int].0@ == key@,
                None => !self@.dom().contains(key@),
            },
    {
        let mut i: usize = 0;
        while i < self.entries.len()
            invariant
                i <= self.entries.len(),
                forall|j: int| 0 <= j < i ==> self.entries@[j].0@ != key@,
            decreases self.entries.len() - i,
        {
            if crate::util::strings::str_eq(self.entries[i].0.as_str(), key) {
                return Some(i);
            }
            i += 1;
        }
        proof {
            if keys_of(self.entries@).contains(key@) {
                let j = keys_of(self.entries@).index_of(key@);
                assert(self.entries@[j].0@ == key@);
            }
        }
        None
    }

    /// The value stored under `key`.
    pub fn get(&self, key: &str) -> (r: Option<&V>)
        requires
            self.wf(),
        ensures
            match r {
                Some(v) => self@.dom().contains(key@) && *v == self@[key@],
                None => !self@.dom().contains(key@),
            },
    {
        match self.position(key) {
            Some(i) => {
                proof {
                    lemma_map_of_at(self.entries@, i as int);
                }
                Some(&self.entries[i].1)
            },
            None => None,
        }
    }

    /// Store `value` under `key`, replacing what was there.
    pub fn insert(&mut self, key: &str, value: V)
        requires
            old(self).wf(),
        ensures
            final(self).wf(),
            final(self)@ == old(self)@.insert(key@, value),
    {
        let e = (key.to_owned(), value);
        match self.position(key) {
            Some(i) => {
                proof {
                    lemma_map_of_set(self.entries@, i as int, e);
                }
                self.entries.set(i, e);
            },
            None => {
                proof {
                    if keys_of(self.entries@).contains(key@) {
                        let j = keys_of(self.entries@).index_of(key@);
                        assert(keys_of(self.entries@)[j] == key@);
                    }
                    lemma_map_of_push(self.entries@, e);
                }
                self.entries.push(e);
            },
        }
    }

    /// Take the value stored under `key` out of the map.
    pub fn remove(&mut self, key: &str) -> (r: Option<V>)
        requires
            old(self).wf(),
        ensures
            final(self).wf(),
            final(self)@ == old(self)@.remove(key@),
            match r {
                Some(v) => old(self)@.dom().contains(key@) && v == old(self)@[key@],
                None => !old(self)@.dom().contains(key@),
            },
    {
        match self.position(key) {
            Some(i) => {
                proof {
                    lemma_map_of_at(self.entries@, i as int);
                    lemma_map_of_remove(self.entries@, i as int);
                }
                let e = self.entries.remove(i);
                Some(e.1)
            },
            None => {
                proof {
                    assert(old(self)@.remove(key@) =~= old(self)@);
                }
                None
            },
        }
    }
}

} // verus!
