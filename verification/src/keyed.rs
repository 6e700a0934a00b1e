//! A map from string keys to values, kept as a list of pairs with distinct
//! keys; its view is a `Map` from the keys' characters.
use vstd::prelude::*;

verus! {

/// The map that a list of pairs with distinct keys stands for.
pub open spec fn map_of<V>(s: Seq<(String, V)>) -> Map<Seq<char>, V>
    decreases s.len(),
{
    if s.len() == 0 {
        Map::empty()
    } else {
        map_of(s.drop_last()).insert(s.last().0@, s.last().1)
    }
}

pub open spec fn keys_distinct<V>(s: Seq<(String, V)>) -> bool {
    forall|i: int, j: int| 0 <= i < j < s.len() ==> #[trigger] s[i].0@ != #[trigger] s[j].0@
}

pub proof fn lemma_map_of_dom<V>(s: Seq<(String, V)>, k: Seq<char>)
    ensures
        map_of(s).dom().contains(k) <==> exists|i: int| 0 <= i < s.len() && #[trigger] s[i].0@ == k,
    decreases s.len(),
{
    if s.len() > 0 {
        let t = s.drop_last();
        lemma_map_of_dom(t, k);
        if map_of(s).dom().contains(k) {
            if k != s.last().0@ {
                let i = choose|i: int| 0 <= i < t.len() && #[trigger] t[i].0@ == k;
                assert(s[i] == t[i]);
            } else {
                assert(s[s.len() - 1].0@ == k);
            }
        }
        if exists|i: int| 0 <= i < s.len() && #[trigger] s[i].0@ == k {
            let i = choose|i: int| 0 <= i < s.len() && #[trigger] s[i].0@ == k;
            if i < s.len() - 1 {
                assert(t[i] == s[i]);
            }
        }
    }
}

pub proof fn lemma_map_of_index<V>(s: Seq<(String, V)>, i: int)
    requires
        keys_distinct(s),
        0 <= i < s.len(),
    ensures
        map_of(s).dom().contains(s[i].0@),
        map_of(s)[s[i].0@] == s[i].1,
    decreases s.len(),
{
    let t = s.drop_last();
    if i < s.len() - 1 {
        assert(t[i] == s[i]);
        assert(keys_distinct(t)) by {
            assert forall|a: int, b: int| 0 <= a < b < t.len() implies #[trigger] t[a].0@
                != #[trigger] t[b].0@ by {
                assert(t[a] == s[a] && t[b] == s[b]);
            }
        }
        lemma_map_of_index(t, i);
        assert(s[i].0@ != s[s.len() - 1].0@);
    }
}

proof fn lemma_distinct_prefix<V>(s: Seq<(String, V)>)
    requires
        keys_distinct(s),
        s.len() > 0,
    ensures
        keys_distinct(s.drop_last()),
{
    let t = s.drop_last();
    assert forall|a: int, b: int| 0 <= a < b < t.len() implies #[trigger] t[a].0@
        != #[trigger] t[b].0@ by {
        assert(t[a] == s[a] && t[b] == s[b]);
    }
}

pub proof fn lemma_map_of_update<V>(s: Seq<(String, V)>, i: int, e: (String, V))
    requires
        keys_distinct(s),
        0 <= i < s.len(),
        e.0@ == s[i].0@,
    ensures
        keys_distinct(s.update(i, e)),
        map_of(s.update(i, e)) == map_of(s).insert(e.0@, e.1),
    decreases s.len(),
{
    let u = s.update(i, e);
    assert forall|a: int, b: int| 0 <= a < b < u.len() implies #[trigger] u[a].0@
        != #[trigger] u[b].0@ by {
        assert(s[a].0@ != s[b].0@);
    }
    lemma_distinct_prefix(s);
    if i == s.len() - 1 {
        assert(u.drop_last() =~= s.drop_last());
        assert(map_of(u) =~= map_of(s).insert(e.0@, e.1));
    } else {
        let t = s.drop_last();
        assert(u.drop_last() =~= t.update(i, e));
        assert(t[i] == s[i]);
        lemma_map_of_update(t, i, e);
        assert(e.0@ != s.last().0@);
        assert(map_of(u) =~= map_of(s).insert(e.0@, e.1));
    }
}

pub proof fn lemma_map_of_remove<V>(s: Seq<(String, V)>, i: int)
    requires
        keys_distinct(s),
        0 <= i < s.len(),
    ensures
        keys_distinct(s.remove(i)),
        map_of(s.remove(i)) == map_of(s).remove(s[i].0@),
    decreases s.len(),
{
    let r = s.remove(i);
    assert forall|a: int, b: int| 0 <= a < b < r.len() implies #[trigger] r[a].0@
        != #[trigger] r[b].0@ by {
        let a2 = if a < i {
            a
        } else {
            a + 1
        };
        let b2 = if b < i {
            b
        } else {
            b + 1
        };
        assert(r[a] == s[a2] && r[b] == s[b2]);
    }
    lemma_distinct_prefix(s);
    let t = s.drop_last();
    if i == s.len() - 1 {
        assert(r =~= t);
        lemma_map_of_dom(t, s[i].0@);
        if map_of(t).dom().contains(s[i].0@) {
            let j = choose|j: int| 0 <= j < t.len() && #[trigger] t[j].0@ == s[i].0@;
            assert(t[j] == s[j]);
        }
        assert(map_of(r) =~= map_of(s).remove(s[i].0@));
    } else {
        assert(r.drop_last() =~= t.remove(i));
        assert(r.last() == s.last());
        assert(t[i] == s[i]);
        lemma_map_of_remove(t, i);
        assert(s[i].0@ != s.last().0@);
        assert(map_of(r) =~= map_of(s).remove(s[i].0@));
    }
}

/// A map with string keys.
pub struct KeyedVec<V> {
    entries: Vec<(String, V)>,
}

impl<V> KeyedVec<V> {
    /// The keys are distinct.
    pub closed spec fn wf(&self) -> bool {
        keys_distinct(self.entries@)
    }

    pub closed spec fn view(&self) -> Map<Seq<char>, V> {
        map_of(self.entries@)
    }

    /// The pairs in insertion order.
    pub closed spec fn pairs(&self) -> Seq<(String, V)> {
        self.entries@
    }

    pub proof fn lemma_pairs(&self)
        requires
            self.wf(),
        ensures
            keys_distinct(self.pairs()),
            self.view() == map_of(self.pairs()),
            forall|k: Seq<char>|
                self.view().dom().contains(k) <==> exists|i: int|
                    0 <= i < self.pairs().len() && #[trigger] self.pairs()[i].0@ == k,
            forall|i: int|
                0 <= i < self.pairs().len() ==> #[trigger] self.view()[self.pairs()[i].0@]
                    == self.pairs()[i].1 && self.view().dom().contains(self.pairs()[i].0@),
    {
        assert forall|k: Seq<char>|
            self.view().dom().contains(k) <==> exists|i: int|
                0 <= i < self.pairs().len() && #[trigger] self.pairs()[i].0@ == k by {
            lemma_map_of_dom(self.entries@, k);
            if self.view().dom().contains(k) {
                let i = choose|i: int| 0 <= i < self.entries@.len() && #[trigger] self.entries@[i].0@ == k;
                assert(self.pairs()[i].0@ == k);
            }
        }
        assert forall|i: int| 0 <= i < self.pairs().len() implies #[trigger] self.view()[self.pairs()[i].0@]
            == self.pairs()[i].1 && self.view().dom().contains(self.pairs()[i].0@) by {
            lemma_map_of_index(self.entries@, i);
        }
    }

    pub fn new() -> (m: Self)
        ensures
            m.wf(),
            m@ == Map::<Seq<char>, V>::empty(),
            m.pairs().len() == 0,
    {
        KeyedVec { entries: Vec::new() }
    }

    pub fn len(&self) -> (n: usize)
        ensures
            n == self.pairs().len(),
    {
        self.entries.len()
    }

    /// Position of `key`.
    pub fn find(&self, key: &str) -> (r: Option<usize>)
        requires
            self.wf(),
        ensures
            match r {
                Some(i) => i < self.pairs().len() && self.pairs()[i as int].0@ == key@
                    && self@.dom().contains(key@) && self@[key@] == self.pairs()[i as int].1,
                None => !self@.dom().contains(key@),
            },
    {
        let mut i: usize = 0;
        while i < self.entries.len()
            invariant
                keys_distinct(self.entries@),
                i <= self.entries@.len(),
                forall|j: int| 0 <= j < i ==> #[trigger] self.entries@[j].0@ != key@,
            decreases self.entries@.len() - i,
        {
            if crate::text::chars_eq_str(
                crate::text::chars_of(self.entries[i].0.as_str()).as_slice(),
                key,
            ) {
                proof {
                    lemma_map_of_index(self.entries@, i as int);
                }
                return Some(i);
            }
            i += 1;
        }
        proof {
            lemma_map_of_dom(self.entries@, key@);
        }
        None
    }

    /// Value at position `i`.
    pub fn value_at(&self, i: usize) -> (v: &V)
        requires
            i < self.pairs().len(),
        ensures
            *v == self.pairs()[i as int].1,
    {
        &self.entries[i].1
    }

    /// The value stored under `key`.
    pub fn get(&self, key: &str) -> (r: Option<&V>)
        requires
            self.wf(),
        ensures
            match r {
                Some(v) => self@.dom().contains(key@) && *v == self@[key@],
                None => !self@.dom().contains(key@),
            },
    {
        match self.find(key) {
            Some(i) => Some(&self.entries[i].1),
            None => None,
        }
    }

    /// Stores `value` under `key`, replacing what was there (keeping its position).
    pub fn insert(&mut self, key: String, value: V)
        requires
            old(self).wf(),
        ensures
            final(self).wf(),
            final(self)@ == old(self)@.insert(key@, value),
            old(self)@.dom().contains(key@) ==> final(self).pairs().len() == old(self).pairs().len(),
            !old(self)@.dom().contains(key@) ==> final(self).pairs() == old(self).pairs().push(
                (key, value),
            ),
    {
        match self.find(key.as_str()) {
            Some(i) => {
                proof {
                    lemma_map_of_update(self.entries@, i as int, (key, value));
                }
                self.entries.set(i, (key, value));
            },
            None => {
                proof {
                    assert forall|a: int, b: int|
                        0 <= a < b < self.entries@.len() + 1 implies #[trigger] self.entries@.push(
                        (key, value),
                    )[a].0@ != #[trigger] self.entries@.push((key, value))[b].0@ by {
                        if b == self.entries@.len() {
                            lemma_map_of_dom(self.entries@, key@);
                            assert(self.entries@.push((key, value))[a] == self.entries@[a]);
                        }
                    }
                    assert(self.entries@.push((key, value)).drop_last() =~= self.entries@);
                }
                self.entries.push((key, value));
            },
        }
    }

    /// Replaces the value at position `i`.
    pub fn set_value(&mut self, i: usize, value: V)
        requires
            old(self).wf(),
            i < old(self).pairs().len(),
        ensures
            final(self).wf(),
            final(self)@ == old(self)@.insert(old(self).pairs()[i as int].0@, value),
            final(self).pairs().len() == old(self).pairs().len(),
            forall|j: int|
                0 <= j < old(self).pairs().len() ==> (#[trigger] final(self).pairs()[j]).0@ == old(self).pairs()[j].0@,
            final(self).pairs()[i as int].1 == value,
            forall|j: int|
                0 <= j < old(self).pairs().len() && j != i ==> #[trigger] final(self).pairs()[j]
                    == old(self).pairs()[j],
    {
        let (k, _old) = self.entries.remove(i);
        proof {
            assert(k == old(self).entries@[i as int].0);
        }
        self.entries.insert(i, (k, value));
        proof {
            let e = (k, value);
            assert(self.entries@ =~= old(self).entries@.update(i as int, e));
            lemma_map_of_update(old(self).entries@, i as int, e);
        }
    }

    /// Takes out the value at position `i`, keeping the key; `put_back` must follow.
    pub fn remove_at(&mut self, i: usize) -> (r: (String, V))
        requires
            old(self).wf(),
            i < old(self).pairs().len(),
        ensures
            final(self).wf(),
            r == old(self).pairs()[i as int],
            final(self).pairs() == old(self).pairs().remove(i as int),
            final(self)@ == old(self)@.remove(r.0@),
    {
        proof {
            lemma_map_of_remove(self.entries@, i as int);
        }
        self.entries.remove(i)
    }

    /// Puts a new key back at position `i` (after `remove_at`).
    pub fn insert_at(&mut self, i: usize, key: String, value: V)
        requires
            old(self).wf(),
            i <= old(self).pairs().len(),
            !old(self)@.dom().contains(key@),
        ensures
            final(self).wf(),
            final(self)@ == old(self)@.insert(key@, value),
            final(self).pairs() == old(self).pairs().insert(i as int, (key, value)),
    {
        let ghost s = self.entries@;
        let ghost e = (key, value);
        proof {
            lemma_map_of_dom(s, key@);
        }
        self.entries.insert(i, (key, value));
        proof {
            let t = s.insert(i as int, e);
            s.insert_ensures(i as int, e);
            assert(self.entries@ == t);
            assert forall|a: int, b: int| 0 <= a < b < t.len() implies #[trigger] t[a].0@
                != #[trigger] t[b].0@ by {
                let a2 = if a < i { a } else { a - 1 };
                let b2 = if b < i { b } else { b - 1 };
                if a != i && b != i {
                    assert(t[a] == s[a2] && t[b] == s[b2]);
                } else if a == i {
                    assert(t[b] == s[b2]);
                } else {
                    assert(t[a] == s[a2]);
                }
            }
            // the same pairs with the new one moved to the end
            let u = s.push(e);
            assert forall|a: int, b: int| 0 <= a < b < u.len() implies #[trigger] u[a].0@
                != #[trigger] u[b].0@ by {
                if b == s.len() {
                    assert(u[a] == s[a]);
                }
            }
            assert(u.drop_last() =~= s);
            assert forall|k: Seq<char>| #[trigger] map_of(t).dom().contains(k) == map_of(u).dom().contains(k) by {
                lemma_map_of_dom(t, k);
                lemma_map_of_dom(u, k);
                if exists|j: int| 0 <= j < t.len() && #[trigger] t[j].0@ == k {
                    let j = choose|j: int| 0 <= j < t.len() && #[trigger] t[j].0@ == k;
                    if j < i {
                        assert(u[j] == t[j]);
                    } else if j == i {
                        assert(u[s.len() as int] == t[j]);
                    } else {
                        assert(u[j - 1] == t[j]);
                    }
                }
                if exists|j: int| 0 <= j < u.len() && #[trigger] u[j].0@ == k {
                    let j = choose|j: int| 0 <= j < u.len() && #[trigger] u[j].0@ == k;
                    if j == s.len() {
                        assert(t[i as int] == u[j]);
                    } else if j < i {
                        assert(t[j] == u[j]);
                    } else {
                        assert(t[j + 1] == u[j]);
                    }
                }
            }
            assert forall|k: Seq<char>| #[trigger] map_of(t).dom().contains(k) implies map_of(t)[k]
                == map_of(u)[k] by {
                lemma_map_of_dom(t, k);
                let j = choose|j: int| 0 <= j < t.len() && #[trigger] t[j].0@ == k;
                lemma_map_of_index(t, j);
                if j < i {
                    assert(u[j] == t[j]);
                    lemma_map_of_index(u, j);
                } else if j == i {
                    assert(u[s.len() as int] == t[j]);
                    lemma_map_of_index(u, s.len() as int);
                } else {
                    assert(u[j - 1] == t[j]);
                    lemma_map_of_index(u, j - 1);
                }
            }
            assert(map_of(t) =~= map_of(u));
        }
    }

    /// Removes `key`, if present.
    pub fn remove(&mut self, key: &str) -> (r: Option<V>)
        requires
            old(self).wf(),
        ensures
            final(self).wf(),
            final(self)@ == old(self)@.remove(key@),
            match r {
                Some(v) => old(self)@.dom().contains(key@) && v == old(self)@[key@],
                None => !old(self)@.dom().contains(key@),
            },
    {
        match self.find(key) {
            Some(i) => {
                let (_k, v) = self.remove_at(i);
                Some(v)
            },
            None => {
                assert(old(self)@.remove(key@) =~= old(self)@);
                None
            },
        }
    }

    /// Removes everything.
    pub fn clear(&mut self)
        ensures
            final(self).wf(),
            final(self)@ == Map::<Seq<char>, V>::empty(),
            final(self).pairs().len() == 0,
    {
        self.entries.clear();
    }
}

} // verus!
