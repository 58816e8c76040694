//! A string-keyed map with a unique entry per key.

use vstd::prelude::*;

verus! {

/// The map that a list of entries denotes when they are inserted in order.
pub open spec fn entries_map(s: Seq<(String, String)>) -> Map<Seq<char>, Seq<char>>
    decreases s.len(),
{
    if s.len() == 0 {
        Map::empty()
    } else {
        entries_map(s.drop_last()).insert(s.last().0@, s.last().1@)
    }
}

/// No key occurs twice among the entries.
pub open spec fn keys_distinct(s: Seq<(String, String)>) -> bool {
    forall|i: int, j: int| 0 <= i < j < s.len() ==> (#[trigger] s[i]).0@ != (#[trigger] s[j]).0@
}

/// A key is in the map exactly when some entry has it, and with distinct keys
/// its value is that entry's value.
pub proof fn lemma_entries_map(s: Seq<(String, String)>)
    ensures
        forall|k: Seq<char>|
            #[trigger] entries_map(s).contains_key(k) <==> exists|i: int|
                0 <= i < s.len() && (#[trigger] s[i]).0@ == k,
        keys_distinct(s) ==> forall|i: int|
            0 <= i < s.len() ==> #[trigger] entries_map(s)[s[i].0@] == s[i].1@,
    decreases s.len(),
{
    if s.len() > 0 {
        let t = s.drop_last();
        lemma_entries_map(t);
        assert forall|k: Seq<char>|
            #[trigger] entries_map(s).contains_key(k) <==> exists|i: int|
                0 <= i < s.len() && (#[trigger] s[i]).0@ == k by {
            if entries_map(s).contains_key(k) && k != s.last().0@ {
                assert(entries_map(t).contains_key(k));
                let i = choose|i: int| 0 <= i < t.len() && (#[trigger] t[i]).0@ == k;
                assert(s[i] == t[i]);
            }
            if exists|i: int| 0 <= i < s.len() && (#[trigger] s[i]).0@ == k {
                let i = choose|i: int| 0 <= i < s.len() && (#[trigger] s[i]).0@ == k;
                if i < s.len() - 1 {
                    assert(t[i] == s[i]);
                    assert(entries_map(t).contains_key(k));
                }
            }
        }
        if keys_distinct(s) {
            assert(keys_distinct(t));
            assert forall|i: int| 0 <= i < s.len() implies #[trigger] entries_map(s)[s[i].0@]
                == s[i].1@ by {
                if i < s.len() - 1 {
                    assert(t[i] == s[i]);
                    assert(s[i].0@ != s[s.len() - 1].0@);
                    assert(entries_map(t)[t[i].0@] == t[i].1@);
                }
            }
        }
    }
}

/// Replacing the value of an existing key changes the map as an insert does.
pub proof fn lemma_entries_map_update(s: Seq<(String, String)>, j: int, e: (String, String))
    requires
        0 <= j < s.len(),
        s[j].0@ == e.0@,
        keys_distinct(s),
    ensures
        entries_map(s.update(j, e)) == entries_map(s).insert(e.0@, e.1@),
        keys_distinct(s.update(j, e)),
    decreases s.len(),
{
    let u = s.update(j, e);
    if j == s.len() - 1 {
        assert(u.drop_last() =~= s.drop_last());
        assert(entries_map(u) =~= entries_map(s).insert(e.0@, e.1@));
    } else {
        let t = s.drop_last();
        assert(keys_distinct(t));
        lemma_entries_map_update(t, j, e);
        assert(u.drop_last() =~= t.update(j, e));
        assert(s.last().0@ != s[j].0@);
        assert(entries_map(u) =~= entries_map(s).insert(e.0@, e.1@));
    }
    assert forall|a: int, b: int| 0 <= a < b < u.len() implies (#[trigger] u[a]).0@ != (
    #[trigger] u[b]).0@ by {
        assert(u[a].0@ == s[a].0@);
        assert(u[b].0@ == s[b].0@);
    }
}

/// A map from strings to strings, one entry per key.
pub struct ConfMap {
    entries: Vec<(String, String)>,
}

impl View for ConfMap {
    type V = Map<Seq<char>, Seq<char>>;

    closed spec fn view(&self) -> Map<Seq<char>, Seq<char>> {
        entries_map(self.entries@)
    }
}

impl ConfMap {
    #[verifier::type_invariant]
    closed spec fn wf(self) -> bool {
        keys_distinct(self.entries@)
    }

    /// The empty map.
    pub fn new() -> (m: ConfMap)
        ensures
            m@ == Map::<Seq<char>, Seq<char>>::empty(),
    {
        ConfMap { entries: Vec::new() }
    }

    /// The position of the entry with key `key`, if any.
    fn position(&self, key: &String) -> (r: Option<usize>)
        ensures
            r matches Some(j) ==> j < self.entries@.len() && self.entries@[j as int].0@ == key@,
            r is None ==> forall|i: int|
                0 <= i < self.entries@.len() ==> (#[trigger] self.entries@[i]).0@ != key@,
    {
        let mut i: usize = 0;
        while i < self.entries.len()
            invariant
                i <= self.entries@.len(),
                forall|k: int| 0 <= k < i ==> (#[trigger] self.entries@[k]).0@ != key@,
            decreases self.entries@.len() - i,
        {
            if self.entries[i].0 == *key {
                return Some(i);
            }
            i = i + 1;
        }
        None
    }

    /// Sets the value of `key` to `value`, replacing an earlier value.
    pub fn insert(&mut self, key: String, value: String)
        ensures
            final(self)@ == old(self)@.insert(key@, value@),
    {
        proof {
            use_type_invariant(&*self);
        }
        match self.position(&key) {
            Some(j) => {
                proof {
                    lemma_entries_map_update(self.entries@, j as int, (key, value));
                }
                let ghost k = key@;
                let ghost v = value@;
                let mut entries: Vec<(String, String)> = Vec::new();
                std::mem::swap(&mut entries, &mut self.entries);
                entries.set(j, (key, value));
                self.entries = entries;
                assert(self@ == old(self)@.insert(k, v));
            },
            None => {
                let ghost before = self.entries@;
                let ghost k = key@;
                let ghost v = value@;
                let mut entries: Vec<(String, String)> = Vec::new();
                std::mem::swap(&mut entries, &mut self.entries);
                entries.push((key, value));
                assert(entries@.drop_last() =~= before);
                assert(keys_distinct(entries@)) by {
                    assert forall|a: int, b: int| 0 <= a < b < entries@.len() implies (
                    #[trigger] entries@[a]).0@ != (#[trigger] entries@[b]).0@ by {
                        if b == entries@.len() - 1 {
                            assert(entries@[a] == before[a]);
                        } else {
                            assert(entries@[a] == before[a]);
                            assert(entries@[b] == before[b]);
                        }
                    }
                }
                self.entries = entries;
                assert(self@ == old(self)@.insert(k, v));
            },
        }
    }

    /// The value of `key`, if the map has it.
    pub fn get(&self, key: &str) -> (r: Option<String>)
        ensures
            r is Some == self@.contains_key(key@),
            r matches Some(s) ==> s@ == self@[key@],
    {
        proof {
            use_type_invariant(&*self);
            lemma_entries_map(self.entries@);
        }
        let k = String::from_str(key);
        match self.position(&k) {
            Some(j) => {
                assert(self.entries@[j as int].0@ == key@);
                Some(self.entries[j].1.clone())
            },
            None => {
                assert(!self@.contains_key(key@));
                None
            },
        }
    }

    /// The number of keys.
    pub fn len(&self) -> (n: usize)
        ensures
            n == self@.len(),
    {
        proof {
            use_type_invariant(&*self);
            lemma_entries_map_len(self.entries@);
        }
        self.entries.len()
    }
}

/// With distinct keys, the map has one key per entry.
pub proof fn lemma_entries_map_len(s: Seq<(String, String)>)
    requires
        keys_distinct(s),
    ensures
        entries_map(s).len() == s.len(),
        entries_map(s).dom().finite(),
    decreases s.len(),
{
    if s.len() > 0 {
        let t = s.drop_last();
        assert(keys_distinct(t));
        lemma_entries_map_len(t);
        lemma_entries_map(t);
        if entries_map(t).contains_key(s.last().0@) {
            let i = choose|i: int| 0 <= i < t.len() && (#[trigger] t[i]).0@ == s.last().0@;
            assert(s[i] == t[i]);
        }
    }
}

} // verus!
