//! A map from strings to values, held as a list of entries in which no key
//! occurs twice.
//!
//! Node identities and log keys are strings. The map is meant for the few
//! dozen keys that a cluster has, so a lookup walks the list.

use vstd::prelude::*;

verus! {

/// No two entries of `s` have the same key.
pub open spec fn distinct_keys<V>(s: Seq<(String, V)>) -> bool {
    forall|i: int, j: int| 0 <= i < j < s.len() ==> (#[trigger] s[i]).0@ != (#[trigger] s[j]).0@
}

/// The map that a list of entries stands for. Where a key occurs more than
/// once, the entry nearest the end of the list counts.
pub open spec fn entries_map<V>(s: Seq<(String, V)>) -> Map<Seq<char>, V>
    decreases s.len(),
{
    if s.len() == 0 {
        Map::empty()
    } else {
        entries_map(s.drop_last()).insert(s.last().0@, s.last().1)
    }
}

/// The keys of the map are the keys of the entries, and the map is finite.
pub proof fn lemma_entries_map_dom<V>(s: Seq<(String, V)>)
    ensures
        entries_map(s).dom().finite(),
        forall|k: Seq<char>| #[trigger]
            entries_map(s).contains_key(k) <==> exists|i: int|
                0 <= i < s.len() && (#[trigger] s[i]).0@ == k,
    decreases s.len(),
{
    if s.len() > 0 {
        let t = s.drop_last();
        lemma_entries_map_dom(t);
        assert forall|k: Seq<char>| #[trigger]
            entries_map(s).contains_key(k) <==> exists|i: int|
                0 <= i < s.len() && (#[trigger] s[i]).0@ == k by {
            if entries_map(s).contains_key(k) {
                if k == s.last().0@ {
                    assert(s[s.len() - 1].0@ == k);
                } else {
                    assert(entries_map(t).contains_key(k));
                    let i = choose|i: int| 0 <= i < t.len() && (#[trigger] t[i]).0@ == k;
                    assert(s[i].0@ == k);
                }
            }
            if exists|i: int| 0 <= i < s.len() && (#[trigger] s[i]).0@ == k {
                let i = choose|i: int| 0 <= i < s.len() && (#[trigger] s[i]).0@ == k;
                if i < s.len() - 1 {
                    assert(t[i].0@ == k);
                }
            }
        }
    }
}

/// In a list without repeated keys every entry is what the map holds under
/// its key.
pub proof fn lemma_entries_map_at<V>(s: Seq<(String, V)>, i: int)
    requires
        distinct_keys(s),
        0 <= i < s.len(),
    ensures
        entries_map(s).contains_key(s[i].0@),
        entries_map(s)[s[i].0@] == s[i].1,
    decreases s.len(),
{
    let t = s.drop_last();
    if i < s.len() - 1 {
        assert(t[i] == s[i]);
        lemma_entries_map_at(t, i);
        assert(s[i].0@ != s[s.len() - 1].0@);
    }
}

/// Adding an entry at the end of the list is an insertion into the map.
pub proof fn lemma_entries_map_push<V>(s: Seq<(String, V)>, e: (String, V))
    ensures
        entries_map(s.push(e)) == entries_map(s).insert(e.0@, e.1),
{
    assert(s.push(e).drop_last() =~= s);
}

/// Giving the entry at `i` a new value, under a key that reads the same, is
/// an insertion into the map.
pub proof fn lemma_entries_map_update<V>(s: Seq<(String, V)>, i: int, e: (String, V))
    requires
        distinct_keys(s),
        0 <= i < s.len(),
        e.0@ == s[i].0@,
    ensures
        distinct_keys(s.update(i, e)),
        entries_map(s.update(i, e)) =~= entries_map(s).insert(e.0@, e.1),
    decreases s.len(),
{
    let u = s.update(i, e);
    assert forall|a: int, b: int| 0 <= a < b < u.len() implies (#[trigger] u[a]).0@ != (
    #[trigger] u[b]).0@ by {
        assert(s[a].0@ != s[b].0@);
    }
    let t = s.drop_last();
    if i == s.len() - 1 {
        assert(u.drop_last() =~= t);
    } else {
        assert(u.drop_last() =~= t.update(i, e));
        assert(t[i] == s[i]);
        lemma_entries_map_update(t, i, e);
        assert(s[i].0@ != s[s.len() - 1].0@);
    }
}

/// Taking the entry at `i` out of the list removes its key from the map.
pub proof fn lemma_entries_map_remove<V>(s: Seq<(String, V)>, i: int)
    requires
        distinct_keys(s),
        0 <= i < s.len(),
    ensures
        distinct_keys(s.remove(i)),
        entries_map(s.remove(i)) =~= entries_map(s).remove(s[i].0@),
    decreases s.len(),
{
    let u = s.remove(i);
    assert forall|a: int, b: int| 0 <= a < b < u.len() implies (#[trigger] u[a]).0@ != (
    #[trigger] u[b]).0@ by {
        let a0 = if a < i { a } else { a + 1 };
        let b0 = if b < i { b } else { b + 1 };
        assert(s[a0].0@ != s[b0].0@);
    }
    let t = s.drop_last();
    if i == s.len() - 1 {
        assert(u =~= t);
        lemma_entries_map_dom(t);
        if entries_map(t).contains_key(s[i].0@) {
            let j = choose|j: int| 0 <= j < t.len() && (#[trigger] t[j]).0@ == s[i].0@;
            assert(s[j].0@ != s[i].0@);
        }
    } else {
        assert(u.drop_last() =~= t.remove(i));
        assert(u.last() == s.last());
        assert(t[i] == s[i]);
        lemma_entries_map_remove(t, i);
        assert(s[i].0@ != s[s.len() - 1].0@);
    }
}

/// A list without repeated keys has as many entries as its map has keys.
pub proof fn lemma_entries_map_len<V>(s: Seq<(String, V)>)
    requires
        distinct_keys(s),
    ensures
        entries_map(s).dom().finite(),
        entries_map(s).dom().len() == s.len(),
    decreases s.len(),
{
    lemma_entries_map_dom(s);
    if s.len() > 0 {
        let t = s.drop_last();
        lemma_entries_map_len(t);
        lemma_entries_map_dom(t);
        if entries_map(t).contains_key(s.last().0@) {
            let j = choose|j: int| 0 <= j < t.len() && (#[trigger] t[j]).0@ == s.last().0@;
            assert(s[j].0@ != s[s.len() - 1].0@);
        }
        assert(entries_map(s).dom() =~= entries_map(t).dom().insert(s.last().0@));
    } else {
        assert(entries_map(s).dom() =~= Set::empty());
    }
}

/// A map from strings to values.
#[derive(Debug)]
pub struct StrMap<V> {
    entries: Vec<(String, V)>,
}

impl<V> View for StrMap<V> {
    type V = Map<Seq<char>, V>;

    /// What the map holds under each key.
    open spec fn view(&self) -> Map<Seq<char>, V> {
        entries_map(self.entries())
    }
}

impl<V> StrMap<V> {
    #[verifier::type_invariant]
    spec fn no_key_twice(self) -> bool {
        distinct_keys(self.entries@)
    }

    /// The entries in the order in which the map keeps them.
    pub closed spec fn entries(&self) -> Seq<(String, V)> {
        self.entries@
    }

    /// The empty map.
    pub fn new() -> (m: Self)
        ensures
            m@ == Map::<Seq<char>, V>::empty(),
            m.entries() == Seq::<(String, V)>::empty(),
    {
        StrMap { entries: Vec::new() }
    }

    /// The entries as a list: no key occurs twice, and the list stands for
    /// the map.
    pub fn as_entries(&self) -> (list: &Vec<(String, V)>)
        ensures
            list@ == self.entries(),
            distinct_keys(list@),
            entries_map(list@) == self@,
    {
        proof {
            use_type_invariant(self);
        }
        &self.entries
    }

    /// Gives up the map for its entries.
    pub fn into_entries(self) -> (list: Vec<(String, V)>)
        ensures
            list@ == self.entries(),
            distinct_keys(list@),
            entries_map(list@) == self@,
    {
        proof {
            use_type_invariant(&self);
        }
        self.entries
    }

    /// The number of keys.
    pub fn len(&self) -> (n: usize)
        ensures
            n == self.entries().len(),
            n == self@.dom().len(),
    {
        proof {
            use_type_invariant(self);
            lemma_entries_map_len(self.entries@);
        }
        self.entries.len()
    }

    /// Where in the list of entries `key` stands, if it is a key of the map.
    pub fn position(&self, key: &String) -> (at: Option<usize>)
        ensures
            match at {
                Some(i) => {
                    &&& i < self.entries().len()
                    &&& self.entries()[i as int].0@ == key@
                    &&& self@.contains_key(key@)
                    &&& self@[key@] == self.entries()[i as int].1
                },
                None => !self@.contains_key(key@),
            },
    {
        proof {
            use_type_invariant(self);
            lemma_entries_map_dom(self.entries@);
        }
        let mut i: usize = 0;
        while i < self.entries.len()
            invariant
                i <= self.entries@.len(),
                distinct_keys(self.entries@),
                forall|j: int| 0 <= j < i ==> (#[trigger] self.entries@[j]).0@ != key@,
            decreases self.entries@.len() - i,
        {
            if self.entries[i].0 == *key {
                proof {
                    lemma_entries_map_at(self.entries@, i as int);
                }
                return Some(i);
            }
            i += 1;
        }
        None
    }

    /// Whether `key` is a key of the map.
    pub fn contains_key(&self, key: &String) -> (found: bool)
        ensures
            found == self@.contains_key(key@),
    {
        self.position(key).is_some()
    }

    /// The value under `key`, if there is one.
    pub fn get(&self, key: &String) -> (value: Option<&V>)
        ensures
            match value {
                Some(v) => self@.contains_key(key@) && *v == self@[key@],
                None => !self@.contains_key(key@),
            },
    {
        match self.position(key) {
            Some(i) => Some(&self.entries[i].1),
            None => None,
        }
    }

    /// Puts `value` under `key`, in place of what was there.
    pub fn insert(&mut self, key: String, value: V)
        ensures
            final(self)@ == old(self)@.insert(key@, value),
    {
        proof {
            use_type_invariant(&*self);
        }
        let at = self.position(&key);
        let mut entries: Vec<(String, V)> = Vec::new();
        core::mem::swap(&mut self.entries, &mut entries);
        match at {
            Some(i) => {
                proof {
                    lemma_entries_map_update(entries@, i as int, (key, value));
                }
                entries.set(i, (key, value));
            },
            None => {
                proof {
                    lemma_entries_map_dom(entries@);
                    lemma_entries_map_push(entries@, (key, value));
                    assert forall|a: int, b: int|
                        0 <= a < b < entries@.push((key, value)).len() implies (
                    #[trigger] entries@.push((key, value))[a]).0@ != (#[trigger] entries@.push(
                        (key, value),
                    )[b]).0@ by {
                        if b < entries@.len() {
                            assert(entries@[a].0@ != entries@[b].0@);
                        } else {
                            assert(entries@[a].0@ != key@);
                        }
                    }
                }
                entries.push((key, value));
            },
        }
        self.entries = entries;
    }

    /// Takes `key` and its value out of the map and hands the value back.
    pub fn remove(&mut self, key: &String) -> (value: Option<V>)
        ensures
            final(self)@ == old(self)@.remove(key@),
            match value {
                Some(v) => old(self)@.contains_key(key@) && v == old(self)@[key@],
                None => !old(self)@.contains_key(key@),
            },
    {
        proof {
            use_type_invariant(&*self);
        }
        match self.position(key) {
            Some(i) => {
                let mut entries: Vec<(String, V)> = Vec::new();
                core::mem::swap(&mut self.entries, &mut entries);
                proof {
                    lemma_entries_map_remove(entries@, i as int);
                }
                let entry = entries.remove(i);
                self.entries = entries;
                Some(entry.1)
            },
            None => {
                assert(self@.remove(key@) =~= self@);
                None
            },
        }
    }

    /// The map that `list` stands for: of two entries with one key the later
    /// counts.
    pub fn from_entries(list: Vec<(String, V)>) -> (m: Self)
        ensures
            m@ == entries_map(list@),
    {
        let mut m = StrMap::new();
        let mut list = list;
        let ghost all = list@;
        let mut rest: Vec<(String, V)> = Vec::new();
        // Entries are taken from the end, so they are put aside and then
        // inserted from the front.
        while list.len() > 0
            invariant
                list@.len() + rest@.len() == all.len(),
                forall|j: int| 0 <= j < list@.len() ==> list@[j] == all[j],
                forall|j: int|
                    0 <= j < rest@.len() ==> #[trigger] rest@[j] == all[all.len() - 1 - j],
            decreases list@.len(),
        {
            let entry = list.pop().unwrap();
            rest.push(entry);
        }
        while rest.len() > 0
            invariant
                rest@.len() <= all.len(),
                forall|j: int|
                    0 <= j < rest@.len() ==> #[trigger] rest@[j] == all[all.len() - 1 - j],
                m@ == entries_map(all.subrange(0, all.len() - rest@.len())),
            decreases rest@.len(),
        {
            let ghost done = all.len() - rest@.len();
            let entry = rest.pop().unwrap();
            proof {
                assert(entry == all[done]);
                assert(all.subrange(0, done + 1).drop_last() =~= all.subrange(0, done));
            }
            m.insert(entry.0, entry.1);
        }
        proof {
            assert(all.subrange(0, all.len() as int) =~= all);
        }
        m
    }
}

impl<V: Clone> Clone for StrMap<V> {
    /// A map with the same keys, each with a clone of its value.
    fn clone(&self) -> (res: Self)
        ensures
            res@.dom() == self@.dom(),
            forall|k: Seq<char>| #[trigger]
                res@.contains_key(k) ==> vstd::pervasive::cloned::<V>(self@[k], res@[k]),
    {
        proof {
            use_type_invariant(self);
            lemma_entries_map_dom(self.entries@);
        }
        let mut res: StrMap<V> = StrMap::new();
        let mut i: usize = 0;
        while i < self.entries.len()
            invariant
                i <= self.entries@.len(),
                distinct_keys(self.entries@),
                forall|k: Seq<char>| #[trigger]
                    res@.contains_key(k) <==> exists|j: int|
                        0 <= j < i && (#[trigger] self.entries@[j]).0@ == k,
                forall|k: Seq<char>| #[trigger]
                    res@.contains_key(k) ==> vstd::pervasive::cloned::<V>(
                        entries_map(self.entries@)[k],
                        res@[k],
                    ),
            decreases self.entries@.len() - i,
        {
            let key = self.entries[i].0.clone();
            let value = self.entries[i].1.clone();
            proof {
                lemma_entries_map_at(self.entries@, i as int);
            }
            let ghost before = res@;
            res.insert(key, value);
            proof {
                assert forall|k: Seq<char>| #[trigger]
                    res@.contains_key(k) <==> exists|j: int|
                        0 <= j < i + 1 && (#[trigger] self.entries@[j]).0@ == k by {
                    if res@.contains_key(k) {
                        if k == key@ {
                            assert(self.entries@[i as int].0@ == k);
                        } else {
                            assert(before.contains_key(k));
                            let j = choose|j: int|
                                0 <= j < i && (#[trigger] self.entries@[j]).0@ == k;
                            assert(0 <= j < i + 1 && self.entries@[j].0@ == k);
                        }
                    }
                    if exists|j: int| 0 <= j < i + 1 && (#[trigger] self.entries@[j]).0@ == k {
                        let j = choose|j: int|
                            0 <= j < i + 1 && (#[trigger] self.entries@[j]).0@ == k;
                        if j < i {
                            assert(before.contains_key(k));
                        }
                    }
                }
            }
            i += 1;
        }
        res
    }
}

} // verus!
