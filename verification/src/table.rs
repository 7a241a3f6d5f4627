use vstd::prelude::*;

use crate::value::Value;

verus! {

/// The map that a list of entries with distinct names stands for.
pub open spec fn map_of(s: Seq<(Seq<char>, Value)>) -> Map<Seq<char>, Value>
    decreases s.len(),
{
    if s.len() == 0 {
        Map::empty()
    } else {
        map_of(s.drop_last()).insert(s.last().0, s.last().1)
    }
}

pub open spec fn names_distinct(s: Seq<(Seq<char>, Value)>) -> bool {
    forall|i: int, j: int| 0 <= i < s.len() && 0 <= j < s.len() && i != j ==> s[i].0 != s[j].0
}

/// A name is in the map exactly where some entry carries it, with that entry's value.
pub proof fn lemma_map_of_lookup(s: Seq<(Seq<char>, Value)>, k: Seq<char>)
    requires
        names_distinct(s),
    ensures
        map_of(s).contains_key(k) <==> exists|i: int| 0 <= i < s.len() && s[i].0 == k,
        forall|i: int| 0 <= i < s.len() && s[i].0 == k ==> map_of(s)[k] == s[i].1,
    decreases s.len(),
{
    if s.len() > 0 {
        let t = s.drop_last();
        assert(names_distinct(t));
        lemma_map_of_lookup(t, k);
        if map_of(s).contains_key(k) && s.last().0 != k {
            let i = choose|i: int| 0 <= i < t.len() && t[i].0 == k;
            assert(s[i].0 == k);
        }
        assert forall|i: int| 0 <= i < s.len() && s[i].0 == k implies map_of(s)[k] == s[i].1 by {
            if i < s.len() - 1 {
                assert(t[i].0 == k);
            }
        }
        if s.last().0 == k {
            assert(s[s.len() - 1].0 == k);
        }
        if exists|i: int| 0 <= i < s.len() && s[i].0 == k {
            let i = choose|i: int| 0 <= i < s.len() && s[i].0 == k;
            if i < s.len() - 1 {
                assert(t[i].0 == k);
            }
        }
    }
}

/// Overwriting the value of an entry overwrites it in the map.
pub proof fn lemma_map_of_update(s: Seq<(Seq<char>, Value)>, i: int, v: Value)
    requires
        names_distinct(s),
        0 <= i < s.len(),
    ensures
        names_distinct(s.update(i, (s[i].0, v))),
        map_of(s.update(i, (s[i].0, v))) == map_of(s).insert(s[i].0, v),
    decreases s.len(),
{
    let u = s.update(i, (s[i].0, v));
    assert(names_distinct(u));
    let t = s.drop_last();
    if i == s.len() - 1 {
        assert(u.drop_last() =~= t);
        assert(map_of(u) =~= map_of(s).insert(s[i].0, v));
    } else {
        assert(names_distinct(t));
        lemma_map_of_update(t, i, v);
        assert(u.drop_last() =~= t.update(i, (t[i].0, v)));
        assert(s.last().0 != s[i].0);
        assert(map_of(u) =~= map_of(s).insert(s[i].0, v));
    }
}

/// A map from names to values. The entries are kept in the order in which
/// their names were first inserted, and no name occurs twice.
pub struct Table {
    entries: Vec<(String, Value)>,
}

impl Table {
    #[verifier::type_invariant]
    spec fn wf(self) -> bool {
        names_distinct(self.entry_seq())
    }

    /// The name and value of each entry, in order.
    pub closed spec fn entry_seq(&self) -> Seq<(Seq<char>, Value)> {
        self.entries@.map_values(|e: (String, Value)| (e.0@, e.1))
    }

    /// The values of the entries, in order.
    pub open spec fn values(&self) -> Seq<Value> {
        self.entry_seq().map_values(|e: (Seq<char>, Value)| e.1)
    }

    pub open spec fn view(&self) -> Map<Seq<char>, Value> {
        map_of(self.entry_seq())
    }

    pub fn new() -> (t: Self)
        ensures
            t.view() == Map::<Seq<char>, Value>::empty(),
            t.values() == Seq::<Value>::empty(),
    {
        let t = Table { entries: Vec::new() };
        assert(t.entry_seq() =~= Seq::<(Seq<char>, Value)>::empty());
        assert(t.values() =~= Seq::<Value>::empty());
        t
    }

    pub fn len(&self) -> (n: usize)
        ensures
            n == self.values().len(),
    {
        self.entries.len()
    }

    /// The index of the entry named `key`.
    fn find(&self, key: &String) -> (r: Option<usize>)
        ensures
            match r {
                Some(i) => i < self.entry_seq().len() && self.entry_seq()[i as int].0 == key@,
                None => forall|j: int|
                    0 <= j < self.entry_seq().len() ==> #[trigger] self.entry_seq()[j].0 != key@,
            },
    {
        let mut i: usize = 0;
        while i < self.entries.len()
            invariant
                i <= self.entries@.len(),
                forall|j: int| 0 <= j < i ==> #[trigger] self.entry_seq()[j].0 != key@,
            decreases self.entries.len() - i,
        {
            if self.entries[i].0 == *key {
                return Some(i);
            }
            i += 1;
        }
        None
    }

    /// The value stored under `key`, if there is one.
    pub fn get(&self, key: &String) -> (r: Option<Value>)
        ensures
            match r {
                Some(v) => self.view().contains_key(key@) && self.view()[key@] == v,
                None => !self.view().contains_key(key@),
            },
            r matches Some(v) ==> self.values().contains(v),
    {
        proof {
            use_type_invariant(self);
            lemma_map_of_lookup(self.entry_seq(), key@);
        }
        match self.find(key) {
            Some(i) => {
                assert(self.values()[i as int] == self.entries@[i as int].1);
                Some(self.entries[i].1)
            },
            None => None,
        }
    }

    /// Stores `value` under `key`. Returns whether the name was new.
    pub fn insert(&mut self, key: String, value: Value) -> (is_new: bool)
        ensures
            final(self).view() == old(self).view().insert(key@, value),
            is_new == !old(self).view().contains_key(key@),
            forall|v: Value| #[trigger] final(self).values().contains(v) ==> v == value
                || old(self).values().contains(v),
    {
        proof {
            use_type_invariant(&*self);
            lemma_map_of_lookup(self.entry_seq(), key@);
        }
        let found = self.find(&key);
        let mut entries: Vec<(String, Value)> = Vec::new();
        std::mem::swap(&mut entries, &mut self.entries);
        let ghost k = key@;
        let ghost s = old(self).entry_seq();
        match found {
            Some(i) => {
                entries.set(i, (key, value));
                proof {
                    lemma_map_of_update(s, i as int, value);
                }
                assert(entries@.map_values(|e: (String, Value)| (e.0@, e.1)) =~= s.update(
                    i as int,
                    (k, value),
                ));
                self.entries = entries;
                assert forall|v: Value| #[trigger] self.values().contains(v) implies v == value
                    || old(self).values().contains(v) by {
                    let j = choose|j: int| 0 <= j < self.values().len() && self.values()[j] == v;
                    if j != i {
                        assert(old(self).values()[j] == v);
                    }
                }
                false
            },
            None => {
                entries.push((key, value));
                assert(entries@.map_values(|e: (String, Value)| (e.0@, e.1)) =~= s.push(
                    (k, value),
                ));
                self.entries = entries;
                assert(self.entry_seq().drop_last() =~= s);
                assert forall|v: Value| #[trigger] self.values().contains(v) implies v == value
                    || old(self).values().contains(v) by {
                    let j = choose|j: int| 0 <= j < self.values().len() && self.values()[j] == v;
                    if j < s.len() {
                        assert(old(self).values()[j] == v);
                    }
                }
                true
            },
        }
    }

    /// The value of the entry at `i`, in insertion order.
    pub fn value_at(&self, i: usize) -> (v: Value)
        requires
            i < self.values().len(),
        ensures
            v == self.values()[i as int],
    {
        self.entries[i].1
    }
}


impl Table {
    /// A table with the same entries, in the same order.
    pub fn copy(&self) -> (t: Table)
        ensures
            t.view() == self.view(),
            t.values() == self.values(),
    {
        proof {
            use_type_invariant(self);
        }
        let mut entries: Vec<(String, Value)> = Vec::new();
        let mut i: usize = 0;
        while i < self.entries.len()
            invariant
                i <= self.entries@.len(),
                names_distinct(self.entry_seq()),
                entries@.map_values(|e: (String, Value)| (e.0@, e.1)) == self.entry_seq().take(i as int),
            decreases self.entries.len() - i,
        {
            let ghost before = entries@;
            let name = self.entries[i].0.clone();
            let v = self.entries[i].1;
            entries.push((name, v));
            assert(entries@ == before.push((name, v)));
            assert(self.entry_seq()[i as int] == (self.entries@[i as int].0@, self.entries@[i as int].1));
            assert(name@ == self.entries@[i as int].0@);
            assert(self.entry_seq().take(i + 1) =~= self.entry_seq().take(i as int).push(self.entry_seq()[i as int]));
            assert(entries@.map_values(|e: (String, Value)| (e.0@, e.1)) =~= before.map_values(|e: (String, Value)| (e.0@, e.1)).push((name@, v)));
            assert(entries@.map_values(|e: (String, Value)| (e.0@, e.1)) =~= self.entry_seq().take(i + 1));
            i += 1;
        }
        assert(self.entry_seq().take(self.entries@.len() as int) =~= self.entry_seq());
        let t = Table { entries };
        assert(t.entry_seq() =~= self.entry_seq());
        t
    }
}


/// After `insert(key, value)`, `get(key)` finds `value`, and every other
/// name finds what it found before.
pub proof fn lemma_get_after_insert(before: &Table, after: &Table, key: Seq<char>, value: Value, other: Seq<char>)
    requires
        after.view() == before.view().insert(key, value),
    ensures
        after.view().contains_key(key),
        after.view()[key] == value,
        other != key ==> after.view().contains_key(other) == before.view().contains_key(other),
        other != key && before.view().contains_key(other) ==> after.view()[other] == before.view()[other],
{
}

/// Inserting under a name that is already there changes no other name and
/// adds no entry.
pub proof fn lemma_insert_existing_keeps_names(before: &Table, after: &Table, key: Seq<char>, value: Value)
    requires
        after.view() == before.view().insert(key, value),
        before.view().contains_key(key),
    ensures
        after.view().dom() == before.view().dom(),
{
    assert(after.view().dom() =~= before.view().dom());
}

} // verus!
