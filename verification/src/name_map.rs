//! A map keyed by name.
//!
//! Entries stand in a vector, and a hash index finds them: lookup, insertion
//! and removal take constant time, and the entries can be walked.

use vstd::hash_map::StringHashMap;
use vstd::prelude::*;

verus! {

pub struct NameMap<V> {
    entries: Vec<(String, V)>,
    index: StringHashMap<usize>,
}

impl<V> View for NameMap<V> {
    type V = Map<Seq<char>, V>;

    closed spec fn view(&self) -> Map<Seq<char>, V> {
        Map::new(
            |name: Seq<char>| self.index@.contains_key(name),
            |name: Seq<char>| self.entries@[self.index@[name] as int].1,
        )
    }
}

impl<V> NameMap<V> {
    /// The index finds each entry under its own name, and nothing else.
    pub closed spec fn inv(self) -> bool {
        &&& forall|name: Seq<char>| #[trigger]
            self.index@.contains_key(name) ==> {
                &&& self.index@[name] < self.entries@.len()
                &&& self.entries@[self.index@[name] as int].0@ == name
            }
        &&& forall|i: int| #![trigger self.entries@[i]]
            0 <= i < self.entries@.len() ==> {
                &&& self.index@.contains_key(self.entries@[i].0@)
                &&& self.index@[self.entries@[i].0@] == i
            }
    }

    pub fn new() -> (res: Self)
        ensures
            res.inv(),
            res@ == Map::<Seq<char>, V>::empty(),
    {
        let res = NameMap { entries: Vec::new(), index: StringHashMap::new() };
        assert(res@ =~= Map::<Seq<char>, V>::empty());
        res
    }

    pub fn get(&self, name: &str) -> (res: Option<&V>)
        requires
            self.inv(),
        ensures
            match res {
                Some(value) => self@.contains_key(name@) && *value == self@[name@],
                None => !self@.contains_key(name@),
            },
    {
        match self.index.get(name) {
            Some(i) => Some(&self.entries[*i].1),
            None => None,
        }
    }

    /// Sets the value under `name`, in place of the one that was there.
    pub fn insert(&mut self, name: String, value: V)
        requires
            old(self).inv(),
        ensures
            final(self).inv(),
            final(self)@ == old(self)@.insert(name@, value),
    {
        let ghost key = name@;
        let found: Option<usize> = match self.index.get(name.as_str()) {
            Some(i) => Some(*i),
            None => None,
        };
        match found {
            Some(i) => {
                self.entries.set(i, (name, value));
            },
            None => {
                let i: usize = self.entries.len();
                self.index.insert(name.clone(), i);
                self.entries.push((name, value));
            },
        }
        assert(self@ =~= old(self)@.insert(key, value));
    }

    /// Takes the value under `name` out, if there is one.
    pub fn remove(&mut self, name: &str) -> (res: Option<V>)
        requires
            old(self).inv(),
        ensures
            final(self).inv(),
            final(self)@ == old(self)@.remove(name@),
            match res {
                Some(value) => old(self)@.contains_key(name@) && value == old(self)@[name@],
                None => !old(self)@.contains_key(name@),
            },
    {
        let found: Option<usize> = match self.index.get(name) {
            Some(i) => Some(*i),
            None => None,
        };
        match found {
            Some(i) => {
                let (_, value) = self.entries.swap_remove(i);
                self.index.remove(name);
                if i < self.entries.len() {
                    // The last entry has moved into the gap.
                    let moved = self.entries[i].0.clone();
                    self.index.insert(moved, i);
                }
                assert(self@ =~= old(self)@.remove(name@));
                Some(value)
            },
            None => {
                assert(self@ =~= old(self)@.remove(name@));
                None
            },
        }
    }

    /// All entries, each name once.
    pub fn into_entries(self) -> (res: Vec<(String, V)>)
        requires
            self.inv(),
        ensures
            forall|i: int| #![trigger res@[i]]
                0 <= i < res@.len() ==> self@.contains_pair(res@[i].0@, res@[i].1),
            forall|i: int, j: int| #![trigger res@[i], res@[j]]
                0 <= i < j < res@.len() ==> res@[i].0@ != res@[j].0@,
            forall|name: Seq<char>| #[trigger]
                self@.contains_key(name) ==> exists|i: int|
                    0 <= i < res@.len() && #[trigger] res@[i].0@ == name,
    {
        self.entries
    }
}

} // verus!
