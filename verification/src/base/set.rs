//! A finite set of keys compared by content.

use vstd::prelude::*;

use crate::base::keys;
use crate::base::keys::{Dup, Key};
use crate::base::table::Table;

verus! {

/// A finite set of keys.
pub struct KeySet<K: Key> {
    table: Table<K, bool>,
}

impl<K: Key> View for KeySet<K> {
    type V = Set<K::V>;

    closed spec fn view(&self) -> Set<K::V> {
        self.table@.dom()
    }
}

impl<K: Key> KeySet<K> {
    /// The empty set.
    pub fn new() -> (set: Self)
        ensures
            set@ == Set::<K::V>::empty(),
    {
        let set = KeySet { table: Table::new() };
        assert(set@ =~= Set::<K::V>::empty());
        set
    }

    /// The number of members.
    pub fn len(&self) -> (n: usize)
        ensures
            n == self@.len(),
            self@.finite(),
    {
        self.table.len()
    }

    /// Tells whether the key is a member.
    pub fn contains(&self, key: &K) -> (found: bool)
        ensures
            found == self@.contains(key@),
    {
        self.table.contains_key(key)
    }

    /// Adds a member and tells whether it is new.
    pub fn insert(&mut self, key: K) -> (added: bool)
        ensures
            final(self)@ == old(self)@.insert(key@),
            added == !old(self)@.contains(key@),
    {
        let prior = self.table.insert(key, true);
        assert(self@ =~= old(self)@.insert(key@));
        prior.is_none()
    }

    /// Removes a member and tells whether it was there.
    pub fn remove(&mut self, key: &K) -> (removed: bool)
        ensures
            final(self)@ == old(self)@.remove(key@),
            removed == old(self)@.contains(key@),
    {
        let prior = self.table.remove(key);
        assert(self@ =~= old(self)@.remove(key@));
        prior.is_some()
    }

    /// Every member, once.
    pub fn members(&self) -> (keys: Vec<K>)
        ensures
            keys::views(keys@).no_duplicates(),
            keys::views(keys@).to_set() == self@,
    {
        self.table.keys()
    }
}

impl<K: Key> Dup for KeySet<K> {
    fn dup(&self) -> (copy: Self) {
        KeySet { table: self.table.dup() }
    }
}

} // verus!
