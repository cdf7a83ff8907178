//! Hash tables keyed by symbols.

use std::collections::HashMap;
use vstd::prelude::*;
use crate::symbol::Symbol;

verus! {

/// Maps symbols to values of type `V`. The table is hashed on the symbol's
/// number; its view is a map from symbols.
pub struct SymbolMap<V> {
    entries: HashMap<u64, V>,
}

impl<V> View for SymbolMap<V> {
    type V = Map<Symbol, V>;

    closed spec fn view(&self) -> Map<Symbol, V> {
        Map::new(
            |s: Symbol| self.entries@.contains_key(s.0),
            |s: Symbol| self.entries@[s.0],
        )
    }
}

impl<V> SymbolMap<V> {
    /// An empty map.
    pub fn new() -> (m: Self)
        ensures
            m@ == Map::<Symbol, V>::empty(),
    {
        let m = SymbolMap { entries: HashMap::new() };
        assert(m@ =~= Map::<Symbol, V>::empty());
        m
    }

    /// Binds `sym` to `value` and returns the value it was bound to before.
    pub fn insert(&mut self, sym: Symbol, value: V) -> (previous: Option<V>)
        ensures
            final(self)@ == old(self)@.insert(sym, value),
            match previous {
                Some(v) => old(self)@.contains_key(sym) && old(self)@[sym] == v,
                None => !old(self)@.contains_key(sym),
            },
    {
        broadcast use vstd::std_specs::hash::group_hash_axioms;

        let previous = self.entries.insert(sym.0, value);
        assert(self@ =~= old(self)@.insert(sym, value));
        previous
    }

    /// The value bound to `sym`, if any.
    pub fn get(&self, sym: Symbol) -> (found: Option<&V>)
        ensures
            match found {
                Some(v) => self@.contains_key(sym) && self@[sym] == *v,
                None => !self@.contains_key(sym),
            },
    {
        broadcast use vstd::std_specs::hash::group_hash_axioms;

        self.entries.get(&sym.0)
    }

    /// Whether `sym` is bound.
    pub fn contains_key(&self, sym: Symbol) -> (found: bool)
        ensures
            found == self@.contains_key(sym),
    {
        broadcast use vstd::std_specs::hash::group_hash_axioms;

        self.entries.contains_key(&sym.0)
    }

    /// Unbinds `sym` and returns the value it was bound to.
    pub fn remove(&mut self, sym: Symbol) -> (removed: Option<V>)
        ensures
            final(self)@ == old(self)@.remove(sym),
            match removed {
                Some(v) => old(self)@.contains_key(sym) && old(self)@[sym] == v,
                None => !old(self)@.contains_key(sym),
            },
    {
        broadcast use vstd::std_specs::hash::group_hash_axioms;

        let removed = self.entries.remove(&sym.0);
        assert(self@ =~= old(self)@.remove(sym));
        removed
    }

    /// Removes every binding.
    pub fn clear(&mut self)
        ensures
            final(self)@ == Map::<Symbol, V>::empty(),
    {
        self.entries.clear();
        assert(self@ =~= Map::<Symbol, V>::empty());
    }
}

/// A set of symbols.
pub struct SymbolSet {
    members: SymbolMap<()>,
}

impl View for SymbolSet {
    type V = Set<Symbol>;

    closed spec fn view(&self) -> Set<Symbol> {
        self.members@.dom()
    }
}

impl SymbolSet {
    /// The empty set.
    pub fn new() -> (set: Self)
        ensures
            set@ == Set::<Symbol>::empty(),
    {
        let set = SymbolSet { members: SymbolMap::new() };
        assert(set@ =~= Set::<Symbol>::empty());
        set
    }

    /// Adds `sym` to the set and tells whether it was new.
    pub fn insert(&mut self, sym: Symbol) -> (added: bool)
        ensures
            final(self)@ == old(self)@.insert(sym),
            added == !old(self)@.contains(sym),
    {
        let previous = self.members.insert(sym, ());
        assert(self@ =~= old(self)@.insert(sym));
        previous.is_none()
    }

    /// Whether `sym` is in the set.
    pub fn contains(&self, sym: Symbol) -> (found: bool)
        ensures
            found == self@.contains(sym),
    {
        self.members.contains_key(sym)
    }
}

} // verus!
