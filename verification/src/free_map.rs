//! The free map: for each statement, the symbols whose storage can be
//! released once the statement has been lowered.

use std::collections::HashMap;
use vstd::prelude::*;
use crate::arena::{bump_symbols, symbols_as_slice, symbols_new_in, symbols_push};
use crate::liveness::{LastSeen, LastSeenView};
use crate::symbol::Symbol;

verus! {

/// The symbols of `order` whose entry in `table` is the statement `at`, in
/// the order of `order`.
pub open spec fn due(order: Seq<Symbol>, table: Map<Symbol, nat>, at: nat) -> Seq<Symbol>
    decreases order.len(),
{
    if order.len() == 0 {
        seq![]
    } else {
        let rest = due(order.drop_last(), table, at);
        if table[order.last()] == at {
            rest.push(order.last())
        } else {
            rest
        }
    }
}

/// The free map of a last-seen table: each statement at which some symbol
/// is seen last is mapped to the symbols seen last at it, in the order in
/// which the symbols were first seen.
pub open spec fn free_map_of(v: LastSeenView) -> Map<nat, Seq<Symbol>> {
    Map::new(|at: nat| due(v.order, v.table, at).len() > 0, |at: nat| due(v.order, v.table, at))
}

/// A release list is no longer than the list it is drawn from.
pub proof fn lemma_due_len(order: Seq<Symbol>, table: Map<Symbol, nat>, at: nat)
    ensures
        due(order, table, at).len() <= order.len(),
    decreases order.len(),
{
    if order.len() > 0 {
        lemma_due_len(order.drop_last(), table, at);
    }
}

/// A release list holds the symbols whose entry is its statement, each
/// once.
pub proof fn lemma_due_members(order: Seq<Symbol>, table: Map<Symbol, nat>, at: nat)
    requires
        order.no_duplicates(),
    ensures
        due(order, table, at).no_duplicates(),
        forall|s: Symbol| #[trigger]
            due(order, table, at).contains(s) <==> order.contains(s) && table[s] == at,
    decreases order.len(),
{
    if order.len() > 0 {
        let front = order.drop_last();
        let x = order.last();
        lemma_due_members(front, table, at);
        let rest = due(front, table, at);
        let all = due(order, table, at);
        assert(!front.contains(x)) by {
            if front.contains(x) {
                let i = choose|i: int| 0 <= i < front.len() && front[i] == x;
                assert(order[i] == order[order.len() - 1]);
            }
        }
        assert forall|s: Symbol| #[trigger] all.contains(s) <==> order.contains(s) && table[s]
            == at by {
            if order.contains(s) {
                let i = choose|i: int| 0 <= i < order.len() && order[i] == s;
                if i < front.len() {
                    assert(front[i] == s);
                }
            }
            if front.contains(s) {
                let i = choose|i: int| 0 <= i < front.len() && front[i] == s;
                assert(order[i] == s);
            }
            if rest.contains(s) {
                let i = choose|i: int| 0 <= i < rest.len() && rest[i] == s;
                if table[x] == at {
                    assert(all[i] == s);
                }
            }
            if all.contains(s) && table[x] == at {
                let i = choose|i: int| 0 <= i < all.len() && all[i] == s;
                if i < rest.len() {
                    assert(rest[i] == s);
                }
            }
            if s == x {
                assert(order[order.len() - 1] == s);
                if table[x] == at {
                    assert(all[all.len() - 1] == s);
                }
            }
        }
        if table[x] == at {
            assert forall|i: int, j: int| 0 <= i < all.len() && 0 <= j < all.len() && i != j
                implies all[i] != all[j] by {
                if i < rest.len() {
                    assert(rest.contains(rest[i]));
                }
                if j < rest.len() {
                    assert(rest.contains(rest[j]));
                }
            }
        }
    }
}

/// Completeness of the free map. The release lists hold exactly the
/// symbols of the last-seen table: a symbol is in the list of a statement
/// exactly if that statement is its entry in the table, and no list holds
/// a symbol twice. Turning the table into the free map loses no symbol and
/// introduces none, and no symbol is released twice.
pub proof fn lemma_free_map_complete(v: LastSeenView, s: Symbol, at: nat)
    requires
        v.wf(),
    ensures
        free_map_of(v).contains_key(at) && free_map_of(v)[at].contains(s)
            <==> v.table.contains_key(s) && v.table[s] == at,
        free_map_of(v).contains_key(at) ==> free_map_of(v)[at].no_duplicates(),
{
    lemma_due_members(v.order, v.table, at);
    let list = due(v.order, v.table, at);
    if list.contains(s) {
        let i = choose|i: int| 0 <= i < list.len() && list[i] == s;
    }
}

/// The free map of the procedure that is being lowered. Its lists live in
/// the arena.
pub struct FreeMap<'a> {
    lists: HashMap<usize, bumpalo::collections::Vec<'a, Symbol>>,
}

impl<'a> View for FreeMap<'a> {
    type V = Map<nat, Seq<Symbol>>;

    closed spec fn view(&self) -> Map<nat, Seq<Symbol>> {
        Map::new(
            |at: nat| at <= usize::MAX && self.lists@.contains_key(at as usize),
            |at: nat| bump_symbols(self.lists@[at as usize]),
        )
    }
}

impl<'a> FreeMap<'a> {
    /// A free map without lists.
    pub fn new() -> (m: Self)
        ensures
            m@ == Map::<nat, Seq<Symbol>>::empty(),
    {
        let m = FreeMap { lists: HashMap::new() };
        assert(m@ =~= Map::<nat, Seq<Symbol>>::empty());
        m
    }

    /// The list of statement `at`, or the empty list where it has none.
    pub open spec fn list(self, at: nat) -> Seq<Symbol> {
        if self@.contains_key(at) {
            self@[at]
        } else {
            seq![]
        }
    }

    /// Appends `sym` to the list of statement `at`; a list that does not
    /// exist yet is made in `arena`.
    pub fn push(&mut self, at: usize, sym: Symbol, arena: &'a bumpalo::Bump)
        requires
            old(self).list(at as nat).len() < usize::MAX,
        ensures
            final(self)@ == old(self)@.insert(at as nat, old(self).list(at as nat).push(sym)),
    {
        broadcast use vstd::std_specs::hash::group_hash_axioms;

        let mut list = match self.lists.remove(&at) {
            Some(list) => list,
            None => symbols_new_in(arena),
        };
        symbols_push(&mut list, sym);
        self.lists.insert(at, list);
        assert(self@ =~= old(self)@.insert(at as nat, old(self).list(at as nat).push(sym)));
    }

    /// A copy of the list of statement `at`; empty where it has none.
    pub fn symbols_at(&self, at: usize) -> (syms: Vec<Symbol>)
        ensures
            syms@ == self.list(at as nat),
    {
        broadcast use vstd::std_specs::hash::group_hash_axioms;

        let mut syms: Vec<Symbol> = Vec::new();
        if let Some(list) = self.lists.get(&at) {
            let items = symbols_as_slice(list);
            let mut i: usize = 0;
            while i < items.len()
                invariant
                    i <= items.len(),
                    syms@ == items@.take(i as int),
                decreases items.len() - i,
            {
                syms.push(items[i]);
                assert(items@.take(i + 1) =~= items@.take(i as int).push(items@[i as int]));
                i = i + 1;
            }
            assert(items@.take(items.len() as int) =~= items@);
        }
        syms
    }

    /// Removes the list of statement `at` and hands it out.
    pub fn take(&mut self, at: usize) -> (list: Option<bumpalo::collections::Vec<'a, Symbol>>)
        ensures
            final(self)@ == old(self)@.remove(at as nat),
            match list {
                Some(l) => old(self)@.contains_key(at as nat) && bump_symbols(l) == old(self)@[at as nat],
                None => !old(self)@.contains_key(at as nat),
            },
    {
        broadcast use vstd::std_specs::hash::group_hash_axioms;

        let list = self.lists.remove(&at);
        assert(self@ =~= old(self)@.remove(at as nat));
        list
    }
}

/// Turns the last-seen table into the free map: each symbol is appended to
/// the list of the statement at which it was last seen.
pub fn create_free_map<'a>(last_seen: &LastSeen, arena: &'a bumpalo::Bump) -> (free_map: FreeMap<'a>)
    requires
        last_seen@.wf(),
    ensures
        free_map@ == free_map_of(last_seen@),
{
    let mut free_map = FreeMap::new();
    let order = last_seen.symbols();
    let ghost table = last_seen@.table;
    let mut i: usize = 0;
    while i < order.len()
        invariant
            i <= order.len(),
            order@ == last_seen@.order,
            table == last_seen@.table,
            last_seen@.wf(),
            forall|at: nat| #[trigger]
                free_map@.contains_key(at) <==> due(order@.take(i as int), table, at).len() > 0,
            forall|at: nat| #[trigger]
                free_map@.contains_key(at) ==> free_map@[at] == due(
                    order@.take(i as int),
                    table,
                    at,
                ),
        decreases order.len() - i,
    {
        let sym = order[i];
        assert(order@.contains(sym));
        let ghost before = free_map@;
        let ghost seen = order@.take(i as int);
        proof {
            assert(order@.take(i + 1).drop_last() =~= seen);
            assert(order@.take(i + 1).last() == sym);
        }
        if let Some(at) = last_seen.get(sym) {
            proof {
                lemma_due_len(seen, table, at as nat);
            }
            free_map.push(at, sym, arena);
            assert forall|k: nat| #[trigger]
                free_map@.contains_key(k) <==> due(order@.take(i + 1), table, k).len() > 0 by {
                assert(before.contains_key(k) <==> due(seen, table, k).len() > 0);
            }
            assert forall|k: nat| #[trigger] free_map@.contains_key(k) implies free_map@[k] == due(
                order@.take(i + 1),
                table,
                k,
            ) by {
                assert(before.contains_key(k) <==> due(seen, table, k).len() > 0);
                if before.contains_key(k) {
                    assert(before[k] == due(seen, table, k));
                }
            }
        }
        i = i + 1;
    }
    assert(order@.take(order.len() as int) =~= order@);
    assert(free_map@ =~= free_map_of(last_seen@));
    free_map
}

} // verus!
