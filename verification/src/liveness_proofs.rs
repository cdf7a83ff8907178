//! What the liveness scan guarantees.
//!
//! The scan is specified by the list of sightings that it records
//! ([`stmt_marks`]). The proofs here relate that list to the statements of
//! the body: the table holds, for each symbol, the last statement at which
//! the symbol is seen, and a structure is seen wherever a view into it is
//! referred to, be it a view of the structure itself or a view of a view.

use vstd::prelude::*;
use crate::ir::{branches_size, Branch, Stmt};
use crate::liveness::{bind, branches_marks, owner_of, owners_of, sightings, sightings_of_all};
use crate::liveness::stmt_marks;
use crate::liveness::{LastSeenView, Mark};
use crate::symbol::Symbol;

verus! {

/// The statement with index `k` in the tree rooted at `stmt`, which has
/// index 0.
pub open spec fn stmt_at(stmt: Stmt, k: nat) -> Stmt
    recommends
        k < stmt.size(),
    decreases stmt,
{
    if k == 0 {
        stmt
    } else {
        let below = (k - 1) as nat;
        match stmt {
            Stmt::Let(_, _, _, following) => stmt_at(*following, below),
            Stmt::Switch { branches, default_branch, .. } => if below < branches_size(branches@) {
                branch_stmt_at(branches@, below)
            } else {
                stmt_at(*default_branch, (below - branches_size(branches@)) as nat)
            },
            Stmt::Refcounting(_, following) => stmt_at(*following, below),
            Stmt::Join { body, remainder, .. } => if below < body.size() {
                stmt_at(*body, below)
            } else {
                stmt_at(*remainder, (below - body.size()) as nat)
            },
            _ => stmt,
        }
    }
}

/// The statement with index `k` in the bodies of `branches`, the first of
/// which has index 0.
pub open spec fn branch_stmt_at(branches: Seq<Branch>, k: nat) -> Stmt
    recommends
        k < branches_size(branches),
    decreases branches,
{
    if branches.len() == 0 {
        arbitrary()
    } else if k < branches[0].body.size() {
        stmt_at(branches[0].body, k)
    } else {
        branch_stmt_at(branches.skip(1), (k - branches[0].body.size()) as nat)
    }
}

/// The scope at the statement with index `k` in the tree rooted at `stmt`,
/// where `scope` is the scope at `stmt`. A `Let` that extracts from a
/// structure adds a binding that holds in its continuation and nowhere
/// else.
pub open spec fn scope_at(stmt: Stmt, scope: Seq<(Symbol, Symbol)>, k: nat) -> Seq<
    (Symbol, Symbol),
>
    recommends
        k < stmt.size(),
    decreases stmt,
{
    if k == 0 {
        scope
    } else {
        let below = (k - 1) as nat;
        match stmt {
            Stmt::Let(sym, expr, _, following) => scope_at(
                *following,
                bind(scope, sym, expr),
                below,
            ),
            Stmt::Switch { branches, default_branch, .. } => if below < branches_size(branches@) {
                branch_scope_at(branches@, scope, below)
            } else {
                scope_at(*default_branch, scope, (below - branches_size(branches@)) as nat)
            },
            Stmt::Refcounting(_, following) => scope_at(*following, scope, below),
            Stmt::Join { body, remainder, .. } => if below < body.size() {
                scope_at(*body, scope, below)
            } else {
                scope_at(*remainder, scope, (below - body.size()) as nat)
            },
            _ => scope,
        }
    }
}

/// The scope at the statement with index `k` in the bodies of `branches`.
pub open spec fn branch_scope_at(branches: Seq<Branch>, scope: Seq<(Symbol, Symbol)>, k: nat) -> Seq<
    (Symbol, Symbol),
>
    recommends
        k < branches_size(branches),
    decreases branches,
{
    if branches.len() == 0 {
        scope
    } else if k < branches[0].body.size() {
        scope_at(branches[0].body, scope, k)
    } else {
        branch_scope_at(branches.skip(1), scope, (k - branches[0].body.size()) as nat)
    }
}

/// The sightings that the statement with index `k` of `body` makes.
pub open spec fn sightings_at(body: Stmt, k: nat) -> Seq<Mark> {
    sightings_of_all(stmt_at(body, k).symbols(), k, scope_at(body, Seq::empty(), k))
}

/// Whether `s` is seen at the statement with index `k` of `body`: the
/// statement refers to `s`, or to a view into the structure `s`.
pub open spec fn seen_at(body: Stmt, k: nat, s: Symbol) -> bool {
    sightings_at(body, k).contains(Mark { symbol: s, at: k })
}

/// The table that the scan of `body` fills, starting from an empty one.
pub open spec fn last_seen_of(body: Stmt) -> Map<Symbol, nat> {
    LastSeenView::empty().mark_all(stmt_marks(body, 0, Seq::empty())).table
}

/// The statement of the last sighting of `s` in `marks`.
pub open spec fn last_sighting(marks: Seq<Mark>, s: Symbol) -> Option<nat>
    decreases marks.len(),
{
    if marks.len() == 0 {
        None
    } else if marks.last().symbol == s {
        Some(marks.last().at)
    } else {
        last_sighting(marks.drop_last(), s)
    }
}

/// Every sighting of `marks` lies in `lo..hi`, and the statements of the
/// sightings never go back.
pub open spec fn ascending_within(marks: Seq<Mark>, lo: nat, hi: nat) -> bool {
    &&& forall|i: int| 0 <= i < marks.len() ==> lo <= (#[trigger] marks[i]).at < hi
    &&& forall|i: int, j: int|
        0 <= i <= j < marks.len() ==> (#[trigger] marks[i]).at <= (#[trigger] marks[j]).at
}

proof fn lemma_contains_concat(a: Seq<Mark>, b: Seq<Mark>, m: Mark)
    ensures
        (a + b).contains(m) <==> a.contains(m) || b.contains(m),
{
    if a.contains(m) {
        let i = choose|i: int| 0 <= i < a.len() && a[i] == m;
        assert((a + b)[i] == m);
    }
    if b.contains(m) {
        let i = choose|i: int| 0 <= i < b.len() && b[i] == m;
        assert((a + b)[a.len() + i] == m);
    }
    if (a + b).contains(m) {
        let i = choose|i: int| 0 <= i < (a + b).len() && (a + b)[i] == m;
        if i < a.len() {
            assert(a[i] == m);
        } else {
            assert(b[i - a.len()] == m);
        }
    }
}

proof fn lemma_ascending_concat(a: Seq<Mark>, b: Seq<Mark>, lo: nat, mid: nat, hi: nat)
    requires
        lo <= mid <= hi,
        ascending_within(a, lo, mid),
        ascending_within(b, mid, hi),
    ensures
        ascending_within(a + b, lo, hi),
{
    let c = a + b;
    assert forall|i: int| 0 <= i < c.len() implies lo <= (#[trigger] c[i]).at < hi by {
        if i < a.len() {
            assert(c[i] == a[i]);
        } else {
            assert(c[i] == b[i - a.len()]);
        }
    }
    assert forall|i: int, j: int| 0 <= i <= j < c.len() implies (#[trigger] c[i]).at <= (
    #[trigger] c[j]).at by {
        if i < a.len() {
            assert(c[i] == a[i]);
        } else {
            assert(c[i] == b[i - a.len()]);
        }
        if j < a.len() {
            assert(c[j] == a[j]);
        } else {
            assert(c[j] == b[j - a.len()]);
        }
    }
}

/// The table after marking: the last sighting of a symbol in `marks` if
/// there is one, else what the table held before.
pub proof fn lemma_mark_all_table(v: LastSeenView, marks: Seq<Mark>, s: Symbol)
    ensures
        v.mark_all(marks).table.contains_key(s) <==> v.table.contains_key(s) || last_sighting(
            marks,
            s,
        ) is Some,
        last_sighting(marks, s) matches Some(n) ==> v.mark_all(marks).table[s] == n,
        last_sighting(marks, s) is None && v.table.contains_key(s) ==> v.mark_all(marks).table[s]
            == v.table[s],
    decreases marks.len(),
{
    if marks.len() > 0 {
        lemma_mark_all_table(v, marks.drop_last(), s);
    }
}

/// The last sighting of `s` is a sighting of `s` that no sighting of `s`
/// follows.
pub proof fn lemma_last_sighting(marks: Seq<Mark>, s: Symbol)
    ensures
        match last_sighting(marks, s) {
            Some(n) => exists|i: int|
                0 <= i < marks.len() && marks[i] == (Mark { symbol: s, at: n }) && forall|j: int|
                    i < j < marks.len() ==> marks[j].symbol != s,
            None => forall|i: int| 0 <= i < marks.len() ==> marks[i].symbol != s,
        },
    decreases marks.len(),
{
    if marks.len() > 0 {
        let front = marks.drop_last();
        if marks.last().symbol == s {
            let i = marks.len() - 1;
            assert(marks[i] == Mark { symbol: s, at: marks.last().at });
        } else {
            lemma_last_sighting(front, s);
            match last_sighting(front, s) {
                Some(n) => {
                    let i = choose|i: int|
                        0 <= i < front.len() && front[i] == (Mark { symbol: s, at: n })
                            && forall|j: int| i < j < front.len() ==> front[j].symbol != s;
                    assert(marks[i] == front[i]);
                    assert forall|j: int| i < j < marks.len() implies marks[j].symbol != s by {
                        if j < front.len() {
                            assert(marks[j] == front[j]);
                        }
                    }
                },
                None => {
                    assert forall|i: int| 0 <= i < marks.len() implies marks[i].symbol != s by {
                        if i < front.len() {
                            assert(marks[i] == front[i]);
                        }
                    }
                },
            }
        }
    }
}

/// References at statement `at` are sighted at `at`.
proof fn lemma_sightings_ascending(syms: Seq<Symbol>, at: nat, scope: Seq<(Symbol, Symbol)>)
    ensures
        ascending_within(sightings_of_all(syms, at, scope), at, at + 1),
    decreases syms.len(),
{
    if syms.len() > 0 {
        lemma_sightings_ascending(syms.drop_last(), at, scope);
        let a = sightings_of_all(syms.drop_last(), at, scope);
        let b = sightings(syms.last(), at, scope);
        let c = a + b;
        assert forall|i: int| 0 <= i < c.len() implies (#[trigger] c[i]).at == at by {
            if i < a.len() {
                assert(c[i] == a[i]);
            } else {
                assert(c[i] == b[i - a.len()]);
            }
        }
    }
}

/// The direct source of a view is the first of the structures that it is
/// a view into.
pub proof fn lemma_owner_is_nearest(scope: Seq<(Symbol, Symbol)>, sym: Symbol)
    ensures
        match owner_of(scope, sym) {
            Some(source) => owners_of(scope, sym).len() > 0 && owners_of(scope, sym)[0] == source,
            None => owners_of(scope, sym).len() == 0,
        },
    decreases scope.len(),
{
    if scope.len() > 0 && scope.last().0 != sym {
        lemma_owner_is_nearest(scope.drop_last(), sym);
    }
}

/// A reference to a symbol sights the symbol and each structure that the
/// symbol is a view into.
proof fn lemma_sightings_contain(
    syms: Seq<Symbol>,
    at: nat,
    scope: Seq<(Symbol, Symbol)>,
    s: Symbol,
)
    requires
        syms.contains(s),
    ensures
        sightings_of_all(syms, at, scope).contains(Mark { symbol: s, at }),
        forall|structure: Symbol| #[trigger]
            owners_of(scope, s).contains(structure) ==> sightings_of_all(syms, at, scope).contains(
                Mark { symbol: structure, at },
            ),
    decreases syms.len(),
{
    let a = sightings_of_all(syms.drop_last(), at, scope);
    let b = sightings(syms.last(), at, scope);
    let m = Mark { symbol: s, at };
    lemma_contains_concat(a, b, m);
    if syms.last() == s {
        assert(b[0] == m);
        assert forall|structure: Symbol| #[trigger]
            owners_of(scope, s).contains(structure) implies (a + b).contains(
            Mark { symbol: structure, at },
        ) by {
            let i = choose|i: int|
                0 <= i < owners_of(scope, s).len() && owners_of(scope, s)[i] == structure;
            assert(b[i + 1] == Mark { symbol: structure, at });
            lemma_contains_concat(a, b, Mark { symbol: structure, at });
        }
    } else {
        let i = choose|i: int| 0 <= i < syms.len() && syms[i] == s;
        assert(syms.drop_last()[i] == s);
        lemma_sightings_contain(syms.drop_last(), at, scope, s);
        assert forall|structure: Symbol| #[trigger]
            owners_of(scope, s).contains(structure) implies (a + b).contains(
            Mark { symbol: structure, at },
        ) by {
            lemma_contains_concat(a, b, Mark { symbol: structure, at });
        }
    }
}

/// The sightings of a tree lie at its statements and never go back.
pub proof fn lemma_stmt_marks_ascending(stmt: Stmt, at: nat, scope: Seq<(Symbol, Symbol)>)
    ensures
        ascending_within(stmt_marks(stmt, at, scope), at, at + stmt.size()),
    decreases stmt, 0nat,
{
    let own = sightings_of_all(stmt.symbols(), at, scope);
    lemma_sightings_ascending(stmt.symbols(), at, scope);
    let end = at + stmt.size();
    match stmt {
        Stmt::Let(sym, expr, _, following) => {
            lemma_stmt_marks_ascending(*following, at + 1, bind(scope, sym, expr));
            lemma_ascending_concat(
                own,
                stmt_marks(*following, at + 1, bind(scope, sym, expr)),
                at,
                at + 1,
                end,
            );
        },
        Stmt::Switch { branches, default_branch, .. } => {
            let mid = at + 1 + branches_size(branches@);
            lemma_branches_marks_ascending(branches@, at + 1, scope);
            lemma_stmt_marks_ascending(*default_branch, mid, scope);
            let inner = branches_marks(branches@, at + 1, scope);
            let last = stmt_marks(*default_branch, mid, scope);
            lemma_ascending_concat(inner, last, at + 1, mid, end);
            lemma_ascending_concat(own, inner + last, at, at + 1, end);
        },
        Stmt::Refcounting(_, following) => {
            lemma_stmt_marks_ascending(*following, at + 1, scope);
            lemma_ascending_concat(own, stmt_marks(*following, at + 1, scope), at, at + 1, end);
        },
        Stmt::Join { body, remainder, .. } => {
            let mid = at + 1 + body.size();
            lemma_stmt_marks_ascending(*body, at + 1, scope);
            lemma_stmt_marks_ascending(*remainder, mid, scope);
            let first = stmt_marks(*body, at + 1, scope);
            let second = stmt_marks(*remainder, mid, scope);
            lemma_ascending_concat(first, second, at + 1, mid, end);
            lemma_ascending_concat(own, first + second, at, at + 1, end);
        },
        _ => {
            assert(own + Seq::<Mark>::empty() =~= own);
        },
    }
}

/// The sightings of a list of branches lie at their statements and never
/// go back.
pub proof fn lemma_branches_marks_ascending(
    branches: Seq<Branch>,
    at: nat,
    scope: Seq<(Symbol, Symbol)>,
)
    ensures
        ascending_within(branches_marks(branches, at, scope), at, at + branches_size(branches)),
    decreases branches, 1nat,
{
    if branches.len() > 0 {
        let mid = at + branches[0].body.size();
        lemma_stmt_marks_ascending(branches[0].body, at, scope);
        lemma_branches_marks_ascending(branches.skip(1), mid, scope);
        lemma_ascending_concat(
            stmt_marks(branches[0].body, at, scope),
            branches_marks(branches.skip(1), mid, scope),
            at,
            mid,
            at + branches_size(branches),
        );
    }
}

/// What a statement of a tree sights is among the sightings of the tree.
proof fn lemma_node_sightings_in(
    stmt: Stmt,
    at: nat,
    scope: Seq<(Symbol, Symbol)>,
    k: nat,
    m: Mark,
)
    requires
        k < stmt.size(),
        sightings_of_all(stmt_at(stmt, k).symbols(), at + k, scope_at(stmt, scope, k)).contains(m),
    ensures
        stmt_marks(stmt, at, scope).contains(m),
    decreases stmt, 0nat,
{
    let own = sightings_of_all(stmt.symbols(), at, scope);
    let below = (k - 1) as nat;
    match stmt {
        Stmt::Let(sym, expr, _, following) => {
            let rest = stmt_marks(*following, at + 1, bind(scope, sym, expr));
            if k > 0 {
                lemma_node_sightings_in(*following, at + 1, bind(scope, sym, expr), below, m);
            }
            lemma_contains_concat(own, rest, m);
        },
        Stmt::Switch { branches, default_branch, .. } => {
            let mid = at + 1 + branches_size(branches@);
            let inner = branches_marks(branches@, at + 1, scope);
            let last = stmt_marks(*default_branch, mid, scope);
            if k > 0 {
                if below < branches_size(branches@) {
                    lemma_branch_sightings_in(branches@, at + 1, scope, below, m);
                } else {
                    lemma_node_sightings_in(
                        *default_branch,
                        mid,
                        scope,
                        (below - branches_size(branches@)) as nat,
                        m,
                    );
                }
            }
            lemma_contains_concat(inner, last, m);
            lemma_contains_concat(own, inner + last, m);
        },
        Stmt::Refcounting(_, following) => {
            if k > 0 {
                lemma_node_sightings_in(*following, at + 1, scope, below, m);
            }
            lemma_contains_concat(own, stmt_marks(*following, at + 1, scope), m);
        },
        Stmt::Join { body, remainder, .. } => {
            let mid = at + 1 + body.size();
            let first = stmt_marks(*body, at + 1, scope);
            let second = stmt_marks(*remainder, mid, scope);
            if k > 0 {
                if below < body.size() {
                    lemma_node_sightings_in(*body, at + 1, scope, below, m);
                } else {
                    lemma_node_sightings_in(*remainder, mid, scope, (below - body.size()) as nat, m);
                }
            }
            lemma_contains_concat(first, second, m);
            lemma_contains_concat(own, first + second, m);
        },
        _ => {
            lemma_contains_concat(own, Seq::<Mark>::empty(), m);
        },
    }
}

proof fn lemma_branch_sightings_in(
    branches: Seq<Branch>,
    at: nat,
    scope: Seq<(Symbol, Symbol)>,
    k: nat,
    m: Mark,
)
    requires
        k < branches_size(branches),
        sightings_of_all(
            branch_stmt_at(branches, k).symbols(),
            at + k,
            branch_scope_at(branches, scope, k),
        ).contains(m),
    ensures
        branches_marks(branches, at, scope).contains(m),
    decreases branches, 1nat,
{
    let size = branches[0].body.size();
    if k < size {
        lemma_node_sightings_in(branches[0].body, at, scope, k, m);
    } else {
        lemma_branch_sightings_in(branches.skip(1), at + size, scope, (k - size) as nat, m);
    }
    lemma_contains_concat(
        stmt_marks(branches[0].body, at, scope),
        branches_marks(branches.skip(1), at + size, scope),
        m,
    );
}

/// Each sighting of a tree is made by one of its statements.
proof fn lemma_sighting_origin(stmt: Stmt, at: nat, scope: Seq<(Symbol, Symbol)>, m: Mark) -> (k:
    nat)
    requires
        stmt_marks(stmt, at, scope).contains(m),
    ensures
        k < stmt.size(),
        sightings_of_all(stmt_at(stmt, k).symbols(), at + k, scope_at(stmt, scope, k)).contains(m),
    decreases stmt, 0nat,
{
    let own = sightings_of_all(stmt.symbols(), at, scope);
    match stmt {
        Stmt::Let(sym, expr, _, following) => {
            let rest = stmt_marks(*following, at + 1, bind(scope, sym, expr));
            lemma_contains_concat(own, rest, m);
            if own.contains(m) {
                0
            } else {
                1 + lemma_sighting_origin(*following, at + 1, bind(scope, sym, expr), m)
            }
        },
        Stmt::Switch { branches, default_branch, .. } => {
            let mid = at + 1 + branches_size(branches@);
            let inner = branches_marks(branches@, at + 1, scope);
            let last = stmt_marks(*default_branch, mid, scope);
            lemma_contains_concat(inner, last, m);
            lemma_contains_concat(own, inner + last, m);
            if own.contains(m) {
                0
            } else if inner.contains(m) {
                1 + lemma_branch_sighting_origin(branches@, at + 1, scope, m)
            } else {
                1 + branches_size(branches@) + lemma_sighting_origin(*default_branch, mid, scope, m)
            }
        },
        Stmt::Refcounting(_, following) => {
            lemma_contains_concat(own, stmt_marks(*following, at + 1, scope), m);
            if own.contains(m) {
                0
            } else {
                1 + lemma_sighting_origin(*following, at + 1, scope, m)
            }
        },
        Stmt::Join { body, remainder, .. } => {
            let mid = at + 1 + body.size();
            let first = stmt_marks(*body, at + 1, scope);
            let second = stmt_marks(*remainder, mid, scope);
            lemma_contains_concat(first, second, m);
            lemma_contains_concat(own, first + second, m);
            if own.contains(m) {
                0
            } else if first.contains(m) {
                1 + lemma_sighting_origin(*body, at + 1, scope, m)
            } else {
                1 + body.size() + lemma_sighting_origin(*remainder, mid, scope, m)
            }
        },
        _ => {
            lemma_contains_concat(own, Seq::<Mark>::empty(), m);
            0
        },
    }
}

proof fn lemma_branch_sighting_origin(
    branches: Seq<Branch>,
    at: nat,
    scope: Seq<(Symbol, Symbol)>,
    m: Mark,
) -> (k: nat)
    requires
        branches_marks(branches, at, scope).contains(m),
    ensures
        k < branches_size(branches),
        sightings_of_all(
            branch_stmt_at(branches, k).symbols(),
            at + k,
            branch_scope_at(branches, scope, k),
        ).contains(m),
    decreases branches, 1nat,
{
    let size = branches[0].body.size();
    let first = stmt_marks(branches[0].body, at, scope);
    let rest = branches_marks(branches.skip(1), at + size, scope);
    lemma_contains_concat(first, rest, m);
    if first.contains(m) {
        lemma_sighting_origin(branches[0].body, at, scope, m)
    } else {
        size + lemma_branch_sighting_origin(branches.skip(1), at + size, scope, m)
    }
}

/// A sighting made by the statement with index `k` is a sighting at `k`.
proof fn lemma_sightings_at_index(body: Stmt, k: nat, m: Mark)
    requires
        sightings_at(body, k).contains(m),
    ensures
        m.at == k,
{
    lemma_sightings_ascending(stmt_at(body, k).symbols(), k, scope_at(body, Seq::empty(), k));
    let i = choose|i: int| 0 <= i < sightings_at(body, k).len() && sightings_at(body, k)[i] == m;
    assert(sightings_at(body, k)[i].at == k);
}

/// Liveness. After the scan of a procedure body, a symbol has an entry in
/// the table exactly if it is seen at some statement of the body. The
/// entry is a statement at which the symbol is seen, and the symbol is
/// seen at no later statement.
pub proof fn lemma_last_seen_is_final_sighting(body: Stmt, s: Symbol)
    ensures
        last_seen_of(body).contains_key(s) <==> exists|k: nat|
            k < body.size() && seen_at(body, k, s),
        last_seen_of(body).contains_key(s) ==> {
            &&& last_seen_of(body)[s] < body.size()
            &&& seen_at(body, last_seen_of(body)[s], s)
            &&& forall|k: nat| k < body.size() && seen_at(body, k, s) ==> k <= last_seen_of(body)[s]
        },
{
    let marks = stmt_marks(body, 0, Seq::empty());
    let table = last_seen_of(body);
    lemma_mark_all_table(LastSeenView::empty(), marks, s);
    lemma_last_sighting(marks, s);
    lemma_stmt_marks_ascending(body, 0, Seq::empty());
    match last_sighting(marks, s) {
        Some(n) => {
            let i = choose|i: int|
                0 <= i < marks.len() && marks[i] == (Mark { symbol: s, at: n }) && forall|j: int|
                    i < j < marks.len() ==> marks[j].symbol != s;
            let m = Mark { symbol: s, at: n };
            assert(marks.contains(m));
            let origin = lemma_sighting_origin(body, 0, Seq::empty(), m);
            lemma_sightings_at_index(body, origin, m);
            assert(seen_at(body, n, s));
            assert(marks[i].at < body.size());
            assert forall|k: nat| k < body.size() && seen_at(body, k, s) implies k <= n by {
                let mk = Mark { symbol: s, at: k };
                lemma_node_sightings_in(body, 0, Seq::empty(), k, mk);
                let j = choose|j: int| 0 <= j < marks.len() && marks[j] == mk;
                assert(j <= i);
                assert(marks[j].at <= marks[i].at);
            }
        },
        None => {
            assert forall|k: nat| k < body.size() implies !seen_at(body, k, s) by {
                let mk = Mark { symbol: s, at: k };
                if seen_at(body, k, s) {
                    lemma_node_sightings_in(body, 0, Seq::empty(), k, mk);
                    let j = choose|j: int| 0 <= j < marks.len() && marks[j] == mk;
                    assert(marks[j].symbol == s);
                }
            }
        },
    }
}

/// A symbol that a statement refers to is seen at that statement, so its
/// entry in the table is that statement or a later one.
pub proof fn lemma_reference_is_seen(body: Stmt, k: nat, s: Symbol)
    requires
        k < body.size(),
        stmt_at(body, k).symbols().contains(s),
    ensures
        seen_at(body, k, s),
        last_seen_of(body).contains_key(s),
        k <= last_seen_of(body)[s],
{
    lemma_sightings_contain(stmt_at(body, k).symbols(), k, scope_at(body, Seq::empty(), k), s);
    assert(seen_at(body, k, s));
    lemma_last_seen_is_final_sighting(body, s);
}

/// Ownership. Where a statement refers to a view, each structure that the
/// view is a view into is seen at that statement too: its source, the
/// source of its source, and so on. The entry of such a structure in the
/// table is therefore that statement or a later one: the structure is not
/// released before a use of a view into it.
pub proof fn lemma_backing_structure_outlives_view(
    body: Stmt,
    k: nat,
    view: Symbol,
    structure: Symbol,
)
    requires
        k < body.size(),
        stmt_at(body, k).symbols().contains(view),
        owners_of(scope_at(body, Seq::empty(), k), view).contains(structure),
    ensures
        seen_at(body, k, structure),
        last_seen_of(body).contains_key(structure),
        k <= last_seen_of(body)[structure],
{
    lemma_sightings_contain(stmt_at(body, k).symbols(), k, scope_at(body, Seq::empty(), k), view);
    assert(seen_at(body, k, structure));
    lemma_last_seen_is_final_sighting(body, structure);
}

/// Ownership, for the direct source. Where a statement refers to a view
/// into a structure, the structure is seen at that statement too.
pub proof fn lemma_structure_outlives_view(body: Stmt, k: nat, view: Symbol, structure: Symbol)
    requires
        k < body.size(),
        stmt_at(body, k).symbols().contains(view),
        owner_of(scope_at(body, Seq::empty(), k), view) == Some(structure),
    ensures
        seen_at(body, k, structure),
        last_seen_of(body).contains_key(structure),
        k <= last_seen_of(body)[structure],
{
    let scope = scope_at(body, Seq::empty(), k);
    lemma_owner_is_nearest(scope, view);
    assert(owners_of(scope, view).contains(owners_of(scope, view)[0]));
    lemma_backing_structure_outlives_view(body, k, view, structure);
}

/// Whether `stmt` binds `view` to a field, tag id or union member of a
/// structure.
pub open spec fn binds_view(stmt: Stmt, view: Symbol) -> bool {
    stmt matches Stmt::Let(sym, expr, _, _) && sym == view && expr.source() is Some
}

/// The statements and scopes of a subtree are those of the tree.
proof fn lemma_subtree(stmt: Stmt, scope: Seq<(Symbol, Symbol)>, k: nat, m: nat)
    requires
        k < stmt.size(),
        m < stmt_at(stmt, k).size(),
    ensures
        k + m < stmt.size(),
        stmt_at(stmt, k + m) == stmt_at(stmt_at(stmt, k), m),
        scope_at(stmt, scope, k + m) == scope_at(stmt_at(stmt, k), scope_at(stmt, scope, k), m),
    decreases stmt, 0nat,
{
    if k > 0 {
        let below = (k - 1) as nat;
        match stmt {
            Stmt::Let(sym, expr, _, following) => {
                lemma_subtree(*following, bind(scope, sym, expr), below, m);
            },
            Stmt::Switch { branches, default_branch, .. } => {
                if below < branches_size(branches@) {
                    lemma_branch_subtree(branches@, scope, below, m);
                } else {
                    lemma_subtree(
                        *default_branch,
                        scope,
                        (below - branches_size(branches@)) as nat,
                        m,
                    );
                }
            },
            Stmt::Refcounting(_, following) => {
                lemma_subtree(*following, scope, below, m);
            },
            Stmt::Join { body, remainder, .. } => {
                if below < body.size() {
                    lemma_subtree(*body, scope, below, m);
                } else {
                    lemma_subtree(*remainder, scope, (below - body.size()) as nat, m);
                }
            },
            _ => {},
        }
    }
}

proof fn lemma_branch_subtree(branches: Seq<Branch>, scope: Seq<(Symbol, Symbol)>, k: nat, m: nat)
    requires
        k < branches_size(branches),
        m < branch_stmt_at(branches, k).size(),
    ensures
        k + m < branches_size(branches),
        branch_stmt_at(branches, k + m) == stmt_at(branch_stmt_at(branches, k), m),
        branch_scope_at(branches, scope, k + m) == scope_at(
            branch_stmt_at(branches, k),
            branch_scope_at(branches, scope, k),
            m,
        ),
    decreases branches, 1nat,
{
    let size = branches[0].body.size();
    if k < size {
        lemma_subtree(branches[0].body, scope, k, m);
    } else {
        lemma_branch_subtree(branches.skip(1), scope, (k - size) as nat, m);
    }
}

/// The structure that a symbol is a view into changes only where the
/// symbol is bound anew.
proof fn lemma_scope_keeps_owner(stmt: Stmt, scope: Seq<(Symbol, Symbol)>, m: nat, view: Symbol)
    requires
        m < stmt.size(),
        forall|i: nat| i < m ==> !binds_view(#[trigger] stmt_at(stmt, i), view),
    ensures
        owner_of(scope_at(stmt, scope, m), view) == owner_of(scope, view),
    decreases stmt, 0nat,
{
    if m > 0 {
        let below = (m - 1) as nat;
        assert(!binds_view(stmt_at(stmt, 0), view));
        match stmt {
            Stmt::Let(sym, expr, _, following) => {
                assert forall|i: nat| i < below implies !binds_view(
                    #[trigger] stmt_at(*following, i),
                    view,
                ) by {
                    assert(stmt_at(stmt, i + 1) == stmt_at(*following, i));
                }
                if let Some(source) = expr.source() {
                    assert(scope.push((sym, source)).drop_last() =~= scope);
                }
                lemma_scope_keeps_owner(*following, bind(scope, sym, expr), below, view);
            },
            Stmt::Switch { branches, default_branch, .. } => {
                let inner = branches_size(branches@);
                if below < inner {
                    assert forall|i: nat| i < below implies !binds_view(
                        #[trigger] branch_stmt_at(branches@, i),
                        view,
                    ) by {
                        assert(stmt_at(stmt, i + 1) == branch_stmt_at(branches@, i));
                    }
                    lemma_branch_scope_keeps_owner(branches@, scope, below, view);
                } else {
                    let rest = (below - inner) as nat;
                    assert forall|i: nat| i < rest implies !binds_view(
                        #[trigger] stmt_at(*default_branch, i),
                        view,
                    ) by {
                        assert(stmt_at(stmt, i + 1 + inner) == stmt_at(*default_branch, i));
                    }
                    lemma_scope_keeps_owner(*default_branch, scope, rest, view);
                }
            },
            Stmt::Refcounting(_, following) => {
                assert forall|i: nat| i < below implies !binds_view(
                    #[trigger] stmt_at(*following, i),
                    view,
                ) by {
                    assert(stmt_at(stmt, i + 1) == stmt_at(*following, i));
                }
                lemma_scope_keeps_owner(*following, scope, below, view);
            },
            Stmt::Join { body, remainder, .. } => {
                if below < body.size() {
                    assert forall|i: nat| i < below implies !binds_view(
                        #[trigger] stmt_at(*body, i),
                        view,
                    ) by {
                        assert(stmt_at(stmt, i + 1) == stmt_at(*body, i));
                    }
                    lemma_scope_keeps_owner(*body, scope, below, view);
                } else {
                    let rest = (below - body.size()) as nat;
                    assert forall|i: nat| i < rest implies !binds_view(
                        #[trigger] stmt_at(*remainder, i),
                        view,
                    ) by {
                        assert(stmt_at(stmt, i + 1 + body.size()) == stmt_at(*remainder, i));
                    }
                    lemma_scope_keeps_owner(*remainder, scope, rest, view);
                }
            },
            _ => {},
        }
    }
}

proof fn lemma_branch_scope_keeps_owner(
    branches: Seq<Branch>,
    scope: Seq<(Symbol, Symbol)>,
    m: nat,
    view: Symbol,
)
    requires
        m < branches_size(branches),
        forall|i: nat| i < m ==> !binds_view(#[trigger] branch_stmt_at(branches, i), view),
    ensures
        owner_of(branch_scope_at(branches, scope, m), view) == owner_of(scope, view),
    decreases branches, 1nat,
{
    let size = branches[0].body.size();
    if m < size {
        assert forall|i: nat| i < m implies !binds_view(
            #[trigger] stmt_at(branches[0].body, i),
            view,
        ) by {
            assert(branch_stmt_at(branches, i) == stmt_at(branches[0].body, i));
        }
        lemma_scope_keeps_owner(branches[0].body, scope, m, view);
    } else {
        let rest = (m - size) as nat;
        assert forall|i: nat| i < rest implies !binds_view(
            #[trigger] branch_stmt_at(branches.skip(1), i),
            view,
        ) by {
            assert(branch_stmt_at(branches, i + size) == branch_stmt_at(branches.skip(1), i));
        }
        lemma_branch_scope_keeps_owner(branches.skip(1), scope, rest, view);
    }
}

/// In the continuation of a binding of a view, the view has the bound
/// structure as its source for as long as it is not bound anew.
pub proof fn lemma_view_owner_in_continuation(body: Stmt, k: nat, j: nat)
    requires
        k < body.size(),
        stmt_at(body, k) is Let,
        stmt_at(body, k)->Let_1.source() is Some,
        k < j < k + stmt_at(body, k).size(),
        forall|i: nat| k < i < j ==> !binds_view(#[trigger] stmt_at(body, i), stmt_at(body, k)->Let_0),
    ensures
        j < body.size(),
        owner_of(scope_at(body, Seq::empty(), j), stmt_at(body, k)->Let_0) == stmt_at(
            body,
            k,
        )->Let_1.source(),
{
    let binding = stmt_at(body, k);
    let view = binding->Let_0;
    let expr = binding->Let_1;
    let following = *binding->Let_3;
    let structure = expr.source()->Some_0;
    let outer = scope_at(body, Seq::empty(), k);
    let m = (j - k) as nat;
    let below = (m - 1) as nat;
    lemma_subtree(body, Seq::empty(), k, m);
    assert(scope_at(binding, outer, m) == scope_at(following, bind(outer, view, expr), below));
    assert forall|i: nat| i < below implies !binds_view(#[trigger] stmt_at(following, i), view) by {
        lemma_subtree(body, Seq::empty(), k, i + 1);
        assert(stmt_at(binding, i + 1) == stmt_at(following, i));
        assert(!binds_view(stmt_at(body, k + i + 1), view));
    }
    lemma_scope_keeps_owner(following, bind(outer, view, expr), below, view);
    assert(owner_of(bind(outer, view, expr), view) == Some(structure));
}

/// Ownership, for a whole continuation. Let the statement with index `k`
/// bind a symbol to a field, tag id or union member of a structure. Where
/// a statement `j` of the continuation refers to the bound symbol, and the
/// symbol has not been bound to another view in between, the entry of the
/// structure in the table is `j` or a later statement: the structure is
/// released no earlier than the last use of the view.
pub proof fn lemma_structure_outlives_uses_of_view(body: Stmt, k: nat, j: nat)
    requires
        k < body.size(),
        stmt_at(body, k) is Let,
        stmt_at(body, k)->Let_1.source() is Some,
        k < j < k + stmt_at(body, k).size(),
        stmt_at(body, j).symbols().contains(stmt_at(body, k)->Let_0),
        forall|i: nat| k < i < j ==> !binds_view(#[trigger] stmt_at(body, i), stmt_at(body, k)->Let_0),
    ensures
        last_seen_of(body).contains_key(stmt_at(body, k)->Let_1.source()->Some_0),
        j <= last_seen_of(body)[stmt_at(body, k)->Let_1.source()->Some_0],
{
    lemma_view_owner_in_continuation(body, k, j);
    lemma_structure_outlives_view(
        body,
        j,
        stmt_at(body, k)->Let_0,
        stmt_at(body, k)->Let_1.source()->Some_0,
    );
}

/// A sighting at a statement comes from a symbol that the statement
/// refers to: the symbol itself, or a view into it.
proof fn lemma_sighting_source(
    syms: Seq<Symbol>,
    at: nat,
    scope: Seq<(Symbol, Symbol)>,
    s: Symbol,
) -> (v: Symbol)
    requires
        sightings_of_all(syms, at, scope).contains(Mark { symbol: s, at }),
    ensures
        syms.contains(v),
        v == s || owners_of(scope, v).contains(s),
    decreases syms.len(),
{
    let m = Mark { symbol: s, at };
    if syms.len() == 0 {
        assert(false);
        s
    } else {
        let a = sightings_of_all(syms.drop_last(), at, scope);
        let b = sightings(syms.last(), at, scope);
        lemma_contains_concat(a, b, m);
        if a.contains(m) {
            let v = lemma_sighting_source(syms.drop_last(), at, scope, s);
            let i = choose|i: int| 0 <= i < syms.drop_last().len() && syms.drop_last()[i] == v;
            assert(syms[i] == v);
            v
        } else {
            let i = choose|i: int| 0 <= i < b.len() && b[i] == m;
            assert(syms[syms.len() - 1] == syms.last());
            if i > 0 {
                assert(owners_of(scope, syms.last())[i - 1] == s);
            }
            syms.last()
        }
    }
}

/// Where a structure is among those that a view is a view into, the
/// chain goes on from it: the scope holds a binding to the structure, and
/// whatever the structure was a view into when that binding was made, the
/// view is a view into as well.
proof fn lemma_chain_continues(scope: Seq<(Symbol, Symbol)>, view: Symbol, link: Symbol) -> (i:
    int)
    requires
        owners_of(scope, view).contains(link),
    ensures
        0 <= i < scope.len(),
        scope[i].1 == link,
        forall|t: Symbol| #[trigger]
            owners_of(scope.take(i), link).contains(t) ==> owners_of(scope, view).contains(t),
    decreases scope.len(),
{
    if scope.len() == 0 {
        assert(false);
        0
    } else {
        let front = scope.drop_last();
        let last = scope.last();
        if last.0 == view {
            let rest = owners_of(front, last.1);
            let all = owners_of(scope, view);
            assert(all =~= seq![last.1] + rest);
            if last.1 == link {
                let i = scope.len() - 1;
                assert(scope.take(i) =~= front);
                assert forall|t: Symbol| #[trigger] rest.contains(t) implies all.contains(t) by {
                    let n = choose|n: int| 0 <= n < rest.len() && rest[n] == t;
                    assert(all[n + 1] == t);
                }
                i
            } else {
                let n = choose|n: int| 0 <= n < all.len() && all[n] == link;
                assert(rest[n - 1] == link);
                let i = lemma_chain_continues(front, last.1, link);
                assert(front.take(i) =~= scope.take(i));
                assert forall|t: Symbol| #[trigger]
                    owners_of(scope.take(i), link).contains(t) implies all.contains(t) by {
                    assert(rest.contains(t));
                    let n = choose|n: int| 0 <= n < rest.len() && rest[n] == t;
                    assert(all[n + 1] == t);
                }
                i
            }
        } else {
            let i = lemma_chain_continues(front, view, link);
            assert(front.take(i) =~= scope.take(i));
            i
        }
    }
}

/// The scope at a statement extends the scope at the root of the tree.
proof fn lemma_scope_extends(stmt: Stmt, scope: Seq<(Symbol, Symbol)>, j: nat)
    requires
        j < stmt.size(),
    ensures
        scope.len() <= scope_at(stmt, scope, j).len(),
        scope_at(stmt, scope, j).take(scope.len() as int) == scope,
    decreases stmt, 0nat,
{
    if j == 0 {
        assert(scope.take(scope.len() as int) =~= scope);
    } else {
        let below = (j - 1) as nat;
        match stmt {
            Stmt::Let(sym, expr, _, following) => {
                let inner = bind(scope, sym, expr);
                lemma_scope_extends(*following, inner, below);
                assert(scope_at(stmt, scope, j).take(scope.len() as int) =~= inner.take(
                    scope.len() as int,
                ));
                assert(inner.take(scope.len() as int) =~= scope);
            },
            Stmt::Switch { branches, default_branch, .. } => {
                if below < branches_size(branches@) {
                    lemma_branch_scope_extends(branches@, scope, below);
                } else {
                    lemma_scope_extends(
                        *default_branch,
                        scope,
                        (below - branches_size(branches@)) as nat,
                    );
                }
            },
            Stmt::Refcounting(_, following) => {
                lemma_scope_extends(*following, scope, below);
            },
            Stmt::Join { body, remainder, .. } => {
                if below < body.size() {
                    lemma_scope_extends(*body, scope, below);
                } else {
                    lemma_scope_extends(*remainder, scope, (below - body.size()) as nat);
                }
            },
            _ => {},
        }
    }
}

proof fn lemma_branch_scope_extends(branches: Seq<Branch>, scope: Seq<(Symbol, Symbol)>, j: nat)
    requires
        j < branches_size(branches),
    ensures
        scope.len() <= branch_scope_at(branches, scope, j).len(),
        branch_scope_at(branches, scope, j).take(scope.len() as int) == scope,
    decreases branches, 1nat,
{
    let size = branches[0].body.size();
    if j < size {
        lemma_scope_extends(branches[0].body, scope, j);
    } else {
        lemma_branch_scope_extends(branches.skip(1), scope, (j - size) as nat);
    }
}

/// Whether the statement with index `l` of the tree made the binding at
/// position `i` of the scope at the statement with index `j`: it is a
/// `Let` that binds a view, the binding is the one at `i`, and the scope
/// at `l` is the scope below `i`.
pub open spec fn made_binding(
    stmt: Stmt,
    scope: Seq<(Symbol, Symbol)>,
    j: nat,
    i: int,
    l: nat,
) -> bool {
    &&& l < j
    &&& stmt_at(stmt, l) is Let
    &&& stmt_at(stmt, l)->Let_1.source() == Some(scope_at(stmt, scope, j)[i].1)
    &&& stmt_at(stmt, l)->Let_0 == scope_at(stmt, scope, j)[i].0
    &&& scope_at(stmt, scope, l) == scope_at(stmt, scope, j).take(i)
}

/// The same for the bodies of `branches`.
pub open spec fn branch_made_binding(
    branches: Seq<Branch>,
    scope: Seq<(Symbol, Symbol)>,
    j: nat,
    i: int,
    l: nat,
) -> bool {
    &&& l < j
    &&& branch_stmt_at(branches, l) is Let
    &&& branch_stmt_at(branches, l)->Let_1.source() == Some(
        branch_scope_at(branches, scope, j)[i].1,
    )
    &&& branch_stmt_at(branches, l)->Let_0 == branch_scope_at(branches, scope, j)[i].0
    &&& branch_scope_at(branches, scope, l) == branch_scope_at(branches, scope, j).take(i)
}

/// Each binding of the scope at a statement, beyond those of the scope at
/// the root, was made by an earlier statement of the tree.
proof fn lemma_scope_entry(stmt: Stmt, scope: Seq<(Symbol, Symbol)>, j: nat, i: int) -> (l: nat)
    requires
        j < stmt.size(),
        scope.len() <= i < scope_at(stmt, scope, j).len(),
    ensures
        made_binding(stmt, scope, j, i, l),
    decreases stmt, 0nat,
{
    let below = (j - 1) as nat;
    match stmt {
        Stmt::Let(sym, expr, _, following) => {
            let inner = bind(scope, sym, expr);
            lemma_scope_extends(*following, inner, below);
            if i < inner.len() {
                assert(scope_at(stmt, scope, j).take(i) =~= inner.take(i));
                assert(inner.take(i) =~= scope);
                assert(scope_at(stmt, scope, j).take(inner.len() as int)[i] == inner[i]);
                0
            } else {
                let l = lemma_scope_entry(*following, inner, below, i);
                assert(stmt_at(stmt, l + 1) == stmt_at(*following, l));
                assert(scope_at(stmt, scope, l + 1) == scope_at(*following, inner, l));
                l + 1
            }
        },
        Stmt::Switch { branches, default_branch, .. } => {
            let inner = branches_size(branches@);
            if below < inner {
                let l = lemma_branch_scope_entry(branches@, scope, below, i);
                assert(stmt_at(stmt, l + 1) == branch_stmt_at(branches@, l));
                assert(scope_at(stmt, scope, l + 1) == branch_scope_at(branches@, scope, l));
                l + 1
            } else {
                let l = lemma_scope_entry(*default_branch, scope, (below - inner) as nat, i);
                assert(stmt_at(stmt, l + 1 + inner) == stmt_at(*default_branch, l));
                assert(scope_at(stmt, scope, l + 1 + inner) == scope_at(*default_branch, scope, l));
                l + 1 + inner
            }
        },
        Stmt::Refcounting(_, following) => {
            let l = lemma_scope_entry(*following, scope, below, i);
            assert(stmt_at(stmt, l + 1) == stmt_at(*following, l));
            assert(scope_at(stmt, scope, l + 1) == scope_at(*following, scope, l));
            l + 1
        },
        Stmt::Join { body, remainder, .. } => {
            if below < body.size() {
                let l = lemma_scope_entry(*body, scope, below, i);
                assert(stmt_at(stmt, l + 1) == stmt_at(*body, l));
                assert(scope_at(stmt, scope, l + 1) == scope_at(*body, scope, l));
                l + 1
            } else {
                let l = lemma_scope_entry(*remainder, scope, (below - body.size()) as nat, i);
                assert(stmt_at(stmt, l + 1 + body.size()) == stmt_at(*remainder, l));
                assert(scope_at(stmt, scope, l + 1 + body.size()) == scope_at(
                    *remainder,
                    scope,
                    l,
                ));
                l + 1 + body.size()
            }
        },
        _ => 0,
    }
}

proof fn lemma_branch_scope_entry(
    branches: Seq<Branch>,
    scope: Seq<(Symbol, Symbol)>,
    j: nat,
    i: int,
) -> (l: nat)
    requires
        j < branches_size(branches),
        scope.len() <= i < branch_scope_at(branches, scope, j).len(),
    ensures
        branch_made_binding(branches, scope, j, i, l),
    decreases branches, 1nat,
{
    let size = branches[0].body.size();
    if j < size {
        let l = lemma_scope_entry(branches[0].body, scope, j, i);
        assert(branch_stmt_at(branches, l) == stmt_at(branches[0].body, l));
        l
    } else {
        let l = lemma_branch_scope_entry(branches.skip(1), scope, (j - size) as nat, i);
        assert(branch_stmt_at(branches, l + size) == branch_stmt_at(branches.skip(1), l));
        assert(branch_scope_at(branches, scope, l + size) == branch_scope_at(
            branches.skip(1),
            scope,
            l,
        ));
        l + size
    }
}

/// Whether the statement with index `k` of `body` refers to `v`, and `v`
/// is `s` or, in the scope of the statement, a view into `s`.
pub open spec fn reaches(body: Stmt, k: nat, v: Symbol, s: Symbol) -> bool {
    &&& stmt_at(body, k).symbols().contains(v)
    &&& v == s || owners_of(scope_at(body, Seq::empty(), k), v).contains(s)
}

/// What it is to be seen. A symbol is seen at a statement exactly if the
/// statement refers to it, or refers to a symbol that is, in the scope of
/// the statement, a view into it.
pub proof fn lemma_seen_is_reference_or_view(body: Stmt, k: nat, s: Symbol)
    requires
        k < body.size(),
    ensures
        seen_at(body, k, s) <==> exists|v: Symbol| reaches(body, k, v, s),
{
    let scope = scope_at(body, Seq::empty(), k);
    let syms = stmt_at(body, k).symbols();
    if seen_at(body, k, s) {
        let v = lemma_sighting_source(syms, k, scope, s);
        assert(reaches(body, k, v, s));
    }
    if exists|v: Symbol| reaches(body, k, v, s) {
        let v = choose|v: Symbol| reaches(body, k, v, s);
        lemma_sightings_contain(syms, k, scope, v);
    }
}

/// Whether no statement of `body` binds a view into a structure.
pub open spec fn binds_no_view(body: Stmt) -> bool {
    forall|j: nat|
        j < body.size() && (#[trigger] stmt_at(body, j)) is Let ==> stmt_at(
            body,
            j,
        )->Let_1.source() is None
}

/// In a body that binds no view, a symbol is seen exactly at the
/// statements that refer to it.
pub proof fn lemma_seen_without_views(body: Stmt, k: nat, s: Symbol)
    requires
        binds_no_view(body),
        k < body.size(),
    ensures
        seen_at(body, k, s) <==> stmt_at(body, k).symbols().contains(s),
{
    let scope = scope_at(body, Seq::empty(), k);
    if scope.len() > 0 {
        let l = lemma_scope_entry(body, Seq::empty(), k, 0);
        assert(stmt_at(body, l)->Let_1.source() is None);
    }
    if seen_at(body, k, s) {
        let v = lemma_sighting_source(stmt_at(body, k).symbols(), k, scope, s);
        assert(owners_of(scope, v).len() == 0);
    }
    if stmt_at(body, k).symbols().contains(s) {
        lemma_reference_is_seen(body, k, s);
    }
}

/// Liveness, for a body that binds no view. A symbol has an entry in the
/// table exactly if some statement of the body refers to it. The entry is
/// a statement that refers to the symbol, and no later statement does.
pub proof fn lemma_last_seen_is_final_reference(body: Stmt, s: Symbol)
    requires
        binds_no_view(body),
    ensures
        last_seen_of(body).contains_key(s) <==> exists|k: nat|
            k < body.size() && (#[trigger] stmt_at(body, k)).symbols().contains(s),
        last_seen_of(body).contains_key(s) ==> {
            &&& last_seen_of(body)[s] < body.size()
            &&& stmt_at(body, last_seen_of(body)[s]).symbols().contains(s)
            &&& forall|k: nat|
                k < body.size() && (#[trigger] stmt_at(body, k)).symbols().contains(s) ==> k
                    <= last_seen_of(body)[s]
        },
{
    lemma_last_seen_is_final_sighting(body, s);
    assert forall|k: nat| k < body.size() implies (seen_at(body, k, s) <==> (#[trigger] stmt_at(
        body,
        k,
    )).symbols().contains(s)) by {
        lemma_seen_without_views(body, k, s);
    }
    if last_seen_of(body).contains_key(s) {
        let k = choose|k: nat| k < body.size() && seen_at(body, k, s);
        assert(stmt_at(body, k).symbols().contains(s));
    }
}

/// Whether the symbol that the statement with index `k` binds is used as
/// a binding is meant to be: statements refer to it in the continuation
/// of the binding only, and it is not bound to another view there.
pub open spec fn bound_once(body: Stmt, k: nat) -> bool {
    &&& forall|j: nat|
        j < body.size() && (#[trigger] stmt_at(body, j)).symbols().contains(
            stmt_at(body, k)->Let_0,
        ) ==> k <= j < k + stmt_at(body, k).size()
    &&& forall|i: nat|
        k < i < k + stmt_at(body, k).size() ==> !binds_view(
            #[trigger] stmt_at(body, i),
            stmt_at(body, k)->Let_0,
        )
}

/// Ownership, as an order of entries. Let the statement with index `k`
/// bind a symbol to a field, tag id or union member of a structure, and
/// let the symbol be used as a binding is meant to be. Then the entry of
/// the structure in the table is no earlier than the entry of the view:
/// the structure is released together with the view or after it. This
/// holds also where the view is seen last through a view into itself.
pub proof fn lemma_structure_entry_is_no_earlier(body: Stmt, k: nat)
    requires
        k < body.size(),
        stmt_at(body, k) is Let,
        stmt_at(body, k)->Let_1.source() is Some,
        bound_once(body, k),
    ensures
        last_seen_of(body).contains_key(stmt_at(body, k)->Let_0),
        last_seen_of(body).contains_key(stmt_at(body, k)->Let_1.source()->Some_0),
        last_seen_of(body)[stmt_at(body, k)->Let_0] <= last_seen_of(body)[stmt_at(
            body,
            k,
        )->Let_1.source()->Some_0],
{
    let binding = stmt_at(body, k);
    let view = binding->Let_0;
    let expr = binding->Let_1;
    let structure = expr.source()->Some_0;
    let table = last_seen_of(body);
    assert(binding.symbols()[0] == view);
    assert(binding.symbols()[1] == structure);
    lemma_reference_is_seen(body, k, view);
    lemma_reference_is_seen(body, k, structure);
    lemma_last_seen_is_final_sighting(body, view);
    let j = table[view];
    let scope = scope_at(body, Seq::empty(), j);
    let v = lemma_sighting_source(stmt_at(body, j).symbols(), j, scope, view);
    if v == view {
        if j > k {
            lemma_structure_outlives_uses_of_view(body, k, j);
        }
    } else {
        let i = lemma_chain_continues(scope, v, view);
        let l = lemma_scope_entry(body, Seq::empty(), j, i);
        let maker = stmt_at(body, l);
        assert(maker.symbols()[1] == view);
        assert(maker.symbols().contains(view));
        if l > k {
            lemma_view_owner_in_continuation(body, k, l);
            lemma_owner_is_nearest(scope.take(i), view);
            assert(owners_of(scope.take(i), view).contains(owners_of(scope.take(i), view)[0]));
            lemma_backing_structure_outlives_view(body, j, v, structure);
        }
    }
}

} // verus!
