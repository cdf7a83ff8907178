//! The liveness scan: the last statement at which each symbol is seen.
//!
//! Statements are identified by their index in the pre-order walk of the
//! procedure body (see [`Stmt::size`]), which is the order in which the
//! statements are lowered. A later statement has a greater index, so the
//! last sighting of a symbol is the one with the greatest index.
//!
//! A symbol bound to a field, a tag id or a union member of a structure is
//! a view into that structure. Within the continuation of the binding,
//! each reference to the view is a sighting of the structure as well, so
//! that the structure is not released while the view is in use. The
//! bindings form a scope: a binding made in one branch of a `Switch`, or in
//! the body of a `Join`, is unknown in the other branches and in the
//! remainder. A sighting is forwarded along the whole chain of sources: a
//! view of a view keeps the structure at the end of the chain alive.

use vstd::prelude::*;
use crate::ir::{branches_size, element_symbols, param_symbols};
use crate::ir::{Branch, Call, CallType, Expr, ListLiteralElement, Param, Stmt, TagName};
use crate::symbol::Symbol;
use crate::symbol_map::SymbolMap;

verus! {

/// A sighting: `symbol` is seen at the statement with index `at`.
pub struct Mark {
    pub symbol: Symbol,
    pub at: nat,
}

/// The last-seen table as a mathematical value.
pub struct LastSeenView {
    /// The index of the statement at which each symbol was seen last.
    pub table: Map<Symbol, nat>,
    /// The symbols of the table, in the order in which they were first
    /// seen.
    pub order: Seq<Symbol>,
}

impl LastSeenView {
    /// The table in which no symbol has been seen.
    pub open spec fn empty() -> LastSeenView {
        LastSeenView { table: Map::empty(), order: Seq::empty() }
    }

    /// The table after one more sighting.
    pub open spec fn mark(self, m: Mark) -> LastSeenView {
        LastSeenView {
            table: self.table.insert(m.symbol, m.at),
            order: if self.table.contains_key(m.symbol) {
                self.order
            } else {
                self.order.push(m.symbol)
            },
        }
    }

    /// The table after the sightings `marks`, first to last.
    pub open spec fn mark_all(self, marks: Seq<Mark>) -> LastSeenView
        decreases marks.len(),
    {
        if marks.len() == 0 {
            self
        } else {
            self.mark_all(marks.drop_last()).mark(marks.last())
        }
    }

    /// `order` lists the symbols of `table`, each once.
    pub open spec fn wf(self) -> bool {
        &&& self.order.no_duplicates()
        &&& forall|s: Symbol| self.table.contains_key(s) <==> self.order.contains(s)
    }
}

/// The structure that `sym` is a view into, in the scope `scope`: a list
/// of pairs of a derived symbol and its source, innermost binding last.
pub open spec fn owner_of(scope: Seq<(Symbol, Symbol)>, sym: Symbol) -> Option<Symbol>
    decreases scope.len(),
{
    if scope.len() == 0 {
        None
    } else if scope.last().0 == sym {
        Some(scope.last().1)
    } else {
        owner_of(scope.drop_last(), sym)
    }
}

/// The structures that `sym` is a view into, nearest first: its source,
/// the source of its source, and so on. The source of a view is looked up
/// among the bindings that were in force when the view was bound.
pub open spec fn owners_of(scope: Seq<(Symbol, Symbol)>, sym: Symbol) -> Seq<Symbol>
    decreases scope.len(),
{
    if scope.len() == 0 {
        seq![]
    } else if scope.last().0 == sym {
        seq![scope.last().1] + owners_of(scope.drop_last(), scope.last().1)
    } else {
        owners_of(scope.drop_last(), sym)
    }
}

/// Sightings of `syms` at statement `at`.
pub open spec fn marks_at(syms: Seq<Symbol>, at: nat) -> Seq<Mark> {
    Seq::new(syms.len(), |i: int| Mark { symbol: syms[i], at })
}

/// The sightings that one reference to `sym` at statement `at` makes: the
/// symbol itself and, if it is a view, each structure that it is a view
/// into, so that no such structure is released while the view is in use.
pub open spec fn sightings(sym: Symbol, at: nat, scope: Seq<(Symbol, Symbol)>) -> Seq<Mark> {
    marks_at(seq![sym] + owners_of(scope, sym), at)
}

/// The sightings that references to `syms` at statement `at` make.
pub open spec fn sightings_of_all(syms: Seq<Symbol>, at: nat, scope: Seq<(Symbol, Symbol)>) -> Seq<
    Mark,
>
    decreases syms.len(),
{
    if syms.len() == 0 {
        seq![]
    } else {
        sightings_of_all(syms.drop_last(), at, scope) + sightings(syms.last(), at, scope)
    }
}

/// The scope in the continuation of `Let(sym, expr, ..)`: where `expr`
/// extracts from a structure, `sym` is a view into it.
pub open spec fn bind(scope: Seq<(Symbol, Symbol)>, sym: Symbol, expr: Expr) -> Seq<
    (Symbol, Symbol),
> {
    match expr.source() {
        Some(source) => scope.push((sym, source)),
        None => scope,
    }
}

/// The sightings in the tree rooted at `stmt`, whose index is `at`, in the
/// order of the walk.
pub open spec fn stmt_marks(stmt: Stmt, at: nat, scope: Seq<(Symbol, Symbol)>) -> Seq<Mark>
    decreases stmt,
{
    sightings_of_all(stmt.symbols(), at, scope) + match stmt {
        Stmt::Let(sym, expr, _, following) => stmt_marks(*following, at + 1, bind(scope, sym, expr)),
        Stmt::Switch { branches, default_branch, .. } => branches_marks(branches@, at + 1, scope)
            + stmt_marks(*default_branch, at + 1 + branches_size(branches@), scope),
        Stmt::Refcounting(_, following) => stmt_marks(*following, at + 1, scope),
        Stmt::Join { body, remainder, .. } => stmt_marks(*body, at + 1, scope) + stmt_marks(
            *remainder,
            at + 1 + body.size(),
            scope,
        ),
        _ => seq![],
    }
}

/// The sightings in the bodies of `branches`, the first of which has index
/// `at`.
pub open spec fn branches_marks(branches: Seq<Branch>, at: nat, scope: Seq<(Symbol, Symbol)>) -> Seq<
    Mark,
>
    decreases branches,
{
    if branches.len() == 0 {
        seq![]
    } else {
        stmt_marks(branches[0].body, at, scope) + branches_marks(
            branches.skip(1),
            at + branches[0].body.size(),
            scope,
        )
    }
}

/// Marking first `a` and then `b` is marking `a + b`.
pub proof fn lemma_mark_all_concat(v: LastSeenView, a: Seq<Mark>, b: Seq<Mark>)
    ensures
        v.mark_all(a + b) == v.mark_all(a).mark_all(b),
    decreases b.len(),
{
    if b.len() == 0 {
        assert(a + b =~= a);
    } else {
        assert((a + b).drop_last() =~= a + b.drop_last());
        assert((a + b).last() == b.last());
        lemma_mark_all_concat(v, a, b.drop_last());
    }
}

/// One more sighting keeps a table well formed.
pub proof fn lemma_mark_wf(w: LastSeenView, m: Mark)
    requires
        w.wf(),
    ensures
        w.mark(m).wf(),
{
    let r = w.mark(m);
    if w.table.contains_key(m.symbol) {
        assert forall|s: Symbol| r.table.contains_key(s) <==> r.order.contains(s) by {
            assert(r.table.contains_key(s) <==> w.table.contains_key(s));
        }
    } else {
        assert(!w.order.contains(m.symbol));
        assert forall|i: int, j: int| 0 <= i < r.order.len() && 0 <= j < r.order.len() && i != j
            implies r.order[i] != r.order[j] by {
            if i < w.order.len() {
                assert(w.order.contains(w.order[i]));
            }
            if j < w.order.len() {
                assert(w.order.contains(w.order[j]));
            }
        }
        assert forall|s: Symbol| r.table.contains_key(s) <==> r.order.contains(s) by {
            if s == m.symbol {
                assert(r.order[r.order.len() - 1] == s);
            } else {
                if w.order.contains(s) {
                    let i = choose|i: int| 0 <= i < w.order.len() && w.order[i] == s;
                    assert(r.order[i] == s);
                }
                if r.order.contains(s) {
                    let i = choose|i: int| 0 <= i < r.order.len() && r.order[i] == s;
                    assert(w.order[i] == s);
                }
            }
        }
    }
}

/// Marking keeps a table well formed.
pub proof fn lemma_mark_all_wf(v: LastSeenView, marks: Seq<Mark>)
    requires
        v.wf(),
    ensures
        v.mark_all(marks).wf(),
    decreases marks.len(),
{
    if marks.len() > 0 {
        lemma_mark_all_wf(v, marks.drop_last());
        lemma_mark_wf(v.mark_all(marks.drop_last()), marks.last());
    }
}

/// The sightings of `a + b` are those of `a` followed by those of `b`.
pub proof fn lemma_sightings_concat(
    a: Seq<Symbol>,
    b: Seq<Symbol>,
    at: nat,
    scope: Seq<(Symbol, Symbol)>,
)
    ensures
        sightings_of_all(a + b, at, scope) == sightings_of_all(a, at, scope) + sightings_of_all(
            b,
            at,
            scope,
        ),
    decreases b.len(),
{
    if b.len() == 0 {
        assert(a + b =~= a);
        assert(sightings_of_all(a, at, scope) + sightings_of_all(b, at, scope) =~= sightings_of_all(
            a,
            at,
            scope,
        ));
    } else {
        assert((a + b).drop_last() =~= a + b.drop_last());
        assert((a + b).last() == b.last());
        lemma_sightings_concat(a, b.drop_last(), at, scope);
        assert(sightings_of_all(a, at, scope) + sightings_of_all(b.drop_last(), at, scope)
            + sightings(b.last(), at, scope) =~= sightings_of_all(a, at, scope) + (sightings_of_all(
            b.drop_last(),
            at,
            scope,
        ) + sightings(b.last(), at, scope)));
    }
}

/// The sightings of a single symbol.
pub proof fn lemma_sightings_one(sym: Symbol, at: nat, scope: Seq<(Symbol, Symbol)>)
    ensures
        sightings_of_all(seq![sym], at, scope) == sightings(sym, at, scope),
{
    let one = seq![sym];
    assert(one.drop_last() =~= Seq::<Symbol>::empty());
    assert(sightings_of_all(one.drop_last(), at, scope) =~= Seq::<Mark>::empty());
    assert(Seq::<Mark>::empty() + sightings(sym, at, scope) =~= sightings(sym, at, scope));
}

/// The last-seen table of the procedure that is being lowered.
pub struct LastSeen {
    table: SymbolMap<usize>,
    order: Vec<Symbol>,
}

impl View for LastSeen {
    type V = LastSeenView;

    closed spec fn view(&self) -> LastSeenView {
        LastSeenView {
            table: Map::new(
                |s: Symbol| self.table@.contains_key(s),
                |s: Symbol| self.table@[s] as nat,
            ),
            order: self.order@,
        }
    }
}

impl LastSeen {
    /// A table in which no symbol has been seen.
    pub fn new() -> (t: Self)
        ensures
            t@ == LastSeenView::empty(),
            t@.wf(),
    {
        let t = LastSeen { table: SymbolMap::new(), order: Vec::new() };
        assert(t@.table =~= Map::<Symbol, nat>::empty());
        t
    }

    /// Forgets every sighting.
    pub fn clear(&mut self)
        ensures
            final(self)@ == LastSeenView::empty(),
            final(self)@.wf(),
    {
        self.table.clear();
        self.order.clear();
        assert(self@.table =~= Map::<Symbol, nat>::empty());
    }

    /// The index of the statement at which `sym` was seen last.
    pub fn get(&self, sym: Symbol) -> (at: Option<usize>)
        ensures
            match at {
                Some(i) => self@.table.contains_key(sym) && self@.table[sym] == i,
                None => !self@.table.contains_key(sym),
            },
    {
        match self.table.get(sym) {
            Some(i) => Some(*i),
            None => None,
        }
    }

    /// The symbols of the table, in the order in which they were first
    /// seen.
    pub fn symbols(&self) -> (order: &Vec<Symbol>)
        ensures
            order@ == self@.order,
    {
        &self.order
    }

    /// Records one sighting of `sym` at statement `at`.
    pub fn mark(&mut self, sym: Symbol, at: usize)
        ensures
            final(self)@ == old(self)@.mark(Mark { symbol: sym, at: at as nat }),
            old(self)@.wf() ==> final(self)@.wf(),
    {
        proof {
            if old(self)@.wf() {
                lemma_mark_wf(old(self)@, Mark { symbol: sym, at: at as nat });
            }
        }
        let previous = self.table.insert(sym, at);
        if previous.is_none() {
            self.order.push(sym);
        }
        assert(self@.table =~= old(self)@.mark(Mark { symbol: sym, at: at as nat }).table);
    }

    /// Sets the statement at which `sym` was last seen to `at`. If `sym` is
    /// a view into a structure, the structure is seen at `at` as well, and
    /// so is each structure further up the chain.
    pub fn set_last_seen(&mut self, sym: Symbol, at: usize, owning_symbol: &Vec<(Symbol, Symbol)>)
        ensures
            final(self)@ == old(self)@.mark_all(sightings(sym, at as nat, owning_symbol@)),
            old(self)@.wf() ==> final(self)@.wf(),
    {
        proof {
            if old(self)@.wf() {
                lemma_mark_all_wf(old(self)@, sightings(sym, at as nat, owning_symbol@));
            }
        }
        let ghost scope = owning_symbol@;
        let ghost n = at as nat;
        let ghost mut seen: Seq<Symbol> = seq![sym];
        self.mark(sym, at);
        proof {
            assert(marks_at(seen, n).drop_last() =~= Seq::<Mark>::empty());
            reveal_with_fuel(LastSeenView::mark_all, 2);
            assert(scope.take(scope.len() as int) =~= scope);
        }
        let mut cur = sym;
        let mut i: usize = owning_symbol.len();
        while i > 0
            invariant
                i <= owning_symbol.len(),
                scope == owning_symbol@,
                n == at as nat,
                self@ == old(self)@.mark_all(marks_at(seen, n)),
                seen + owners_of(scope.take(i as int), cur) == seq![sym] + owners_of(scope, sym),
            decreases i,
        {
            let edge = owning_symbol[i - 1];
            proof {
                assert(scope.take(i as int).drop_last() =~= scope.take(i - 1));
                assert(scope.take(i as int).last() == edge);
            }
            if edge.0 == cur {
                proof {
                    assert(marks_at(seen.push(edge.1), n).drop_last() =~= marks_at(seen, n));
                    assert(seen.push(edge.1) + owners_of(scope.take(i - 1), edge.1) =~= seen + (
                    seq![edge.1] + owners_of(scope.take(i - 1), edge.1)));
                    seen = seen.push(edge.1);
                }
                self.mark(edge.1, at);
                cur = edge.1;
            }
            i = i - 1;
        }
        proof {
            assert(scope.take(0) =~= Seq::<(Symbol, Symbol)>::empty());
            assert(seen + Seq::<Symbol>::empty() =~= seen);
        }
    }

    /// Records that each of `syms` is seen at statement `at`.
    pub fn set_last_seen_all(
        &mut self,
        syms: &[Symbol],
        at: usize,
        owning_symbol: &Vec<(Symbol, Symbol)>,
    )
        ensures
            final(self)@ == old(self)@.mark_all(
                sightings_of_all(syms@, at as nat, owning_symbol@),
            ),
            old(self)@.wf() ==> final(self)@.wf(),
    {
        proof {
            if old(self)@.wf() {
                lemma_mark_all_wf(old(self)@, sightings_of_all(syms@, at as nat, owning_symbol@));
            }
        }
        let mut i: usize = 0;
        while i < syms.len()
            invariant
                i <= syms.len(),
                self@ == old(self)@.mark_all(
                    sightings_of_all(syms@.take(i as int), at as nat, owning_symbol@),
                ),
            decreases syms.len() - i,
        {
            proof {
                assert(syms@.take(i + 1).drop_last() =~= syms@.take(i as int));
                lemma_mark_all_concat(
                    old(self)@,
                    sightings_of_all(syms@.take(i as int), at as nat, owning_symbol@),
                    sightings(syms@[i as int], at as nat, owning_symbol@),
                );
            }
            self.set_last_seen(syms[i], at, owning_symbol);
            i = i + 1;
        }
        assert(syms@.take(syms.len() as int) =~= syms@);
    }

    /// Records the sightings of the arguments of `call` at statement `at`.
    pub fn scan_ast_call(&mut self, call: &Call, at: usize, owning_symbol: &Vec<(Symbol, Symbol)>)
        ensures
            final(self)@ == old(self)@.mark_all(
                sightings_of_all(call.arguments@, at as nat, owning_symbol@),
            ),
            old(self)@.wf() ==> final(self)@.wf(),
    {
        proof {
            if old(self)@.wf() {
                lemma_mark_all_wf(old(self)@, sightings_of_all(call.arguments@, at as nat, owning_symbol@));
            }
        }
        self.set_last_seen_all(call.arguments.as_slice(), at, owning_symbol);
        match &call.call_type {
            CallType::ByName { .. } => {},
            CallType::LowLevel { .. } => {},
            CallType::HigherOrder { .. } => {},
            CallType::Foreign { .. } => {},
        }
    }

    /// Records the sightings of the symbols among `elems` at statement
    /// `at`.
    fn scan_elements(
        &mut self,
        elems: &Vec<ListLiteralElement>,
        at: usize,
        owning_symbol: &Vec<(Symbol, Symbol)>,
    )
        ensures
            final(self)@ == old(self)@.mark_all(
                sightings_of_all(element_symbols(elems@), at as nat, owning_symbol@),
            ),
            old(self)@.wf() ==> final(self)@.wf(),
    {
        proof {
            if old(self)@.wf() {
                lemma_mark_all_wf(old(self)@, sightings_of_all(element_symbols(elems@), at as nat, owning_symbol@));
            }
        }
        let mut i: usize = 0;
        while i < elems.len()
            invariant
                i <= elems.len(),
                self@ == old(self)@.mark_all(
                    sightings_of_all(
                        element_symbols(elems@.take(i as int)),
                        at as nat,
                        owning_symbol@,
                    ),
                ),
            decreases elems.len() - i,
        {
            let ghost seen = element_symbols(elems@.take(i as int));
            proof {
                assert(elems@.take(i + 1).drop_last() =~= elems@.take(i as int));
            }
            if let ListLiteralElement::Symbol(sym) = &elems[i] {
                proof {
                    assert(seen.push(*sym).drop_last() =~= seen);
                    lemma_mark_all_concat(
                        old(self)@,
                        sightings_of_all(seen, at as nat, owning_symbol@),
                        sightings(*sym, at as nat, owning_symbol@),
                    );
                }
                self.set_last_seen(*sym, at, owning_symbol);
            }
            i = i + 1;
        }
        assert(elems@.take(elems.len() as int) =~= elems@);
    }

    /// Records the sightings of the symbols of `expr` at statement `at`.
    #[verifier::rlimit(50)]
    pub fn scan_expr(&mut self, expr: &Expr, at: usize, owning_symbol: &Vec<(Symbol, Symbol)>)
        ensures
            final(self)@ == old(self)@.mark_all(
                sightings_of_all(expr.symbols(), at as nat, owning_symbol@),
            ),
            old(self)@.wf() ==> final(self)@.wf(),
    {
        proof {
            if old(self)@.wf() {
                lemma_mark_all_wf(old(self)@, sightings_of_all(expr.symbols(), at as nat, owning_symbol@));
            }
        }
        let ghost n = at as nat;
        let ghost scope = owning_symbol@;
        match expr {
            Expr::Literal(_) => {},
            Expr::Call(call) => self.scan_ast_call(call, at, owning_symbol),
            Expr::Tag { arguments, .. } => {
                self.set_last_seen_all(arguments.as_slice(), at, owning_symbol);
            },
            Expr::Struct(syms) => {
                self.set_last_seen_all(syms.as_slice(), at, owning_symbol);
            },
            Expr::StructAtIndex { structure, .. } => {
                proof {
                    lemma_sightings_one(*structure, n, scope);
                }
                self.set_last_seen(*structure, at, owning_symbol);
            },
            Expr::GetTagId { structure, .. } => {
                proof {
                    lemma_sightings_one(*structure, n, scope);
                }
                self.set_last_seen(*structure, at, owning_symbol);
            },
            Expr::UnionAtIndex { structure, .. } => {
                proof {
                    lemma_sightings_one(*structure, n, scope);
                }
                self.set_last_seen(*structure, at, owning_symbol);
            },
            Expr::Array { elems, .. } => {
                self.scan_elements(elems, at, owning_symbol);
            },
            Expr::Reuse { symbol, arguments, tag_name, .. } => {
                proof {
                    lemma_sightings_one(*symbol, n, scope);
                    lemma_sightings_concat(seq![*symbol], tag_name.symbols(), n, scope);
                    lemma_sightings_concat(seq![*symbol] + tag_name.symbols(), arguments@, n, scope);
                    lemma_mark_all_concat(
                        old(self)@,
                        sightings_of_all(seq![*symbol], n, scope),
                        sightings_of_all(tag_name.symbols(), n, scope),
                    );
                    lemma_mark_all_concat(
                        old(self)@,
                        sightings_of_all(seq![*symbol] + tag_name.symbols(), n, scope),
                        sightings_of_all(arguments@, n, scope),
                    );
                }
                self.set_last_seen(*symbol, at, owning_symbol);
                match tag_name {
                    TagName::Closure(sym) => {
                        proof {
                            lemma_sightings_one(*sym, n, scope);
                        }
                        self.set_last_seen(*sym, at, owning_symbol);
                    },
                    TagName::Private(sym) => {
                        proof {
                            lemma_sightings_one(*sym, n, scope);
                        }
                        self.set_last_seen(*sym, at, owning_symbol);
                    },
                    TagName::Global(_) => {},
                }
                self.set_last_seen_all(arguments.as_slice(), at, owning_symbol);
            },
            Expr::Reset { symbol, .. } => {
                proof {
                    lemma_sightings_one(*symbol, n, scope);
                }
                self.set_last_seen(*symbol, at, owning_symbol);
            },
            Expr::EmptyArray => {},
            Expr::RuntimeErrorFunction(_) => {},
        }
    }

    /// Records the sightings of the parameters of a join point at statement
    /// `at`.
    fn scan_params(&mut self, params: &Vec<Param>, at: usize, owning_symbol: &Vec<(Symbol, Symbol)>)
        ensures
            final(self)@ == old(self)@.mark_all(
                sightings_of_all(param_symbols(params@), at as nat, owning_symbol@),
            ),
            old(self)@.wf() ==> final(self)@.wf(),
    {
        proof {
            if old(self)@.wf() {
                lemma_mark_all_wf(old(self)@, sightings_of_all(param_symbols(params@), at as nat, owning_symbol@));
            }
        }
        let ghost syms = param_symbols(params@);
        let mut i: usize = 0;
        while i < params.len()
            invariant
                i <= params.len(),
                syms == param_symbols(params@),
                self@ == old(self)@.mark_all(
                    sightings_of_all(syms.take(i as int), at as nat, owning_symbol@),
                ),
            decreases params.len() - i,
        {
            proof {
                assert(syms.take(i + 1).drop_last() =~= syms.take(i as int));
                assert(syms.take(i + 1).last() == params@[i as int].symbol);
                lemma_mark_all_concat(
                    old(self)@,
                    sightings_of_all(syms.take(i as int), at as nat, owning_symbol@),
                    sightings(params@[i as int].symbol, at as nat, owning_symbol@),
                );
            }
            self.set_last_seen(params[i].symbol, at, owning_symbol);
            i = i + 1;
        }
        assert(syms.take(params.len() as int) =~= syms);
    }

    /// Records the sightings on the statements of the tree rooted at
    /// `stmt`, whose index is `at`, and returns the index that follows the
    /// tree. The walk visits the statements in the order in which they are
    /// lowered. `owning_symbol` is the scope at `stmt`; it is handed back
    /// as it was.
    #[verifier::rlimit(50)]
    pub fn scan_stmt(&mut self, stmt: &Stmt, at: usize, owning_symbol: &mut Vec<(Symbol, Symbol)>) -> (next: usize)
        requires
            at + stmt.size() <= usize::MAX,
        ensures
            final(self)@ == old(self)@.mark_all(stmt_marks(*stmt, at as nat, old(owning_symbol)@)),
            old(self)@.wf() ==> final(self)@.wf(),
            final(owning_symbol)@ == old(owning_symbol)@,
            next == at + stmt.size(),
        decreases stmt,
    {
        proof {
            if old(self)@.wf() {
                lemma_mark_all_wf(old(self)@, stmt_marks(*stmt, at as nat, old(owning_symbol)@));
            }
        }
        let ghost n = at as nat;
        let ghost scope = owning_symbol@;
        let ghost start = self@;
        let ghost own = sightings_of_all(stmt.symbols(), n, scope);
        match stmt {
            Stmt::Let(sym, expr, _, following) => {
                let ghost below = stmt_marks(**following, n + 1, bind(scope, *sym, *expr));
                proof {
                    lemma_sightings_one(*sym, n, scope);
                    lemma_sightings_concat(seq![*sym], expr.symbols(), n, scope);
                    lemma_mark_all_concat(
                        start,
                        sightings(*sym, n, scope),
                        sightings_of_all(expr.symbols(), n, scope),
                    );
                    lemma_mark_all_concat(start, own, below);
                }
                self.set_last_seen(*sym, at, owning_symbol);
                self.scan_expr(expr, at, owning_symbol);
                match expr {
                    Expr::StructAtIndex { structure, .. } => {
                        owning_symbol.push((*sym, *structure));
                        let next = self.scan_stmt(following, at + 1, owning_symbol);
                        owning_symbol.pop();
                        assert(owning_symbol@ =~= scope);
                        next
                    },
                    Expr::GetTagId { structure, .. } => {
                        owning_symbol.push((*sym, *structure));
                        let next = self.scan_stmt(following, at + 1, owning_symbol);
                        owning_symbol.pop();
                        assert(owning_symbol@ =~= scope);
                        next
                    },
                    Expr::UnionAtIndex { structure, .. } => {
                        owning_symbol.push((*sym, *structure));
                        let next = self.scan_stmt(following, at + 1, owning_symbol);
                        owning_symbol.pop();
                        assert(owning_symbol@ =~= scope);
                        next
                    },
                    _ => self.scan_stmt(following, at + 1, owning_symbol),
                }
            },
            Stmt::Switch { cond_symbol, branches, default_branch, .. } => {
                let ghost inner = branches_marks(branches@, n + 1, scope);
                let ghost last = stmt_marks(
                    **default_branch,
                    n + 1 + branches_size(branches@),
                    scope,
                );
                proof {
                    lemma_sightings_one(*cond_symbol, n, scope);
                    lemma_mark_all_concat(start, own, inner + last);
                    lemma_mark_all_concat(start.mark_all(own), inner, last);
                }
                self.set_last_seen(*cond_symbol, at, owning_symbol);
                let mut cur: usize = at + 1;
                let mut i: usize = 0;
                assert(branches@.skip(0) =~= branches@);
                while i < branches.len()
                    invariant
                        i <= branches.len(),
                        owning_symbol@ == scope,
                        cur + branches_size(branches@.skip(i as int)) == n + 1 + branches_size(
                            branches@,
                        ),
                        n + stmt.size() <= usize::MAX,
                        stmt.size() == 1 + branches_size(branches@) + default_branch.size(),
                        self@.mark_all(branches_marks(branches@.skip(i as int), cur as nat, scope))
                            == start.mark_all(own).mark_all(inner),
                        *stmt is Switch,
                        stmt->branches == *branches,
                    decreases branches.len() - i,
                {
                    proof {
                        assert(branches@.skip(i as int).skip(1) =~= branches@.skip(i + 1));
                        lemma_mark_all_concat(
                            self@,
                            stmt_marks(branches@[i as int].body, cur as nat, scope),
                            branches_marks(
                                branches@.skip(i + 1),
                                cur as nat + branches@[i as int].body.size(),
                                scope,
                            ),
                        );
                    }
                    cur = self.scan_stmt(&branches[i].body, cur, owning_symbol);
                    i = i + 1;
                }
                self.scan_stmt(default_branch, cur, owning_symbol)
            },
            Stmt::Ret(sym) => {
                proof {
                    lemma_sightings_one(*sym, n, scope);
                    assert(own + Seq::<Mark>::empty() =~= own);
                }
                self.set_last_seen(*sym, at, owning_symbol);
                at + 1
            },
            Stmt::Refcounting(modify, following) => {
                let sym = modify.get_symbol();
                proof {
                    lemma_sightings_one(sym, n, scope);
                    lemma_mark_all_concat(start, own, stmt_marks(**following, n + 1, scope));
                }
                self.set_last_seen(sym, at, owning_symbol);
                self.scan_stmt(following, at + 1, owning_symbol)
            },
            Stmt::Join { parameters, body, remainder, .. } => {
                let ghost first = stmt_marks(**body, n + 1, scope);
                let ghost second = stmt_marks(**remainder, n + 1 + body.size(), scope);
                proof {
                    lemma_mark_all_concat(start, own, first + second);
                    lemma_mark_all_concat(start.mark_all(own), first, second);
                }
                self.scan_params(parameters, at, owning_symbol);
                let mid = self.scan_stmt(body, at + 1, owning_symbol);
                self.scan_stmt(remainder, mid, owning_symbol)
            },
            Stmt::Jump(id, symbols) => {
                proof {
                    lemma_sightings_one(id.0, n, scope);
                    lemma_sightings_concat(seq![id.0], symbols@, n, scope);
                    lemma_mark_all_concat(
                        start,
                        sightings(id.0, n, scope),
                        sightings_of_all(symbols@, n, scope),
                    );
                    assert(own + Seq::<Mark>::empty() =~= own);
                }
                self.set_last_seen(id.0, at, owning_symbol);
                self.set_last_seen_all(symbols.as_slice(), at, owning_symbol);
                at + 1
            },
            Stmt::RuntimeError(_) => {
                proof {
                    assert(own =~= Seq::<Mark>::empty());
                    assert(own + Seq::<Mark>::empty() =~= Seq::<Mark>::empty());
                }
                at + 1
            },
        }
    }

    /// Runs through the procedure body `stmt` and records, for each symbol
    /// seen in it, the last statement at which it is seen.
    pub fn scan_ast(&mut self, stmt: &Stmt)
        requires
            stmt.size() <= usize::MAX,
        ensures
            final(self)@ == old(self)@.mark_all(stmt_marks(*stmt, 0, Seq::empty())),
            old(self)@.wf() ==> final(self)@.wf(),
    {
        proof {
            if old(self)@.wf() {
                lemma_mark_all_wf(old(self)@, stmt_marks(*stmt, 0, Seq::empty()));
            }
        }
        let mut owning_symbol: Vec<(Symbol, Symbol)> = Vec::new();
        let _ = self.scan_stmt(stmt, 0, &mut owning_symbol);
    }
}

} // verus!
