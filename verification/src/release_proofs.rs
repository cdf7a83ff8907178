//! Each symbol of a procedure body is released once.
//!
//! A backend need not cope with a symbol that is freed twice. The proofs
//! here show that the engine never asks for that. While a procedure is
//! lowered, the release list of each statement is used once, after the
//! statement has been lowered, and the free map holds each symbol on one
//! list. So a symbol is released exactly once: after the statement at
//! which it is seen last. The one exception is a symbol seen last at a
//! reference-count adjustment, which is passed over and releases nothing.

use vstd::prelude::*;
use crate::backend::Op;
use crate::env::link_name;
use crate::free_map::{due, free_map_of, lemma_due_members};
use crate::ir::{branches_size, Branch, Expr, Proc, Stmt};
use crate::layout::Layout;
use crate::liveness::{lemma_mark_all_wf, stmt_marks, LastSeenView};
use crate::liveness_proofs::{branch_stmt_at, last_seen_of, lemma_last_seen_is_final_sighting};
use crate::liveness_proofs::stmt_at;
use crate::lowering::{frees, inline_builtin, low_level_op, lower_branches, lower_call_by_name};
use crate::lowering::{lemma_lower_branches, lemma_lower_join, lemma_lower_jump, lemma_lower_let};
use crate::lowering::{lemma_lower_refcounting, lemma_lower_ret, lemma_lower_runtime_error};
use crate::lowering::{lemma_lower_switch, lower_expr, lower_proc, lower_stmt, resolve, EngineState};
use crate::lowering::{lemma_set_arg_layouts_keeps, lemma_set_param_layouts_keeps};
use crate::lowering_proofs::lemma_lowered_names_no_scratch;
use crate::symbol::{is_scratch, Symbol};

verus! {

/// Number of requests among `ops` that release `s`.
pub open spec fn releases(ops: Seq<Op>, s: Symbol) -> nat
    decreases ops.len(),
{
    if ops.len() == 0 {
        0
    } else {
        releases(ops.drop_last(), s) + if ops.last() == (Op::Free { sym: s }) {
            1nat
        } else {
            0nat
        }
    }
}

/// Number of times that `s` stands in `list`.
pub open spec fn occurrences(list: Seq<Symbol>, s: Symbol) -> nat
    decreases list.len(),
{
    if list.len() == 0 {
        0
    } else {
        occurrences(list.drop_last(), s) + if list.last() == s {
            1nat
        } else {
            0nat
        }
    }
}

/// Number of times that `s` stands on the release list of statement `at`.
pub open spec fn listed(free_map: Map<nat, Seq<Symbol>>, at: nat, s: Symbol) -> nat {
    if free_map.contains_key(at) {
        occurrences(free_map[at], s)
    } else {
        0
    }
}

/// Number of times that `s` stands on the release lists that lowering the
/// tree `stmt`, whose index is `at`, uses: the lists of its statements
/// other than reference-count adjustments.
pub open spec fn due_in(free_map: Map<nat, Seq<Symbol>>, stmt: Stmt, at: nat, s: Symbol) -> nat
    decreases stmt,
{
    match stmt {
        Stmt::Let(_, _, _, following) => listed(free_map, at, s) + due_in(
            free_map,
            *following,
            at + 1,
            s,
        ),
        Stmt::Refcounting(_, following) => due_in(free_map, *following, at + 1, s),
        Stmt::Switch { branches, default_branch, .. } => listed(free_map, at, s) + due_in_branches(
            free_map,
            branches@,
            at + 1,
            s,
        ) + due_in(free_map, *default_branch, at + 1 + branches_size(branches@), s),
        Stmt::Join { body, remainder, .. } => listed(free_map, at, s) + due_in(
            free_map,
            *body,
            at + 1,
            s,
        ) + due_in(free_map, *remainder, at + 1 + body.size(), s),
        _ => listed(free_map, at, s),
    }
}

/// The same for the bodies of `branches`, the first of which has index
/// `at`.
pub open spec fn due_in_branches(
    free_map: Map<nat, Seq<Symbol>>,
    branches: Seq<Branch>,
    at: nat,
    s: Symbol,
) -> nat
    decreases branches,
{
    if branches.len() == 0 {
        0
    } else {
        due_in(free_map, branches[0].body, at, s) + due_in_branches(
            free_map,
            branches.skip(1),
            at + branches[0].body.size(),
            s,
        )
    }
}

/// Whether two free maps have the same release lists for the statements
/// outside `lo..hi`.
#[verifier::opaque]
pub open spec fn same_outside(
    a: Map<nat, Seq<Symbol>>,
    b: Map<nat, Seq<Symbol>>,
    lo: nat,
    hi: nat,
) -> bool {
    forall|k: nat|
        k < lo || k >= hi ==> (#[trigger] a.contains_key(k) == b.contains_key(k)) && a[k] == b[k]
}

proof fn lemma_same_outside_same(a: Map<nat, Seq<Symbol>>, lo: nat, hi: nat)
    ensures
        same_outside(a, a, lo, hi),
{
    reveal(same_outside);
}

/// Release lists that agree outside one range and then outside another
/// agree outside a range that holds both.
proof fn lemma_same_outside_chain(
    a: Map<nat, Seq<Symbol>>,
    b: Map<nat, Seq<Symbol>>,
    c: Map<nat, Seq<Symbol>>,
    first_lo: nat,
    first_hi: nat,
    second_lo: nat,
    second_hi: nat,
    lo: nat,
    hi: nat,
)
    requires
        same_outside(a, b, first_lo, first_hi),
        same_outside(b, c, second_lo, second_hi),
        lo <= first_lo,
        first_hi <= hi,
        lo <= second_lo,
        second_hi <= hi,
    ensures
        same_outside(a, c, lo, hi),
{
    reveal(same_outside);
    assert forall|k: nat| k < lo || k >= hi implies (#[trigger] a.contains_key(k)
        == c.contains_key(k)) && a[k] == c[k] by {
        assert(a.contains_key(k) == b.contains_key(k));
        assert(b.contains_key(k) == c.contains_key(k));
    }
}

/// Free maps that agree outside a range have the same list for a
/// statement outside the range.
proof fn lemma_listed_outside(
    a: Map<nat, Seq<Symbol>>,
    b: Map<nat, Seq<Symbol>>,
    lo: nat,
    hi: nat,
    at: nat,
    s: Symbol,
)
    requires
        same_outside(a, b, lo, hi),
        at < lo || at >= hi,
    ensures
        listed(a, at, s) == listed(b, at, s),
{
    reveal(same_outside);
    assert(a.contains_key(at) == b.contains_key(at));
}

/// Free maps that agree outside a range give the same count for a tree
/// outside the range.
proof fn lemma_due_in_outside(
    a: Map<nat, Seq<Symbol>>,
    b: Map<nat, Seq<Symbol>>,
    lo: nat,
    hi: nat,
    stmt: Stmt,
    at: nat,
    s: Symbol,
)
    requires
        same_outside(a, b, lo, hi),
        at + stmt.size() <= lo || at >= hi,
    ensures
        due_in(a, stmt, at, s) == due_in(b, stmt, at, s),
    decreases stmt, 0nat,
{
    lemma_listed_outside(a, b, lo, hi, at, s);
    match stmt {
        Stmt::Let(_, _, _, following) => {
            lemma_due_in_outside(a, b, lo, hi, *following, at + 1, s);
        },
        Stmt::Refcounting(_, following) => {
            lemma_due_in_outside(a, b, lo, hi, *following, at + 1, s);
        },
        Stmt::Switch { branches, default_branch, .. } => {
            lemma_due_in_branches_outside(a, b, lo, hi, branches@, at + 1, s);
            lemma_due_in_outside(
                a,
                b,
                lo,
                hi,
                *default_branch,
                at + 1 + branches_size(branches@),
                s,
            );
        },
        Stmt::Join { body, remainder, .. } => {
            lemma_due_in_outside(a, b, lo, hi, *body, at + 1, s);
            lemma_due_in_outside(a, b, lo, hi, *remainder, at + 1 + body.size(), s);
        },
        _ => {},
    }
}

proof fn lemma_due_in_branches_outside(
    a: Map<nat, Seq<Symbol>>,
    b: Map<nat, Seq<Symbol>>,
    lo: nat,
    hi: nat,
    branches: Seq<Branch>,
    at: nat,
    s: Symbol,
)
    requires
        same_outside(a, b, lo, hi),
        at + branches_size(branches) <= lo || at >= hi,
    ensures
        due_in_branches(a, branches, at, s) == due_in_branches(b, branches, at, s),
    decreases branches, 1nat,
{
    if branches.len() > 0 {
        lemma_due_in_outside(a, b, lo, hi, branches[0].body, at, s);
        lemma_due_in_branches_outside(
            a,
            b,
            lo,
            hi,
            branches.skip(1),
            at + branches[0].body.size(),
            s,
        );
    }
}

proof fn lemma_releases_push(ops: Seq<Op>, op: Op, s: Symbol)
    ensures
        releases(ops.push(op), s) == releases(ops, s) + if op == (Op::Free { sym: s }) {
            1nat
        } else {
            0nat
        },
{
    assert(ops.push(op).drop_last() =~= ops);
}

proof fn lemma_releases_concat(a: Seq<Op>, b: Seq<Op>, s: Symbol)
    ensures
        releases(a + b, s) == releases(a, s) + releases(b, s),
    decreases b.len(),
{
    if b.len() == 0 {
        assert(a + b =~= a);
    } else {
        assert((a + b).drop_last() =~= a + b.drop_last());
        lemma_releases_concat(a, b.drop_last(), s);
    }
}

proof fn lemma_releases_frees(list: Seq<Symbol>, s: Symbol)
    ensures
        releases(frees(list), s) == occurrences(list, s),
    decreases list.len(),
{
    if list.len() > 0 {
        assert(frees(list).drop_last() =~= frees(list.drop_last()));
        lemma_releases_frees(list.drop_last(), s);
    }
}

/// Using the release list of statement `at` releases each symbol as often
/// as it stands on the list, and leaves the other lists alone.
proof fn lemma_release(st: EngineState, at: nat, s: Symbol)
    ensures
        releases(st.release(at).issued, s) == releases(st.issued, s) + listed(st.free_map, at, s),
        same_outside(st.release(at).free_map, st.free_map, at, at + 1),
{
    reveal(same_outside);
    if st.free_map.contains_key(at) {
        lemma_releases_concat(st.issued, frees(st.free_map[at]), s);
        lemma_releases_frees(st.free_map[at], s);
    }
}

/// Loading pending literals releases nothing.
proof fn lemma_materialize_all_releases(st: EngineState, syms: Seq<Symbol>, s: Symbol)
    ensures
        releases(st.materialize_all(syms).issued, s) == releases(st.issued, s),
        st.materialize_all(syms).free_map == st.free_map,
    decreases syms.len(),
{
    if syms.len() > 0 {
        let sym = syms[0];
        if st.literals.contains_key(sym) {
            lemma_releases_push(
                st.issued,
                Op::LoadLiteral { sym, layout: st.literals[sym].1, lit: st.literals[sym].0 },
                s,
            );
        }
        lemma_materialize_all_releases(st.materialize(sym), syms.skip(1), s);
    }
}

/// Making symbols ready releases nothing.
proof fn lemma_ready_releases(st: EngineState, syms: Seq<Symbol>, s: Symbol)
    ensures
        releases(st.load_literal_symbols(syms).issued, s) == releases(st.issued, s),
        st.load_literal_symbols(syms).free_map == st.free_map,
{
    lemma_materialize_all_releases(st, syms, s);
}

/// One request that is no release.
proof fn lemma_emit_releases(st: EngineState, op: Op, s: Symbol)
    requires
        !(op is Free),
    ensures
        releases(st.emit(op).issued, s) == releases(st.issued, s),
        st.emit(op).free_map == st.free_map,
{
    lemma_releases_push(st.issued, op, s);
}

/// Lowering an expression releases scratch symbols only and uses no
/// release list.
proof fn lemma_expr_releases(st: EngineState, sym: Symbol, expr: Expr, layout: Layout, s: Symbol)
    requires
        !is_scratch(s),
    ensures
        lower_expr(st, sym, expr, layout) matches Ok(after) ==> releases(after.issued, s)
            == releases(st.issued, s) && after.free_map == st.free_map,
{
    reveal(lower_expr);
    reveal(lower_call_by_name);
    reveal(inline_builtin);
    reveal(low_level_op);
    if let Ok(after) = lower_expr(st, sym, expr, layout) {
        match expr {
            Expr::Literal(lit) => {
                lemma_releases_push(st.issued, Op::LoadLiteral { sym, layout, lit }, s);
            },
            Expr::Call(call) => {
                let args = call.arguments@;
                lemma_materialize_all_releases(st, args, s);
                let ready = st.load_literal_symbols(args);
                // Whatever the call is lowered to, its requests follow those
                // that made the arguments ready.
                if after.issued.len() == ready.issued.len() + 1 {
                    assert(after.issued.drop_last() =~= ready.issued);
                } else {
                    assert(after.issued.drop_last().drop_last().drop_last() =~= ready.issued);
                    reveal_with_fuel(releases, 4);
                }
            },
            Expr::Struct(fields) => {
                lemma_materialize_all_releases(st, fields@, s);
                lemma_releases_push(
                    st.load_literal_symbols(fields@).issued,
                    Op::CreateStruct { sym, layout, fields: fields@ },
                    s,
                );
            },
            Expr::StructAtIndex { index, field_layouts, structure } => {
                lemma_releases_push(
                    st.issued,
                    Op::LoadStructAtIndex { sym, structure, index, field_layouts: field_layouts@ },
                    s,
                );
            },
            _ => {},
        }
    }
}

/// What lowering the tree `stmt` from `st` releases of `s`: as much as
/// the release lists that it uses hold of it, with the lists of the
/// statements outside the tree left alone.
pub open spec fn releases_within(
    st: EngineState,
    stmt: Stmt,
    at: nat,
    ret_layout: Layout,
    s: Symbol,
) -> bool {
    lower_stmt(st, stmt, at, ret_layout) matches Ok(after) ==> releases(after.issued, s)
        == releases(st.issued, s) + due_in(st.free_map, stmt, at, s) && same_outside(
        after.free_map,
        st.free_map,
        at,
        at + stmt.size(),
    )
}

/// Lowering a tree releases a symbol as often as the symbol stands on the
/// release lists of the statements of the tree, reference-count
/// adjustments apart, and leaves the lists of all other statements alone.
pub proof fn lemma_stmt_releases(st: EngineState, stmt: Stmt, at: nat, ret_layout: Layout, s: Symbol)
    requires
        !is_scratch(s),
    ensures
        releases_within(st, stmt, at, ret_layout, s),
    decreases stmt, 1nat,
{
    match stmt {
        Stmt::Let(..) => lemma_let_releases(st, stmt, at, ret_layout, s),
        Stmt::Ret(sym) => {
            lemma_lower_ret(st, stmt, at, ret_layout);
            lemma_ready_releases(st, seq![sym], s);
            let ready = st.load_literal_symbols(seq![sym]);
            lemma_emit_releases(ready, Op::Return { sym, layout: ret_layout }, s);
            lemma_release(ready.emit(Op::Return { sym, layout: ret_layout }), at, s);
        },
        Stmt::Refcounting(_, following) => {
            lemma_lower_refcounting(st, stmt, at, ret_layout);
            lemma_stmt_releases(st, *following, at + 1, ret_layout, s);
            if let Ok(after) = lower_stmt(st, *following, at + 1, ret_layout) {
                lemma_same_outside_same(st.free_map, at, at + 1);
                lemma_same_outside_chain(
                    after.free_map,
                    st.free_map,
                    st.free_map,
                    at + 1,
                    at + stmt.size(),
                    at,
                    at + 1,
                    at,
                    at + stmt.size(),
                );
            }
        },
        Stmt::Switch { .. } => lemma_switch_releases(st, stmt, at, ret_layout, s),
        Stmt::Join { .. } => lemma_join_releases(st, stmt, at, ret_layout, s),
        Stmt::Jump(id, args) => {
            lemma_lower_jump(st, stmt, at, ret_layout);
            if let Ok(arg_layouts) = resolve(st.layouts, args@) {
                let jump = Op::Jump { id, args: args@, arg_layouts, ret_layout };
                lemma_emit_releases(st, jump, s);
                lemma_release(st.emit(jump), at, s);
            }
        },
        Stmt::RuntimeError(_) => {
            lemma_lower_runtime_error(st, stmt, at, ret_layout);
        },
    }
}

proof fn lemma_let_releases(st: EngineState, stmt: Stmt, at: nat, ret_layout: Layout, s: Symbol)
    requires
        !is_scratch(s),
        stmt is Let,
    ensures
        releases_within(st, stmt, at, ret_layout, s),
    decreases stmt, 0nat,
{
    lemma_lower_let(st, stmt, at, ret_layout);
    if let Stmt::Let(sym, expr, layout, following) = stmt {
        let end = at + stmt.size();
        lemma_expr_releases(st, sym, expr, layout, s);
        if let Ok(bound) = lower_expr(st, sym, expr, layout) {
            if let Ok(recorded) = bound.set_layout(sym, layout) {
                let released = recorded.release(at);
                lemma_release(recorded, at, s);
                lemma_stmt_releases(released, *following, at + 1, ret_layout, s);
                if let Ok(after) = lower_stmt(released, *following, at + 1, ret_layout) {
                    lemma_due_in_outside(
                        released.free_map,
                        st.free_map,
                        at,
                        at + 1,
                        *following,
                        at + 1,
                        s,
                    );
                    lemma_same_outside_chain(
                        after.free_map,
                        released.free_map,
                        st.free_map,
                        at + 1,
                        end,
                        at,
                        at + 1,
                        at,
                        end,
                    );
                }
            }
        }
    }
}

/// The count for a statement with two groups of statements below it, the
/// first at `at + 1..mid`, the second at `mid..end`, whose own release
/// list is used last.
proof fn lemma_close_releases(
    st: EngineState,
    opened: EngineState,
    first: EngineState,
    marked: EngineState,
    second: EngineState,
    closed: EngineState,
    at: nat,
    mid: nat,
    end: nat,
    first_due: nat,
    second_due: nat,
    s: Symbol,
)
    requires
        at + 1 <= mid <= end,
        opened.free_map == st.free_map,
        releases(opened.issued, s) == releases(st.issued, s),
        releases(first.issued, s) == releases(opened.issued, s) + first_due,
        same_outside(first.free_map, opened.free_map, at + 1, mid),
        marked.free_map == first.free_map,
        releases(marked.issued, s) == releases(first.issued, s),
        releases(second.issued, s) == releases(marked.issued, s) + second_due,
        same_outside(second.free_map, marked.free_map, mid, end),
        closed.free_map == second.free_map,
        releases(closed.issued, s) == releases(second.issued, s),
    ensures
        releases(closed.release(at).issued, s) == releases(st.issued, s) + listed(
            st.free_map,
            at,
            s,
        ) + first_due + second_due,
        same_outside(closed.release(at).free_map, st.free_map, at, end),
        same_outside(marked.free_map, st.free_map, at + 1, mid),
{
    lemma_release(closed, at, s);
    lemma_same_outside_chain(
        second.free_map,
        first.free_map,
        st.free_map,
        mid,
        end,
        at + 1,
        mid,
        at + 1,
        end,
    );
    lemma_listed_outside(closed.free_map, st.free_map, at + 1, end, at, s);
    lemma_same_outside_chain(
        closed.release(at).free_map,
        closed.free_map,
        st.free_map,
        at,
        at + 1,
        at + 1,
        end,
        at,
        end,
    );
}

proof fn lemma_switch_releases(st: EngineState, stmt: Stmt, at: nat, ret_layout: Layout, s: Symbol)
    requires
        !is_scratch(s),
        stmt is Switch,
    ensures
        releases_within(st, stmt, at, ret_layout, s),
    decreases stmt, 0nat,
{
    lemma_lower_switch(st, stmt, at, ret_layout);
    if let Stmt::Switch {
        cond_symbol,
        cond_layout,
        branches,
        default_info,
        default_branch,
        ret_layout: switch_layout,
    } = stmt {
        let end = at + stmt.size();
        let mid = at + 1 + branches_size(branches@);
        let ready = st.load_literal_symbols(seq![cond_symbol]);
        lemma_ready_releases(st, seq![cond_symbol], s);
        let open = Op::Switch { cond_symbol, cond_layout, ret_layout: switch_layout };
        lemma_emit_releases(ready, open, s);
        let opened = ready.emit(open);
        lemma_branches_releases(opened, branches@, at + 1, switch_layout, s);
        if let Ok(branched) = lower_branches(opened, branches@, at + 1, switch_layout) {
            lemma_emit_releases(branched, Op::SwitchDefault { info: default_info }, s);
            let marked = branched.emit(Op::SwitchDefault { info: default_info });
            lemma_stmt_releases(marked, *default_branch, mid, switch_layout, s);
            if let Ok(done) = lower_stmt(marked, *default_branch, mid, switch_layout) {
                lemma_emit_releases(done, Op::SwitchEnd, s);
                let closed = done.emit(Op::SwitchEnd);
                lemma_close_releases(
                    st,
                    opened,
                    branched,
                    marked,
                    done,
                    closed,
                    at,
                    mid,
                    end,
                    due_in_branches(opened.free_map, branches@, at + 1, s),
                    due_in(marked.free_map, *default_branch, mid, s),
                    s,
                );
                lemma_due_in_outside(
                    marked.free_map,
                    st.free_map,
                    at + 1,
                    mid,
                    *default_branch,
                    mid,
                    s,
                );
            }
        }
    }
}

proof fn lemma_join_releases(st: EngineState, stmt: Stmt, at: nat, ret_layout: Layout, s: Symbol)
    requires
        !is_scratch(s),
        stmt is Join,
    ensures
        releases_within(st, stmt, at, ret_layout, s),
    decreases stmt, 0nat,
{
    lemma_lower_join(st, stmt, at, ret_layout);
    if let Stmt::Join { id, parameters, body, remainder } = stmt {
        let end = at + stmt.size();
        let mid = at + 1 + body.size();
        lemma_set_param_layouts_keeps(st, parameters@);
        if let Ok(recorded) = st.set_param_layouts(parameters@) {
            let open = Op::Join { id, parameters: parameters@, ret_layout };
            lemma_emit_releases(recorded, open, s);
            let opened = recorded.emit(open);
            lemma_stmt_releases(opened, *body, at + 1, ret_layout, s);
            if let Ok(defined) = lower_stmt(opened, *body, at + 1, ret_layout) {
                lemma_emit_releases(defined, Op::JoinRemainder { id }, s);
                let marked = defined.emit(Op::JoinRemainder { id });
                lemma_stmt_releases(marked, *remainder, mid, ret_layout, s);
                if let Ok(done) = lower_stmt(marked, *remainder, mid, ret_layout) {
                    lemma_emit_releases(done, Op::JoinEnd { id }, s);
                    let closed = done.emit(Op::JoinEnd { id });
                    lemma_close_releases(
                        st,
                        opened,
                        defined,
                        marked,
                        done,
                        closed,
                        at,
                        mid,
                        end,
                        due_in(opened.free_map, *body, at + 1, s),
                        due_in(marked.free_map, *remainder, mid, s),
                        s,
                    );
                    lemma_due_in_outside(
                        marked.free_map,
                        st.free_map,
                        at + 1,
                        mid,
                        *remainder,
                        mid,
                        s,
                    );
                }
            }
        }
    }
}

/// Lowering a list of branches releases a symbol as often as the symbol
/// stands on the release lists of their statements, reference-count
/// adjustments apart.
pub proof fn lemma_branches_releases(
    st: EngineState,
    branches: Seq<Branch>,
    at: nat,
    ret_layout: Layout,
    s: Symbol,
)
    requires
        !is_scratch(s),
    ensures
        lower_branches(st, branches, at, ret_layout) matches Ok(after) ==> releases(
            after.issued,
            s,
        ) == releases(st.issued, s) + due_in_branches(st.free_map, branches, at, s)
            && same_outside(after.free_map, st.free_map, at, at + branches_size(branches)),
    decreases branches, 1nat,
{
    lemma_lower_branches(st, branches, at, ret_layout);
    if branches.len() == 0 {
        lemma_same_outside_same(st.free_map, at, at);
    } else {
        let end = at + branches_size(branches);
        let mid = at + branches[0].body.size();
        let mark = Op::SwitchBranch { value: branches[0].value, info: branches[0].info };
        lemma_emit_releases(st, mark, s);
        let marked = st.emit(mark);
        lemma_stmt_releases(marked, branches[0].body, at, ret_layout, s);
        if let Ok(next) = lower_stmt(marked, branches[0].body, at, ret_layout) {
            lemma_branches_releases(next, branches.skip(1), mid, ret_layout, s);
            if let Ok(after) = lower_branches(next, branches.skip(1), mid, ret_layout) {
                lemma_due_in_branches_outside(
                    next.free_map,
                    st.free_map,
                    at,
                    mid,
                    branches.skip(1),
                    mid,
                    s,
                );
                lemma_same_outside_chain(
                    after.free_map,
                    next.free_map,
                    st.free_map,
                    mid,
                    end,
                    at,
                    mid,
                    at,
                    end,
                );
            }
        }
    }
}

/// In a list without repetitions a symbol stands at most once.
proof fn lemma_occurrences_no_duplicates(list: Seq<Symbol>, s: Symbol)
    requires
        list.no_duplicates(),
    ensures
        occurrences(list, s) == if list.contains(s) {
            1nat
        } else {
            0nat
        },
    decreases list.len(),
{
    if list.len() > 0 {
        let front = list.drop_last();
        lemma_occurrences_no_duplicates(front, s);
        if front.contains(s) {
            let i = choose|i: int| 0 <= i < front.len() && front[i] == s;
            assert(list[i] == s);
            assert(list.last() != s);
        } else if list.contains(s) {
            let i = choose|i: int| 0 <= i < list.len() && list[i] == s;
            if i < front.len() {
                assert(front[i] == s);
            }
        }
        if list.last() == s {
            assert(list[list.len() - 1] == s);
        }
    }
}

/// Whether `s` is due for release in the tree `stmt`, whose index is
/// `at`: its entry in `table` is a statement of the tree other than a
/// reference-count adjustment.
pub open spec fn due_at(table: Map<Symbol, nat>, stmt: Stmt, at: nat, s: Symbol) -> bool {
    &&& table.contains_key(s)
    &&& at <= table[s] < at + stmt.size()
    &&& !(stmt_at(stmt, (table[s] - at) as nat) is Refcounting)
}

/// The same for the bodies of `branches`, the first of which has index
/// `at`.
pub open spec fn due_at_branches(
    table: Map<Symbol, nat>,
    branches: Seq<Branch>,
    at: nat,
    s: Symbol,
) -> bool {
    &&& table.contains_key(s)
    &&& at <= table[s] < at + branches_size(branches)
    &&& !(branch_stmt_at(branches, (table[s] - at) as nat) is Refcounting)
}

/// In the free map of a last-seen table a symbol stands once, on the list
/// of its entry, and on no other list.
proof fn lemma_listed_once(v: LastSeenView, at: nat, s: Symbol)
    requires
        v.wf(),
    ensures
        listed(free_map_of(v), at, s) == if v.table.contains_key(s) && v.table[s] == at {
            1nat
        } else {
            0nat
        },
{
    let list = due(v.order, v.table, at);
    lemma_due_members(v.order, v.table, at);
    lemma_occurrences_no_duplicates(list, s);
    if list.len() == 0 {
        assert(!list.contains(s));
    }
}

/// With the free map of a last-seen table, a tree releases a symbol once
/// if the symbol is due in it, and else not at all.
proof fn lemma_due_in_once(v: LastSeenView, stmt: Stmt, at: nat, s: Symbol)
    requires
        v.wf(),
    ensures
        due_in(free_map_of(v), stmt, at, s) == if due_at(v.table, stmt, at, s) {
            1nat
        } else {
            0nat
        },
    decreases stmt, 0nat,
{
    let fm = free_map_of(v);
    let k = (v.table[s] - at) as nat;
    lemma_listed_once(v, at, s);
    match stmt {
        Stmt::Let(_, _, _, following) => {
            lemma_due_in_once(v, *following, at + 1, s);
            if k > 0 {
                assert(stmt_at(stmt, k) == stmt_at(*following, (k - 1) as nat));
            }
        },
        Stmt::Refcounting(_, following) => {
            lemma_due_in_once(v, *following, at + 1, s);
            if k > 0 {
                assert(stmt_at(stmt, k) == stmt_at(*following, (k - 1) as nat));
            }
        },
        Stmt::Switch { branches, default_branch, .. } => {
            let inner = branches_size(branches@);
            lemma_due_in_branches_once(v, branches@, at + 1, s);
            lemma_due_in_once(v, *default_branch, at + 1 + inner, s);
            if k > 0 {
                if k - 1 < inner {
                    assert(stmt_at(stmt, k) == branch_stmt_at(branches@, (k - 1) as nat));
                } else {
                    assert(stmt_at(stmt, k) == stmt_at(*default_branch, (k - 1 - inner) as nat));
                }
            }
        },
        Stmt::Join { body, remainder, .. } => {
            lemma_due_in_once(v, *body, at + 1, s);
            lemma_due_in_once(v, *remainder, at + 1 + body.size(), s);
            if k > 0 {
                if k - 1 < body.size() {
                    assert(stmt_at(stmt, k) == stmt_at(*body, (k - 1) as nat));
                } else {
                    assert(stmt_at(stmt, k) == stmt_at(*remainder, (k - 1 - body.size()) as nat));
                }
            }
        },
        _ => {},
    }
}

proof fn lemma_due_in_branches_once(v: LastSeenView, branches: Seq<Branch>, at: nat, s: Symbol)
    requires
        v.wf(),
    ensures
        due_in_branches(free_map_of(v), branches, at, s) == if due_at_branches(
            v.table,
            branches,
            at,
            s,
        ) {
            1nat
        } else {
            0nat
        },
    decreases branches, 1nat,
{
    if branches.len() > 0 {
        let size = branches[0].body.size();
        let k = (v.table[s] - at) as nat;
        lemma_due_in_once(v, branches[0].body, at, s);
        lemma_due_in_branches_once(v, branches.skip(1), at + size, s);
        if k >= size {
            assert(branch_stmt_at(branches, k) == branch_stmt_at(
                branches.skip(1),
                (k - size) as nat,
            ));
        } else {
            assert(branch_stmt_at(branches, k) == stmt_at(branches[0].body, k));
        }
    }
}

/// Released once. When a procedure has been lowered, each symbol of its
/// body that was seen last at a statement other than a reference-count
/// adjustment has been released exactly once, and no other symbol of the
/// body has been released at all. (Scratch symbols are made and released
/// by the engine as often as it needs one.)
pub proof fn lemma_released_once(st: EngineState, proc: Proc, s: Symbol)
    requires
        !is_scratch(s),
    ensures
        lower_proc(st, proc) matches Ok(after) ==> releases(after.issued, s) == if last_seen_of(
            proc.body,
        ).contains_key(s) && !(stmt_at(proc.body, last_seen_of(proc.body)[s]) is Refcounting) {
            1nat
        } else {
            0nat
        },
{
    if let Ok(after) = lower_proc(st, proc) {
        let reset = Op::Reset {
            name: link_name(st.names[proc.name]),
            is_self_recursive: proc.is_self_recursive,
        };
        let load = Op::LoadArgs { args: proc.args@, ret_layout: proc.ret_layout };
        let started = st.fresh().emit(reset).emit(load);
        lemma_releases_push(st.fresh().issued, reset, s);
        lemma_releases_push(st.fresh().emit(reset).issued, load, s);
        lemma_set_arg_layouts_keeps(started, proc.args@);
        let recorded = started.set_arg_layouts(proc.args@)->Ok_0;
        let marks = stmt_marks(proc.body, 0, Seq::empty());
        let last_seen = recorded.last_seen.mark_all(marks);
        lemma_mark_all_wf(LastSeenView::empty(), marks);
        assert(last_seen.table == last_seen_of(proc.body));
        let scanned = EngineState { last_seen, free_map: free_map_of(last_seen), ..recorded };
        lemma_stmt_releases(scanned, proc.body, 0, proc.ret_layout, s);
        lemma_due_in_once(last_seen, proc.body, 0, s);
        lemma_last_seen_is_final_sighting(proc.body, s);
        let lowered = lower_stmt(scanned, proc.body, 0, proc.ret_layout)->Ok_0;
        lemma_releases_push(lowered.issued, Op::Finalize, s);
    }
}

/// Released once, for the symbols that the body names. When a procedure
/// has been lowered, each symbol with an entry in the last-seen table has
/// been released exactly once, unless it was seen last at a
/// reference-count adjustment. No scratch symbol of the engine is among
/// them.
pub proof fn lemma_named_symbol_released_once(st: EngineState, proc: Proc, s: Symbol)
    requires
        last_seen_of(proc.body).contains_key(s),
    ensures
        lower_proc(st, proc) matches Ok(after) ==> !is_scratch(s) && releases(after.issued, s)
            == if stmt_at(proc.body, last_seen_of(proc.body)[s]) is Refcounting {
            0nat
        } else {
            1nat
        },
{
    if lower_proc(st, proc) is Ok {
        lemma_lowered_names_no_scratch(st, proc, s);
        lemma_released_once(st, proc, s);
    }
}

/// No double release. When a procedure has been lowered, no symbol of its
/// body has been released twice.
pub proof fn lemma_no_symbol_is_released_twice(st: EngineState, proc: Proc, s: Symbol)
    requires
        !is_scratch(s),
    ensures
        lower_proc(st, proc) matches Ok(after) ==> releases(after.issued, s) <= 1,
{
    lemma_released_once(st, proc, s);
}

} // verus!
