//! No request uses a symbol of the procedure body after the symbol was
//! released.
//!
//! The requests of a procedure are made in the order of its statements. A
//! symbol is released after the statement at which it is seen last, and a
//! request uses only symbols that its statement refers to, so no request
//! made after the release refers to the symbol.

use vstd::prelude::*;
use crate::backend::Op;
use crate::env::{is_app_module, link_name};
use crate::free_map::{free_map_of, lemma_free_map_complete};
use crate::ir::{branches_size, param_symbols, Branch, Call, CallType, Expr, Proc, Stmt};
use crate::layout::Layout;
use crate::low_level::LowLevel;
use crate::liveness::{lemma_mark_all_wf, stmt_marks, LastSeenView};
use crate::liveness_proofs::{bound_once, branch_stmt_at, last_seen_of, stmt_at};
use crate::liveness_proofs::{lemma_reference_is_seen, lemma_structure_entry_is_no_earlier};
use crate::lowering::{frees, inline_builtin, low_level_op, lower_branches, lower_call_by_name};
use crate::lowering::{lemma_lower_branches, lemma_lower_join, lemma_lower_jump, lemma_lower_let};
use crate::lowering::{lemma_lower_refcounting, lemma_lower_ret, lemma_lower_runtime_error};
use crate::lowering::{lemma_lower_switch, lower_expr, lower_proc, lower_stmt, resolve, EngineState};
use crate::lowering::{lemma_set_arg_layouts_keeps, lemma_set_param_layouts_keeps};
use crate::lowering_proofs::lemma_lowered_names_no_scratch;
use crate::symbol::{is_scratch, Symbol};

verus! {

/// The symbols whose values a request reads or writes. The release of a
/// symbol is no use of it, and the markers of branches and join points
/// use none.
pub open spec fn op_symbols(op: Op) -> Seq<Symbol> {
    match op {
        Op::LoadArgs { args, .. } => Seq::new(args.len(), |i: int| args[i].1),
        Op::Switch { cond_symbol, .. } => seq![cond_symbol],
        Op::Join { parameters, .. } => param_symbols(parameters),
        Op::Jump { id, args, .. } => seq![id.0] + args,
        Op::FnCall { dst, args, .. } => seq![dst] + args,
        Op::NumAbs { dst, src, .. } => seq![dst, src],
        Op::NumAdd { dst, src1, src2, .. } => seq![dst, src1, src2],
        Op::NumMul { dst, src1, src2, .. } => seq![dst, src1, src2],
        Op::NumNeg { dst, src, .. } => seq![dst, src],
        Op::NumSub { dst, src1, src2, .. } => seq![dst, src1, src2],
        Op::Eq { dst, src1, src2, .. } => seq![dst, src1, src2],
        Op::NotEq { dst, src1, src2, .. } => seq![dst, src1, src2],
        Op::NumLt { dst, src1, src2, .. } => seq![dst, src1, src2],
        Op::NumToFloat { dst, src, .. } => seq![dst, src],
        Op::LoadLiteral { sym, .. } => seq![sym],
        Op::CreateStruct { sym, fields, .. } => seq![sym] + fields,
        Op::LoadStructAtIndex { sym, structure, .. } => seq![sym, structure],
        Op::Return { sym, .. } => seq![sym],
        _ => seq![],
    }
}

/// The symbol that a request releases.
pub open spec fn freed(op: Op) -> Option<Symbol> {
    match op {
        Op::Free { sym } => Some(sym),
        _ => None,
    }
}

/// Whether `ops` are requests of one statement that refers to `syms`: the
/// symbols of the body that they use are among `syms`, and they release
/// scratch symbols only.
#[verifier::opaque]
pub open spec fn own(ops: Seq<Op>, syms: Seq<Symbol>) -> bool {
    &&& forall|p: int, u: Symbol|
        0 <= p < ops.len() && #[trigger] op_symbols(ops[p]).contains(u) && !is_scratch(u)
            ==> syms.contains(u)
    &&& forall|p: int|
        0 <= p < ops.len() ==> (#[trigger] freed(ops[p]) matches Some(s) ==> is_scratch(s))
}

/// Whether `ops` are requests of the statements `lo..hi` in order. Each
/// symbol of the body that they use has an entry in `table` that is `lo`
/// or later; each symbol of the body that they release has an entry in
/// `lo..hi`; and each use that follows a release is of a symbol with a
/// later entry than the released one.
#[verifier::opaque]
pub open spec fn tidy(ops: Seq<Op>, table: Map<Symbol, nat>, lo: nat, hi: nat) -> bool {
    &&& forall|p: int, u: Symbol|
        0 <= p < ops.len() && #[trigger] op_symbols(ops[p]).contains(u) && !is_scratch(u)
            ==> table.contains_key(u) && table[u] >= lo
    &&& forall|p: int|
        0 <= p < ops.len() ==> (#[trigger] freed(ops[p]) matches Some(s) ==> is_scratch(s) || (
        table.contains_key(s) && lo <= table[s] < hi))
    &&& forall|p: int, q: int, u: Symbol|
        0 <= p < q < ops.len() && #[trigger] op_symbols(ops[q]).contains(u) && !is_scratch(u) ==> (
        #[trigger] freed(ops[p]) matches Some(s) ==> is_scratch(s) || table[s] < table[u])
}

/// Whether `ops` use no symbol and release symbols with entries in
/// `lo..hi` only.
#[verifier::opaque]
pub open spec fn closing(ops: Seq<Op>, table: Map<Symbol, nat>, lo: nat, hi: nat) -> bool {
    &&& forall|p: int| 0 <= p < ops.len() ==> #[trigger] op_symbols(ops[p]).len() == 0
    &&& forall|p: int|
        0 <= p < ops.len() ==> (#[trigger] freed(ops[p]) matches Some(s) ==> is_scratch(s) || (
        table.contains_key(s) && lo <= table[s] < hi))
}

/// Whether the entry of each symbol that a statement of the tree `stmt`
/// refers to is that statement or a later one, where `stmt` has index
/// `at`.
#[verifier::opaque]
pub open spec fn covers(table: Map<Symbol, nat>, stmt: Stmt, at: nat) -> bool {
    forall|j: nat, u: Symbol|
        j < stmt.size() && #[trigger] stmt_at(stmt, j).symbols().contains(u)
            ==> table.contains_key(u) && table[u] >= at + j
}

/// The same for the bodies of `branches`, the first of which has index
/// `at`.
#[verifier::opaque]
pub open spec fn covers_branches(table: Map<Symbol, nat>, branches: Seq<Branch>, at: nat) -> bool {
    forall|j: nat, u: Symbol|
        j < branches_size(branches) && #[trigger] branch_stmt_at(branches, j).symbols().contains(u)
            ==> table.contains_key(u) && table[u] >= at + j
}

/// Whether each symbol on a release list has the statement of the list as
/// its entry.
#[verifier::opaque]
pub open spec fn lists_follow(free_map: Map<nat, Seq<Symbol>>, table: Map<Symbol, nat>) -> bool {
    forall|k: nat, x: Symbol|
        free_map.contains_key(k) && #[trigger] free_map[k].contains(x) ==> table.contains_key(x)
            && table[x] == k
}

/// Whether `a` has no release list that `b` does not have.
#[verifier::opaque]
pub open spec fn sub_map(a: Map<nat, Seq<Symbol>>, b: Map<nat, Seq<Symbol>>) -> bool {
    forall|k: nat| #[trigger] a.contains_key(k) ==> b.contains_key(k) && a[k] == b[k]
}

proof fn lemma_sub_map_same(a: Map<nat, Seq<Symbol>>)
    ensures
        sub_map(a, a),
{
    reveal(sub_map);
}

proof fn lemma_sub_map_chain(
    a: Map<nat, Seq<Symbol>>,
    b: Map<nat, Seq<Symbol>>,
    c: Map<nat, Seq<Symbol>>,
)
    requires
        sub_map(a, b),
        sub_map(b, c),
    ensures
        sub_map(a, c),
{
    reveal(sub_map);
}

proof fn lemma_lists_follow_sub(
    a: Map<nat, Seq<Symbol>>,
    b: Map<nat, Seq<Symbol>>,
    table: Map<Symbol, nat>,
)
    requires
        sub_map(a, b),
        lists_follow(b, table),
    ensures
        lists_follow(a, table),
{
    reveal(sub_map);
    reveal(lists_follow);
    assert forall|k: nat, x: Symbol|
        a.contains_key(k) && #[trigger] a[k].contains(x) implies table.contains_key(x) && table[x]
        == k by {
        assert(b[k].contains(x));
    }
}

proof fn lemma_own_concat(a: Seq<Op>, b: Seq<Op>, syms: Seq<Symbol>)
    requires
        own(a, syms),
        own(b, syms),
    ensures
        own(a + b, syms),
{
    reveal(own);
    let c = a + b;
    assert forall|p: int, u: Symbol|
        0 <= p < c.len() && #[trigger] op_symbols(c[p]).contains(u) && !is_scratch(
            u,
        ) implies syms.contains(u) by {
        if p < a.len() {
            assert(op_symbols(a[p]).contains(u));
        } else {
            assert(op_symbols(b[p - a.len()]).contains(u));
        }
    }
    assert forall|p: int| 0 <= p < c.len() implies (#[trigger] freed(c[p]) matches Some(s)
        ==> is_scratch(s)) by {
        if p < a.len() {
            assert(freed(a[p]) matches Some(s) ==> is_scratch(s));
        } else {
            assert(freed(b[p - a.len()]) matches Some(s) ==> is_scratch(s));
        }
    }
}

proof fn lemma_own_none(syms: Seq<Symbol>)
    ensures
        own(Seq::<Op>::empty(), syms),
{
    reveal(own);
}

proof fn lemma_own_one(op: Op, syms: Seq<Symbol>)
    requires
        forall|u: Symbol| #[trigger]
            op_symbols(op).contains(u) && !is_scratch(u) ==> syms.contains(u),
        freed(op) matches Some(s) ==> is_scratch(s),
    ensures
        own(seq![op], syms),
{
    reveal(own);
}

proof fn lemma_own_wider(ops: Seq<Op>, syms: Seq<Symbol>, wider: Seq<Symbol>)
    requires
        own(ops, syms),
        forall|u: Symbol| #[trigger] syms.contains(u) ==> wider.contains(u),
    ensures
        own(ops, wider),
{
    reveal(own);
    assert forall|p: int, u: Symbol|
        0 <= p < ops.len() && #[trigger] op_symbols(ops[p]).contains(u) && !is_scratch(
            u,
        ) implies wider.contains(u) by {
        assert(syms.contains(u));
    }
}

/// Loading pending literals appends requests that use the loaded symbols
/// and release nothing; the release lists stay as they are.
proof fn lemma_loads(st: EngineState, syms: Seq<Symbol>) -> (added: Seq<Op>)
    ensures
        st.materialize_all(syms).issued == st.issued + added,
        st.materialize_all(syms).free_map == st.free_map,
        own(added, syms),
    decreases syms.len(),
{
    let after = st.materialize_all(syms);
    if syms.len() == 0 {
        assert(after.issued =~= st.issued + Seq::<Op>::empty());
        lemma_own_none(syms);
        Seq::empty()
    } else {
        let first = st.materialize(syms[0]);
        let rest = syms.skip(1);
        let head = first.issued.skip(st.issued.len() as int);
        assert(first.issued =~= st.issued + head);
        let tail = lemma_loads(first, rest);
        assert(after.issued =~= st.issued + (head + tail));
        assert(own(head, syms)) by {
            reveal(own);
            assert forall|p: int, u: Symbol|
                0 <= p < head.len() && #[trigger] op_symbols(head[p]).contains(u) implies u
                == syms[0] by {
                let i = choose|i: int|
                    0 <= i < op_symbols(head[p]).len() && op_symbols(head[p])[i] == u;
            }
        }
        assert forall|u: Symbol| #[trigger] rest.contains(u) implies syms.contains(u) by {
            let i = choose|i: int| 0 <= i < rest.len() && rest[i] == u;
            assert(syms[i + 1] == u);
        }
        lemma_own_wider(tail, rest, syms);
        lemma_own_concat(head, tail, syms);
        head + tail
    }
}

/// With or without lazy literals: making `syms` ready appends requests
/// that use symbols among `syms` and release nothing.
proof fn lemma_ready(st: EngineState, syms: Seq<Symbol>) -> (added: Seq<Op>)
    ensures
        st.load_literal_symbols(syms).issued == st.issued + added,
        st.load_literal_symbols(syms).free_map == st.free_map,
        own(added, syms),
{
    if st.lazy_literals {
        lemma_loads(st, syms)
    } else {
        assert(st.issued =~= st.issued + Seq::<Op>::empty());
        lemma_own_none(syms);
        Seq::empty()
    }
}

/// The requests that a call is lowered to, after its arguments are ready,
/// use the bound symbol and the arguments, besides scratch symbols, and
/// release scratch symbols only.
proof fn lemma_call_tail(tail: Seq<Op>, sym: Symbol, args: Seq<Symbol>, syms: Seq<Symbol>)
    requires
        syms.contains(sym),
        forall|u: Symbol| #[trigger] args.contains(u) ==> syms.contains(u),
        forall|p: int, i: int|
            0 <= p < tail.len() && 0 <= i < op_symbols(tail[p]).len() ==> {
                let u = #[trigger] op_symbols(tail[p])[i];
                is_scratch(u) || u == sym || args.contains(u)
            },
        forall|p: int|
            0 <= p < tail.len() ==> (#[trigger] freed(tail[p]) matches Some(s) ==> is_scratch(s)),
    ensures
        own(tail, syms),
{
    reveal(own);
    assert forall|p: int, u: Symbol|
        0 <= p < tail.len() && #[trigger] op_symbols(tail[p]).contains(u) && !is_scratch(
            u,
        ) implies syms.contains(u) by {
        let i = choose|i: int| 0 <= i < op_symbols(tail[p]).len() && op_symbols(tail[p])[i] == u;
        assert(op_symbols(tail[p])[i] == u);
    }
}

/// A request of a low-level operation uses the bound symbol and the
/// arguments.
proof fn lemma_low_level_request(
    op: LowLevel,
    sym: Symbol,
    args: Seq<Symbol>,
    arg_layouts: Seq<Layout>,
    ret_layout: Layout,
)
    ensures
        low_level_op(op, sym, args, arg_layouts, ret_layout) matches Ok(request) ==> freed(request)
            is None && forall|i: int|
            0 <= i < op_symbols(request).len() ==> {
                let u = #[trigger] op_symbols(request)[i];
                u == sym || args.contains(u)
            },
{
    reveal(low_level_op);
    if let Ok(request) = low_level_op(op, sym, args, arg_layouts, ret_layout) {
        assert forall|i: int| 0 <= i < op_symbols(request).len() implies {
            let u = #[trigger] op_symbols(request)[i];
            u == sym || args.contains(u)
        } by {
            let u = op_symbols(request)[i];
            if i > 0 {
                if request is FnCall {
                    assert(args[i - 1] == u);
                } else {
                    assert(args[i - 1] == u);
                }
            }
        }
    }
}

/// Lowering a call appends requests that use the bound symbol and the
/// arguments, besides scratch symbols, and that release scratch symbols
/// only.
#[verifier::rlimit(50)]
proof fn lemma_call_requests(
    st: EngineState,
    sym: Symbol,
    call: Call,
    layout: Layout,
) -> (added: Seq<Op>)
    ensures
        lower_expr(st, sym, Expr::Call(call), layout) matches Ok(after) ==> after.issued
            == st.issued + added && after.free_map == st.free_map && own(
            added,
            seq![sym] + call.arguments@,
        ),
{
    reveal(lower_expr);
    reveal(lower_call_by_name);
    reveal(inline_builtin);
    let args = call.arguments@;
    let syms = seq![sym] + args;
    assert(syms[0] == sym);
    assert forall|u: Symbol| #[trigger] args.contains(u) implies syms.contains(u) by {
        let i = choose|i: int| 0 <= i < args.len() && args[i] == u;
        assert(syms[i + 1] == u);
    }
    if let Ok(after) = lower_expr(st, sym, Expr::Call(call), layout) {
        let loaded = lemma_ready(st, args);
        let ready = st.load_literal_symbols(args);
        let tail = after.issued.skip(ready.issued.len() as int);
        match call.call_type {
            CallType::ByName { name, arg_layouts, ret_layout } => {
                match LowLevel::inlined_wrapper(name) {
                    Some(op) => {
                        lemma_low_level_request(op, sym, args, arg_layouts@, ret_layout);
                    },
                    None => {
                        if !is_app_module(st.names[name].module) {
                            assert(args.len() == 1);
                            assert(args[0] == args[0]);
                            assert(args.contains(args[0]));
                        } else {
                            let request = Op::FnCall {
                                dst: sym,
                                fn_name: link_name(st.names[name]),
                                args,
                                arg_layouts: arg_layouts@,
                                ret_layout,
                            };
                            assert forall|i: int|
                                0 <= i < op_symbols(request).len() implies op_symbols(request)[i]
                                == sym || args.contains(#[trigger] op_symbols(request)[i]) by {
                                if i > 0 {
                                    assert(args[i - 1] == op_symbols(request)[i]);
                                }
                            }
                        }
                    },
                }
            },
            CallType::LowLevel { op } => {
                let arg_layouts = resolve(st.layouts, args)->Ok_0;
                lemma_low_level_request(op, sym, args, arg_layouts, layout);
            },
            _ => {},
        }
        assert(after.issued =~= ready.issued + tail);
        assert(after.issued =~= st.issued + (loaded + tail));
        lemma_own_wider(loaded, args, syms);
        lemma_call_tail(tail, sym, args, syms);
        lemma_own_concat(loaded, tail, syms);
        loaded + tail
    } else {
        Seq::empty()
    }
}

/// Lowering an expression appends requests that use the bound symbol and
/// the symbols of the expression, besides scratch symbols, and that
/// release scratch symbols only; the release lists stay as they are.
pub proof fn lemma_expr_requests(st: EngineState, sym: Symbol, expr: Expr, layout: Layout) -> (added:
    Seq<Op>)
    ensures
        lower_expr(st, sym, expr, layout) matches Ok(after) ==> after.issued == st.issued + added
            && after.free_map == st.free_map && own(added, seq![sym] + expr.symbols()),
{
    let syms = seq![sym] + expr.symbols();
    assert(syms[0] == sym);
    assert forall|u: Symbol| #[trigger] expr.symbols().contains(u) implies syms.contains(u) by {
        let i = choose|i: int| 0 <= i < expr.symbols().len() && expr.symbols()[i] == u;
        assert(syms[i + 1] == u);
    }
    match expr {
        Expr::Call(call) => lemma_call_requests(st, sym, call, layout),
        Expr::Literal(lit) => {
            reveal(lower_expr);
            if st.lazy_literals {
                assert(st.issued =~= st.issued + Seq::<Op>::empty());
                lemma_own_none(syms);
                Seq::empty()
            } else {
                let op = Op::LoadLiteral { sym, layout, lit };
                assert(st.emit(op).issued =~= st.issued + seq![op]);
                assert forall|u: Symbol| #[trigger] op_symbols(op).contains(u) implies u == sym by {
                    let i = choose|i: int| 0 <= i < op_symbols(op).len() && op_symbols(op)[i] == u;
                }
                lemma_own_one(op, syms);
                seq![op]
            }
        },
        Expr::Struct(fields) => {
            reveal(lower_expr);
            let loaded = lemma_ready(st, fields@);
            let op = Op::CreateStruct { sym, layout, fields: fields@ };
            assert(st.load_literal_symbols(fields@).emit(op).issued =~= st.issued + (loaded + seq![
                op,
            ]));
            lemma_own_wider(loaded, fields@, syms);
            assert forall|u: Symbol| #[trigger] op_symbols(op).contains(u) implies syms.contains(
                u,
            ) by {
                let i = choose|i: int| 0 <= i < op_symbols(op).len() && op_symbols(op)[i] == u;
                assert(syms[i] == u);
            }
            lemma_own_one(op, syms);
            lemma_own_concat(loaded, seq![op], syms);
            loaded + seq![op]
        },
        Expr::StructAtIndex { index, field_layouts, structure } => {
            reveal(lower_expr);
            let op = Op::LoadStructAtIndex { sym, structure, index, field_layouts: field_layouts@ };
            assert(st.emit(op).issued =~= st.issued + seq![op]);
            assert forall|u: Symbol| #[trigger] op_symbols(op).contains(u) implies syms.contains(
                u,
            ) by {
                let i = choose|i: int| 0 <= i < op_symbols(op).len() && op_symbols(op)[i] == u;
                assert(syms[i] == u);
            }
            lemma_own_one(op, syms);
            seq![op]
        },
        _ => {
            reveal(lower_expr);
            Seq::empty()
        },
    }
}

/// Requests of earlier statements followed by requests of later
/// statements are in order.
proof fn lemma_tidy_concat(
    a: Seq<Op>,
    b: Seq<Op>,
    table: Map<Symbol, nat>,
    lo: nat,
    mid: nat,
    hi: nat,
)
    requires
        lo <= mid <= hi,
        tidy(a, table, lo, mid),
        tidy(b, table, mid, hi),
    ensures
        tidy(a + b, table, lo, hi),
{
    reveal(tidy);
    let c = a + b;
    assert forall|p: int, u: Symbol|
        0 <= p < c.len() && #[trigger] op_symbols(c[p]).contains(u) && !is_scratch(
            u,
        ) implies table.contains_key(u) && table[u] >= lo by {
        if p < a.len() {
            assert(op_symbols(a[p]).contains(u));
        } else {
            assert(op_symbols(b[p - a.len()]).contains(u));
        }
    }
    assert forall|p: int| 0 <= p < c.len() implies (#[trigger] freed(c[p]) matches Some(s)
        ==> is_scratch(s) || (table.contains_key(s) && lo <= table[s] < hi)) by {
        if p < a.len() {
            assert(freed(a[p]) is Some ==> freed(c[p]) == freed(a[p]));
        } else {
            assert(freed(b[p - a.len()]) is Some ==> freed(c[p]) == freed(b[p - a.len()]));
        }
    }
    assert forall|p: int, q: int, u: Symbol|
        0 <= p < q < c.len() && #[trigger] op_symbols(c[q]).contains(u) && !is_scratch(u) implies (
    #[trigger] freed(c[p]) matches Some(s) ==> is_scratch(s) || table[s] < table[u]) by {
        if q < a.len() {
            assert(op_symbols(a[q]).contains(u));
            assert(freed(a[p]) == freed(c[p]));
        } else if p >= a.len() {
            assert(op_symbols(b[q - a.len()]).contains(u));
            assert(freed(b[p - a.len()]) == freed(c[p]));
        } else {
            assert(op_symbols(b[q - a.len()]).contains(u));
            assert(freed(a[p]) == freed(c[p]));
        }
    }
}

/// Requests followed by releases that belong to the same statements are
/// in order.
proof fn lemma_tidy_close(a: Seq<Op>, b: Seq<Op>, table: Map<Symbol, nat>, lo: nat, hi: nat)
    requires
        tidy(a, table, lo, hi),
        closing(b, table, lo, hi),
    ensures
        tidy(a + b, table, lo, hi),
{
    reveal(tidy);
    reveal(closing);
    let c = a + b;
    assert forall|p: int, u: Symbol|
        0 <= p < c.len() && #[trigger] op_symbols(c[p]).contains(u) && !is_scratch(
            u,
        ) implies table.contains_key(u) && table[u] >= lo by {
        if p < a.len() {
            assert(op_symbols(a[p]).contains(u));
        } else {
            assert(op_symbols(b[p - a.len()]).len() == 0);
        }
    }
    assert forall|p: int| 0 <= p < c.len() implies (#[trigger] freed(c[p]) matches Some(s)
        ==> is_scratch(s) || (table.contains_key(s) && lo <= table[s] < hi)) by {
        if p < a.len() {
            assert(freed(a[p]) is Some ==> freed(c[p]) == freed(a[p]));
        } else {
            assert(freed(b[p - a.len()]) is Some ==> freed(c[p]) == freed(b[p - a.len()]));
        }
    }
    assert forall|p: int, q: int, u: Symbol|
        0 <= p < q < c.len() && #[trigger] op_symbols(c[q]).contains(u) && !is_scratch(u) implies (
    #[trigger] freed(c[p]) matches Some(s) ==> is_scratch(s) || table[s] < table[u]) by {
        if q < a.len() {
            assert(op_symbols(a[q]).contains(u));
            assert(freed(a[p]) == freed(c[p]));
        } else {
            assert(op_symbols(b[q - a.len()]).len() == 0);
        }
    }
}

/// A request that uses no symbol and releases none fits anywhere.
proof fn lemma_tidy_marker(op: Op, table: Map<Symbol, nat>, lo: nat, hi: nat)
    requires
        op_symbols(op).len() == 0,
        freed(op) is None,
    ensures
        tidy(seq![op], table, lo, hi),
{
    reveal(tidy);
}

/// Requests of statements `lo..hi` are requests of the statements of any
/// wider range.
proof fn lemma_tidy_widen(
    ops: Seq<Op>,
    table: Map<Symbol, nat>,
    lo: nat,
    hi: nat,
    wide_lo: nat,
    wide_hi: nat,
)
    requires
        tidy(ops, table, lo, hi),
        wide_lo <= lo,
        hi <= wide_hi,
    ensures
        tidy(ops, table, wide_lo, wide_hi),
{
    reveal(tidy);
    assert forall|p: int| 0 <= p < ops.len() implies (#[trigger] freed(ops[p]) matches Some(s)
        ==> is_scratch(s) || (table.contains_key(s) && wide_lo <= table[s] < wide_hi)) by {
        assert(freed(ops[p]) matches Some(s) ==> is_scratch(s) || (table.contains_key(s) && lo
            <= table[s] < hi));
    }
}

proof fn lemma_closing_widen(
    ops: Seq<Op>,
    table: Map<Symbol, nat>,
    lo: nat,
    hi: nat,
    wide_lo: nat,
    wide_hi: nat,
)
    requires
        closing(ops, table, lo, hi),
        wide_lo <= lo,
        hi <= wide_hi,
    ensures
        closing(ops, table, wide_lo, wide_hi),
{
    reveal(closing);
    assert forall|p: int| 0 <= p < ops.len() implies (#[trigger] freed(ops[p]) matches Some(s)
        ==> is_scratch(s) || (table.contains_key(s) && wide_lo <= table[s] < wide_hi)) by {
        assert(freed(ops[p]) matches Some(s) ==> is_scratch(s) || (table.contains_key(s) && lo
            <= table[s] < hi));
    }
}

/// The symbols that a statement refers to have entries at the statement
/// or later.
proof fn lemma_covers_root(table: Map<Symbol, nat>, stmt: Stmt, at: nat)
    requires
        covers(table, stmt, at),
    ensures
        forall|u: Symbol| #[trigger]
            stmt.symbols().contains(u) ==> table.contains_key(u) && table[u] >= at,
{
    reveal(covers);
    assert forall|u: Symbol| #[trigger] stmt.symbols().contains(u) implies table.contains_key(u)
        && table[u] >= at by {
        assert(stmt_at(stmt, 0).symbols().contains(u));
    }
}

/// The requests of the statement with index `at` itself are in order,
/// whatever the end of the range.
proof fn lemma_tidy_own(ops: Seq<Op>, stmt: Stmt, table: Map<Symbol, nat>, at: nat, hi: nat)
    requires
        own(ops, stmt.symbols()),
        covers(table, stmt, at),
    ensures
        tidy(ops, table, at, hi),
{
    lemma_covers_root(table, stmt, at);
    reveal(own);
    reveal(tidy);
    assert forall|p: int, u: Symbol|
        0 <= p < ops.len() && #[trigger] op_symbols(ops[p]).contains(u) && !is_scratch(
            u,
        ) implies table.contains_key(u) && table[u] >= at by {
        assert(stmt.symbols().contains(u));
    }
    assert forall|p: int, q: int, u: Symbol|
        0 <= p < q < ops.len() && #[trigger] op_symbols(ops[q]).contains(u) && !is_scratch(
            u,
        ) implies (#[trigger] freed(ops[p]) matches Some(s) ==> is_scratch(s) || table[s]
        < table[u]) by {
        assert(freed(ops[p]) matches Some(s) ==> is_scratch(s));
    }
}

/// One request that uses symbols of the statement with index `at`.
proof fn lemma_tidy_request(op: Op, stmt: Stmt, table: Map<Symbol, nat>, at: nat, hi: nat)
    requires
        covers(table, stmt, at),
        freed(op) is None,
        forall|i: int| 0 <= i < op_symbols(op).len() ==> stmt.symbols().contains(
            #[trigger] op_symbols(op)[i],
        ),
    ensures
        tidy(seq![op], table, at, hi),
{
    assert forall|u: Symbol| #[trigger]
        op_symbols(op).contains(u) && !is_scratch(u) implies stmt.symbols().contains(u) by {
        let i = choose|i: int| 0 <= i < op_symbols(op).len() && op_symbols(op)[i] == u;
    }
    lemma_own_one(op, stmt.symbols());
    lemma_tidy_own(seq![op], stmt, table, at, hi);
}

/// Making a symbol of the statement with index `at` ready.
proof fn lemma_tidy_ready(
    st: EngineState,
    sym: Symbol,
    stmt: Stmt,
    table: Map<Symbol, nat>,
    at: nat,
    hi: nat,
) -> (added: Seq<Op>)
    requires
        covers(table, stmt, at),
        stmt.symbols().contains(sym),
    ensures
        st.load_literal_symbols(seq![sym]).issued == st.issued + added,
        st.load_literal_symbols(seq![sym]).free_map == st.free_map,
        tidy(added, table, at, hi),
{
    let added = lemma_ready(st, seq![sym]);
    assert forall|u: Symbol| #[trigger] seq![sym].contains(u) implies stmt.symbols().contains(
        u,
    ) by {
        assert(u == sym);
    }
    lemma_own_wider(added, seq![sym], stmt.symbols());
    lemma_tidy_own(added, stmt, table, at, hi);
    added
}

/// Using the release list of statement `at` appends the releases of
/// symbols whose entry is `at`.
proof fn lemma_release_requests(st: EngineState, at: nat, table: Map<Symbol, nat>) -> (added: Seq<
    Op,
>)
    requires
        lists_follow(st.free_map, table),
    ensures
        st.release(at).issued == st.issued + added,
        sub_map(st.release(at).free_map, st.free_map),
        closing(added, table, at, at + 1),
{
    reveal(lists_follow);
    reveal(sub_map);
    reveal(closing);
    if st.free_map.contains_key(at) {
        let list = st.free_map[at];
        let ops = frees(list);
        assert forall|p: int| 0 <= p < ops.len() implies (#[trigger] freed(ops[p]) matches Some(s)
            ==> is_scratch(s) || (table.contains_key(s) && at <= table[s] < at + 1)) by {
            assert(st.free_map[at].contains(list[p]));
        }
        ops
    } else {
        assert(st.issued =~= st.issued + Seq::<Op>::empty());
        Seq::empty()
    }
}

/// A table that covers a tree covers the trees below its root.
proof fn lemma_covers_below(table: Map<Symbol, nat>, stmt: Stmt, at: nat)
    requires
        covers(table, stmt, at),
    ensures
        match stmt {
            Stmt::Let(_, _, _, following) => covers(table, *following, at + 1),
            Stmt::Refcounting(_, following) => covers(table, *following, at + 1),
            Stmt::Switch { branches, default_branch, .. } => covers_branches(
                table,
                branches@,
                at + 1,
            ) && covers(table, *default_branch, at + 1 + branches_size(branches@)),
            Stmt::Join { body, remainder, .. } => covers(table, *body, at + 1) && covers(
                table,
                *remainder,
                at + 1 + body.size(),
            ),
            _ => true,
        },
{
    reveal(covers);
    reveal(covers_branches);
    match stmt {
        Stmt::Let(_, _, _, following) => {
            assert forall|j: nat, u: Symbol|
                j < following.size() && #[trigger] stmt_at(*following, j).symbols().contains(
                    u,
                ) implies table.contains_key(u) && table[u] >= at + 1 + j by {
                assert(stmt_at(stmt, j + 1) == stmt_at(*following, j));
                assert(stmt_at(stmt, j + 1).symbols().contains(u));
            }
        },
        Stmt::Refcounting(_, following) => {
            assert forall|j: nat, u: Symbol|
                j < following.size() && #[trigger] stmt_at(*following, j).symbols().contains(
                    u,
                ) implies table.contains_key(u) && table[u] >= at + 1 + j by {
                assert(stmt_at(stmt, j + 1) == stmt_at(*following, j));
                assert(stmt_at(stmt, j + 1).symbols().contains(u));
            }
        },
        Stmt::Switch { branches, default_branch, .. } => {
            let inner = branches_size(branches@);
            assert forall|j: nat, u: Symbol|
                j < inner && #[trigger] branch_stmt_at(branches@, j).symbols().contains(
                    u,
                ) implies table.contains_key(u) && table[u] >= at + 1 + j by {
                assert(stmt_at(stmt, j + 1) == branch_stmt_at(branches@, j));
                assert(stmt_at(stmt, j + 1).symbols().contains(u));
            }
            assert forall|j: nat, u: Symbol|
                j < default_branch.size() && #[trigger] stmt_at(
                    *default_branch,
                    j,
                ).symbols().contains(u) implies table.contains_key(u) && table[u] >= at + 1
                + inner + j by {
                assert(stmt_at(stmt, j + 1 + inner) == stmt_at(*default_branch, j));
                assert(stmt_at(stmt, j + 1 + inner).symbols().contains(u));
            }
        },
        Stmt::Join { body, remainder, .. } => {
            assert forall|j: nat, u: Symbol|
                j < body.size() && #[trigger] stmt_at(*body, j).symbols().contains(
                    u,
                ) implies table.contains_key(u) && table[u] >= at + 1 + j by {
                assert(stmt_at(stmt, j + 1) == stmt_at(*body, j));
                assert(stmt_at(stmt, j + 1).symbols().contains(u));
            }
            assert forall|j: nat, u: Symbol|
                j < remainder.size() && #[trigger] stmt_at(*remainder, j).symbols().contains(
                    u,
                ) implies table.contains_key(u) && table[u] >= at + 1 + body.size() + j by {
                assert(stmt_at(stmt, j + 1 + body.size()) == stmt_at(*remainder, j));
                assert(stmt_at(stmt, j + 1 + body.size()).symbols().contains(u));
            }
        },
        _ => {},
    }
}

/// A table that covers a list of branches covers the first and the rest.
proof fn lemma_covers_branches_below(table: Map<Symbol, nat>, branches: Seq<Branch>, at: nat)
    requires
        covers_branches(table, branches, at),
        branches.len() > 0,
    ensures
        covers(table, branches[0].body, at),
        covers_branches(table, branches.skip(1), at + branches[0].body.size()),
{
    reveal(covers);
    reveal(covers_branches);
    let size = branches[0].body.size();
    assert forall|j: nat, u: Symbol|
        j < size && #[trigger] stmt_at(branches[0].body, j).symbols().contains(
            u,
        ) implies table.contains_key(u) && table[u] >= at + j by {
        assert(branch_stmt_at(branches, j) == stmt_at(branches[0].body, j));
        assert(branch_stmt_at(branches, j).symbols().contains(u));
    }
    assert forall|j: nat, u: Symbol|
        j < branches_size(branches.skip(1)) && #[trigger] branch_stmt_at(
            branches.skip(1),
            j,
        ).symbols().contains(u) implies table.contains_key(u) && table[u] >= at + size + j by {
        assert(branch_stmt_at(branches, j + size) == branch_stmt_at(branches.skip(1), j));
        assert(branch_stmt_at(branches, j + size).symbols().contains(u));
    }
}

/// What lowering the tree `stmt` from `st` appends: the requests `added`,
/// which are those of the statements of the tree, in order; no release
/// list is made or changed.
pub open spec fn appends(
    st: EngineState,
    stmt: Stmt,
    at: nat,
    ret_layout: Layout,
    table: Map<Symbol, nat>,
    added: Seq<Op>,
) -> bool {
    lower_stmt(st, stmt, at, ret_layout) matches Ok(after) ==> grows(st, after, added) && tidy(
        added,
        table,
        at,
        at + stmt.size(),
    )
}

/// Whether `after` has the requests of `st` followed by `added`, and no
/// release list that `st` does not have.
#[verifier::opaque]
pub open spec fn grows(st: EngineState, after: EngineState, added: Seq<Op>) -> bool {
    &&& after.issued == st.issued + added
    &&& sub_map(after.free_map, st.free_map)
}

proof fn lemma_grows_none(st: EngineState, after: EngineState)
    requires
        after.issued == st.issued,
        after.free_map == st.free_map,
    ensures
        grows(st, after, Seq::empty()),
{
    reveal(grows);
    lemma_sub_map_same(st.free_map);
    assert(st.issued =~= st.issued + Seq::<Op>::empty());
}

proof fn lemma_grows_by(st: EngineState, after: EngineState, added: Seq<Op>)
    requires
        after.issued == st.issued + added,
        after.free_map == st.free_map,
    ensures
        grows(st, after, added),
{
    reveal(grows);
    lemma_sub_map_same(st.free_map);
}

proof fn lemma_grows_emit(st: EngineState, op: Op)
    ensures
        grows(st, st.emit(op), seq![op]),
{
    reveal(grows);
    lemma_sub_map_same(st.free_map);
    assert(st.emit(op).issued =~= st.issued + seq![op]);
}

proof fn lemma_grows_chain(
    a: EngineState,
    b: EngineState,
    c: EngineState,
    first: Seq<Op>,
    second: Seq<Op>,
)
    requires
        grows(a, b, first),
        grows(b, c, second),
    ensures
        grows(a, c, first + second),
{
    reveal(grows);
    lemma_sub_map_chain(c.free_map, b.free_map, a.free_map);
    assert(c.issued =~= a.issued + (first + second));
}

proof fn lemma_grows_follow(
    st: EngineState,
    after: EngineState,
    added: Seq<Op>,
    table: Map<Symbol, nat>,
)
    requires
        grows(st, after, added),
        lists_follow(st.free_map, table),
    ensures
        lists_follow(after.free_map, table),
{
    reveal(grows);
    lemma_lists_follow_sub(after.free_map, st.free_map, table);
}

/// Using the release list of statement `at`.
proof fn lemma_grows_release(st: EngineState, at: nat, table: Map<Symbol, nat>) -> (added: Seq<Op>)
    requires
        lists_follow(st.free_map, table),
    ensures
        grows(st, st.release(at), added),
        closing(added, table, at, at + 1),
{
    reveal(grows);
    lemma_release_requests(st, at, table)
}

/// Lowering a tree appends the requests of its statements in order: each
/// request uses symbols whose entries are the statement of the request or
/// later, and each release is of a symbol whose entry is the statement
/// that was lowered last.
pub proof fn lemma_stmt_requests(
    st: EngineState,
    stmt: Stmt,
    at: nat,
    ret_layout: Layout,
    table: Map<Symbol, nat>,
) -> (added: Seq<Op>)
    requires
        covers(table, stmt, at),
        lists_follow(st.free_map, table),
    ensures
        appends(st, stmt, at, ret_layout, table, added),
    decreases stmt, 1nat,
{
    let end = at + stmt.size();
    match stmt {
        Stmt::Refcounting(..) => lemma_lower_refcounting(st, stmt, at, ret_layout),
        Stmt::RuntimeError(_) => lemma_lower_runtime_error(st, stmt, at, ret_layout),
        _ => {},
    }
    match stmt {
        Stmt::Let(..) => lemma_let_requests(st, stmt, at, ret_layout, table),
        Stmt::Ret(..) => lemma_ret_requests(st, stmt, at, ret_layout, table),
        Stmt::Refcounting(_, following) => {
            lemma_covers_below(table, stmt, at);
            let added = lemma_stmt_requests(st, *following, at + 1, ret_layout, table);
            if lower_stmt(st, stmt, at, ret_layout) is Ok {
                lemma_tidy_widen(added, table, at + 1, end, at, end);
            }
            added
        },
        Stmt::Switch { .. } => lemma_switch_requests(st, stmt, at, ret_layout, table),
        Stmt::Join { .. } => lemma_join_requests(st, stmt, at, ret_layout, table),
        Stmt::Jump(..) => lemma_jump_requests(st, stmt, at, ret_layout, table),
        Stmt::RuntimeError(_) => Seq::empty(),
    }
}

proof fn lemma_ret_requests(
    st: EngineState,
    stmt: Stmt,
    at: nat,
    ret_layout: Layout,
    table: Map<Symbol, nat>,
) -> (added: Seq<Op>)
    requires
        stmt is Ret,
        covers(table, stmt, at),
        lists_follow(st.free_map, table),
    ensures
        appends(st, stmt, at, ret_layout, table, added),
{
    lemma_lower_ret(st, stmt, at, ret_layout);
    let sym = stmt->Ret_0;
    assert(stmt.symbols()[0] == sym);
    let loaded = lemma_tidy_ready(st, sym, stmt, table, at, at);
    let ready = st.load_literal_symbols(seq![sym]);
    lemma_grows_by(st, ready, loaded);
    let ret = Op::Return { sym, layout: ret_layout };
    lemma_tidy_request(ret, stmt, table, at, at + 1);
    let returned = ready.emit(ret);
    lemma_grows_emit(ready, ret);
    lemma_grows_chain(st, ready, returned, loaded, seq![ret]);
    lemma_grows_follow(st, returned, loaded + seq![ret], table);
    let released = lemma_grows_release(returned, at, table);
    lemma_grows_chain(st, returned, returned.release(at), loaded + seq![ret], released);
    lemma_tidy_concat(loaded, seq![ret], table, at, at, at + 1);
    lemma_tidy_close(loaded + seq![ret], released, table, at, at + 1);
    loaded + seq![ret] + released
}

proof fn lemma_jump_requests(
    st: EngineState,
    stmt: Stmt,
    at: nat,
    ret_layout: Layout,
    table: Map<Symbol, nat>,
) -> (added: Seq<Op>)
    requires
        stmt is Jump,
        covers(table, stmt, at),
        lists_follow(st.free_map, table),
    ensures
        appends(st, stmt, at, ret_layout, table, added),
{
    lemma_lower_jump(st, stmt, at, ret_layout);
    let id = stmt->Jump_0;
    let args = stmt->Jump_1;
    if let Ok(arg_layouts) = resolve(st.layouts, args@) {
        let jump = Op::Jump { id, args: args@, arg_layouts, ret_layout };
        assert(op_symbols(jump) =~= stmt.symbols());
        assert forall|i: int| 0 <= i < op_symbols(jump).len() implies stmt.symbols().contains(
            #[trigger] op_symbols(jump)[i],
        ) by {
            assert(stmt.symbols()[i] == op_symbols(jump)[i]);
        }
        lemma_tidy_request(jump, stmt, table, at, at + 1);
        let jumped = st.emit(jump);
        lemma_grows_emit(st, jump);
        lemma_grows_follow(st, jumped, seq![jump], table);
        let released = lemma_grows_release(jumped, at, table);
        lemma_grows_chain(st, jumped, jumped.release(at), seq![jump], released);
        lemma_tidy_close(seq![jump], released, table, at, at + 1);
        seq![jump] + released
    } else {
        Seq::empty()
    }
}

proof fn lemma_let_requests(
    st: EngineState,
    stmt: Stmt,
    at: nat,
    ret_layout: Layout,
    table: Map<Symbol, nat>,
) -> (added: Seq<Op>)
    requires
        stmt is Let,
        covers(table, stmt, at),
        lists_follow(st.free_map, table),
    ensures
        appends(st, stmt, at, ret_layout, table, added),
    decreases stmt, 0nat,
{
    let end = at + stmt.size();
    lemma_lower_let(st, stmt, at, ret_layout);
    if let Stmt::Let(sym, expr, layout, following) = stmt {
        let own_ops = lemma_expr_requests(st, sym, expr, layout);
        if let Ok(bound) = lower_expr(st, sym, expr, layout) {
            if let Ok(recorded) = bound.set_layout(sym, layout) {
                lemma_covers_below(table, stmt, at);
                lemma_tidy_own(own_ops, stmt, table, at, at + 1);
                lemma_grows_by(st, recorded, own_ops);
                lemma_grows_follow(st, recorded, own_ops, table);
                let released = lemma_grows_release(recorded, at, table);
                let next = recorded.release(at);
                lemma_grows_chain(st, recorded, next, own_ops, released);
                lemma_grows_follow(st, next, own_ops + released, table);
                let below = lemma_stmt_requests(next, *following, at + 1, ret_layout, table);
                if let Ok(after) = lower_stmt(next, *following, at + 1, ret_layout) {
                    lemma_grows_chain(st, next, after, own_ops + released, below);
                    lemma_tidy_close(own_ops, released, table, at, at + 1);
                    lemma_tidy_concat(own_ops + released, below, table, at, at + 1, end);
                }
                own_ops + released + below
            } else {
                Seq::empty()
            }
        } else {
            Seq::empty()
        }
    } else {
        Seq::empty()
    }
}

/// The requests of a statement with two groups of statements below it:
/// an opening, the first group, a marker, the second group, a marker, and
/// the releases of the statement itself.
proof fn lemma_tidy_enclosing(
    open: Seq<Op>,
    first: Seq<Op>,
    middle: Op,
    second: Seq<Op>,
    close: Op,
    released: Seq<Op>,
    table: Map<Symbol, nat>,
    at: nat,
    mid: nat,
    end: nat,
)
    requires
        at + 1 <= mid <= end,
        tidy(open, table, at, at + 1),
        tidy(first, table, at + 1, mid),
        op_symbols(middle).len() == 0,
        freed(middle) is None,
        tidy(second, table, mid, end),
        op_symbols(close).len() == 0,
        freed(close) is None,
        closing(released, table, at, at + 1),
    ensures
        tidy(open + first + seq![middle] + second + seq![close] + released, table, at, end),
{
    lemma_tidy_concat(open, first, table, at, at + 1, mid);
    lemma_tidy_marker(middle, table, mid, mid);
    lemma_tidy_concat(open + first, seq![middle], table, at, mid, mid);
    lemma_tidy_concat(open + first + seq![middle], second, table, at, mid, end);
    lemma_tidy_marker(close, table, end, end);
    lemma_tidy_concat(open + first + seq![middle] + second, seq![close], table, at, end, end);
    lemma_closing_widen(released, table, at, at + 1, at, end);
    lemma_tidy_close(open + first + seq![middle] + second + seq![close], released, table, at, end);
}

/// The states of a statement with two groups of statements below it.
proof fn lemma_grows_enclosing(
    st: EngineState,
    opened: EngineState,
    open: Seq<Op>,
    inner: EngineState,
    first: Seq<Op>,
    middle: Op,
    outer: EngineState,
    second: Seq<Op>,
    close: Op,
    at: nat,
    table: Map<Symbol, nat>,
) -> (released: Seq<Op>)
    requires
        lists_follow(st.free_map, table),
        grows(st, opened, open),
        grows(opened, inner, first),
        grows(inner.emit(middle), outer, second),
    ensures
        grows(
            st,
            outer.emit(close).release(at),
            open + first + seq![middle] + second + seq![close] + released,
        ),
        closing(released, table, at, at + 1),
{
    lemma_grows_chain(st, opened, inner, open, first);
    lemma_grows_emit(inner, middle);
    lemma_grows_chain(st, inner, inner.emit(middle), open + first, seq![middle]);
    lemma_grows_chain(st, inner.emit(middle), outer, open + first + seq![middle], second);
    lemma_grows_emit(outer, close);
    lemma_grows_chain(
        st,
        outer,
        outer.emit(close),
        open + first + seq![middle] + second,
        seq![close],
    );
    lemma_grows_follow(
        st,
        outer.emit(close),
        open + first + seq![middle] + second + seq![close],
        table,
    );
    let released = lemma_grows_release(outer.emit(close), at, table);
    lemma_grows_chain(
        st,
        outer.emit(close),
        outer.emit(close).release(at),
        open + first + seq![middle] + second + seq![close],
        released,
    );
    released
}

/// Opening a `Switch`: its condition is made ready and the multi-way
/// branch is opened.
proof fn lemma_switch_open(
    st: EngineState,
    stmt: Stmt,
    at: nat,
    table: Map<Symbol, nat>,
) -> (open: Seq<Op>)
    requires
        stmt is Switch,
        covers(table, stmt, at),
    ensures
        grows(
            st,
            st.load_literal_symbols(seq![stmt->cond_symbol]).emit(
                Op::Switch {
                    cond_symbol: stmt->cond_symbol,
                    cond_layout: stmt->cond_layout,
                    ret_layout: stmt->Switch_ret_layout,
                },
            ),
            open,
        ),
        tidy(open, table, at, at + 1),
{
    let cond_symbol = stmt->cond_symbol;
    assert(stmt.symbols()[0] == cond_symbol);
    let loaded = lemma_tidy_ready(st, cond_symbol, stmt, table, at, at);
    let ready = st.load_literal_symbols(seq![cond_symbol]);
    lemma_grows_by(st, ready, loaded);
    let switch = Op::Switch {
        cond_symbol,
        cond_layout: stmt->cond_layout,
        ret_layout: stmt->Switch_ret_layout,
    };
    lemma_tidy_request(switch, stmt, table, at, at + 1);
    lemma_tidy_concat(loaded, seq![switch], table, at, at, at + 1);
    lemma_grows_emit(ready, switch);
    lemma_grows_chain(st, ready, ready.emit(switch), loaded, seq![switch]);
    loaded + seq![switch]
}

proof fn lemma_switch_requests(
    st: EngineState,
    stmt: Stmt,
    at: nat,
    ret_layout: Layout,
    table: Map<Symbol, nat>,
) -> (added: Seq<Op>)
    requires
        stmt is Switch,
        covers(table, stmt, at),
        lists_follow(st.free_map, table),
    ensures
        appends(st, stmt, at, ret_layout, table, added),
    decreases stmt, 0nat,
{
    let end = at + stmt.size();
    lemma_lower_switch(st, stmt, at, ret_layout);
    if let Stmt::Switch {
        cond_symbol,
        cond_layout,
        branches,
        default_info,
        default_branch,
        ret_layout: switch_layout,
    } = stmt {
        let mid = at + 1 + branches_size(branches@);
        lemma_covers_below(table, stmt, at);
        let open = lemma_switch_open(st, stmt, at, table);
        let opened = st.load_literal_symbols(seq![cond_symbol]).emit(
            Op::Switch { cond_symbol, cond_layout, ret_layout: switch_layout },
        );
        lemma_grows_follow(st, opened, open, table);
        let first = lemma_branches_requests(opened, branches@, at + 1, switch_layout, table);
        if let Ok(branched) = lower_branches(opened, branches@, at + 1, switch_layout) {
            let middle = Op::SwitchDefault { info: default_info };
            let marked = branched.emit(middle);
            lemma_grows_follow(opened, branched, first, table);
            lemma_grows_emit(branched, middle);
            lemma_grows_follow(branched, marked, seq![middle], table);
            let second = lemma_stmt_requests(marked, *default_branch, mid, switch_layout, table);
            if let Ok(done) = lower_stmt(marked, *default_branch, mid, switch_layout) {
                let close = Op::SwitchEnd;
                let released = lemma_grows_enclosing(
                    st,
                    opened,
                    open,
                    branched,
                    first,
                    middle,
                    done,
                    second,
                    close,
                    at,
                    table,
                );
                lemma_tidy_enclosing(
                    open,
                    first,
                    middle,
                    second,
                    close,
                    released,
                    table,
                    at,
                    mid,
                    end,
                );
                open + first + seq![middle] + second + seq![close] + released
            } else {
                Seq::empty()
            }
        } else {
            Seq::empty()
        }
    } else {
        Seq::empty()
    }
}

/// Opening a `Join`: the layouts of its parameters are recorded and the
/// join point is opened.
proof fn lemma_join_open(
    st: EngineState,
    stmt: Stmt,
    at: nat,
    ret_layout: Layout,
    table: Map<Symbol, nat>,
) -> (open: Seq<Op>)
    requires
        stmt is Join,
        covers(table, stmt, at),
    ensures
        st.set_param_layouts(stmt->parameters@) matches Ok(recorded) ==> grows(
            st,
            recorded.emit(
                Op::Join { id: stmt->id, parameters: stmt->parameters@, ret_layout },
            ),
            open,
        ) && tidy(open, table, at, at + 1),
{
    let parameters = stmt->parameters;
    lemma_set_param_layouts_keeps(st, parameters@);
    let join = Op::Join { id: stmt->id, parameters: parameters@, ret_layout };
    if let Ok(recorded) = st.set_param_layouts(parameters@) {
        assert(op_symbols(join) =~= stmt.symbols());
        assert forall|i: int| 0 <= i < op_symbols(join).len() implies stmt.symbols().contains(
            #[trigger] op_symbols(join)[i],
        ) by {
            assert(stmt.symbols()[i] == op_symbols(join)[i]);
        }
        lemma_tidy_request(join, stmt, table, at, at + 1);
        lemma_grows_none(st, recorded);
        lemma_grows_emit(recorded, join);
        lemma_grows_chain(st, recorded, recorded.emit(join), Seq::empty(), seq![join]);
        assert(Seq::<Op>::empty() + seq![join] =~= seq![join]);
    }
    seq![join]
}

proof fn lemma_join_requests(
    st: EngineState,
    stmt: Stmt,
    at: nat,
    ret_layout: Layout,
    table: Map<Symbol, nat>,
) -> (added: Seq<Op>)
    requires
        stmt is Join,
        covers(table, stmt, at),
        lists_follow(st.free_map, table),
    ensures
        appends(st, stmt, at, ret_layout, table, added),
    decreases stmt, 0nat,
{
    let end = at + stmt.size();
    lemma_lower_join(st, stmt, at, ret_layout);
    if let Stmt::Join { id, parameters, body, remainder } = stmt {
        let mid = at + 1 + body.size();
        lemma_covers_below(table, stmt, at);
        let open = lemma_join_open(st, stmt, at, ret_layout, table);
        if let Ok(recorded) = st.set_param_layouts(parameters@) {
            let opened = recorded.emit(Op::Join { id, parameters: parameters@, ret_layout });
            lemma_grows_follow(st, opened, open, table);
            let first = lemma_stmt_requests(opened, *body, at + 1, ret_layout, table);
            if let Ok(defined) = lower_stmt(opened, *body, at + 1, ret_layout) {
                let middle = Op::JoinRemainder { id };
                let marked = defined.emit(middle);
                lemma_grows_follow(opened, defined, first, table);
                lemma_grows_emit(defined, middle);
                lemma_grows_follow(defined, marked, seq![middle], table);
                let second = lemma_stmt_requests(marked, *remainder, mid, ret_layout, table);
                if let Ok(done) = lower_stmt(marked, *remainder, mid, ret_layout) {
                    let close = Op::JoinEnd { id };
                    let released = lemma_grows_enclosing(
                        st,
                        opened,
                        open,
                        defined,
                        first,
                        middle,
                        done,
                        second,
                        close,
                        at,
                        table,
                    );
                    lemma_tidy_enclosing(
                        open,
                        first,
                        middle,
                        second,
                        close,
                        released,
                        table,
                        at,
                        mid,
                        end,
                    );
                    open + first + seq![middle] + second + seq![close] + released
                } else {
                    Seq::empty()
                }
            } else {
                Seq::empty()
            }
        } else {
            Seq::empty()
        }
    } else {
        Seq::empty()
    }
}

/// Lowering a list of branches appends the requests of their statements in
/// order.
pub proof fn lemma_branches_requests(
    st: EngineState,
    branches: Seq<Branch>,
    at: nat,
    ret_layout: Layout,
    table: Map<Symbol, nat>,
) -> (added: Seq<Op>)
    requires
        covers_branches(table, branches, at),
        lists_follow(st.free_map, table),
    ensures
        lower_branches(st, branches, at, ret_layout) matches Ok(after) ==> grows(st, after, added)
            && tidy(added, table, at, at + branches_size(branches)),
    decreases branches, 1nat,
{
    lemma_lower_branches(st, branches, at, ret_layout);
    if branches.len() == 0 {
        lemma_grows_none(st, st);
        assert(tidy(Seq::<Op>::empty(), table, at, at)) by {
            reveal(tidy);
        }
        Seq::empty()
    } else {
        let end = at + branches_size(branches);
        let mid = at + branches[0].body.size();
        lemma_covers_branches_below(table, branches, at);
        let mark = Op::SwitchBranch { value: branches[0].value, info: branches[0].info };
        let marked = st.emit(mark);
        lemma_grows_emit(st, mark);
        lemma_grows_follow(st, marked, seq![mark], table);
        let first = lemma_stmt_requests(marked, branches[0].body, at, ret_layout, table);
        if let Ok(next) = lower_stmt(marked, branches[0].body, at, ret_layout) {
            lemma_grows_chain(st, marked, next, seq![mark], first);
            lemma_grows_follow(st, next, seq![mark] + first, table);
            let rest = lemma_branches_requests(next, branches.skip(1), mid, ret_layout, table);
            if let Ok(after) = lower_branches(next, branches.skip(1), mid, ret_layout) {
                lemma_grows_chain(st, next, after, seq![mark] + first, rest);
                lemma_tidy_marker(mark, table, at, at);
                lemma_tidy_concat(seq![mark], first, table, at, at, mid);
                lemma_tidy_concat(seq![mark] + first, rest, table, at, mid, end);
            }
            seq![mark] + first + rest
        } else {
            Seq::empty()
        }
    }
}

/// The last-seen table of a body covers the body.
proof fn lemma_last_seen_covers(body: Stmt)
    ensures
        covers(last_seen_of(body), body, 0),
{
    reveal(covers);
    assert forall|j: nat, u: Symbol|
        j < body.size() && #[trigger] stmt_at(body, j).symbols().contains(
            u,
        ) implies last_seen_of(body).contains_key(u) && last_seen_of(body)[u] >= 0 + j by {
        lemma_reference_is_seen(body, j, u);
    }
}

/// The lists of the free map of a table follow the table.
proof fn lemma_free_map_follows(v: LastSeenView)
    requires
        v.wf(),
    ensures
        lists_follow(free_map_of(v), v.table),
{
    reveal(lists_follow);
    assert forall|k: nat, x: Symbol|
        free_map_of(v).contains_key(k) && #[trigger] free_map_of(v)[k].contains(
            x,
        ) implies v.table.contains_key(x) && v.table[x] == k by {
        lemma_free_map_complete(v, x, k);
    }
}

/// Releases follow the table. Among the requests that lowering a
/// procedure makes to the backend, one that follows the release of a
/// symbol of the body uses symbols of the body with a later entry in the
/// last-seen table only.
pub proof fn lemma_release_order(st: EngineState, proc: Proc, p: int, q: int, u: Symbol)
    requires
        lower_proc(st, proc) is Ok,
        0 <= p < q < lower_proc(st, proc)->Ok_0.issued.len(),
        freed(lower_proc(st, proc)->Ok_0.issued[p]) is Some,
        op_symbols(lower_proc(st, proc)->Ok_0.issued[q]).contains(u),
        !is_scratch(u),
        !is_scratch(freed(lower_proc(st, proc)->Ok_0.issued[p])->Some_0),
    ensures
        last_seen_of(proc.body).contains_key(u),
        last_seen_of(proc.body).contains_key(freed(lower_proc(st, proc)->Ok_0.issued[p])->Some_0),
        last_seen_of(proc.body)[freed(lower_proc(st, proc)->Ok_0.issued[p])->Some_0]
            < last_seen_of(proc.body)[u],
{
    let after = lower_proc(st, proc)->Ok_0;
    let reset = Op::Reset {
        name: link_name(st.names[proc.name]),
        is_self_recursive: proc.is_self_recursive,
    };
    let load = Op::LoadArgs { args: proc.args@, ret_layout: proc.ret_layout };
    let started = st.fresh().emit(reset).emit(load);
    lemma_set_arg_layouts_keeps(started, proc.args@);
    let recorded = started.set_arg_layouts(proc.args@)->Ok_0;
    let marks = stmt_marks(proc.body, 0, Seq::empty());
    let last_seen = recorded.last_seen.mark_all(marks);
    lemma_mark_all_wf(LastSeenView::empty(), marks);
    let table = last_seen.table;
    assert(table == last_seen_of(proc.body));
    let scanned = EngineState { last_seen, free_map: free_map_of(last_seen), ..recorded };
    lemma_last_seen_covers(proc.body);
    lemma_free_map_follows(last_seen);
    let added = lemma_stmt_requests(scanned, proc.body, 0, proc.ret_layout, table);
    let lowered = lower_stmt(scanned, proc.body, 0, proc.ret_layout)->Ok_0;
    reveal(grows);
    assert(after.issued =~= seq![reset, load] + added + seq![Op::Finalize]);
    reveal(tidy);
    // The release is among the requests of the body, and so is the use
    // that follows it.
    assert(2 <= p < 2 + added.len());
    assert(q < 2 + added.len());
    assert(after.issued[p] == added[p - 2]);
    assert(after.issued[q] == added[q - 2]);
    assert(freed(added[p - 2]) is Some);
    assert(op_symbols(added[q - 2]).contains(u));
}

/// No use after release. Among the requests that lowering a procedure
/// makes to the backend, none that follows the release of a symbol of the
/// body uses that symbol.
pub proof fn lemma_no_use_after_release(st: EngineState, proc: Proc, p: int, q: int)
    ensures
        lower_proc(st, proc) matches Ok(after) ==> (0 <= p < q < after.issued.len() ==> (freed(
            after.issued[p],
        ) matches Some(s) ==> is_scratch(s) || !op_symbols(after.issued[q]).contains(s))),
{
    if let Ok(after) = lower_proc(st, proc) {
        if 0 <= p < q < after.issued.len() {
            if let Some(s) = freed(after.issued[p]) {
                if !is_scratch(s) && op_symbols(after.issued[q]).contains(s) {
                    lemma_release_order(st, proc, p, q, s);
                }
            }
        }
    }
}

/// Ownership, in the requests. Let the statement with index `k` of the
/// body bind a symbol to a field, tag id or union member of a structure,
/// and let the symbol be used as a binding is meant to be. Among the
/// requests that lowering the procedure makes to the backend, none that
/// follows the release of the structure uses the view: the structure is
/// not released before the last use of the view.
pub proof fn lemma_structure_is_released_after_uses_of_view(
    st: EngineState,
    proc: Proc,
    k: nat,
    p: int,
    q: int,
)
    requires
        k < proc.body.size(),
        stmt_at(proc.body, k) is Let,
        stmt_at(proc.body, k)->Let_1.source() is Some,
        bound_once(proc.body, k),
    ensures
        lower_proc(st, proc) matches Ok(after) ==> (0 <= p < q < after.issued.len() && freed(
            after.issued[p],
        ) == stmt_at(proc.body, k)->Let_1.source() ==> !op_symbols(after.issued[q]).contains(
            stmt_at(proc.body, k)->Let_0,
        )),
{
    if let Ok(after) = lower_proc(st, proc) {
        let view = stmt_at(proc.body, k)->Let_0;
        let structure = stmt_at(proc.body, k)->Let_1.source()->Some_0;
        if 0 <= p < q < after.issued.len() && freed(after.issued[p]) == Some(structure)
            && op_symbols(after.issued[q]).contains(view) {
            lemma_structure_entry_is_no_earlier(proc.body, k);
            lemma_lowered_names_no_scratch(st, proc, view);
            lemma_lowered_names_no_scratch(st, proc, structure);
            lemma_release_order(st, proc, p, q, view);
        }
    }
}

/// No use after release, for the symbols that the body names. Among the
/// requests that lowering a procedure makes, none that follows the
/// release of a symbol with an entry in the last-seen table uses that
/// symbol.
pub proof fn lemma_no_named_symbol_is_used_after_release(
    st: EngineState,
    proc: Proc,
    p: int,
    q: int,
)
    ensures
        lower_proc(st, proc) matches Ok(after) ==> (0 <= p < q < after.issued.len() ==> (freed(
            after.issued[p],
        ) matches Some(s) ==> !last_seen_of(proc.body).contains_key(s) || !op_symbols(
            after.issued[q],
        ).contains(s))),
{
    if let Ok(after) = lower_proc(st, proc) {
        if 0 <= p < q < after.issued.len() {
            if let Some(s) = freed(after.issued[p]) {
                if last_seen_of(proc.body).contains_key(s) {
                    lemma_lowered_names_no_scratch(st, proc, s);
                    lemma_no_use_after_release(st, proc, p, q);
                }
            }
        }
    }
}

} // verus!
