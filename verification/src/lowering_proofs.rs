//! What lowering guarantees, whatever the procedure.

use vstd::prelude::*;
use crate::error::{LowerError, Unsupported};
use crate::ir::{Call, CallType, Expr, Proc};
use crate::backend::Op;
use crate::env::link_name;
use crate::layout::Layout;
use crate::liveness::{lemma_mark_all_wf, stmt_marks, LastSeenView};
use crate::liveness_proofs::last_seen_of;
use crate::low_level::LowLevel;
use crate::lowering::{fail, fallback_name, inline_builtin, low_level_op, lower_call_by_name};
use crate::lowering::{arg_symbols, lemma_set_arg_layouts_keeps, lower_expr, lower_proc, resolve};
use crate::lowering::{run_low_level, EngineState};
use crate::symbol::{first_reserved, is_scratch, lemma_none_reserved, Symbol};

verus! {

/// Whether `op` is an arithmetic operation on two numbers.
pub open spec fn is_binary_arithmetic(op: LowLevel) -> bool {
    op == LowLevel::NumAdd || op == LowLevel::NumSub || op == LowLevel::NumMul
}

/// Whether the backend lowers `op`, natively or as a call of the support
/// library.
pub open spec fn is_lowered(op: LowLevel) -> bool {
    match op {
        LowLevel::NumAbs | LowLevel::NumNeg | LowLevel::NumAdd | LowLevel::NumMul
        | LowLevel::NumSub | LowLevel::Eq | LowLevel::NotEq | LowLevel::NumLt
        | LowLevel::NumToFloat => true,
        _ => fallback_name(op) is Some,
    }
}

/// Whether `expr` is of a kind that the backend lowers.
pub open spec fn is_lowered_expr(expr: Expr) -> bool {
    expr is Literal || expr is Call || expr is Struct || expr is StructAtIndex
}

/// Layout contract. An arithmetic operation on two numbers is lowered
/// exactly if it has two arguments with two layouts, the two layouts are
/// the same and are the layout of the result. Otherwise it is rejected
/// with an internal error, in whatever state the engine is, and nothing
/// has been asked of the backend but to load the pending literals of the
/// arguments: no arithmetic is requested.
pub proof fn lemma_binary_arithmetic_contract(
    st: EngineState,
    sym: Symbol,
    op: LowLevel,
    args: Seq<Symbol>,
    arg_layouts: Seq<Layout>,
    ret_layout: Layout,
)
    requires
        is_binary_arithmetic(op),
    ensures
        run_low_level(st, sym, op, args, arg_layouts, ret_layout) is Ok <==> args.len() == 2
            && arg_layouts.len() == 2 && arg_layouts[0] == arg_layouts[1] && arg_layouts[0]
            == ret_layout,
        run_low_level(st, sym, op, args, arg_layouts, ret_layout) matches Err(failure)
            ==> failure.error is Internal && failure.state == st.load_literal_symbols(args),
{
    reveal(low_level_op);
}

/// A low-level operation that fails, for whatever reason, leaves the
/// engine as it was but for the pending literals of the arguments, which
/// have been loaded. An operation that the backend does not lower fails
/// with the error that names it.
pub proof fn lemma_failed_low_level_asks_nothing(
    st: EngineState,
    sym: Symbol,
    op: LowLevel,
    args: Seq<Symbol>,
    arg_layouts: Seq<Layout>,
    ret_layout: Layout,
)
    ensures
        run_low_level(st, sym, op, args, arg_layouts, ret_layout) matches Err(failure)
            ==> failure.state == st.load_literal_symbols(args),
        !is_lowered(op) ==> run_low_level(st, sym, op, args, arg_layouts, ret_layout) == fail(
            st.load_literal_symbols(args),
            LowerError::NotImplemented(Unsupported::LowLevel(op)),
        ),
{
    reveal(low_level_op);
}

/// A builtin function that cannot be spelled out fails and leaves the
/// engine as it was but for the pending literals of the arguments: no
/// scratch symbol is made, nothing is compared and nothing released.
pub proof fn lemma_failed_builtin_asks_nothing(
    st: EngineState,
    sym: Symbol,
    func_sym: Symbol,
    args: Seq<Symbol>,
    arg_layouts: Seq<Layout>,
    ret_layout: Layout,
)
    ensures
        inline_builtin(st, sym, func_sym, args, arg_layouts, ret_layout) matches Err(failure)
            ==> failure.state == st.load_literal_symbols(args),
{
    reveal(inline_builtin);
}

/// An arithmetic operation on two symbols whose recorded layouts differ is
/// rejected with an internal error when it is lowered as an expression,
/// and no arithmetic is requested.
pub proof fn lemma_mismatched_layouts_are_rejected(
    st: EngineState,
    sym: Symbol,
    op: LowLevel,
    left: Symbol,
    right: Symbol,
    layout: Layout,
    call: Call,
)
    requires
        is_binary_arithmetic(op),
        call.call_type == (CallType::LowLevel { op }),
        call.arguments@ == seq![left, right],
        st.layouts.contains_key(left),
        st.layouts.contains_key(right),
        st.layouts[left] != st.layouts[right],
    ensures
        lower_expr(st, sym, Expr::Call(call), layout) matches Err(failure) && failure.error
            is Internal && failure.state == st.load_literal_symbols(call.arguments@),
{
    reveal(lower_expr);
    let args = call.arguments@;
    assert(resolve(st.layouts, args) is Ok);
    let arg_layouts = resolve(st.layouts, args)->Ok_0;
    assert(arg_layouts[0] == st.layouts[args[0]]);
    assert(arg_layouts[1] == st.layouts[args[1]]);
    lemma_binary_arithmetic_contract(st, sym, op, args, arg_layouts, layout);
}

/// Unsupported constructs. An expression of a kind that the backend does
/// not lower fails with the error that names the kind, and so does a call
/// of a type that it does not lower. The engine is left exactly as it
/// was: nothing is asked of the backend and no table changes. The same
/// holds of a low-level call with an argument whose layout is not
/// recorded.
pub proof fn lemma_unsupported_expression_asks_nothing(
    st: EngineState,
    sym: Symbol,
    expr: Expr,
    layout: Layout,
)
    ensures
        !is_lowered_expr(expr) ==> lower_expr(st, sym, expr, layout) == fail(
            st,
            LowerError::NotImplemented(Unsupported::Expression(expr.spec_kind())),
        ),
        expr is Call && (expr->Call_0.call_type is Foreign || expr->Call_0.call_type
            is HigherOrder) ==> lower_expr(st, sym, expr, layout) == fail(
            st,
            LowerError::NotImplemented(
                Unsupported::CallType(expr->Call_0.call_type.spec_kind()),
            ),
        ),
        expr is Call && expr->Call_0.call_type is LowLevel && resolve(
            st.layouts,
            expr->Call_0.arguments@,
        ) is Err ==> lower_expr(st, sym, expr, layout) == fail(
            st,
            resolve(st.layouts, expr->Call_0.arguments@)->Err_0,
        ),
{
    reveal(lower_expr);
}

/// An expression that fails leaves every table but the pending literals
/// as it was, and has asked the backend for literal loads only.
pub proof fn lemma_failed_expression_state(st: EngineState, sym: Symbol, expr: Expr, layout: Layout)
    ensures
        lower_expr(st, sym, expr, layout) matches Err(failure) ==> failure.state == st
            || failure.state == st.load_literal_symbols(expr->Call_0.arguments@),
{
    reveal(lower_expr);
    reveal(lower_call_by_name);
    reveal(inline_builtin);
    reveal(low_level_op);
}

/// Scratch symbols do not collide. A procedure that is lowered names no
/// symbol of the range from which the engine takes its scratch symbols:
/// neither an argument nor a symbol seen in the body lies in it.
pub proof fn lemma_lowered_names_no_scratch(st: EngineState, proc: Proc, s: Symbol)
    requires
        lower_proc(st, proc) is Ok,
        last_seen_of(proc.body).contains_key(s) || arg_symbols(proc.args@).contains(s),
    ensures
        !is_scratch(s),
{
    let marks = stmt_marks(proc.body, 0, Seq::empty());
    let last_seen = LastSeenView::empty().mark_all(marks);
    lemma_mark_all_wf(LastSeenView::empty(), marks);
    let reset = Op::Reset {
        name: link_name(st.names[proc.name]),
        is_self_recursive: proc.is_self_recursive,
    };
    let load = Op::LoadArgs { args: proc.args@, ret_layout: proc.ret_layout };
    lemma_set_arg_layouts_keeps(st.fresh().emit(reset).emit(load), proc.args@);
    let named = arg_symbols(proc.args@) + last_seen.order;
    assert(first_reserved(named) is None);
    if arg_symbols(proc.args@).contains(s) {
        let i = choose|i: int|
            0 <= i < arg_symbols(proc.args@).len() && arg_symbols(proc.args@)[i] == s;
        assert(named[i] == s);
    } else {
        assert(last_seen.order.contains(s));
        let i = choose|i: int| 0 <= i < last_seen.order.len() && last_seen.order[i] == s;
        assert(named[arg_symbols(proc.args@).len() + i] == s);
    }
    lemma_none_reserved(named, s);
}

/// Determinism. What lowering a procedure asks of the backend, the tables
/// it leaves and the error it gives depend on the procedure and on the
/// compilation context alone: two engines in the same context lower the
/// same procedure to the same list of requests, whatever they have done
/// before. Where the procedure has no name, each engine is left as it
/// was.
pub proof fn lemma_lowering_is_deterministic(first: EngineState, second: EngineState, proc: Proc)
    requires
        first.lazy_literals == second.lazy_literals,
        first.names == second.names,
    ensures
        match (lower_proc(first, proc), lower_proc(second, proc)) {
            (Ok(a), Ok(b)) => a == b,
            (Err(f), Err(g)) => f.error == g.error && if first.names.contains_key(proc.name) {
                f.state == g.state
            } else {
                f.state == first && g.state == second
            },
            _ => false,
        },
{
    assert(first.fresh() == second.fresh());
}

} // verus!
