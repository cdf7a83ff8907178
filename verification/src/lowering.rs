//! What lowering does, as a function on the state of the engine.
//!
//! The functions here define the requests that the engine makes to the
//! backend for each statement, expression and low-level operation, and how
//! the symbol tables change on the way. The engine is proved to behave as
//! they say.

use vstd::prelude::*;
use crate::backend::Op;
use crate::env::{is_app_module, link_name, NameView};
use crate::error::{InternalError, LowerError, Subject, Unsupported};
use crate::free_map::free_map_of;
use crate::ir::{branches_size, Branch, CallType, Expr, Literal, Param, Proc, Stmt, StmtKind};
use crate::layout::Layout;
use crate::liveness::{stmt_marks, LastSeenView};
use crate::low_level::{LowLevel, NUM_IS_ZERO};
use crate::symbol::{first_reserved, Symbol};

verus! {

/// The state of the engine between two steps.
pub struct EngineState {
    /// Whether the load of a literal is put off until its first use.
    pub lazy_literals: bool,
    /// The names of the symbols.
    pub names: Map<Symbol, NameView>,
    /// The requests made to the backend since the procedure was started.
    pub issued: Seq<Op>,
    /// The layout recorded for each symbol.
    pub layouts: Map<Symbol, Layout>,
    /// The literals whose load is pending, each with its layout.
    pub literals: Map<Symbol, (Literal, Layout)>,
    /// The last-seen table.
    pub last_seen: LastSeenView,
    /// The release lists that have not been used yet.
    pub free_map: Map<nat, Seq<Symbol>>,
    /// Number of the next scratch symbol.
    pub scratch: u32,
}

/// A lowering that failed: the error, and the state in which the engine
/// was left. Nothing is undone: what was asked of the backend before the
/// error stays asked.
pub struct Failure {
    pub state: EngineState,
    pub error: LowerError,
}

/// The failure with `error` in the state `state`.
pub open spec fn fail(state: EngineState, error: LowerError) -> Result<EngineState, Failure> {
    Err(Failure { state, error })
}

/// The requests that release `syms`, one after the other.
pub open spec fn frees(syms: Seq<Symbol>) -> Seq<Op> {
    Seq::new(syms.len(), |i: int| Op::Free { sym: syms[i] })
}

/// The number of the scratch symbol that follows number `n`; after the
/// last one the numbers start again.
pub open spec fn next_scratch(n: u32) -> u32 {
    if n == u32::MAX {
        0
    } else {
        (n + 1) as u32
    }
}

impl EngineState {
    /// The state at the start of a procedure: nothing is asked of the
    /// backend yet and the tables are empty.
    pub open spec fn fresh(self) -> EngineState {
        EngineState {
            lazy_literals: self.lazy_literals,
            names: self.names,
            issued: Seq::empty(),
            layouts: Map::empty(),
            literals: Map::empty(),
            last_seen: LastSeenView::empty(),
            free_map: Map::empty(),
            scratch: 0,
        }
    }

    /// The state after one more request to the backend.
    pub open spec fn emit(self, op: Op) -> EngineState {
        EngineState { issued: self.issued.push(op), ..self }
    }

    /// The state after the pending literal of `sym`, if there is one, has
    /// been loaded.
    pub open spec fn materialize(self, sym: Symbol) -> EngineState {
        if self.literals.contains_key(sym) {
            EngineState { literals: self.literals.remove(sym), ..self }.emit(
                Op::LoadLiteral {
                    sym,
                    layout: self.literals[sym].1,
                    lit: self.literals[sym].0,
                },
            )
        } else {
            self
        }
    }

    /// The state after the pending literals of `syms` have been loaded, in
    /// the order of `syms`.
    pub open spec fn materialize_all(self, syms: Seq<Symbol>) -> EngineState
        decreases syms.len(),
    {
        if syms.len() == 0 {
            self
        } else {
            self.materialize(syms[0]).materialize_all(syms.skip(1))
        }
    }

    /// The state after `syms` have been made ready for use: with lazy
    /// literals their pending literals are loaded, otherwise nothing is
    /// pending.
    pub open spec fn load_literal_symbols(self, syms: Seq<Symbol>) -> EngineState {
        if self.lazy_literals {
            self.materialize_all(syms)
        } else {
            self
        }
    }

    /// The state after the release list of statement `at` has been used:
    /// its symbols are freed in the order of the list and the list is gone.
    pub open spec fn release(self, at: nat) -> EngineState {
        if self.free_map.contains_key(at) {
            EngineState {
                issued: self.issued + frees(self.free_map[at]),
                free_map: self.free_map.remove(at),
                ..self
            }
        } else {
            self
        }
    }

    /// Records the layout of `sym`. A symbol keeps its layout: to record a
    /// different one is an error, which leaves the table as it was.
    pub open spec fn set_layout(self, sym: Symbol, layout: Layout) -> Result<EngineState, Failure> {
        if self.layouts.contains_key(sym) && self.layouts[sym] != layout {
            fail(
                self,
                LowerError::Internal(
                    InternalError::LayoutOverwrite {
                        symbol: sym,
                        got: layout,
                        want: self.layouts[sym],
                    },
                ),
            )
        } else {
            Ok(EngineState { layouts: self.layouts.insert(sym, layout), ..self })
        }
    }

    /// Records the layouts of the parameters of a join point, first to
    /// last.
    pub open spec fn set_param_layouts(self, params: Seq<Param>) -> Result<EngineState, Failure>
        decreases params.len(),
    {
        if params.len() == 0 {
            Ok(self)
        } else {
            match self.set_layout(params[0].symbol, params[0].layout) {
                Err(e) => Err(e),
                Ok(next) => next.set_param_layouts(params.skip(1)),
            }
        }
    }

    /// Records the layouts of the arguments of a procedure, first to last.
    pub open spec fn set_arg_layouts(self, args: Seq<(Layout, Symbol)>) -> Result<
        EngineState,
        Failure,
    >
        decreases args.len(),
    {
        if args.len() == 0 {
            Ok(self)
        } else {
            match self.set_layout(args[0].1, args[0].0) {
                Err(e) => Err(e),
                Ok(next) => next.set_arg_layouts(args.skip(1)),
            }
        }
    }
}

/// Whether each of `args` has a recorded layout.
pub open spec fn all_known(layouts: Map<Symbol, Layout>, args: Seq<Symbol>) -> bool {
    forall|i: int| 0 <= i < args.len() ==> layouts.contains_key(#[trigger] args[i])
}

/// The position of the first of `args` without a recorded layout.
pub open spec fn first_unknown(layouts: Map<Symbol, Layout>, args: Seq<Symbol>) -> int {
    choose|i: int|
        0 <= i < args.len() && !layouts.contains_key(#[trigger] args[i]) && forall|j: int|
            0 <= j < i ==> layouts.contains_key(#[trigger] args[j])
}

/// The recorded layouts of `args`, or the error that the first argument
/// without one gives.
pub open spec fn resolve(layouts: Map<Symbol, Layout>, args: Seq<Symbol>) -> Result<
    Seq<Layout>,
    LowerError,
> {
    if all_known(layouts, args) {
        Ok(Seq::new(args.len(), |i: int| layouts[args[i]]))
    } else {
        Err(
            LowerError::Internal(
                InternalError::MissingLayout { symbol: args[first_unknown(layouts, args)] },
            ),
        )
    }
}

/// The name of the support-library function that stands in for a
/// low-level operation without a native implementation, chosen by the
/// width of the numbers it works on.
pub open spec fn fallback_name(op: LowLevel) -> Option<Seq<char>> {
    match op {
        LowLevel::NumAcos => Some("roc_builtins.num.acos.f64"@),
        LowLevel::NumAsin => Some("roc_builtins.num.asin.f64"@),
        LowLevel::NumAtan => Some("roc_builtins.num.atan.f64"@),
        LowLevel::NumPowInt => Some("roc_builtins.num.pow_int.i64"@),
        LowLevel::NumRound => Some("roc_builtins.num.round.f64"@),
        LowLevel::StrConcat => Some("roc_builtins.str.concat"@),
        _ => None,
    }
}

/// The error of an argument list that does not have `expected` arguments
/// with as many layouts.
pub open spec fn arity_error(
    subject: Subject,
    expected: nat,
    args: Seq<Symbol>,
    arg_layouts: Seq<Layout>,
) -> Option<LowerError> {
    if args.len() == expected && arg_layouts.len() == expected {
        None
    } else {
        Some(
            LowerError::Internal(
                InternalError::ArgumentCount {
                    subject,
                    expected: expected as usize,
                    arguments: args.len() as usize,
                    layouts: arg_layouts.len() as usize,
                },
            ),
        )
    }
}

/// The contract of an operation on one number: one argument, whose layout
/// is that of the result.
pub open spec fn unary_error(
    subject: Subject,
    args: Seq<Symbol>,
    arg_layouts: Seq<Layout>,
    ret_layout: Layout,
) -> Option<LowerError> {
    match arity_error(subject, 1, args, arg_layouts) {
        Some(e) => Some(e),
        None => if arg_layouts[0] != ret_layout {
            Some(
                LowerError::Internal(
                    InternalError::ReturnLayout { subject, got: ret_layout, want: arg_layouts[0] },
                ),
            )
        } else {
            None
        },
    }
}

/// The contract of an arithmetic operation on two numbers: two arguments
/// that share one layout, which is that of the result.
pub open spec fn binary_error(
    subject: Subject,
    args: Seq<Symbol>,
    arg_layouts: Seq<Layout>,
    ret_layout: Layout,
) -> Option<LowerError> {
    match arity_error(subject, 2, args, arg_layouts) {
        Some(e) => Some(e),
        None => if arg_layouts[0] != arg_layouts[1] {
            Some(
                LowerError::Internal(
                    InternalError::ArgumentLayouts {
                        subject,
                        first: arg_layouts[0],
                        second: arg_layouts[1],
                    },
                ),
            )
        } else if arg_layouts[0] != ret_layout {
            Some(
                LowerError::Internal(
                    InternalError::ReturnLayout { subject, got: ret_layout, want: arg_layouts[0] },
                ),
            )
        } else {
            None
        },
    }
}

/// The contract of a comparison: two arguments that share one layout, and
/// a boolean result.
pub open spec fn comparison_error(
    subject: Subject,
    args: Seq<Symbol>,
    arg_layouts: Seq<Layout>,
    ret_layout: Layout,
) -> Option<LowerError> {
    match arity_error(subject, 2, args, arg_layouts) {
        Some(e) => Some(e),
        None => if arg_layouts[0] != arg_layouts[1] {
            Some(
                LowerError::Internal(
                    InternalError::ArgumentLayouts {
                        subject,
                        first: arg_layouts[0],
                        second: arg_layouts[1],
                    },
                ),
            )
        } else if ret_layout != Layout::spec_bool() {
            Some(
                LowerError::Internal(
                    InternalError::ReturnLayout {
                        subject,
                        got: ret_layout,
                        want: Layout::spec_bool(),
                    },
                ),
            )
        } else {
            None
        },
    }
}

/// The request that a low-level operation is lowered to, or the error of
/// an operation whose contract is broken or which is not lowered.
#[verifier::opaque]
pub open spec fn low_level_op(
    op: LowLevel,
    dst: Symbol,
    args: Seq<Symbol>,
    arg_layouts: Seq<Layout>,
    ret_layout: Layout,
) -> Result<Op, LowerError> {
    let subject = Subject::LowLevel(op);
    match op {
        LowLevel::NumAbs => match unary_error(subject, args, arg_layouts, ret_layout) {
            Some(e) => Err(e),
            None => Ok(Op::NumAbs { dst, src: args[0], layout: ret_layout }),
        },
        LowLevel::NumNeg => match unary_error(subject, args, arg_layouts, ret_layout) {
            Some(e) => Err(e),
            None => Ok(Op::NumNeg { dst, src: args[0], layout: ret_layout }),
        },
        LowLevel::NumAdd => match binary_error(subject, args, arg_layouts, ret_layout) {
            Some(e) => Err(e),
            None => Ok(Op::NumAdd { dst, src1: args[0], src2: args[1], layout: ret_layout }),
        },
        LowLevel::NumMul => match binary_error(subject, args, arg_layouts, ret_layout) {
            Some(e) => Err(e),
            None => Ok(Op::NumMul { dst, src1: args[0], src2: args[1], layout: ret_layout }),
        },
        LowLevel::NumSub => match binary_error(subject, args, arg_layouts, ret_layout) {
            Some(e) => Err(e),
            None => Ok(Op::NumSub { dst, src1: args[0], src2: args[1], layout: ret_layout }),
        },
        LowLevel::Eq => match comparison_error(subject, args, arg_layouts, ret_layout) {
            Some(e) => Err(e),
            None => Ok(Op::Eq { dst, src1: args[0], src2: args[1], arg_layout: arg_layouts[0] }),
        },
        LowLevel::NotEq => match comparison_error(subject, args, arg_layouts, ret_layout) {
            Some(e) => Err(e),
            None => Ok(
                Op::NotEq { dst, src1: args[0], src2: args[1], arg_layout: arg_layouts[0] },
            ),
        },
        LowLevel::NumLt => match comparison_error(subject, args, arg_layouts, ret_layout) {
            Some(e) => Err(e),
            None => Ok(
                Op::NumLt { dst, src1: args[0], src2: args[1], arg_layout: arg_layouts[0] },
            ),
        },
        LowLevel::NumToFloat => match arity_error(subject, 1, args, arg_layouts) {
            Some(e) => Err(e),
            None => Ok(
                Op::NumToFloat { dst, src: args[0], arg_layout: arg_layouts[0], ret_layout },
            ),
        },
        _ => match fallback_name(op) {
            Some(fn_name) => Ok(Op::FnCall { dst, fn_name, args, arg_layouts, ret_layout }),
            None => Err(LowerError::NotImplemented(Unsupported::LowLevel(op))),
        },
    }
}

/// Lowers the low-level operation `op` on `args` into `sym`: the
/// arguments are made ready and the operation is asked of the backend.
pub open spec fn run_low_level(
    st: EngineState,
    sym: Symbol,
    op: LowLevel,
    args: Seq<Symbol>,
    arg_layouts: Seq<Layout>,
    ret_layout: Layout,
) -> Result<EngineState, Failure> {
    let ready = st.load_literal_symbols(args);
    match low_level_op(op, sym, args, arg_layouts, ret_layout) {
        Err(e) => fail(ready, e),
        Ok(request) => Ok(ready.emit(request)),
    }
}

/// Lowers a call of the builtin function `func_sym`, which wraps no single
/// low-level operation, by spelling it out. Whether a number is zero is
/// found by comparing it with a zero loaded into a scratch symbol, which
/// is released at once.
#[verifier::opaque]
pub open spec fn inline_builtin(
    st: EngineState,
    sym: Symbol,
    func_sym: Symbol,
    args: Seq<Symbol>,
    arg_layouts: Seq<Layout>,
    ret_layout: Layout,
) -> Result<EngineState, Failure> {
    let subject = Subject::Function(func_sym);
    let ready = st.load_literal_symbols(args);
    if func_sym.0 == NUM_IS_ZERO {
        match arity_error(subject, 1, args, arg_layouts) {
            Some(e) => fail(ready, e),
            None => if ret_layout != Layout::spec_bool() {
                fail(
                    ready,
                    LowerError::Internal(
                        InternalError::ReturnLayout {
                            subject,
                            got: ret_layout,
                            want: Layout::spec_bool(),
                        },
                    ),
                )
            } else {
                let tmp = Symbol::scratch(ready.scratch);
                Ok(
                    EngineState { scratch: next_scratch(ready.scratch), ..ready }.emit(
                        Op::LoadLiteral { sym: tmp, layout: arg_layouts[0], lit: Literal::Int(0) },
                    ).emit(
                        Op::Eq { dst: sym, src1: args[0], src2: tmp, arg_layout: arg_layouts[0] },
                    ).emit(Op::Free { sym: tmp }),
                )
            },
        }
    } else {
        fail(ready, LowerError::NotImplemented(Unsupported::Function(func_sym)))
    }
}

/// Lowers the call of the function `name` into `sym`: a wrapper of a
/// low-level operation is lowered as that operation, a function of the
/// application is called under its link name, and any other builtin is
/// spelled out.
#[verifier::opaque]
pub open spec fn lower_call_by_name(
    st: EngineState,
    sym: Symbol,
    name: Symbol,
    args: Seq<Symbol>,
    arg_layouts: Seq<Layout>,
    ret_layout: Layout,
) -> Result<EngineState, Failure> {
    match LowLevel::inlined_wrapper(name) {
        Some(op) => run_low_level(st, sym, op, args, arg_layouts, ret_layout),
        None => if !st.names.contains_key(name) {
            fail(st, LowerError::Internal(InternalError::MissingName { symbol: name }))
        } else if is_app_module(st.names[name].module) {
            Ok(
                st.load_literal_symbols(args).emit(
                    Op::FnCall {
                        dst: sym,
                        fn_name: link_name(st.names[name]),
                        args,
                        arg_layouts,
                        ret_layout,
                    },
                ),
            )
        } else {
            inline_builtin(st, sym, name, args, arg_layouts, ret_layout)
        },
    }
}

/// Lowers `expr` into `sym`, whose layout is `layout`.
#[verifier::opaque]
pub open spec fn lower_expr(st: EngineState, sym: Symbol, expr: Expr, layout: Layout) -> Result<
    EngineState,
    Failure,
> {
    match expr {
        Expr::Literal(lit) => if st.lazy_literals {
            Ok(EngineState { literals: st.literals.insert(sym, (lit, layout)), ..st })
        } else {
            Ok(st.emit(Op::LoadLiteral { sym, layout, lit }))
        },
        Expr::Call(call) => match call.call_type {
            CallType::ByName { name, arg_layouts, ret_layout } => lower_call_by_name(
                st,
                sym,
                name,
                call.arguments@,
                arg_layouts@,
                ret_layout,
            ),
            CallType::LowLevel { op } => match resolve(st.layouts, call.arguments@) {
                Err(e) => fail(st, e),
                Ok(arg_layouts) => run_low_level(st, sym, op, call.arguments@, arg_layouts, layout),
            },
            other => fail(
                st,
                LowerError::NotImplemented(Unsupported::CallType(other.spec_kind())),
            ),
        },
        Expr::Struct(fields) => Ok(
            st.load_literal_symbols(fields@).emit(
                Op::CreateStruct { sym, layout, fields: fields@ },
            ),
        ),
        Expr::StructAtIndex { index, field_layouts, structure } => Ok(
            st.emit(
                Op::LoadStructAtIndex { sym, structure, index, field_layouts: field_layouts@ },
            ),
        ),
        other => fail(st, LowerError::NotImplemented(Unsupported::Expression(other.spec_kind()))),
    }
}

/// Lowers the tree rooted at `stmt`, whose index is `at`, in a procedure
/// that returns a value of layout `ret_layout`.
#[verifier::opaque]
pub open spec fn lower_stmt(st: EngineState, stmt: Stmt, at: nat, ret_layout: Layout) -> Result<
    EngineState,
    Failure,
>
    decreases stmt,
{
    match stmt {
        Stmt::Let(sym, expr, layout, following) => match lower_expr(st, sym, expr, layout) {
            Err(e) => Err(e),
            Ok(bound) => match bound.set_layout(sym, layout) {
                Err(e) => Err(e),
                Ok(recorded) => lower_stmt(recorded.release(at), *following, at + 1, ret_layout),
            },
        },
        Stmt::Ret(sym) => Ok(
            st.load_literal_symbols(seq![sym]).emit(Op::Return { sym, layout: ret_layout }).release(
                at,
            ),
        ),
        Stmt::Refcounting(_, following) => lower_stmt(st, *following, at + 1, ret_layout),
        Stmt::Switch {
            cond_symbol,
            cond_layout,
            branches,
            default_info,
            default_branch,
            ret_layout: switch_layout,
        } => {
            let opened = st.load_literal_symbols(seq![cond_symbol]).emit(
                Op::Switch { cond_symbol, cond_layout, ret_layout: switch_layout },
            );
            match lower_branches(opened, branches@, at + 1, switch_layout) {
                Err(e) => Err(e),
                Ok(branched) => match lower_stmt(
                    branched.emit(Op::SwitchDefault { info: default_info }),
                    *default_branch,
                    at + 1 + branches_size(branches@),
                    switch_layout,
                ) {
                    Err(e) => Err(e),
                    Ok(done) => Ok(done.emit(Op::SwitchEnd).release(at)),
                },
            }
        },
        Stmt::Join { id, parameters, body, remainder } => match st.set_param_layouts(parameters@) {
            Err(e) => Err(e),
            Ok(recorded) => match lower_stmt(
                recorded.emit(Op::Join { id, parameters: parameters@, ret_layout }),
                *body,
                at + 1,
                ret_layout,
            ) {
                Err(e) => Err(e),
                Ok(defined) => match lower_stmt(
                    defined.emit(Op::JoinRemainder { id }),
                    *remainder,
                    at + 1 + body.size(),
                    ret_layout,
                ) {
                    Err(e) => Err(e),
                    Ok(done) => Ok(done.emit(Op::JoinEnd { id }).release(at)),
                },
            },
        },
        Stmt::Jump(id, args) => match resolve(st.layouts, args@) {
            Err(e) => fail(st, e),
            Ok(arg_layouts) => Ok(
                st.emit(Op::Jump { id, args: args@, arg_layouts, ret_layout }).release(at),
            ),
        },
        Stmt::RuntimeError(_) => fail(
            st,
            LowerError::NotImplemented(Unsupported::Statement(StmtKind::RuntimeError)),
        ),
    }
}

/// Lowers the branches of a `Switch`, the first of which has index `at`,
/// one after the other.
#[verifier::opaque]
pub open spec fn lower_branches(
    st: EngineState,
    branches: Seq<Branch>,
    at: nat,
    ret_layout: Layout,
) -> Result<EngineState, Failure>
    decreases branches,
{
    if branches.len() == 0 {
        Ok(st)
    } else {
        match lower_stmt(
            st.emit(Op::SwitchBranch { value: branches[0].value, info: branches[0].info }),
            branches[0].body,
            at,
            ret_layout,
        ) {
            Err(e) => Err(e),
            Ok(next) => lower_branches(
                next,
                branches.skip(1),
                at + branches[0].body.size(),
                ret_layout,
            ),
        }
    }
}

/// Recording the layouts of join-point parameters asks nothing of the
/// backend and leaves the last-seen table and the free map alone.
pub proof fn lemma_set_param_layouts_keeps(st: EngineState, params: Seq<Param>)
    ensures
        st.set_param_layouts(params) matches Ok(after) ==> after.issued == st.issued
            && after.free_map == st.free_map && after.last_seen == st.last_seen,
    decreases params.len(),
{
    if params.len() > 0 {
        if let Ok(next) = st.set_layout(params[0].symbol, params[0].layout) {
            lemma_set_param_layouts_keeps(next, params.skip(1));
        }
    }
}

/// Recording the layouts of procedure arguments asks nothing of the
/// backend and leaves the last-seen table and the free map alone.
pub proof fn lemma_set_arg_layouts_keeps(st: EngineState, args: Seq<(Layout, Symbol)>)
    ensures
        st.set_arg_layouts(args) matches Ok(after) ==> after.issued == st.issued && after.free_map
            == st.free_map && after.last_seen == st.last_seen,
    decreases args.len(),
{
    if args.len() > 0 {
        if let Ok(next) = st.set_layout(args[0].1, args[0].0) {
            lemma_set_arg_layouts_keeps(next, args.skip(1));
        }
    }
}

/// What lowering a `Let` is.
pub proof fn lemma_lower_let(st: EngineState, stmt: Stmt, at: nat, ret_layout: Layout)
    requires
        stmt is Let,
    ensures
        lower_stmt(st, stmt, at, ret_layout) == match lower_expr(
            st,
            stmt->Let_0,
            stmt->Let_1,
            stmt->Let_2,
        ) {
            Err(e) => Err(e),
            Ok(bound) => match bound.set_layout(stmt->Let_0, stmt->Let_2) {
                Err(e) => Err(e),
                Ok(recorded) => lower_stmt(recorded.release(at), *stmt->Let_3, at + 1, ret_layout),
            },
        },
{
    reveal(lower_stmt);
    reveal(lower_branches);
}

/// What lowering a `Ret` is.
pub proof fn lemma_lower_ret(st: EngineState, stmt: Stmt, at: nat, ret_layout: Layout)
    requires
        stmt is Ret,
    ensures
        lower_stmt(st, stmt, at, ret_layout) == Ok::<EngineState, Failure>(
            st.load_literal_symbols(seq![stmt->Ret_0]).emit(
                Op::Return { sym: stmt->Ret_0, layout: ret_layout },
            ).release(at),
        ),
{
    reveal(lower_stmt);
    reveal(lower_branches);
}

/// What lowering a `Refcounting` is.
pub proof fn lemma_lower_refcounting(st: EngineState, stmt: Stmt, at: nat, ret_layout: Layout)
    requires
        stmt is Refcounting,
    ensures
        lower_stmt(st, stmt, at, ret_layout) == lower_stmt(
            st,
            *stmt->Refcounting_1,
            at + 1,
            ret_layout,
        ),
{
    reveal(lower_stmt);
    reveal(lower_branches);
}

/// What lowering a `Switch` is.
pub proof fn lemma_lower_switch(st: EngineState, stmt: Stmt, at: nat, ret_layout: Layout)
    requires
        stmt is Switch,
    ensures
        lower_stmt(st, stmt, at, ret_layout) == match lower_branches(
            st.load_literal_symbols(seq![stmt->cond_symbol]).emit(
                Op::Switch {
                    cond_symbol: stmt->cond_symbol,
                    cond_layout: stmt->cond_layout,
                    ret_layout: stmt->Switch_ret_layout,
                },
            ),
            stmt->branches@,
            at + 1,
            stmt->Switch_ret_layout,
        ) {
            Err(e) => Err(e),
            Ok(branched) => match lower_stmt(
                branched.emit(Op::SwitchDefault { info: stmt->default_info }),
                *stmt->default_branch,
                at + 1 + branches_size(stmt->branches@),
                stmt->Switch_ret_layout,
            ) {
                Err(e) => Err(e),
                Ok(done) => Ok(done.emit(Op::SwitchEnd).release(at)),
            },
        },
{
    reveal(lower_stmt);
    reveal(lower_branches);
}

/// What lowering a `Join` is.
pub proof fn lemma_lower_join(st: EngineState, stmt: Stmt, at: nat, ret_layout: Layout)
    requires
        stmt is Join,
    ensures
        lower_stmt(st, stmt, at, ret_layout) == match st.set_param_layouts(stmt->parameters@) {
            Err(e) => Err(e),
            Ok(recorded) => match lower_stmt(
                recorded.emit(
                    Op::Join { id: stmt->id, parameters: stmt->parameters@, ret_layout },
                ),
                *stmt->body,
                at + 1,
                ret_layout,
            ) {
                Err(e) => Err(e),
                Ok(defined) => match lower_stmt(
                    defined.emit(Op::JoinRemainder { id: stmt->id }),
                    *stmt->remainder,
                    at + 1 + stmt->body.size(),
                    ret_layout,
                ) {
                    Err(e) => Err(e),
                    Ok(done) => Ok(done.emit(Op::JoinEnd { id: stmt->id }).release(at)),
                },
            },
        },
{
    reveal(lower_stmt);
    reveal(lower_branches);
}

/// What lowering a `Jump` is.
pub proof fn lemma_lower_jump(st: EngineState, stmt: Stmt, at: nat, ret_layout: Layout)
    requires
        stmt is Jump,
    ensures
        lower_stmt(st, stmt, at, ret_layout) == match resolve(st.layouts, stmt->Jump_1@) {
            Err(e) => fail(st, e),
            Ok(arg_layouts) => Ok(
                st.emit(
                    Op::Jump { id: stmt->Jump_0, args: stmt->Jump_1@, arg_layouts, ret_layout },
                ).release(at),
            ),
        },
{
    reveal(lower_stmt);
    reveal(lower_branches);
}

/// A runtime error is not lowered.
pub proof fn lemma_lower_runtime_error(st: EngineState, stmt: Stmt, at: nat, ret_layout: Layout)
    requires
        stmt is RuntimeError,
    ensures
        lower_stmt(st, stmt, at, ret_layout) == fail(
            st,
            LowerError::NotImplemented(Unsupported::Statement(StmtKind::RuntimeError)),
        ),
{
    reveal(lower_stmt);
    reveal(lower_branches);
}

/// What lowering a list of branches is.
pub proof fn lemma_lower_branches(
    st: EngineState,
    branches: Seq<Branch>,
    at: nat,
    ret_layout: Layout,
)
    ensures
        lower_branches(st, branches, at, ret_layout) == if branches.len() == 0 {
            Ok(st)
        } else {
            match lower_stmt(
                st.emit(Op::SwitchBranch { value: branches[0].value, info: branches[0].info }),
                branches[0].body,
                at,
                ret_layout,
            ) {
                Err(e) => Err(e),
                Ok(next) => lower_branches(
                    next,
                    branches.skip(1),
                    at + branches[0].body.size(),
                    ret_layout,
                ),
            }
        },
{
    reveal(lower_stmt);
    reveal(lower_branches);
}

/// The symbols of the arguments of a procedure, in order.
pub open spec fn arg_symbols(args: Seq<(Layout, Symbol)>) -> Seq<Symbol> {
    Seq::new(args.len(), |i: int| args[i].1)
}

/// Lowers the procedure `proc`. The tables start empty; the body is
/// scanned, the free map is built from the last-seen table, and the body
/// is lowered. A procedure whose arguments or body name a symbol of the
/// range reserved for scratch symbols is rejected after the scan, so that
/// no scratch symbol of the engine is a symbol of the procedure.
pub open spec fn lower_proc(st: EngineState, proc: Proc) -> Result<EngineState, Failure> {
    if !st.names.contains_key(proc.name) {
        fail(st, LowerError::Internal(InternalError::MissingName { symbol: proc.name }))
    } else {
        let started = st.fresh().emit(
            Op::Reset {
                name: link_name(st.names[proc.name]),
                is_self_recursive: proc.is_self_recursive,
            },
        ).emit(Op::LoadArgs { args: proc.args@, ret_layout: proc.ret_layout });
        match started.set_arg_layouts(proc.args@) {
            Err(e) => Err(e),
            Ok(recorded) => {
                let last_seen = recorded.last_seen.mark_all(stmt_marks(proc.body, 0, Seq::empty()));
                let seen = EngineState { last_seen, ..recorded };
                match first_reserved(arg_symbols(proc.args@) + last_seen.order) {
                    Some(symbol) => fail(
                        seen,
                        LowerError::Internal(InternalError::ReservedSymbol { symbol }),
                    ),
                    None => {
                        let scanned = EngineState { free_map: free_map_of(last_seen), ..seen };
                        match lower_stmt(scanned, proc.body, 0, proc.ret_layout) {
                            Err(e) => Err(e),
                            Ok(lowered) => Ok(lowered.emit(Op::Finalize)),
                        }
                    },
                }
            },
        }
    }
}

} // verus!
