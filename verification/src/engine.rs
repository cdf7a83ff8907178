//! The lowering engine.
//!
//! An [`Engine`] owns the symbol tables of the procedure that is being
//! lowered and a handle on the backend. It walks the statements of a
//! procedure body and asks the backend for the operations that implement
//! them. What it asks for, and how the tables change, is defined in
//! [`crate::lowering`].

use vstd::prelude::*;
use vstd::string::StringExecFns;
use crate::arena::bump_layouts;
use crate::arena::{layouts_into_bump_slice, layouts_new_in, layouts_push, layouts_reserve};
use crate::arena::symbols_as_slice;
use crate::backend::{completed, Backend, HandedOut, Op, Target};
use crate::env::{module_is_app, Env};
use crate::error::{InternalError, LowerError, Subject, Unsupported};
use crate::free_map::{create_free_map, free_map_of, FreeMap};
use crate::ir::{branches_size, Call, CallType, Expr, Literal, Param, Proc, Stmt};
use crate::layout::{Builtin, Layout};
use crate::liveness::{lemma_mark_all_wf, stmt_marks, LastSeen, LastSeenView};
use crate::low_level::{LowLevel, NUM_IS_ZERO};
use crate::lowering::{all_known, arity_error, binary_error, comparison_error, unary_error};
use crate::lowering::{fallback_name, first_unknown, frees, next_scratch, resolve};
use crate::lowering::lemma_set_arg_layouts_keeps;
use crate::lowering::{inline_builtin, low_level_op, lower_branches, lower_call_by_name};
use crate::lowering::{fail, lower_expr, lower_proc, lower_stmt, run_low_level, EngineState};
use crate::lowering::{arg_symbols, Failure};
use crate::relocation::Relocation;
use crate::symbol::{find_reserved, first_reserved, Symbol};
use crate::symbol_map::SymbolMap;

verus! {

/// The error of an argument list that does not have `expected` arguments
/// with as many layouts.
fn check_arity(subject: Subject, expected: usize, args: &[Symbol], arg_layouts: &[Layout]) -> (error:
    Option<LowerError>)
    ensures
        error == arity_error(subject, expected as nat, args@, arg_layouts@),
{
    if args.len() == expected && arg_layouts.len() == expected {
        None
    } else {
        Some(
            LowerError::Internal(
                InternalError::ArgumentCount {
                    subject,
                    expected,
                    arguments: args.len(),
                    layouts: arg_layouts.len(),
                },
            ),
        )
    }
}

/// Checks the contract of an operation on one number.
fn check_unary(subject: Subject, args: &[Symbol], arg_layouts: &[Layout], ret_layout: &Layout) -> (error:
    Option<LowerError>)
    ensures
        error == unary_error(subject, args@, arg_layouts@, *ret_layout),
{
    if let Some(e) = check_arity(subject, 1, args, arg_layouts) {
        return Some(e);
    }
    if arg_layouts[0] != *ret_layout {
        return Some(
            LowerError::Internal(
                InternalError::ReturnLayout { subject, got: *ret_layout, want: arg_layouts[0] },
            ),
        );
    }
    None
}

/// Checks the contract of an arithmetic operation on two numbers.
fn check_binary(subject: Subject, args: &[Symbol], arg_layouts: &[Layout], ret_layout: &Layout) -> (error:
    Option<LowerError>)
    ensures
        error == binary_error(subject, args@, arg_layouts@, *ret_layout),
{
    if let Some(e) = check_arity(subject, 2, args, arg_layouts) {
        return Some(e);
    }
    if arg_layouts[0] != arg_layouts[1] {
        return Some(
            LowerError::Internal(
                InternalError::ArgumentLayouts {
                    subject,
                    first: arg_layouts[0],
                    second: arg_layouts[1],
                },
            ),
        );
    }
    if arg_layouts[0] != *ret_layout {
        return Some(
            LowerError::Internal(
                InternalError::ReturnLayout { subject, got: *ret_layout, want: arg_layouts[0] },
            ),
        );
    }
    None
}

/// Checks the contract of a comparison.
fn check_comparison(
    subject: Subject,
    args: &[Symbol],
    arg_layouts: &[Layout],
    ret_layout: &Layout,
) -> (error: Option<LowerError>)
    ensures
        error == comparison_error(subject, args@, arg_layouts@, *ret_layout),
{
    if let Some(e) = check_arity(subject, 2, args, arg_layouts) {
        return Some(e);
    }
    if arg_layouts[0] != arg_layouts[1] {
        return Some(
            LowerError::Internal(
                InternalError::ArgumentLayouts {
                    subject,
                    first: arg_layouts[0],
                    second: arg_layouts[1],
                },
            ),
        );
    }
    if !ret_layout.is_bool() {
        return Some(
            LowerError::Internal(
                InternalError::ReturnLayout {
                    subject,
                    got: *ret_layout,
                    want: Layout::Builtin(Builtin::Bool),
                },
            ),
        );
    }
    None
}

/// The name of the support-library function that stands in for `op`, if
/// the operation is lowered to a call of one.
pub fn fallback_fn_name(op: LowLevel) -> (name: Option<String>)
    ensures
        match name {
            Some(n) => fallback_name(op) == Some(n@),
            None => fallback_name(op) is None,
        },
{
    match op {
        LowLevel::NumAcos => Some(String::from_str("roc_builtins.num.acos.f64")),
        LowLevel::NumAsin => Some(String::from_str("roc_builtins.num.asin.f64")),
        LowLevel::NumAtan => Some(String::from_str("roc_builtins.num.atan.f64")),
        LowLevel::NumPowInt => Some(String::from_str("roc_builtins.num.pow_int.i64")),
        LowLevel::NumRound => Some(String::from_str("roc_builtins.num.round.f64")),
        LowLevel::StrConcat => Some(String::from_str("roc_builtins.str.concat")),
        _ => None,
    }
}

/// Lowers procedures for the backend `B`.
pub struct Engine<'a, B: Backend> {
    env: &'a Env<'a>,
    target: Target<B>,
    layout_map: SymbolMap<Layout>,
    literal_map: SymbolMap<(&'a Literal, Layout)>,
    last_seen_map: LastSeen,
    free_map: FreeMap<'a>,
    scratch: u32,
}

impl<'a, B: Backend> View for Engine<'a, B> {
    type V = EngineState;

    closed spec fn view(&self) -> EngineState {
        EngineState {
            lazy_literals: self.env.lazy_literals,
            names: self.env.interns@,
            issued: self.target.issued(),
            layouts: self.layout_map@,
            literals: Map::new(
                |s: Symbol| self.literal_map@.contains_key(s),
                |s: Symbol| (*self.literal_map@[s].0, self.literal_map@[s].1),
            ),
            last_seen: self.last_seen_map@,
            free_map: self.free_map@,
            scratch: self.scratch,
        }
    }
}

impl<'a, B: Backend> Engine<'a, B> {
    /// An engine for `backend` in the context `env`. Its tables are empty
    /// and nothing has been asked of the backend.
    pub fn new(env: &'a Env<'a>, backend: B) -> (engine: Self)
        ensures
            engine@.lazy_literals == env.lazy_literals,
            engine@.names == env.interns@,
            engine@ == engine@.fresh(),
            engine.backend_state() == backend,
            engine.context() == *env,
            engine.handed_out() == (HandedOut { code: None, wrapped_jmp: None }),
    {
        let engine = Engine {
            env,
            target: Target::new(backend),
            layout_map: SymbolMap::new(),
            literal_map: SymbolMap::new(),
            last_seen_map: LastSeen::new(),
            free_map: FreeMap::new(),
            scratch: 0,
        };
        assert(engine@.literals =~= Map::<Symbol, (Literal, Layout)>::empty());
        engine
    }

    /// Loads the pending literal of `sym`, if there is one.
    fn materialize(&mut self, sym: Symbol)
        ensures
            completed(final(self)@.issued) == completed(old(self)@.issued),
            final(self)@ == old(self)@.materialize(sym),
    {
        if let Some((lit, layout)) = self.literal_map.remove(sym) {
            self.target.load_literal(&sym, &layout, lit);
            assert(self@.literals =~= old(self)@.literals.remove(sym));
        } else {
            assert(self@.literals =~= old(self)@.literals);
        }
    }

    /// Makes `sym` ready for use: with lazy literals its pending literal,
    /// if there is one, is loaded.
    pub fn load_literal_symbol(&mut self, sym: Symbol)
        ensures
            completed(final(self)@.issued) == completed(old(self)@.issued),
            final(self)@ == old(self)@.load_literal_symbols(seq![sym]),
    {
        proof {
            reveal_with_fuel(EngineState::materialize_all, 2);
            assert(seq![sym].skip(1) =~= Seq::<Symbol>::empty());
        }
        if self.env.lazy_literals {
            self.materialize(sym);
        }
    }

    /// Makes `syms` ready for use: with lazy literals the pending literals
    /// among them are loaded, in the order of `syms`.
    pub fn load_literal_symbols(&mut self, syms: &[Symbol])
        ensures
            completed(final(self)@.issued) == completed(old(self)@.issued),
            final(self)@ == old(self)@.load_literal_symbols(syms@),
    {
        if self.env.lazy_literals {
            let mut i: usize = 0;
            assert(syms@.skip(0) =~= syms@);
            while i < syms.len()
                invariant
                    completed(self@.issued) == completed(old(self)@.issued),
                    i <= syms.len(),
                    self@.materialize_all(syms@.skip(i as int)) == old(self)@.materialize_all(
                        syms@,
                    ),
                decreases syms.len() - i,
            {
                assert(syms@.skip(i as int).skip(1) =~= syms@.skip(i + 1));
                self.materialize(syms[i]);
                i = i + 1;
            }
        }
    }

    /// Releases the symbols that are due after the statement with index
    /// `at`: the symbols of its release list are freed and the list is
    /// removed from the free map.
    pub fn free_symbols(&mut self, at: usize)
        ensures
            completed(final(self)@.issued) == completed(old(self)@.issued),
            final(self)@ == old(self)@.release(at as nat),
    {
        if let Some(syms) = self.free_map.take(at) {
            let list = symbols_as_slice(&syms);
            let ghost start = self@;
            let ghost due = old(self)@.free_map[at as nat];
            let mut i: usize = 0;
            assert(start.issued + frees(due).take(0) =~= start.issued);
            while i < list.len()
                invariant
                    completed(self@.issued) == completed(old(self)@.issued),
                    i <= list.len(),
                    list@ == due,
                    self@ == (EngineState {
                        issued: start.issued + frees(due).take(i as int),
                        ..start
                    }),
                decreases list.len() - i,
            {
                self.target.free_symbol(&list[i]);
                assert(self@.issued =~= start.issued + frees(due).take(i + 1));
                i = i + 1;
            }
            assert(frees(due).take(list.len() as int) =~= frees(due));
        } else {
            assert(self@.free_map =~= old(self)@.free_map);
        }
    }

    /// Records the layout of `sym`. A symbol keeps its layout: to record a
    /// different one is an error.
    pub fn set_layout_map(&mut self, sym: Symbol, layout: &Layout) -> (result: Result<
        (),
        LowerError,
    >)
        ensures
            completed(final(self)@.issued) == completed(old(self)@.issued),
            match result {
                Ok(_) => old(self)@.set_layout(sym, *layout) == Ok::<EngineState, Failure>(
                    final(self)@,
                ),
                Err(e) => old(self)@.set_layout(sym, *layout) == fail(final(self)@, e),
            },
    {
        if let Some(old_layout) = self.layout_map.get(sym) {
            // The layout map already contains the symbol. It is never
            // overwritten with another layout.
            if *old_layout != *layout {
                return Err(
                    LowerError::Internal(
                        InternalError::LayoutOverwrite {
                            symbol: sym,
                            got: *layout,
                            want: *old_layout,
                        },
                    ),
                );
            }
        }
        self.layout_map.insert(sym, *layout);
        Ok(())
    }

    /// The recorded layouts of `args`, in a slice of the arena.
    pub fn arg_layouts(&self, args: &[Symbol]) -> (result: Result<&'a [Layout], LowerError>)
        ensures
            match result {
                Ok(layouts) => resolve(self@.layouts, args@) == Ok::<Seq<Layout>, LowerError>(
                    layouts@,
                ),
                Err(e) => resolve(self@.layouts, args@) == Err::<Seq<Layout>, LowerError>(e),
            },
    {
        let mut arg_layouts = layouts_new_in(self.env.arena);
        layouts_reserve(&mut arg_layouts, args.len());
        let mut i: usize = 0;
        while i < args.len()
            invariant
                i <= args.len(),
                bump_layouts(arg_layouts).len() == i,
                forall|j: int| 0 <= j < i ==> self@.layouts.contains_key(#[trigger] args@[j]),
                forall|j: int|
                    0 <= j < i ==> bump_layouts(arg_layouts)[j] == self@.layouts[args@[j]],
            decreases args.len() - i,
        {
            match self.layout_map.get(args[i]) {
                Some(layout) => {
                    layouts_push(&mut arg_layouts, *layout);
                },
                None => {
                    proof {
                        let first = first_unknown(self@.layouts, args@);
                        assert(!self@.layouts.contains_key(args@[i as int]));
                        assert(!all_known(self@.layouts, args@));
                        assert(first == i) by {
                            if first < i {
                                assert(self@.layouts.contains_key(args@[first]));
                            }
                            if first > i {
                                assert(self@.layouts.contains_key(args@[i as int]));
                            }
                        }
                    }
                    return Err(
                        LowerError::Internal(InternalError::MissingLayout { symbol: args[i] }),
                    );
                },
            }
            i = i + 1;
        }
        let layouts = layouts_into_bump_slice(arg_layouts);
        assert(layouts@ =~= Seq::new(args@.len(), |i: int| self@.layouts[args@[i]]));
        Ok(layouts)
    }

    /// Lowers the low-level operation `lowlevel` on `args` into `sym`. The
    /// arguments are made ready, the contract of the operation on the
    /// number and layouts of its arguments is checked, and the operation
    /// is asked of the backend: natively, or as a call of a function of
    /// the support library.
    #[verifier::rlimit(50)]
    pub fn build_run_low_level(
        &mut self,
        sym: &Symbol,
        lowlevel: &LowLevel,
        args: &[Symbol],
        arg_layouts: &[Layout],
        ret_layout: &Layout,
    ) -> (result: Result<(), LowerError>)
        ensures
            completed(final(self)@.issued) == completed(old(self)@.issued),
            match result {
                Ok(_) => run_low_level(
                    old(self)@,
                    *sym,
                    *lowlevel,
                    args@,
                    arg_layouts@,
                    *ret_layout,
                ) == Ok::<EngineState, Failure>(final(self)@),
                Err(e) => run_low_level(
                    old(self)@,
                    *sym,
                    *lowlevel,
                    args@,
                    arg_layouts@,
                    *ret_layout,
                ) == fail(final(self)@, e),
            },
    {
        proof {
            reveal(low_level_op);
        }
        // Now that the arguments are needed, load them if they are literals.
        self.load_literal_symbols(args);
        let subject = Subject::LowLevel(*lowlevel);
        match lowlevel {
            LowLevel::NumAbs => {
                if let Some(e) = check_unary(subject, args, arg_layouts, ret_layout) {
                    return Err(e);
                }
                self.target.build_num_abs(sym, &args[0], ret_layout);
                Ok(())
            },
            LowLevel::NumNeg => {
                if let Some(e) = check_unary(subject, args, arg_layouts, ret_layout) {
                    return Err(e);
                }
                self.target.build_num_neg(sym, &args[0], ret_layout);
                Ok(())
            },
            LowLevel::NumAdd => {
                if let Some(e) = check_binary(subject, args, arg_layouts, ret_layout) {
                    return Err(e);
                }
                self.target.build_num_add(sym, &args[0], &args[1], ret_layout);
                Ok(())
            },
            LowLevel::NumMul => {
                if let Some(e) = check_binary(subject, args, arg_layouts, ret_layout) {
                    return Err(e);
                }
                self.target.build_num_mul(sym, &args[0], &args[1], ret_layout);
                Ok(())
            },
            LowLevel::NumSub => {
                if let Some(e) = check_binary(subject, args, arg_layouts, ret_layout) {
                    return Err(e);
                }
                self.target.build_num_sub(sym, &args[0], &args[1], ret_layout);
                Ok(())
            },
            LowLevel::Eq => {
                if let Some(e) = check_comparison(subject, args, arg_layouts, ret_layout) {
                    return Err(e);
                }
                self.target.build_eq(sym, &args[0], &args[1], &arg_layouts[0]);
                Ok(())
            },
            LowLevel::NotEq => {
                if let Some(e) = check_comparison(subject, args, arg_layouts, ret_layout) {
                    return Err(e);
                }
                self.target.build_neq(sym, &args[0], &args[1], &arg_layouts[0]);
                Ok(())
            },
            LowLevel::NumLt => {
                if let Some(e) = check_comparison(subject, args, arg_layouts, ret_layout) {
                    return Err(e);
                }
                self.target.build_num_lt(sym, &args[0], &args[1], &arg_layouts[0]);
                Ok(())
            },
            LowLevel::NumToFloat => {
                if let Some(e) = check_arity(subject, 1, args, arg_layouts) {
                    return Err(e);
                }
                self.target.build_num_to_float(sym, &args[0], &arg_layouts[0], ret_layout);
                Ok(())
            },
            _ => match fallback_fn_name(*lowlevel) {
                Some(fn_name) => {
                    self.target.build_fn_call(sym, fn_name, args, arg_layouts, ret_layout);
                    Ok(())
                },
                None => Err(LowerError::NotImplemented(Unsupported::LowLevel(*lowlevel))),
            },
        }
    }

    /// Hands out a scratch symbol and moves on to the next.
    fn fresh_scratch(&mut self) -> (tmp: Symbol)
        ensures
            tmp == Symbol::scratch(old(self)@.scratch),
            final(self)@ == (EngineState {
                scratch: next_scratch(old(self)@.scratch),
                ..old(self)@
            }),
    {
        let tmp = Symbol::dev_tmp(self.scratch);
        self.scratch = if self.scratch == u32::MAX {
            0
        } else {
            self.scratch + 1
        };
        tmp
    }

    /// Lowers a call of the builtin function `func_sym`, which wraps no
    /// single low-level operation, by spelling it out.
    pub fn build_inline_builtin(
        &mut self,
        sym: &Symbol,
        func_sym: Symbol,
        args: &[Symbol],
        arg_layouts: &[Layout],
        ret_layout: &Layout,
    ) -> (result: Result<(), LowerError>)
        ensures
            completed(final(self)@.issued) == completed(old(self)@.issued),
            match result {
                Ok(_) => inline_builtin(
                    old(self)@,
                    *sym,
                    func_sym,
                    args@,
                    arg_layouts@,
                    *ret_layout,
                ) == Ok::<EngineState, Failure>(final(self)@),
                Err(e) => inline_builtin(
                    old(self)@,
                    *sym,
                    func_sym,
                    args@,
                    arg_layouts@,
                    *ret_layout,
                ) == fail(final(self)@, e),
            },
    {
        proof {
            reveal(inline_builtin);
        }
        self.load_literal_symbols(args);
        let subject = Subject::Function(func_sym);
        if func_sym.0 == NUM_IS_ZERO {
            if let Some(e) = check_arity(subject, 1, args, arg_layouts) {
                return Err(e);
            }
            if !ret_layout.is_bool() {
                return Err(
                    LowerError::Internal(
                        InternalError::ReturnLayout {
                            subject,
                            got: *ret_layout,
                            want: Layout::Builtin(Builtin::Bool),
                        },
                    ),
                );
            }
            let tmp = self.fresh_scratch();
            let zero = Literal::Int(0);
            self.target.load_literal(&tmp, &arg_layouts[0], &zero);
            self.target.build_eq(sym, &args[0], &tmp, &arg_layouts[0]);
            self.target.free_symbol(&tmp);
            Ok(())
        } else {
            Err(LowerError::NotImplemented(Unsupported::Function(func_sym)))
        }
    }

    /// Lowers the call of the function `func_sym` into `sym`.
    fn build_call_by_name(
        &mut self,
        sym: &Symbol,
        func_sym: Symbol,
        arguments: &[Symbol],
        arg_layouts: &[Layout],
        ret_layout: &Layout,
    ) -> (result: Result<(), LowerError>)
        ensures
            completed(final(self)@.issued) == completed(old(self)@.issued),
            match result {
                Ok(_) => lower_call_by_name(
                    old(self)@,
                    *sym,
                    func_sym,
                    arguments@,
                    arg_layouts@,
                    *ret_layout,
                ) == Ok::<EngineState, Failure>(final(self)@),
                Err(e) => lower_call_by_name(
                    old(self)@,
                    *sym,
                    func_sym,
                    arguments@,
                    arg_layouts@,
                    *ret_layout,
                ) == fail(final(self)@, e),
            },
    {
        proof {
            reveal(lower_call_by_name);
        }
        // If this function is just a low-level wrapper, then inline it.
        if let Some(lowlevel) = LowLevel::from_inlined_wrapper(func_sym) {
            return self.build_run_low_level(sym, &lowlevel, arguments, arg_layouts, ret_layout);
        }
        let env = self.env;
        let module = match env.interns.module_string(func_sym) {
            Some(module) => module,
            None => {
                return Err(LowerError::Internal(InternalError::MissingName { symbol: func_sym }));
            },
        };
        if module_is_app(module) {
            let fn_name = match env.interns.symbol_string(func_sym) {
                Some(fn_name) => fn_name,
                None => {
                    return Err(
                        LowerError::Internal(InternalError::MissingName { symbol: func_sym }),
                    );
                },
            };
            // Now that the arguments are needed, load them if they are literals.
            self.load_literal_symbols(arguments);
            self.target.build_fn_call(sym, fn_name, arguments, arg_layouts, ret_layout);
            Ok(())
        } else {
            self.build_inline_builtin(sym, func_sym, arguments, arg_layouts, ret_layout)
        }
    }

    /// Lowers `expr` into `sym`, whose layout is `layout`. A literal is
    /// loaded at once or, with lazy literals, kept until its first use; a
    /// call is lowered by its kind; a struct is built from its fields; a
    /// field is loaded from its structure. Any other expression is not
    /// lowered by this backend.
    #[verifier::rlimit(50)]
    pub fn build_expr(&mut self, sym: &Symbol, expr: &'a Expr, layout: &Layout) -> (result: Result<
        (),
        LowerError,
    >)
        ensures
            completed(final(self)@.issued) == completed(old(self)@.issued),
            match result {
                Ok(_) => lower_expr(old(self)@, *sym, *expr, *layout) == Ok::<EngineState, Failure>(final(self)@),
                Err(e) => lower_expr(old(self)@, *sym, *expr, *layout) == fail(final(self)@, e),
            },
    {
        proof {
            reveal(lower_expr);
        }
        match expr {
            Expr::Literal(lit) => {
                if self.env.lazy_literals {
                    self.literal_map.insert(*sym, (lit, *layout));
                    assert(self@.literals =~= old(self)@.literals.insert(*sym, (*lit, *layout)));
                } else {
                    self.target.load_literal(sym, layout, lit);
                    assert(self@.literals =~= old(self)@.literals);
                }
                Ok(())
            },
            Expr::Call(Call { call_type, arguments }) => {
                match call_type {
                    CallType::ByName { name: func_sym, arg_layouts, ret_layout } => {
                        self.build_call_by_name(
                            sym,
                            *func_sym,
                            arguments.as_slice(),
                            arg_layouts.as_slice(),
                            ret_layout,
                        )
                    },
                    CallType::LowLevel { op: lowlevel } => {
                        let arg_layouts = match self.arg_layouts(arguments.as_slice()) {
                            Ok(arg_layouts) => arg_layouts,
                            Err(e) => {
                                return Err(e);
                            },
                        };
                        self.build_run_low_level(
                            sym,
                            lowlevel,
                            arguments.as_slice(),
                            arg_layouts,
                            layout,
                        )
                    },
                    x => Err(LowerError::NotImplemented(Unsupported::CallType(x.kind()))),
                }
            },
            Expr::Struct(fields) => {
                self.load_literal_symbols(fields.as_slice());
                self.target.create_struct(sym, layout, fields.as_slice());
                Ok(())
            },
            Expr::StructAtIndex { index, field_layouts, structure } => {
                self.target.load_struct_at_index(sym, structure, *index, field_layouts.as_slice());
                assert(self@.literals =~= old(self)@.literals);
                Ok(())
            },
            x => Err(LowerError::NotImplemented(Unsupported::Expression(x.kind()))),
        }
    }

    /// Records the layouts of the parameters of a join point.
    fn set_param_layouts(&mut self, parameters: &Vec<Param>) -> (result: Result<(), LowerError>)
        ensures
            completed(final(self)@.issued) == completed(old(self)@.issued),
            match result {
                Ok(_) => old(self)@.set_param_layouts(parameters@) == Ok::<EngineState, Failure>(final(self)@),
                Err(e) => old(self)@.set_param_layouts(parameters@) == fail(final(self)@, e),
            },
    {
        let mut i: usize = 0;
        assert(parameters@.skip(0) =~= parameters@);
        while i < parameters.len()
            invariant
                completed(self@.issued) == completed(old(self)@.issued),
                i <= parameters.len(),
                self@.set_param_layouts(parameters@.skip(i as int)) == old(
                    self,
                )@.set_param_layouts(parameters@),
            decreases parameters.len() - i,
        {
            assert(parameters@.skip(i as int).skip(1) =~= parameters@.skip(i + 1));
            let param = &parameters[i];
            if let Err(e) = self.set_layout_map(param.symbol, &param.layout) {
                return Err(e);
            }
            i = i + 1;
        }
        Ok(())
    }

    /// Records the layouts of the arguments of a procedure.
    fn set_arg_layouts(&mut self, args: &Vec<(Layout, Symbol)>) -> (result: Result<(), LowerError>)
        ensures
            completed(final(self)@.issued) == completed(old(self)@.issued),
            match result {
                Ok(_) => old(self)@.set_arg_layouts(args@) == Ok::<EngineState, Failure>(
                    final(self)@,
                ),
                Err(e) => old(self)@.set_arg_layouts(args@) == fail(final(self)@, e),
            },
    {
        let mut i: usize = 0;
        assert(args@.skip(0) =~= args@);
        while i < args.len()
            invariant
                completed(self@.issued) == completed(old(self)@.issued),
                i <= args.len(),
                self@.set_arg_layouts(args@.skip(i as int)) == old(self)@.set_arg_layouts(args@),
            decreases args.len() - i,
        {
            assert(args@.skip(i as int).skip(1) =~= args@.skip(i + 1));
            let arg = &args[i];
            if let Err(e) = self.set_layout_map(arg.1, &arg.0) {
                return Err(e);
            }
            i = i + 1;
        }
        Ok(())
    }

    /// Lowers the tree rooted at `stmt`, whose index in the procedure body
    /// is `at`, and returns the index that follows the tree.
    ///
    /// A `Let` lowers its expression, records the layout of the bound
    /// symbol, releases what is due and goes on with its continuation. A
    /// `Ret` makes the symbol ready, returns it and releases what is due.
    /// A `Refcounting` is passed over: reference counts are not adjusted
    /// by this backend, and nothing is released after it. A `Switch` makes
    /// its condition ready, lowers each branch and the default branch
    /// between the markers of a multi-way branch, and releases what is
    /// due. A `Join` records the layouts of its parameters, lowers its
    /// body as the join point and then its remainder, and releases what is
    /// due. A `Jump` looks up the layouts of its arguments, jumps and
    /// releases what is due. A runtime error is not lowered by this
    /// backend.
    #[verifier::rlimit(50)]
    pub fn build_stmt(&mut self, stmt: &'a Stmt, at: usize, ret_layout: &Layout) -> (result: Result<
        usize,
        LowerError,
    >)
        requires
            at + stmt.size() <= usize::MAX,
        ensures
            completed(final(self)@.issued) == completed(old(self)@.issued),
            match result {
                Ok(next) => lower_stmt(old(self)@, *stmt, at as nat, *ret_layout) == Ok::<EngineState, Failure>(final(self)@) && next == at + stmt.size(),
                Err(e) => lower_stmt(old(self)@, *stmt, at as nat, *ret_layout) == fail(final(self)@, e),
            },
        decreases stmt, 1nat,
    {
        proof {
            reveal(lower_stmt);
            reveal(lower_branches);
        }
        match stmt {
            Stmt::Let(sym, expr, layout, following) => {
                if let Err(e) = self.build_expr(sym, expr, layout) {
                    return Err(e);
                }
                if let Err(e) = self.set_layout_map(*sym, layout) {
                    return Err(e);
                }
                self.free_symbols(at);
                self.build_stmt(following, at + 1, ret_layout)
            },
            Stmt::Ret(sym) => {
                self.load_literal_symbol(*sym);
                self.target.return_symbol(sym, ret_layout);
                self.free_symbols(at);
                Ok(at + 1)
            },
            Stmt::Refcounting(_modify, following) => {
                self.build_stmt(following, at + 1, ret_layout)
            },
            Stmt::Switch { .. } => self.build_switch(stmt, at, ret_layout),
            Stmt::Join { .. } => self.build_join(stmt, at, ret_layout),
            Stmt::Jump(id, args) => {
                let arg_layouts = match self.arg_layouts(args.as_slice()) {
                    Ok(arg_layouts) => arg_layouts,
                    Err(e) => {
                        return Err(e);
                    },
                };
                self.target.build_jump(id, args.as_slice(), arg_layouts, ret_layout);
                self.free_symbols(at);
                Ok(at + 1)
            },
            x => Err(LowerError::NotImplemented(Unsupported::Statement(x.kind()))),
        }
    }

    /// Lowers a `Switch`: the condition is made ready, the multi-way
    /// branch is opened, each branch and then the default branch is
    /// lowered after its marker, the multi-way branch is closed, and what
    /// is due after the `Switch` is released.
    #[verifier::rlimit(50)]
    fn build_switch(&mut self, stmt: &'a Stmt, at: usize, ret_layout: &Layout) -> (result: Result<
        usize,
        LowerError,
    >)
        requires
            *stmt is Switch,
            at + stmt.size() <= usize::MAX,
        ensures
            completed(final(self)@.issued) == completed(old(self)@.issued),
            match result {
                Ok(next) => lower_stmt(old(self)@, *stmt, at as nat, *ret_layout) == Ok::<EngineState, Failure>(final(self)@) && next == at + stmt.size(),
                Err(e) => lower_stmt(old(self)@, *stmt, at as nat, *ret_layout) == fail(final(self)@, e),
            },
        decreases stmt, 0nat,
    {
        proof {
            reveal(lower_stmt);
            reveal(lower_branches);
        }
        match stmt {
            Stmt::Switch {
                cond_symbol,
                cond_layout,
                branches,
                default_info,
                default_branch,
                ret_layout: switch_layout,
            } => {
                self.load_literal_symbol(*cond_symbol);
                self.target.build_switch(cond_symbol, cond_layout, switch_layout);
                let ghost opened = self@;
                let ghost whole = lower_stmt(old(self)@, *stmt, at as nat, *ret_layout);
                let ghost inner = lower_branches(
                    opened,
                    branches@,
                    (at + 1) as nat,
                    *switch_layout,
                );
                let mut cur: usize = at + 1;
                let mut i: usize = 0;
                assert(branches@.skip(0) =~= branches@);
                while i < branches.len()
                    invariant
                        completed(self@.issued) == completed(old(self)@.issued),
                        i <= branches.len(),
                        at + stmt.size() <= usize::MAX,
                        stmt.size() == 1 + branches_size(branches@) + default_branch.size(),
                        cur + branches_size(branches@.skip(i as int)) == at + 1 + branches_size(
                            branches@,
                        ),
                        whole == lower_stmt(old(self)@, *stmt, at as nat, *ret_layout),
                        inner matches Err(e) ==> whole == Err::<EngineState, Failure>(e),
                        lower_branches(
                            self@,
                            branches@.skip(i as int),
                            cur as nat,
                            *switch_layout,
                        ) == inner,
                        *stmt is Switch,
                        stmt->branches == *branches,
                    decreases branches.len() - i,
                {
                    let ghost before = self@;
                    let ghost start = cur as nat;
                    let ghost rest = branches@.skip(i as int);
                    assert(rest.skip(1) =~= branches@.skip(i + 1));
                    assert(rest[0] == branches@[i as int]);
                    let branch = &branches[i];
                    self.target.build_switch_branch(branch.value, &branch.info);
                    match self.build_stmt(&branch.body, cur, switch_layout) {
                        Ok(next) => {
                            cur = next;
                            assert(lower_branches(before, rest, start, *switch_layout)
                                == lower_branches(self@, rest.skip(1), cur as nat, *switch_layout))
                                by {
                                reveal(lower_stmt);
                                reveal(lower_branches);
                            }
                        },
                        Err(e) => {
                            assert(lower_branches(before, rest, start, *switch_layout) == fail(self@, e)) by {
                                reveal(lower_stmt);
                                reveal(lower_branches);
                            }
                            return Err(e);
                        },
                    }
                    i = i + 1;
                }
                assert(inner == Ok::<EngineState, Failure>(self@)) by {
                    reveal(lower_stmt);
                    reveal(lower_branches);
                }
                self.target.build_switch_default(default_info);
                let next = match self.build_stmt(default_branch, cur, switch_layout) {
                    Ok(next) => next,
                    Err(e) => {
                        return Err(e);
                    },
                };
                self.target.build_switch_end();
                self.free_symbols(at);
                Ok(next)
            },
            _ => Ok(at),
        }
    }

    /// Lowers a `Join`: the layouts of the parameters are recorded, the
    /// join point is opened, its body is lowered, then the remainder that
    /// jumps to it, the join point is closed, and what is due after the
    /// `Join` is released.
    #[verifier::rlimit(50)]
    fn build_join(&mut self, stmt: &'a Stmt, at: usize, ret_layout: &Layout) -> (result: Result<
        usize,
        LowerError,
    >)
        requires
            *stmt is Join,
            at + stmt.size() <= usize::MAX,
        ensures
            completed(final(self)@.issued) == completed(old(self)@.issued),
            match result {
                Ok(next) => lower_stmt(old(self)@, *stmt, at as nat, *ret_layout) == Ok::<EngineState, Failure>(final(self)@) && next == at + stmt.size(),
                Err(e) => lower_stmt(old(self)@, *stmt, at as nat, *ret_layout) == fail(final(self)@, e),
            },
        decreases stmt, 0nat,
    {
        proof {
            reveal(lower_stmt);
            reveal(lower_branches);
        }
        match stmt {
            Stmt::Join { id, parameters, body, remainder } => {
                if let Err(e) = self.set_param_layouts(parameters) {
                    return Err(e);
                }
                self.target.build_join(id, parameters.as_slice(), ret_layout);
                let mid = match self.build_stmt(body, at + 1, ret_layout) {
                    Ok(mid) => mid,
                    Err(e) => {
                        return Err(e);
                    },
                };
                self.target.build_join_remainder(id);
                let next = match self.build_stmt(remainder, mid, ret_layout) {
                    Ok(next) => next,
                    Err(e) => {
                        return Err(e);
                    },
                };
                self.target.build_join_end(id);
                self.free_symbols(at);
                Ok(next)
            },
            _ => Ok(at),
        }
    }

    /// Runs through the procedure body `stmt` and fills the last-seen
    /// table: for each symbol seen in the body, the last statement at which
    /// it is seen.
    pub fn scan_ast(&mut self, stmt: &Stmt)
        requires
            stmt.size() <= usize::MAX,
        ensures
            final(self)@ == (EngineState {
                last_seen: old(self)@.last_seen.mark_all(stmt_marks(*stmt, 0, Seq::empty())),
                ..old(self)@
            }),
            old(self)@.last_seen.wf() ==> final(self)@.last_seen.wf(),
    {
        self.last_seen_map.scan_ast(stmt);
    }

    /// Builds the free map from the last-seen table: each symbol is put on
    /// the release list of the statement at which it was last seen.
    pub fn create_free_map(&mut self)
        requires
            old(self)@.last_seen.wf(),
        ensures
            final(self)@ == (EngineState {
                free_map: free_map_of(old(self)@.last_seen),
                ..old(self)@
            }),
    {
        self.free_map = create_free_map(&self.last_seen_map, self.env.arena);
    }

    /// The first symbol among `args` and the symbols of the last-seen
    /// table, in the order in which they were first seen, that lies in the
    /// range reserved for scratch symbols.
    fn find_reserved(&self, args: &Vec<(Layout, Symbol)>) -> (found: Option<Symbol>)
        ensures
            found == first_reserved(arg_symbols(args@) + self@.last_seen.order),
    {
        let ghost syms = arg_symbols(args@);
        let ghost order = self@.last_seen.order;
        let mut i: usize = 0;
        assert(syms.skip(0) =~= syms);
        while i < args.len()
            invariant
                i <= args.len(),
                syms == arg_symbols(args@),
                order == self@.last_seen.order,
                first_reserved(syms.skip(i as int) + order) == first_reserved(syms + order),
            decreases args.len() - i,
        {
            proof {
                let rest = syms.skip(i as int) + order;
                assert(rest[0] == args@[i as int].1);
                assert(rest.skip(1) =~= syms.skip(i + 1) + order);
            }
            if args[i].1.is_dev_tmp() {
                return Some(args[i].1);
            }
            i = i + 1;
        }
        assert(syms.skip(args.len() as int) + order =~= order);
        find_reserved(self.last_seen_map.symbols().as_slice())
    }

    /// Empties the tables for a new procedure.
    fn clear_tables(&mut self)
        ensures
            final(self)@ == (EngineState { issued: old(self)@.issued, ..old(self)@.fresh() }),
    {
        self.layout_map.clear();
        self.literal_map.clear();
        self.last_seen_map.clear();
        self.free_map = FreeMap::new();
        self.scratch = 0;
        assert(self@.literals =~= Map::<Symbol, (Literal, Layout)>::empty());
    }

    /// Lowers the procedure `proc` and hands out its code and relocations.
    ///
    /// The backend is started on the procedure under its link name and
    /// told its arguments, whose layouts are recorded. The body is scanned,
    /// the free map is built, the body is lowered, and the backend
    /// completes the procedure. Nothing of the procedures lowered before
    /// has any influence. On an error the procedure is never completed:
    /// no code is handed out for it.
    #[verifier::rlimit(50)]
    pub fn build_proc(&mut self, proc: &'a Proc) -> (result: Result<
        (Vec<u8>, Vec<Relocation>),
        LowerError,
    >)
        requires
            proc.body.size() <= usize::MAX,
        ensures
            match result {
                Ok(code) => lower_proc(old(self)@, *proc) == Ok::<EngineState, Failure>(
                    final(self)@,
                ) && final(self).handed_out().code == Some(code),
                Err(e) => lower_proc(old(self)@, *proc) == fail(final(self)@, e),
            },
            result is Err ==> final(self)@.issued == old(self)@.issued || !completed(
                final(self)@.issued,
            ),
    {
        let env = self.env;
        let proc_name = match env.interns.symbol_string(proc.name) {
            Some(proc_name) => proc_name,
            None => {
                return Err(LowerError::Internal(InternalError::MissingName { symbol: proc.name }));
            },
        };
        self.clear_tables();
        self.target.reset(proc_name, &proc.is_self_recursive);
        self.target.load_args(proc.args.as_slice(), &proc.ret_layout);
        let ghost started = self@;
        assert(started.issued =~= old(self)@.fresh().emit(
            Op::Reset { name: proc_name@, is_self_recursive: proc.is_self_recursive },
        ).emit(Op::LoadArgs { args: proc.args@, ret_layout: proc.ret_layout }).issued);
        if let Err(e) = self.set_arg_layouts(&proc.args) {
            return Err(e);
        }
        proof {
            lemma_set_arg_layouts_keeps(started, proc.args@);
            lemma_mark_all_wf(LastSeenView::empty(), stmt_marks(proc.body, 0, Seq::empty()));
        }
        self.scan_ast(&proc.body);
        if let Some(symbol) = self.find_reserved(&proc.args) {
            return Err(LowerError::Internal(InternalError::ReservedSymbol { symbol }));
        }
        self.create_free_map();
        if let Err(e) = self.build_stmt(&proc.body, 0, &proc.ret_layout) {
            return Err(e);
        }
        Ok(self.target.finalize())
    }

    /// The compilation context that the engine was made for.
    pub closed spec fn context(&self) -> Env<'a> {
        *self.env
    }

    /// The compilation context.
    pub fn env(&self) -> (env: &'a Env<'a>)
        ensures
            *env == self.context(),
            env.lazy_literals == self@.lazy_literals,
            env.interns@ == self@.names,
    {
        self.env
    }

    /// What the backend has handed out to the engine: the code of the
    /// current procedure, if it is completed, and the last trampoline.
    pub closed spec fn handed_out(&self) -> HandedOut {
        self.target.handed_out()
    }

    /// The backend, as the engine's requests have left it.
    pub closed spec fn backend_state(&self) -> B {
        self.target.inner()
    }

    /// The backend.
    pub fn backend(&self) -> (backend: &B)
        ensures
            *backend == self.backend_state(),
    {
        self.target.backend()
    }

    /// Gives the backend back.
    pub fn into_backend(self) -> (backend: B)
        ensures
            backend == self.backend_state(),
    {
        self.target.into_backend()
    }

    /// The layout recorded for `sym`.
    pub fn layout_of(&self, sym: Symbol) -> (layout: Option<Layout>)
        ensures
            match layout {
                Some(l) => self@.layouts.contains_key(sym) && self@.layouts[sym] == l,
                None => !self@.layouts.contains_key(sym),
            },
    {
        match self.layout_map.get(sym) {
            Some(l) => Some(*l),
            None => None,
        }
    }

    /// Whether the load of a literal into `sym` is pending.
    pub fn has_pending_literal(&self, sym: Symbol) -> (pending: bool)
        ensures
            pending == self@.literals.contains_key(sym),
    {
        self.literal_map.contains_key(sym)
    }

    /// The index of the statement at which `sym` was seen last.
    pub fn last_seen(&self, sym: Symbol) -> (at: Option<usize>)
        ensures
            match at {
                Some(i) => self@.last_seen.table.contains_key(sym) && self@.last_seen.table[sym]
                    == i,
                None => !self@.last_seen.table.contains_key(sym),
            },
    {
        self.last_seen_map.get(sym)
    }

    /// The symbols that are due for release after the statement with index
    /// `at` and have not been released yet.
    pub fn due_after(&self, at: usize) -> (syms: Vec<Symbol>)
        ensures
            syms@ == if self@.free_map.contains_key(at as nat) {
                self@.free_map[at as nat]
            } else {
                Seq::empty()
            },
    {
        self.free_map.symbols_at(at)
    }
}

} // verus!
