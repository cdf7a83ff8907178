//! The target code emitter and the engine's handle on it.
//!
//! [`Backend`] is implemented once per instruction set. The engine never
//! calls a backend directly: it goes through a [`Target`], which keeps,
//! as ghost state, the list of operations that were asked of the backend.
//! The contracts of the engine are stated over that list.

use vstd::prelude::*;
use crate::ir::{BranchInfo, Literal, Param, SelfRecursive};
use crate::layout::Layout;
use crate::relocation::Relocation;
use crate::symbol::{JoinPointId, Symbol};

verus! {

/// What a target code emitter can do.
///
/// An implementation asked for something that it does not support has to
/// fail loudly; it must not emit wrong code.
pub trait Backend {
    /// Forgets the state of the procedure before and starts the procedure
    /// called `name`.
    fn reset(&mut self, name: String, is_self_recursive: &SelfRecursive);

    /// Completes the procedure with what can only be known at its end
    /// (stack size, jump targets) and hands out its code and relocations.
    fn finalize(&mut self) -> (Vec<u8>, Vec<Relocation>);

    /// Tells the backend the procedure's arguments and return layout.
    fn load_args(&mut self, args: &[(Layout, Symbol)], ret_layout: &Layout);

    /// Builds the trampoline of an allocator wrapper: its code and the
    /// offset of the jump's operand in it.
    fn build_wrapped_jmp(&mut self) -> (Vec<u8>, u64);

    /// Opens a multi-way branch on `cond_symbol`. The branches follow, each
    /// announced by `build_switch_branch`, then the default branch,
    /// announced by `build_switch_default`, then `build_switch_end`.
    fn build_switch(&mut self, cond_symbol: &Symbol, cond_layout: &Layout, ret_layout: &Layout);

    /// Starts the branch taken when the condition equals `value`; the code
    /// of its body follows.
    fn build_switch_branch(&mut self, value: u64, info: &BranchInfo);

    /// Starts the default branch; the code of its body follows.
    fn build_switch_default(&mut self, info: &BranchInfo);

    /// Closes the innermost open multi-way branch.
    fn build_switch_end(&mut self);

    /// Opens the definition of the join point `id`; the code of its body
    /// follows, then `build_join_remainder`.
    fn build_join(&mut self, id: &JoinPointId, parameters: &[Param], ret_layout: &Layout);

    /// Ends the body of the join point `id`; the code that runs around the
    /// join point and jumps to it follows, then `build_join_end`.
    fn build_join_remainder(&mut self, id: &JoinPointId);

    /// Closes the join point `id`.
    fn build_join_end(&mut self, id: &JoinPointId);

    /// Jumps to the join point `id`, passing `args`.
    fn build_jump(
        &mut self,
        id: &JoinPointId,
        args: &[Symbol],
        arg_layouts: &[Layout],
        ret_layout: &Layout,
    );

    /// Calls the function `fn_name` and stores its result into `dst`.
    fn build_fn_call(
        &mut self,
        dst: &Symbol,
        fn_name: String,
        args: &[Symbol],
        arg_layouts: &[Layout],
        ret_layout: &Layout,
    );

    /// Stores the absolute value of `src` into `dst`.
    fn build_num_abs(&mut self, dst: &Symbol, src: &Symbol, layout: &Layout);

    /// Stores `src1 + src2` into `dst`.
    fn build_num_add(&mut self, dst: &Symbol, src1: &Symbol, src2: &Symbol, layout: &Layout);

    /// Stores `src1 * src2` into `dst`.
    fn build_num_mul(&mut self, dst: &Symbol, src1: &Symbol, src2: &Symbol, layout: &Layout);

    /// Stores the negation of `src` into `dst`.
    fn build_num_neg(&mut self, dst: &Symbol, src: &Symbol, layout: &Layout);

    /// Stores `src1 - src2` into `dst`.
    fn build_num_sub(&mut self, dst: &Symbol, src1: &Symbol, src2: &Symbol, layout: &Layout);

    /// Stores whether `src1` equals `src2` into `dst`.
    fn build_eq(&mut self, dst: &Symbol, src1: &Symbol, src2: &Symbol, arg_layout: &Layout);

    /// Stores whether `src1` differs from `src2` into `dst`.
    fn build_neq(&mut self, dst: &Symbol, src1: &Symbol, src2: &Symbol, arg_layout: &Layout);

    /// Stores whether `src1` is less than `src2` into `dst`.
    fn build_num_lt(&mut self, dst: &Symbol, src1: &Symbol, src2: &Symbol, arg_layout: &Layout);

    /// Converts the number `src` to a fraction and stores it into `dst`.
    fn build_num_to_float(
        &mut self,
        dst: &Symbol,
        src: &Symbol,
        arg_layout: &Layout,
        ret_layout: &Layout,
    );

    /// Sets `sym` to the literal `lit`.
    fn load_literal(&mut self, sym: &Symbol, layout: &Layout, lit: &Literal);

    /// Builds a struct of the values of `fields` in `sym`.
    fn create_struct(&mut self, sym: &Symbol, layout: &Layout, fields: &[Symbol]);

    /// Loads into `sym` the field of `structure` at `index`.
    fn load_struct_at_index(
        &mut self,
        sym: &Symbol,
        structure: &Symbol,
        index: u64,
        field_layouts: &[Layout],
    );

    /// Moves `sym` to where the procedure returns its result and jumps to
    /// the procedure's end.
    fn return_symbol(&mut self, sym: &Symbol, layout: &Layout);

    /// Gives back the registers or stack space that hold `sym`. A symbol
    /// must not be freed twice.
    fn free_symbol(&mut self, sym: &Symbol);
}

/// One request to a backend, with its arguments.
pub enum Op {
    Reset { name: Seq<char>, is_self_recursive: SelfRecursive },
    Finalize,
    LoadArgs { args: Seq<(Layout, Symbol)>, ret_layout: Layout },
    WrappedJmp,
    Switch { cond_symbol: Symbol, cond_layout: Layout, ret_layout: Layout },
    SwitchBranch { value: u64, info: BranchInfo },
    SwitchDefault { info: BranchInfo },
    SwitchEnd,
    Join { id: JoinPointId, parameters: Seq<Param>, ret_layout: Layout },
    JoinRemainder { id: JoinPointId },
    JoinEnd { id: JoinPointId },
    Jump { id: JoinPointId, args: Seq<Symbol>, arg_layouts: Seq<Layout>, ret_layout: Layout },
    FnCall {
        dst: Symbol,
        fn_name: Seq<char>,
        args: Seq<Symbol>,
        arg_layouts: Seq<Layout>,
        ret_layout: Layout,
    },
    NumAbs { dst: Symbol, src: Symbol, layout: Layout },
    NumAdd { dst: Symbol, src1: Symbol, src2: Symbol, layout: Layout },
    NumMul { dst: Symbol, src1: Symbol, src2: Symbol, layout: Layout },
    NumNeg { dst: Symbol, src: Symbol, layout: Layout },
    NumSub { dst: Symbol, src1: Symbol, src2: Symbol, layout: Layout },
    Eq { dst: Symbol, src1: Symbol, src2: Symbol, arg_layout: Layout },
    NotEq { dst: Symbol, src1: Symbol, src2: Symbol, arg_layout: Layout },
    NumLt { dst: Symbol, src1: Symbol, src2: Symbol, arg_layout: Layout },
    NumToFloat { dst: Symbol, src: Symbol, arg_layout: Layout, ret_layout: Layout },
    LoadLiteral { sym: Symbol, layout: Layout, lit: Literal },
    CreateStruct { sym: Symbol, layout: Layout, fields: Seq<Symbol> },
    LoadStructAtIndex { sym: Symbol, structure: Symbol, index: u64, field_layouts: Seq<Layout> },
    Return { sym: Symbol, layout: Layout },
    Free { sym: Symbol },
}

/// Whether the backend was asked to complete the procedure.
pub open spec fn completed(ops: Seq<Op>) -> bool
    decreases ops.len(),
{
    if ops.len() == 0 {
        false
    } else {
        ops.last() == Op::Finalize || completed(ops.drop_last())
    }
}

/// A procedure is completed by the request to finalize it and by no other.
pub proof fn lemma_completed_push(ops: Seq<Op>, op: Op)
    ensures
        completed(ops.push(op)) == (completed(ops) || op == Op::Finalize),
{
    assert(ops.push(op).drop_last() =~= ops);
}

/// A backend together with the list of the requests made to it through
/// this handle since the current procedure was started. Each method makes
/// one call of the backend and records the request.
pub struct Target<B: Backend> {
    backend: B,
    issued: Ghost<Seq<Op>>,
    handed_out: Ghost<HandedOut>,
}

/// What the backend has handed out through a [`Target`].
pub struct HandedOut {
    /// The code and the relocations of the current procedure, once the
    /// backend has completed it.
    pub code: Option<(Vec<u8>, Vec<Relocation>)>,
    /// The trampoline that was built last, with the offset of the jump's
    /// operand in it.
    pub wrapped_jmp: Option<(Vec<u8>, u64)>,
}

impl<B: Backend> Target<B> {
    /// The requests made since the current procedure was started, first to
    /// last.
    pub closed spec fn issued(&self) -> Seq<Op> {
        self.issued@
    }

    /// The backend behind the handle.
    pub closed spec fn inner(&self) -> B {
        self.backend
    }

    /// What the backend has handed out: the code of the current procedure,
    /// if it is completed, and the last trampoline.
    pub closed spec fn handed_out(&self) -> HandedOut {
        self.handed_out@
    }

    /// A handle on `backend`, to which nothing has been asked yet.
    pub fn new(backend: B) -> (t: Self)
        ensures
            t.issued() == Seq::<Op>::empty(),
            t.inner() == backend,
            t.handed_out() == (HandedOut { code: None, wrapped_jmp: None }),
    {
        Target {
            backend,
            issued: Ghost(Seq::empty()),
            handed_out: Ghost(HandedOut { code: None, wrapped_jmp: None }),
        }
    }

    /// The backend.
    pub fn backend(&self) -> (backend: &B)
        ensures
            *backend == self.inner(),
    {
        &self.backend
    }

    /// Gives the backend back.
    pub fn into_backend(self) -> (backend: B)
        ensures
            backend == self.inner(),
    {
        self.backend
    }

    /// Starts a procedure. The list of requests starts again with this
    /// one.
    pub fn reset(&mut self, name: String, is_self_recursive: &SelfRecursive)
        ensures
            final(self).issued() == seq![
                Op::Reset { name: name@, is_self_recursive: *is_self_recursive },
            ],
            !completed(final(self).issued()),
            final(self).handed_out() == (HandedOut { code: None, ..old(self).handed_out() }),
    {
        proof {
            self.handed_out@ = HandedOut { code: None, ..self.handed_out@ };
            lemma_completed_push(
                Seq::empty(),
                Op::Reset { name: name@, is_self_recursive: *is_self_recursive },
            );
            assert(Seq::<Op>::empty().push(
                Op::Reset { name: name@, is_self_recursive: *is_self_recursive },
            ) =~= seq![Op::Reset { name: name@, is_self_recursive: *is_self_recursive }]);
            self.issued@ = seq![Op::Reset { name: name@, is_self_recursive: *is_self_recursive }];
        }
        self.backend.reset(name, is_self_recursive);
    }

    /// Asks the backend to complete the procedure and hands out its code
    /// and relocations, as the backend gave them.
    pub fn finalize(&mut self) -> (code: (Vec<u8>, Vec<Relocation>))
        ensures
            final(self).issued() == old(self).issued().push(Op::Finalize),
            completed(final(self).issued()),
            final(self).handed_out() == (HandedOut {
                code: Some(code),
                ..old(self).handed_out()
            }),
    {
        proof {
            lemma_completed_push(self.issued@, Op::Finalize);
            self.issued@ = self.issued@.push(Op::Finalize);
        }
        let code = self.backend.finalize();
        proof {
            self.handed_out@ = HandedOut { code: Some(code), ..self.handed_out@ };
        }
        code
    }

    /// Tells the backend the arguments and the return layout of the
    /// procedure.
    pub fn load_args(&mut self, args: &[(Layout, Symbol)], ret_layout: &Layout)
        ensures
            final(self).issued() == old(self).issued().push(
                Op::LoadArgs { args: args@, ret_layout: *ret_layout },
            ),
            completed(final(self).issued()) == completed(old(self).issued()),
            final(self).handed_out() == old(self).handed_out(),
    {
        proof {
            lemma_completed_push(self.issued@, Op::LoadArgs { args: args@, ret_layout: *ret_layout },);
            self.issued@ = self.issued@.push(Op::LoadArgs { args: args@, ret_layout: *ret_layout });
        }
        self.backend.load_args(args, ret_layout);
    }

    /// Asks the backend for the trampoline of an allocator wrapper and
    /// hands it out as the backend gave it.
    pub fn build_wrapped_jmp(&mut self) -> (code: (Vec<u8>, u64))
        ensures
            final(self).issued() == old(self).issued().push(Op::WrappedJmp),
            completed(final(self).issued()) == completed(old(self).issued()),
            final(self).handed_out() == (HandedOut {
                wrapped_jmp: Some(code),
                ..old(self).handed_out()
            }),
    {
        proof {
            lemma_completed_push(self.issued@, Op::WrappedJmp);
            self.issued@ = self.issued@.push(Op::WrappedJmp);
        }
        let code = self.backend.build_wrapped_jmp();
        proof {
            self.handed_out@ = HandedOut { wrapped_jmp: Some(code), ..self.handed_out@ };
        }
        code
    }

    /// Asks the backend to open a multi-way branch on `cond_symbol`.
    pub fn build_switch(&mut self, cond_symbol: &Symbol, cond_layout: &Layout, ret_layout: &Layout)
        ensures
            final(self).issued() == old(self).issued().push(
                Op::Switch {
                    cond_symbol: *cond_symbol,
                    cond_layout: *cond_layout,
                    ret_layout: *ret_layout,
                },
            ),
            completed(final(self).issued()) == completed(old(self).issued()),
            final(self).handed_out() == old(self).handed_out(),
    {
        proof {
            lemma_completed_push(self.issued@, Op::Switch { cond_symbol: *cond_symbol, cond_layout: *cond_layout, ret_layout: *ret_layout, },);
            self.issued@ = self.issued@.push(
                Op::Switch {
                    cond_symbol: *cond_symbol,
                    cond_layout: *cond_layout,
                    ret_layout: *ret_layout,
                },
            );
        }
        self.backend.build_switch(cond_symbol, cond_layout, ret_layout);
    }

    /// Asks the backend to start the branch taken when the condition equals
    /// `value`.
    pub fn build_switch_branch(&mut self, value: u64, info: &BranchInfo)
        ensures
            final(self).issued() == old(self).issued().push(Op::SwitchBranch { value, info: *info }),
            completed(final(self).issued()) == completed(old(self).issued()),
            final(self).handed_out() == old(self).handed_out(),
    {
        proof {
            lemma_completed_push(self.issued@, Op::SwitchBranch { value, info: *info });
            self.issued@ = self.issued@.push(Op::SwitchBranch { value, info: *info });
        }
        self.backend.build_switch_branch(value, info);
    }

    /// Asks the backend to start the default branch.
    pub fn build_switch_default(&mut self, info: &BranchInfo)
        ensures
            final(self).issued() == old(self).issued().push(Op::SwitchDefault { info: *info }),
            completed(final(self).issued()) == completed(old(self).issued()),
            final(self).handed_out() == old(self).handed_out(),
    {
        proof {
            lemma_completed_push(self.issued@, Op::SwitchDefault { info: *info });
            self.issued@ = self.issued@.push(Op::SwitchDefault { info: *info });
        }
        self.backend.build_switch_default(info);
    }

    /// Asks the backend to close the innermost open multi-way branch.
    pub fn build_switch_end(&mut self)
        ensures
            final(self).issued() == old(self).issued().push(Op::SwitchEnd),
            completed(final(self).issued()) == completed(old(self).issued()),
            final(self).handed_out() == old(self).handed_out(),
    {
        proof {
            lemma_completed_push(self.issued@, Op::SwitchEnd);
            self.issued@ = self.issued@.push(Op::SwitchEnd);
        }
        self.backend.build_switch_end();
    }

    /// Asks the backend to open the definition of the join point `id`.
    pub fn build_join(&mut self, id: &JoinPointId, parameters: &[Param], ret_layout: &Layout)
        ensures
            final(self).issued() == old(self).issued().push(
                Op::Join { id: *id, parameters: parameters@, ret_layout: *ret_layout },
            ),
            completed(final(self).issued()) == completed(old(self).issued()),
            final(self).handed_out() == old(self).handed_out(),
    {
        proof {
            lemma_completed_push(self.issued@, Op::Join { id: *id, parameters: parameters@, ret_layout: *ret_layout },);
            self.issued@ = self.issued@.push(
                Op::Join { id: *id, parameters: parameters@, ret_layout: *ret_layout },
            );
        }
        self.backend.build_join(id, parameters, ret_layout);
    }

    /// Asks the backend to end the body of the join point `id`.
    pub fn build_join_remainder(&mut self, id: &JoinPointId)
        ensures
            final(self).issued() == old(self).issued().push(Op::JoinRemainder { id: *id }),
            completed(final(self).issued()) == completed(old(self).issued()),
            final(self).handed_out() == old(self).handed_out(),
    {
        proof {
            lemma_completed_push(self.issued@, Op::JoinRemainder { id: *id });
            self.issued@ = self.issued@.push(Op::JoinRemainder { id: *id });
        }
        self.backend.build_join_remainder(id);
    }

    /// Asks the backend to close the join point `id`.
    pub fn build_join_end(&mut self, id: &JoinPointId)
        ensures
            final(self).issued() == old(self).issued().push(Op::JoinEnd { id: *id }),
            completed(final(self).issued()) == completed(old(self).issued()),
            final(self).handed_out() == old(self).handed_out(),
    {
        proof {
            lemma_completed_push(self.issued@, Op::JoinEnd { id: *id });
            self.issued@ = self.issued@.push(Op::JoinEnd { id: *id });
        }
        self.backend.build_join_end(id);
    }

    /// Asks the backend to jump to the join point `id`, passing `args`.
    pub fn build_jump(
        &mut self,
        id: &JoinPointId,
        args: &[Symbol],
        arg_layouts: &[Layout],
        ret_layout: &Layout,
    )
        ensures
            final(self).issued() == old(self).issued().push(
                Op::Jump {
                    id: *id,
                    args: args@,
                    arg_layouts: arg_layouts@,
                    ret_layout: *ret_layout,
                },
            ),
            completed(final(self).issued()) == completed(old(self).issued()),
            final(self).handed_out() == old(self).handed_out(),
    {
        proof {
            lemma_completed_push(self.issued@, Op::Jump { id: *id, args: args@, arg_layouts: arg_layouts@, ret_layout: *ret_layout, },);
            self.issued@ = self.issued@.push(
                Op::Jump {
                    id: *id,
                    args: args@,
                    arg_layouts: arg_layouts@,
                    ret_layout: *ret_layout,
                },
            );
        }
        self.backend.build_jump(id, args, arg_layouts, ret_layout);
    }

    /// Asks the backend to call the function `fn_name` and to store its
    /// result into `dst`.
    pub fn build_fn_call(
        &mut self,
        dst: &Symbol,
        fn_name: String,
        args: &[Symbol],
        arg_layouts: &[Layout],
        ret_layout: &Layout,
    )
        ensures
            final(self).issued() == old(self).issued().push(
                Op::FnCall {
                    dst: *dst,
                    fn_name: fn_name@,
                    args: args@,
                    arg_layouts: arg_layouts@,
                    ret_layout: *ret_layout,
                },
            ),
            completed(final(self).issued()) == completed(old(self).issued()),
            final(self).handed_out() == old(self).handed_out(),
    {
        proof {
            lemma_completed_push(self.issued@, Op::FnCall { dst: *dst, fn_name: fn_name@, args: args@, arg_layouts: arg_layouts@, ret_layout: *ret_layout, },);
            self.issued@ = self.issued@.push(
                Op::FnCall {
                    dst: *dst,
                    fn_name: fn_name@,
                    args: args@,
                    arg_layouts: arg_layouts@,
                    ret_layout: *ret_layout,
                },
            );
        }
        self.backend.build_fn_call(dst, fn_name, args, arg_layouts, ret_layout);
    }

    /// Asks the backend to store the absolute value of `src` into `dst`.
    pub fn build_num_abs(&mut self, dst: &Symbol, src: &Symbol, layout: &Layout)
        ensures
            final(self).issued() == old(self).issued().push(
                Op::NumAbs { dst: *dst, src: *src, layout: *layout },
            ),
            completed(final(self).issued()) == completed(old(self).issued()),
            final(self).handed_out() == old(self).handed_out(),
    {
        proof {
            lemma_completed_push(self.issued@, Op::NumAbs { dst: *dst, src: *src, layout: *layout },);
            self.issued@ = self.issued@.push(Op::NumAbs { dst: *dst, src: *src, layout: *layout });
        }
        self.backend.build_num_abs(dst, src, layout);
    }

    /// Asks the backend to store `src1 + src2` into `dst`.
    pub fn build_num_add(&mut self, dst: &Symbol, src1: &Symbol, src2: &Symbol, layout: &Layout)
        ensures
            final(self).issued() == old(self).issued().push(
                Op::NumAdd { dst: *dst, src1: *src1, src2: *src2, layout: *layout },
            ),
            completed(final(self).issued()) == completed(old(self).issued()),
            final(self).handed_out() == old(self).handed_out(),
    {
        proof {
            lemma_completed_push(self.issued@, Op::NumAdd { dst: *dst, src1: *src1, src2: *src2, layout: *layout },);
            self.issued@ = self.issued@.push(
                Op::NumAdd { dst: *dst, src1: *src1, src2: *src2, layout: *layout },
            );
        }
        self.backend.build_num_add(dst, src1, src2, layout);
    }

    /// Asks the backend to store `src1 * src2` into `dst`.
    pub fn build_num_mul(&mut self, dst: &Symbol, src1: &Symbol, src2: &Symbol, layout: &Layout)
        ensures
            final(self).issued() == old(self).issued().push(
                Op::NumMul { dst: *dst, src1: *src1, src2: *src2, layout: *layout },
            ),
            completed(final(self).issued()) == completed(old(self).issued()),
            final(self).handed_out() == old(self).handed_out(),
    {
        proof {
            lemma_completed_push(self.issued@, Op::NumMul { dst: *dst, src1: *src1, src2: *src2, layout: *layout },);
            self.issued@ = self.issued@.push(
                Op::NumMul { dst: *dst, src1: *src1, src2: *src2, layout: *layout },
            );
        }
        self.backend.build_num_mul(dst, src1, src2, layout);
    }

    /// Asks the backend to store the negation of `src` into `dst`.
    pub fn build_num_neg(&mut self, dst: &Symbol, src: &Symbol, layout: &Layout)
        ensures
            final(self).issued() == old(self).issued().push(
                Op::NumNeg { dst: *dst, src: *src, layout: *layout },
            ),
            completed(final(self).issued()) == completed(old(self).issued()),
            final(self).handed_out() == old(self).handed_out(),
    {
        proof {
            lemma_completed_push(self.issued@, Op::NumNeg { dst: *dst, src: *src, layout: *layout },);
            self.issued@ = self.issued@.push(Op::NumNeg { dst: *dst, src: *src, layout: *layout });
        }
        self.backend.build_num_neg(dst, src, layout);
    }

    /// Asks the backend to store `src1 - src2` into `dst`.
    pub fn build_num_sub(&mut self, dst: &Symbol, src1: &Symbol, src2: &Symbol, layout: &Layout)
        ensures
            final(self).issued() == old(self).issued().push(
                Op::NumSub { dst: *dst, src1: *src1, src2: *src2, layout: *layout },
            ),
            completed(final(self).issued()) == completed(old(self).issued()),
            final(self).handed_out() == old(self).handed_out(),
    {
        proof {
            lemma_completed_push(self.issued@, Op::NumSub { dst: *dst, src1: *src1, src2: *src2, layout: *layout },);
            self.issued@ = self.issued@.push(
                Op::NumSub { dst: *dst, src1: *src1, src2: *src2, layout: *layout },
            );
        }
        self.backend.build_num_sub(dst, src1, src2, layout);
    }

    /// Asks the backend to store whether `src1` equals `src2` into `dst`.
    pub fn build_eq(&mut self, dst: &Symbol, src1: &Symbol, src2: &Symbol, arg_layout: &Layout)
        ensures
            final(self).issued() == old(self).issued().push(
                Op::Eq { dst: *dst, src1: *src1, src2: *src2, arg_layout: *arg_layout },
            ),
            completed(final(self).issued()) == completed(old(self).issued()),
            final(self).handed_out() == old(self).handed_out(),
    {
        proof {
            lemma_completed_push(self.issued@, Op::Eq { dst: *dst, src1: *src1, src2: *src2, arg_layout: *arg_layout },);
            self.issued@ = self.issued@.push(
                Op::Eq { dst: *dst, src1: *src1, src2: *src2, arg_layout: *arg_layout },
            );
        }
        self.backend.build_eq(dst, src1, src2, arg_layout);
    }

    /// Asks the backend to store whether `src1` differs from `src2` into
    /// `dst`.
    pub fn build_neq(&mut self, dst: &Symbol, src1: &Symbol, src2: &Symbol, arg_layout: &Layout)
        ensures
            final(self).issued() == old(self).issued().push(
                Op::NotEq { dst: *dst, src1: *src1, src2: *src2, arg_layout: *arg_layout },
            ),
            completed(final(self).issued()) == completed(old(self).issued()),
            final(self).handed_out() == old(self).handed_out(),
    {
        proof {
            lemma_completed_push(self.issued@, Op::NotEq { dst: *dst, src1: *src1, src2: *src2, arg_layout: *arg_layout },);
            self.issued@ = self.issued@.push(
                Op::NotEq { dst: *dst, src1: *src1, src2: *src2, arg_layout: *arg_layout },
            );
        }
        self.backend.build_neq(dst, src1, src2, arg_layout);
    }

    /// Asks the backend to store whether `src1` is less than `src2` into
    /// `dst`.
    pub fn build_num_lt(&mut self, dst: &Symbol, src1: &Symbol, src2: &Symbol, arg_layout: &Layout)
        ensures
            final(self).issued() == old(self).issued().push(
                Op::NumLt { dst: *dst, src1: *src1, src2: *src2, arg_layout: *arg_layout },
            ),
            completed(final(self).issued()) == completed(old(self).issued()),
            final(self).handed_out() == old(self).handed_out(),
    {
        proof {
            lemma_completed_push(self.issued@, Op::NumLt { dst: *dst, src1: *src1, src2: *src2, arg_layout: *arg_layout },);
            self.issued@ = self.issued@.push(
                Op::NumLt { dst: *dst, src1: *src1, src2: *src2, arg_layout: *arg_layout },
            );
        }
        self.backend.build_num_lt(dst, src1, src2, arg_layout);
    }

    /// Asks the backend to convert the number `src` to a fraction in `dst`.
    pub fn build_num_to_float(
        &mut self,
        dst: &Symbol,
        src: &Symbol,
        arg_layout: &Layout,
        ret_layout: &Layout,
    )
        ensures
            final(self).issued() == old(self).issued().push(
                Op::NumToFloat {
                    dst: *dst,
                    src: *src,
                    arg_layout: *arg_layout,
                    ret_layout: *ret_layout,
                },
            ),
            completed(final(self).issued()) == completed(old(self).issued()),
            final(self).handed_out() == old(self).handed_out(),
    {
        proof {
            lemma_completed_push(self.issued@, Op::NumToFloat { dst: *dst, src: *src, arg_layout: *arg_layout, ret_layout: *ret_layout, },);
            self.issued@ = self.issued@.push(
                Op::NumToFloat {
                    dst: *dst,
                    src: *src,
                    arg_layout: *arg_layout,
                    ret_layout: *ret_layout,
                },
            );
        }
        self.backend.build_num_to_float(dst, src, arg_layout, ret_layout);
    }

    /// Asks the backend to set `sym` to the literal `lit`.
    pub fn load_literal(&mut self, sym: &Symbol, layout: &Layout, lit: &Literal)
        ensures
            final(self).issued() == old(self).issued().push(
                Op::LoadLiteral { sym: *sym, layout: *layout, lit: *lit },
            ),
            completed(final(self).issued()) == completed(old(self).issued()),
            final(self).handed_out() == old(self).handed_out(),
    {
        proof {
            lemma_completed_push(self.issued@, Op::LoadLiteral { sym: *sym, layout: *layout, lit: *lit },);
            self.issued@ = self.issued@.push(
                Op::LoadLiteral { sym: *sym, layout: *layout, lit: *lit },
            );
        }
        self.backend.load_literal(sym, layout, lit);
    }

    /// Asks the backend to build a struct of the values of `fields` in
    /// `sym`.
    pub fn create_struct(&mut self, sym: &Symbol, layout: &Layout, fields: &[Symbol])
        ensures
            final(self).issued() == old(self).issued().push(
                Op::CreateStruct { sym: *sym, layout: *layout, fields: fields@ },
            ),
            completed(final(self).issued()) == completed(old(self).issued()),
            final(self).handed_out() == old(self).handed_out(),
    {
        proof {
            lemma_completed_push(self.issued@, Op::CreateStruct { sym: *sym, layout: *layout, fields: fields@ },);
            self.issued@ = self.issued@.push(
                Op::CreateStruct { sym: *sym, layout: *layout, fields: fields@ },
            );
        }
        self.backend.create_struct(sym, layout, fields);
    }

    /// Asks the backend to load the field of `structure` at `index` into
    /// `sym`.
    pub fn load_struct_at_index(
        &mut self,
        sym: &Symbol,
        structure: &Symbol,
        index: u64,
        field_layouts: &[Layout],
    )
        ensures
            final(self).issued() == old(self).issued().push(
                Op::LoadStructAtIndex {
                    sym: *sym,
                    structure: *structure,
                    index,
                    field_layouts: field_layouts@,
                },
            ),
            completed(final(self).issued()) == completed(old(self).issued()),
            final(self).handed_out() == old(self).handed_out(),
    {
        proof {
            lemma_completed_push(self.issued@, Op::LoadStructAtIndex { sym: *sym, structure: *structure, index, field_layouts: field_layouts@, },);
            self.issued@ = self.issued@.push(
                Op::LoadStructAtIndex {
                    sym: *sym,
                    structure: *structure,
                    index,
                    field_layouts: field_layouts@,
                },
            );
        }
        self.backend.load_struct_at_index(sym, structure, index, field_layouts);
    }

    /// Asks the backend to return `sym` from the procedure.
    pub fn return_symbol(&mut self, sym: &Symbol, layout: &Layout)
        ensures
            final(self).issued() == old(self).issued().push(
                Op::Return { sym: *sym, layout: *layout },
            ),
            completed(final(self).issued()) == completed(old(self).issued()),
            final(self).handed_out() == old(self).handed_out(),
    {
        proof {
            lemma_completed_push(self.issued@, Op::Return { sym: *sym, layout: *layout },);
            self.issued@ = self.issued@.push(Op::Return { sym: *sym, layout: *layout });
        }
        self.backend.return_symbol(sym, layout);
    }

    /// Asks the backend to give back the storage of `sym`.
    pub fn free_symbol(&mut self, sym: &Symbol)
        ensures
            final(self).issued() == old(self).issued().push(Op::Free { sym: *sym }),
            completed(final(self).issued()) == completed(old(self).issued()),
            final(self).handed_out() == old(self).handed_out(),
    {
        proof {
            lemma_completed_push(self.issued@, Op::Free { sym: *sym });
            self.issued@ = self.issued@.push(Op::Free { sym: *sym });
        }
        self.backend.free_symbol(sym);
    }
}

} // verus!
