use gen_dev::backend::Backend;
use gen_dev::engine::{fallback_fn_name, Engine};
use gen_dev::env::{Env, Interns};
use gen_dev::error::{InternalError, LowerError, Subject, Unsupported};
use gen_dev::ir::{
    Branch, BranchInfo, Call, CallKind, CallType, Expr, ExprKind, ListLiteralElement, Literal,
    ModifyRc, Param, Proc, SelfRecursive, Stmt, StmtKind, TagName,
};
use gen_dev::layout::{Builtin, FloatWidth, IntWidth, Layout, ShapeId};
use gen_dev::low_level::{LowLevel, BOOL_EQ, NUM_ADD, NUM_IS_ZERO};
use gen_dev::relocation::Relocation;
use gen_dev::symbol::{JoinPointId, Symbol};
use gen_dev::symbol_map::SymbolSet;

#[derive(Debug, Clone, PartialEq)]
enum Event {
    Reset(String, SelfRecursive),
    Finalize,
    LoadArgs(Vec<(Layout, Symbol)>, Layout),
    WrappedJmp,
    Switch(Symbol, Layout, Layout),
    SwitchBranch(u64, BranchInfo),
    SwitchDefault(BranchInfo),
    SwitchEnd,
    Join(JoinPointId, Vec<Param>, Layout),
    JoinRemainder(JoinPointId),
    JoinEnd(JoinPointId),
    Jump(JoinPointId, Vec<Symbol>, Vec<Layout>, Layout),
    FnCall(Symbol, String, Vec<Symbol>, Vec<Layout>, Layout),
    NumAbs(Symbol, Symbol, Layout),
    NumAdd(Symbol, Symbol, Symbol, Layout),
    NumMul(Symbol, Symbol, Symbol, Layout),
    NumNeg(Symbol, Symbol, Layout),
    NumSub(Symbol, Symbol, Symbol, Layout),
    Eq(Symbol, Symbol, Symbol, Layout),
    NotEq(Symbol, Symbol, Symbol, Layout),
    NumLt(Symbol, Symbol, Symbol, Layout),
    NumToFloat(Symbol, Symbol, Layout, Layout),
    LoadLiteral(Symbol, Layout, Literal),
    CreateStruct(Symbol, Layout, Vec<Symbol>),
    LoadStructAtIndex(Symbol, Symbol, u64, Vec<Layout>),
    Return(Symbol, Layout),
    Free(Symbol),
}

/// A backend that writes down what it is asked for. Its code is the number
/// of requests of the procedure, its relocations one jump per return.
struct Recorder {
    events: Vec<Event>,
}

impl Recorder {
    fn new() -> Recorder {
        Recorder { events: Vec::new() }
    }
}

impl Backend for Recorder {
    fn reset(&mut self, name: String, is_self_recursive: &SelfRecursive) {
        self.events.clear();
        self.events.push(Event::Reset(name, *is_self_recursive));
    }

    fn finalize(&mut self) -> (Vec<u8>, Vec<Relocation>) {
        self.events.push(Event::Finalize);
        let mut relocs = Vec::new();
        for (i, e) in self.events.iter().enumerate() {
            if let Event::Return(..) = e {
                relocs.push(Relocation::JmpToReturn { inst_loc: i as u64, inst_size: 1, offset: 0 });
            }
        }
        (vec![self.events.len() as u8], relocs)
    }

    fn load_args(&mut self, args: &[(Layout, Symbol)], ret_layout: &Layout) {
        self.events.push(Event::LoadArgs(args.to_vec(), *ret_layout));
    }

    fn build_wrapped_jmp(&mut self) -> (Vec<u8>, u64) {
        self.events.push(Event::WrappedJmp);
        (vec![0xe9, 0, 0, 0, 0], 1)
    }

    fn build_switch(&mut self, cond_symbol: &Symbol, cond_layout: &Layout, ret_layout: &Layout) {
        self.events.push(Event::Switch(*cond_symbol, *cond_layout, *ret_layout));
    }

    fn build_switch_branch(&mut self, value: u64, info: &BranchInfo) {
        self.events.push(Event::SwitchBranch(value, *info));
    }

    fn build_switch_default(&mut self, info: &BranchInfo) {
        self.events.push(Event::SwitchDefault(*info));
    }

    fn build_switch_end(&mut self) {
        self.events.push(Event::SwitchEnd);
    }

    fn build_join(&mut self, id: &JoinPointId, parameters: &[Param], ret_layout: &Layout) {
        self.events.push(Event::Join(*id, parameters.to_vec(), *ret_layout));
    }

    fn build_join_remainder(&mut self, id: &JoinPointId) {
        self.events.push(Event::JoinRemainder(*id));
    }

    fn build_join_end(&mut self, id: &JoinPointId) {
        self.events.push(Event::JoinEnd(*id));
    }

    fn build_jump(
        &mut self,
        id: &JoinPointId,
        args: &[Symbol],
        arg_layouts: &[Layout],
        ret_layout: &Layout,
    ) {
        self.events.push(Event::Jump(*id, args.to_vec(), arg_layouts.to_vec(), *ret_layout));
    }

    fn build_fn_call(
        &mut self,
        dst: &Symbol,
        fn_name: String,
        args: &[Symbol],
        arg_layouts: &[Layout],
        ret_layout: &Layout,
    ) {
        self.events.push(Event::FnCall(
            *dst,
            fn_name,
            args.to_vec(),
            arg_layouts.to_vec(),
            *ret_layout,
        ));
    }

    fn build_num_abs(&mut self, dst: &Symbol, src: &Symbol, layout: &Layout) {
        self.events.push(Event::NumAbs(*dst, *src, *layout));
    }

    fn build_num_add(&mut self, dst: &Symbol, src1: &Symbol, src2: &Symbol, layout: &Layout) {
        self.events.push(Event::NumAdd(*dst, *src1, *src2, *layout));
    }

    fn build_num_mul(&mut self, dst: &Symbol, src1: &Symbol, src2: &Symbol, layout: &Layout) {
        self.events.push(Event::NumMul(*dst, *src1, *src2, *layout));
    }

    fn build_num_neg(&mut self, dst: &Symbol, src: &Symbol, layout: &Layout) {
        self.events.push(Event::NumNeg(*dst, *src, *layout));
    }

    fn build_num_sub(&mut self, dst: &Symbol, src1: &Symbol, src2: &Symbol, layout: &Layout) {
        self.events.push(Event::NumSub(*dst, *src1, *src2, *layout));
    }

    fn build_eq(&mut self, dst: &Symbol, src1: &Symbol, src2: &Symbol, arg_layout: &Layout) {
        self.events.push(Event::Eq(*dst, *src1, *src2, *arg_layout));
    }

    fn build_neq(&mut self, dst: &Symbol, src1: &Symbol, src2: &Symbol, arg_layout: &Layout) {
        self.events.push(Event::NotEq(*dst, *src1, *src2, *arg_layout));
    }

    fn build_num_lt(&mut self, dst: &Symbol, src1: &Symbol, src2: &Symbol, arg_layout: &Layout) {
        self.events.push(Event::NumLt(*dst, *src1, *src2, *arg_layout));
    }

    fn build_num_to_float(
        &mut self,
        dst: &Symbol,
        src: &Symbol,
        arg_layout: &Layout,
        ret_layout: &Layout,
    ) {
        self.events.push(Event::NumToFloat(*dst, *src, *arg_layout, *ret_layout));
    }

    fn load_literal(&mut self, sym: &Symbol, layout: &Layout, lit: &Literal) {
        self.events.push(Event::LoadLiteral(*sym, *layout, lit.clone()));
    }

    fn create_struct(&mut self, sym: &Symbol, layout: &Layout, fields: &[Symbol]) {
        self.events.push(Event::CreateStruct(*sym, *layout, fields.to_vec()));
    }

    fn load_struct_at_index(
        &mut self,
        sym: &Symbol,
        structure: &Symbol,
        index: u64,
        field_layouts: &[Layout],
    ) {
        self.events.push(Event::LoadStructAtIndex(
            *sym,
            *structure,
            index,
            field_layouts.to_vec(),
        ));
    }

    fn return_symbol(&mut self, sym: &Symbol, layout: &Layout) {
        self.events.push(Event::Return(*sym, *layout));
    }

    fn free_symbol(&mut self, sym: &Symbol) {
        self.events.push(Event::Free(*sym));
    }
}

const I64: Layout = Layout::Builtin(Builtin::Int(IntWidth::I64));
const F64: Layout = Layout::Builtin(Builtin::Float(FloatWidth::F64));
const BOOL: Layout = Layout::Builtin(Builtin::Bool);
const STR: Layout = Layout::Builtin(Builtin::Str);
const PAIR: Layout = Layout::Struct(ShapeId(7));

const F: Symbol = Symbol(100);
const X: Symbol = Symbol(1);
const Y: Symbol = Symbol(2);
const Z: Symbol = Symbol(3);
const ONE: Symbol = Symbol(4);
const W: Symbol = Symbol(5);
const C: Symbol = Symbol(6);
const A: Symbol = Symbol(7);
const B: Symbol = Symbol(8);
const S: Symbol = Symbol(9);
const F1: Symbol = Symbol(10);
const F2: Symbol = Symbol(11);
const U: Symbol = Symbol(12);
const V: Symbol = Symbol(13);
const G: Symbol = Symbol(101);
const HELPER: Symbol = Symbol(102);
const LIB_FN: Symbol = Symbol(103);
const J: JoinPointId = JoinPointId(Symbol(50));

fn interns() -> Interns {
    let mut interns = Interns::new();
    interns.insert(F, "#UserApp", "f");
    interns.insert(G, "#UserApp", "g");
    interns.insert(HELPER, "#UserApp", "helper");
    interns.insert(LIB_FN, "Num", "hypot");
    interns.insert(Symbol(NUM_IS_ZERO), "Num", "isZero");
    interns.insert(Symbol(NUM_ADD), "Num", "add");
    interns
}

fn exposed() -> SymbolSet {
    let mut set = SymbolSet::new();
    set.insert(F);
    set
}

fn env(arena: &bumpalo::Bump, lazy_literals: bool) -> Env<'_> {
    Env {
        arena,
        interns: interns(),
        exposed_to_host: exposed(),
        lazy_literals,
        generate_allocators: false,
    }
}

fn low_level(op: LowLevel, args: Vec<Symbol>) -> Expr {
    Expr::Call(Call { call_type: CallType::LowLevel { op }, arguments: args })
}

fn by_name(name: Symbol, args: Vec<Symbol>, arg_layouts: Vec<Layout>, ret_layout: Layout) -> Expr {
    Expr::Call(Call { call_type: CallType::ByName { name, ret_layout, arg_layouts }, arguments: args })
}

fn let_(sym: Symbol, expr: Expr, layout: Layout, following: Stmt) -> Stmt {
    Stmt::Let(sym, expr, layout, Box::new(following))
}

fn proc(name: Symbol, args: Vec<(Layout, Symbol)>, ret_layout: Layout, body: Stmt) -> Proc {
    Proc { name, args, body, ret_layout, is_self_recursive: SelfRecursive::NotSelfRecursive }
}

/// `f(x) { let y = x + x; let one = 1; let z = y - one; return z }`
fn straight_line() -> Proc {
    proc(
        F,
        vec![(I64, X)],
        I64,
        let_(
            Y,
            low_level(LowLevel::NumAdd, vec![X, X]),
            I64,
            let_(
                ONE,
                Expr::Literal(Literal::Int(1)),
                I64,
                let_(Z, low_level(LowLevel::NumSub, vec![Y, ONE]), I64, Stmt::Ret(Z)),
            ),
        ),
    )
}

/// `g(c, w) { switch c { 1 => { let a = w + w; return a } _ => { let b = w - w; return b } } }`
fn branching() -> Proc {
    proc(
        G,
        vec![(BOOL, C), (I64, W)],
        I64,
        Stmt::Switch {
            cond_symbol: C,
            cond_layout: BOOL,
            branches: vec![Branch {
                value: 1,
                info: BranchInfo::Unknown,
                body: let_(A, low_level(LowLevel::NumAdd, vec![W, W]), I64, Stmt::Ret(A)),
            }],
            default_info: BranchInfo::Unknown,
            default_branch: Box::new(let_(
                B,
                low_level(LowLevel::NumSub, vec![W, W]),
                I64,
                Stmt::Ret(B),
            )),
            ret_layout: I64,
        },
    )
}

/// A struct of two fields, both extracted, the second used last.
fn two_fields() -> Proc {
    let fields = vec![I64, I64];
    proc(
        F,
        vec![(I64, A), (I64, B)],
        I64,
        let_(
            S,
            Expr::Struct(vec![A, B]),
            PAIR,
            let_(
                F1,
                Expr::StructAtIndex { index: 0, field_layouts: fields.clone(), structure: S },
                I64,
                let_(
                    F2,
                    Expr::StructAtIndex { index: 1, field_layouts: fields.clone(), structure: S },
                    I64,
                    let_(
                        U,
                        low_level(LowLevel::NumAdd, vec![F1, F1]),
                        I64,
                        let_(V, low_level(LowLevel::NumAdd, vec![F2, U]), I64, Stmt::Ret(V)),
                    ),
                ),
            ),
        ),
    )
}

fn lower(p: &Proc, lazy_literals: bool) -> (Result<(Vec<u8>, Vec<Relocation>), LowerError>, Vec<Event>) {
    let arena = bumpalo::Bump::new();
    let env = env(&arena, lazy_literals);
    let mut engine = Engine::new(&env, Recorder::new());
    let result = engine.build_proc(p);
    (result, engine.into_backend().events)
}

fn position(events: &[Event], wanted: &Event) -> usize {
    match events.iter().position(|e| e == wanted) {
        Some(i) => i,
        None => panic!("no event {:?} in {:?}", wanted, events),
    }
}

#[test]
fn straight_line_arithmetic_is_lowered_in_order() {
    let p = straight_line();
    let (result, events) = lower(&p, false);
    assert_eq!(
        events,
        vec![
            Event::Reset("#UserApp_f_1".to_string(), SelfRecursive::NotSelfRecursive),
            Event::LoadArgs(vec![(I64, X)], I64),
            Event::NumAdd(Y, X, X, I64),
            Event::Free(X),
            Event::LoadLiteral(ONE, I64, Literal::Int(1)),
            Event::NumSub(Z, Y, ONE, I64),
            Event::Free(Y),
            Event::Free(ONE),
            Event::Return(Z, I64),
            Event::Free(Z),
            Event::Finalize,
        ]
    );
    let (code, relocs) = result.unwrap();
    assert_eq!(code, vec![11]);
    assert_eq!(relocs, vec![Relocation::JmpToReturn { inst_loc: 8, inst_size: 1, offset: 0 }]);
}

#[test]
fn straight_line_arithmetic_with_lazy_literal() {
    let p = straight_line();
    let (result, events) = lower(&p, true);
    assert!(result.is_ok());
    // The literal is loaded when the subtraction needs it, not before.
    let load = position(&events, &Event::LoadLiteral(ONE, I64, Literal::Int(1)));
    let sub = position(&events, &Event::NumSub(Z, Y, ONE, I64));
    let free_x = position(&events, &Event::Free(X));
    assert!(free_x < load);
    assert_eq!(load + 1, sub);
    assert_eq!(events.len(), 11);
}

#[test]
fn straight_line_last_seen_and_free_map() {
    let p = straight_line();
    let arena = bumpalo::Bump::new();
    let env = env(&arena, false);
    let mut engine = Engine::new(&env, Recorder::new());
    engine.scan_ast(&p.body);
    assert_eq!(engine.last_seen(X), Some(0));
    assert_eq!(engine.last_seen(Y), Some(2));
    assert_eq!(engine.last_seen(ONE), Some(2));
    assert_eq!(engine.last_seen(Z), Some(3));
    assert_eq!(engine.last_seen(W), None);
    engine.create_free_map();
    assert_eq!(engine.due_after(0), vec![X]);
    assert_eq!(engine.due_after(1), vec![]);
    assert_eq!(engine.due_after(2), vec![Y, ONE]);
    assert_eq!(engine.due_after(3), vec![Z]);
    assert_eq!(engine.due_after(4), vec![]);
    // Scanning alone asks nothing of the backend.
    assert!(engine.backend().events.is_empty());
}

#[test]
fn release_lists_are_consumed_once() {
    let p = straight_line();
    let arena = bumpalo::Bump::new();
    let env = env(&arena, false);
    let mut engine = Engine::new(&env, Recorder::new());
    engine.scan_ast(&p.body);
    engine.create_free_map();
    engine.free_symbols(2);
    assert_eq!(engine.backend().events, vec![Event::Free(Y), Event::Free(ONE)]);
    assert_eq!(engine.due_after(2), vec![]);
    engine.free_symbols(2);
    assert_eq!(engine.backend().events.len(), 2);
    engine.free_symbols(17);
    assert_eq!(engine.backend().events.len(), 2);
    assert_eq!(engine.due_after(0), vec![X]);
}

#[test]
fn switch_keeps_shared_symbol_alive_through_both_branches() {
    let p = branching();
    let arena = bumpalo::Bump::new();
    let env = env(&arena, false);
    let mut engine = Engine::new(&env, Recorder::new());
    engine.scan_ast(&p.body);
    // Statements: 0 switch, 1 let a, 2 ret a, 3 let b, 4 ret b.
    assert_eq!(engine.last_seen(C), Some(0));
    assert_eq!(engine.last_seen(A), Some(2));
    assert_eq!(engine.last_seen(W), Some(3));
    assert_eq!(engine.last_seen(B), Some(4));

    let (result, events) = lower(&p, false);
    assert!(result.is_ok());
    assert_eq!(
        events,
        vec![
            Event::Reset("#UserApp_g_1".to_string(), SelfRecursive::NotSelfRecursive),
            Event::LoadArgs(vec![(BOOL, C), (I64, W)], I64),
            Event::Switch(C, BOOL, I64),
            Event::SwitchBranch(1, BranchInfo::Unknown),
            Event::NumAdd(A, W, W, I64),
            Event::Return(A, I64),
            Event::Free(A),
            Event::SwitchDefault(BranchInfo::Unknown),
            Event::NumSub(B, W, W, I64),
            Event::Free(W),
            Event::Return(B, I64),
            Event::Free(B),
            Event::SwitchEnd,
            Event::Free(C),
            Event::Finalize,
        ]
    );
    let frees_of_w = events.iter().filter(|e| **e == Event::Free(W)).count();
    assert_eq!(frees_of_w, 1);
    assert!(position(&events, &Event::Free(W)) > position(&events, &Event::NumAdd(A, W, W, I64)));
    assert!(position(&events, &Event::Free(W)) > position(&events, &Event::NumSub(B, W, W, I64)));
}

#[test]
fn structure_outlives_the_later_field_use() {
    let p = two_fields();
    let arena = bumpalo::Bump::new();
    let env = env(&arena, false);
    let mut engine = Engine::new(&env, Recorder::new());
    engine.scan_ast(&p.body);
    // Statements: 0 let s, 1 let f1, 2 let f2, 3 let u, 4 let v, 5 ret v.
    assert_eq!(engine.last_seen(F1), Some(3));
    assert_eq!(engine.last_seen(F2), Some(4));
    assert_eq!(engine.last_seen(S), Some(4));
    assert!(engine.last_seen(S) >= engine.last_seen(F2));
    assert!(engine.last_seen(S) >= engine.last_seen(F1));

    let (result, events) = lower(&p, false);
    assert!(result.is_ok());
    let free_s = position(&events, &Event::Free(S));
    let use_f1 = position(&events, &Event::NumAdd(U, F1, F1, I64));
    let use_f2 = position(&events, &Event::NumAdd(V, F2, U, I64));
    assert!(free_s > use_f1);
    assert!(free_s > use_f2);
    assert_eq!(
        events[2..5],
        [
            Event::CreateStruct(S, PAIR, vec![A, B]),
            Event::Free(A),
            Event::Free(B),
        ]
    );
    assert_eq!(events[5], Event::LoadStructAtIndex(F1, S, 0, vec![I64, I64]));
    assert_eq!(events[6], Event::LoadStructAtIndex(F2, S, 1, vec![I64, I64]));
}

#[test]
fn view_binding_does_not_leak_into_a_sibling_branch() {
    // In the first branch `a` is a view into `s`; in the default branch `a`
    // is bound to a number, so its use there does not touch `s`.
    let body = Stmt::Switch {
        cond_symbol: C,
        cond_layout: BOOL,
        branches: vec![Branch {
            value: 0,
            info: BranchInfo::Unknown,
            body: let_(
                A,
                Expr::GetTagId { structure: S, union_layout: Layout::Union(ShapeId(1)) },
                I64,
                Stmt::Ret(A),
            ),
        }],
        default_info: BranchInfo::Unknown,
        default_branch: Box::new(let_(A, Expr::Literal(Literal::Int(3)), I64, Stmt::Ret(A))),
        ret_layout: I64,
    };
    let arena = bumpalo::Bump::new();
    let env = env(&arena, false);
    let mut engine = Engine::new(&env, Recorder::new());
    engine.scan_ast(&body);
    // Statements: 0 switch, 1 let a = tag(s), 2 ret a, 3 let a = 3, 4 ret a.
    assert_eq!(engine.last_seen(S), Some(2));
    assert_eq!(engine.last_seen(A), Some(4));
}

#[test]
fn free_map_holds_exactly_the_symbols_of_the_table() {
    for p in [straight_line(), branching(), two_fields()] {
        let arena = bumpalo::Bump::new();
        let env = env(&arena, false);
        let mut engine = Engine::new(&env, Recorder::new());
        engine.scan_ast(&p.body);
        engine.create_free_map();
        let mut released = Vec::new();
        for at in 0..8 {
            for sym in engine.due_after(at) {
                assert_eq!(engine.last_seen(sym), Some(at));
                assert!(!released.contains(&sym));
                released.push(sym);
            }
        }
        for n in 0..20 {
            let sym = Symbol(n);
            assert_eq!(engine.last_seen(sym).is_some(), released.contains(&sym));
        }
    }
}

#[test]
fn every_symbol_is_released_once_after_its_last_statement() {
    for lazy in [false, true] {
        for p in [straight_line(), branching(), two_fields(), joining()] {
            let arena = bumpalo::Bump::new();
            let env = env(&arena, lazy);
            let mut engine = Engine::new(&env, Recorder::new());
            assert!(engine.build_proc(&p).is_ok());
            for n in 0..60 {
                let sym = Symbol(n);
                let frees =
                    engine.backend().events.iter().filter(|e| **e == Event::Free(sym)).count();
                // None of these bodies holds a reference-count adjustment.
                assert_eq!(frees, if engine.last_seen(sym).is_some() { 1 } else { 0 });
            }
        }
    }
}

#[test]
fn every_symbol_is_freed_at_most_once() {
    for p in [straight_line(), branching(), two_fields()] {
        let (result, events) = lower(&p, false);
        assert!(result.is_ok());
        let mut freed = Vec::new();
        for e in events {
            if let Event::Free(sym) = e {
                assert!(!freed.contains(&sym));
                freed.push(sym);
            }
        }
    }
}

fn used(event: &Event) -> Vec<Symbol> {
    match event {
        Event::LoadArgs(args, _) => args.iter().map(|a| a.1).collect(),
        Event::Switch(cond, _, _) => vec![*cond],
        Event::Join(_, params, _) => params.iter().map(|p| p.symbol).collect(),
        Event::Jump(id, args, _, _) => {
            let mut all = vec![id.0];
            all.extend(args.iter().copied());
            all
        }
        Event::FnCall(dst, _, args, _, _) => {
            let mut all = vec![*dst];
            all.extend(args.iter().copied());
            all
        }
        Event::NumAbs(dst, src, _) | Event::NumNeg(dst, src, _) => vec![*dst, *src],
        Event::NumToFloat(dst, src, _, _) => vec![*dst, *src],
        Event::NumAdd(dst, a, b, _)
        | Event::NumMul(dst, a, b, _)
        | Event::NumSub(dst, a, b, _)
        | Event::Eq(dst, a, b, _)
        | Event::NotEq(dst, a, b, _)
        | Event::NumLt(dst, a, b, _) => vec![*dst, *a, *b],
        Event::LoadLiteral(sym, _, _) => vec![*sym],
        Event::CreateStruct(sym, _, fields) => {
            let mut all = vec![*sym];
            all.extend(fields.iter().copied());
            all
        }
        Event::LoadStructAtIndex(sym, structure, _, _) => vec![*sym, *structure],
        Event::Return(sym, _) => vec![*sym],
        _ => vec![],
    }
}

fn joining() -> Proc {
    proc(
        F,
        vec![(I64, X), (I64, Y)],
        I64,
        Stmt::Join {
            id: J,
            parameters: vec![Param { symbol: A, borrow: false, layout: I64 }],
            body: Box::new(let_(B, low_level(LowLevel::NumAdd, vec![A, X]), I64, Stmt::Ret(B))),
            remainder: Box::new(let_(
                Z,
                low_level(LowLevel::NumMul, vec![X, Y]),
                I64,
                Stmt::Jump(J, vec![Z]),
            )),
        },
    )
}

#[test]
fn no_request_uses_a_released_symbol() {
    for lazy in [false, true] {
        for p in [straight_line(), branching(), two_fields(), joining()] {
            let (result, events) = lower(&p, lazy);
            assert!(result.is_ok());
            for (i, event) in events.iter().enumerate() {
                if let Event::Free(sym) = event {
                    for later in &events[i + 1..] {
                        assert!(!used(later).contains(sym), "{:?} after {:?}", later, event);
                    }
                }
            }
        }
    }
}

#[test]
fn lowering_twice_gives_the_same_requests() {
    for lazy in [false, true] {
        for p in [straight_line(), branching(), two_fields()] {
            let (first, first_events) = lower(&p, lazy);
            let (second, second_events) = lower(&p, lazy);
            assert_eq!(first, second);
            assert_eq!(first_events, second_events);
        }
    }
}

#[test]
fn earlier_procedures_have_no_influence() {
    let arena = bumpalo::Bump::new();
    let env = env(&arena, true);
    let first = branching();
    let second = straight_line();
    let mut engine = Engine::new(&env, Recorder::new());
    assert!(engine.build_proc(&first).is_ok());
    let result = engine.build_proc(&second);
    assert_eq!(engine.last_seen(W), None);
    assert_eq!(engine.layout_of(W), None);
    assert_eq!(engine.layout_of(Z), Some(I64));
    let (alone, alone_events) = lower(&second, true);
    assert_eq!(result, alone);
    assert_eq!(engine.into_backend().events, alone_events);
}

#[test]
fn mismatched_argument_layouts_are_an_internal_error() {
    for op in [LowLevel::NumAdd, LowLevel::NumSub, LowLevel::NumMul] {
        let p = proc(
            F,
            vec![(I64, X), (F64, Y)],
            I64,
            let_(Z, low_level(op, vec![X, Y]), I64, Stmt::Ret(Z)),
        );
        let (result, events) = lower(&p, false);
        let expected = LowerError::Internal(InternalError::ArgumentLayouts {
            subject: Subject::LowLevel(op),
            first: I64,
            second: F64,
        });
        assert_eq!(result, Err(expected));
        assert!(expected.is_internal());
        assert!(!expected.is_not_implemented());
        // Nothing was asked of the backend for the operation.
        assert_eq!(events.len(), 2);
    }
}

#[test]
fn binary_arithmetic_checks_the_return_layout() {
    let arena = bumpalo::Bump::new();
    let env = env(&arena, false);
    let mut engine = Engine::new(&env, Recorder::new());
    let result = engine.build_run_low_level(&Z, &LowLevel::NumAdd, &[X, Y], &[I64, I64], &F64);
    assert_eq!(
        result,
        Err(LowerError::Internal(InternalError::ReturnLayout {
            subject: Subject::LowLevel(LowLevel::NumAdd),
            got: F64,
            want: I64,
        }))
    );
    let result = engine.build_run_low_level(&Z, &LowLevel::NumMul, &[X, Y], &[I64, I64], &I64);
    assert_eq!(result, Ok(()));
    assert_eq!(engine.backend().events, vec![Event::NumMul(Z, X, Y, I64)]);
}

#[test]
fn wrong_argument_count_is_an_internal_error() {
    let arena = bumpalo::Bump::new();
    let env = env(&arena, false);
    let mut engine = Engine::new(&env, Recorder::new());
    let result = engine.build_run_low_level(&Z, &LowLevel::NumAdd, &[X], &[I64], &I64);
    assert_eq!(
        result,
        Err(LowerError::Internal(InternalError::ArgumentCount {
            subject: Subject::LowLevel(LowLevel::NumAdd),
            expected: 2,
            arguments: 1,
            layouts: 1,
        }))
    );
    let result = engine.build_run_low_level(&Z, &LowLevel::NumAbs, &[X, Y], &[I64, I64], &I64);
    assert_eq!(
        result,
        Err(LowerError::Internal(InternalError::ArgumentCount {
            subject: Subject::LowLevel(LowLevel::NumAbs),
            expected: 1,
            arguments: 2,
            layouts: 2,
        }))
    );
    let result = engine.build_run_low_level(&Z, &LowLevel::NumNeg, &[X], &[], &I64);
    assert_eq!(
        result,
        Err(LowerError::Internal(InternalError::ArgumentCount {
            subject: Subject::LowLevel(LowLevel::NumNeg),
            expected: 1,
            arguments: 1,
            layouts: 0,
        }))
    );
    assert!(engine.backend().events.is_empty());
}

#[test]
fn unary_operations() {
    let arena = bumpalo::Bump::new();
    let env = env(&arena, false);
    let mut engine = Engine::new(&env, Recorder::new());
    assert_eq!(engine.build_run_low_level(&Y, &LowLevel::NumAbs, &[X], &[I64], &I64), Ok(()));
    assert_eq!(engine.build_run_low_level(&Z, &LowLevel::NumNeg, &[X], &[F64], &F64), Ok(()));
    assert_eq!(engine.build_run_low_level(&W, &LowLevel::NumToFloat, &[X], &[I64], &F64), Ok(()));
    assert_eq!(
        engine.build_run_low_level(&W, &LowLevel::NumAbs, &[X], &[I64], &F64),
        Err(LowerError::Internal(InternalError::ReturnLayout {
            subject: Subject::LowLevel(LowLevel::NumAbs),
            got: F64,
            want: I64,
        }))
    );
    assert_eq!(
        engine.backend().events,
        vec![
            Event::NumAbs(Y, X, I64),
            Event::NumNeg(Z, X, F64),
            Event::NumToFloat(W, X, I64, F64),
        ]
    );
}

#[test]
fn comparisons_need_a_boolean_result() {
    let arena = bumpalo::Bump::new();
    let env = env(&arena, false);
    let mut engine = Engine::new(&env, Recorder::new());
    assert_eq!(engine.build_run_low_level(&Z, &LowLevel::Eq, &[X, Y], &[I64, I64], &BOOL), Ok(()));
    assert_eq!(engine.build_run_low_level(&Z, &LowLevel::NotEq, &[X, Y], &[STR, STR], &BOOL), Ok(()));
    assert_eq!(engine.build_run_low_level(&Z, &LowLevel::NumLt, &[X, Y], &[F64, F64], &BOOL), Ok(()));
    assert_eq!(
        engine.build_run_low_level(&Z, &LowLevel::NumLt, &[X, Y], &[F64, F64], &F64),
        Err(LowerError::Internal(InternalError::ReturnLayout {
            subject: Subject::LowLevel(LowLevel::NumLt),
            got: F64,
            want: BOOL,
        }))
    );
    assert_eq!(
        engine.build_run_low_level(&Z, &LowLevel::Eq, &[X, Y], &[I64, F64], &BOOL),
        Err(LowerError::Internal(InternalError::ArgumentLayouts {
            subject: Subject::LowLevel(LowLevel::Eq),
            first: I64,
            second: F64,
        }))
    );
    assert_eq!(
        engine.backend().events,
        vec![Event::Eq(Z, X, Y, I64), Event::NotEq(Z, X, Y, STR), Event::NumLt(Z, X, Y, F64)]
    );
}

#[test]
fn library_operations_are_calls_by_name() {
    let cases = [
        (LowLevel::NumAcos, "roc_builtins.num.acos.f64"),
        (LowLevel::NumAsin, "roc_builtins.num.asin.f64"),
        (LowLevel::NumAtan, "roc_builtins.num.atan.f64"),
        (LowLevel::NumPowInt, "roc_builtins.num.pow_int.i64"),
        (LowLevel::NumRound, "roc_builtins.num.round.f64"),
        (LowLevel::StrConcat, "roc_builtins.str.concat"),
    ];
    for (op, name) in cases {
        assert_eq!(fallback_fn_name(op), Some(name.to_string()));
        let arena = bumpalo::Bump::new();
        let env = env(&arena, false);
        let mut engine = Engine::new(&env, Recorder::new());
        assert_eq!(engine.build_run_low_level(&Z, &op, &[X, Y], &[F64, I64], &F64), Ok(()));
        assert_eq!(
            engine.backend().events,
            vec![Event::FnCall(Z, name.to_string(), vec![X, Y], vec![F64, I64], F64)]
        );
    }
    assert_eq!(fallback_fn_name(LowLevel::NumAdd), None);
    assert_eq!(fallback_fn_name(LowLevel::ListLen), None);
}

#[test]
fn unsupported_low_level_names_the_operation() {
    let p = proc(
        F,
        vec![(I64, X)],
        I64,
        let_(Z, low_level(LowLevel::NumSqrtUnchecked, vec![X]), I64, Stmt::Ret(Z)),
    );
    let (result, events) = lower(&p, false);
    let expected = LowerError::NotImplemented(Unsupported::LowLevel(LowLevel::NumSqrtUnchecked));
    assert_eq!(result, Err(expected));
    assert!(expected.is_not_implemented());
    assert!(!expected.is_internal());
    assert!(!events.contains(&Event::Finalize));
}

#[test]
fn unsupported_expression_names_its_kind() {
    let cases = vec![
        (
            Expr::Tag {
                tag_layout: Layout::Union(ShapeId(2)),
                tag_name: TagName::Global("Ok".to_string()),
                tag_id: 0,
                arguments: vec![X],
            },
            ExprKind::Tag,
        ),
        (Expr::GetTagId { structure: X, union_layout: Layout::Union(ShapeId(2)) }, ExprKind::GetTagId),
        (
            Expr::UnionAtIndex { structure: X, tag_id: 1, union_layout: Layout::Union(ShapeId(2)), index: 0 },
            ExprKind::UnionAtIndex,
        ),
        (
            Expr::Array { elem_layout: I64, elems: vec![ListLiteralElement::Symbol(X)] },
            ExprKind::Array,
        ),
        (Expr::EmptyArray, ExprKind::EmptyArray),
        (
            Expr::Reuse {
                symbol: X,
                update_tag_id: false,
                tag_layout: Layout::Union(ShapeId(2)),
                tag_name: TagName::Private(Y),
                tag_id: 0,
                arguments: vec![],
            },
            ExprKind::Reuse,
        ),
        (Expr::Reset { symbol: X }, ExprKind::Reset),
        (Expr::RuntimeErrorFunction("crash".to_string()), ExprKind::RuntimeErrorFunction),
    ];
    for (expr, kind) in cases {
        assert_eq!(expr.kind(), kind);
        let p = proc(F, vec![(I64, X)], I64, let_(Z, expr, I64, Stmt::Ret(Z)));
        let (result, events) = lower(&p, false);
        assert_eq!(result, Err(LowerError::NotImplemented(Unsupported::Expression(kind))));
        // No code is handed out, not even empty code.
        assert!(!events.contains(&Event::Finalize));
        assert!(!events.contains(&Event::Return(Z, I64)));
    }
}

#[test]
fn unsupported_call_types_name_their_kind() {
    let foreign = Expr::Call(Call {
        call_type: CallType::Foreign { foreign_symbol: "puts".to_string(), ret_layout: I64 },
        arguments: vec![X],
    });
    let higher = Expr::Call(Call {
        call_type: CallType::HigherOrder { op: LowLevel::ListLen, function_name: HELPER },
        arguments: vec![X],
    });
    for (expr, kind) in [(foreign, CallKind::Foreign), (higher, CallKind::HigherOrder)] {
        let p = proc(F, vec![(I64, X)], I64, let_(Z, expr, I64, Stmt::Ret(Z)));
        let (result, _) = lower(&p, false);
        assert_eq!(result, Err(LowerError::NotImplemented(Unsupported::CallType(kind))));
    }
}

#[test]
fn runtime_error_statement_is_not_lowered() {
    let p = proc(F, vec![], I64, Stmt::RuntimeError("unreachable".to_string()));
    assert_eq!(p.body.kind(), StmtKind::RuntimeError);
    let (result, events) = lower(&p, false);
    assert_eq!(
        result,
        Err(LowerError::NotImplemented(Unsupported::Statement(StmtKind::RuntimeError)))
    );
    assert_eq!(events.len(), 2);
}

#[test]
fn refcounting_is_passed_over() {
    let p = proc(
        F,
        vec![(STR, X)],
        STR,
        Stmt::Refcounting(ModifyRc::Inc(X, 1), Box::new(Stmt::Ret(X))),
    );
    assert_eq!(ModifyRc::Inc(X, 1).get_symbol(), X);
    assert_eq!(ModifyRc::Dec(Y).get_symbol(), Y);
    assert_eq!(ModifyRc::DecRef(Z).get_symbol(), Z);
    let (result, events) = lower(&p, false);
    assert!(result.is_ok());
    assert_eq!(
        events,
        vec![
            Event::Reset("#UserApp_f_1".to_string(), SelfRecursive::NotSelfRecursive),
            Event::LoadArgs(vec![(STR, X)], STR),
            Event::Return(X, STR),
            Event::Free(X),
            Event::Finalize,
        ]
    );
}

#[test]
fn symbol_last_seen_at_a_refcounting_is_never_released() {
    let p = proc(
        F,
        vec![(STR, X), (I64, Y)],
        I64,
        Stmt::Refcounting(ModifyRc::Dec(X), Box::new(Stmt::Ret(Y))),
    );
    let (result, events) = lower(&p, false);
    assert!(result.is_ok());
    assert!(!events.contains(&Event::Free(X)));
    assert!(events.contains(&Event::Free(Y)));
}

#[test]
fn layout_of_a_symbol_cannot_change() {
    let p = proc(
        F,
        vec![(I64, X)],
        I64,
        let_(X, Expr::Literal(Literal::Int(1)), F64, Stmt::Ret(X)),
    );
    let (result, _) = lower(&p, false);
    assert_eq!(
        result,
        Err(LowerError::Internal(InternalError::LayoutOverwrite { symbol: X, got: F64, want: I64 }))
    );
    // The same layout again is accepted.
    let p = proc(
        F,
        vec![(I64, X)],
        I64,
        let_(X, Expr::Literal(Literal::Int(1)), I64, Stmt::Ret(X)),
    );
    let (result, _) = lower(&p, false);
    assert!(result.is_ok());
}

#[test]
fn set_layout_map_records_and_checks() {
    let arena = bumpalo::Bump::new();
    let env = env(&arena, false);
    let mut engine = Engine::new(&env, Recorder::new());
    assert_eq!(engine.layout_of(X), None);
    assert_eq!(engine.set_layout_map(X, &I64), Ok(()));
    assert_eq!(engine.layout_of(X), Some(I64));
    assert_eq!(engine.set_layout_map(X, &I64), Ok(()));
    assert_eq!(
        engine.set_layout_map(X, &BOOL),
        Err(LowerError::Internal(InternalError::LayoutOverwrite { symbol: X, got: BOOL, want: I64 }))
    );
    // The rejected layout is not recorded.
    assert_eq!(engine.layout_of(X), Some(I64));
    assert!(engine.backend().events.is_empty());
}

#[test]
fn failed_jump_asks_nothing_and_keeps_the_release_list() {
    let body = Stmt::Jump(J, vec![X, V]);
    let arena = bumpalo::Bump::new();
    let env = env(&arena, false);
    let mut engine = Engine::new(&env, Recorder::new());
    engine.set_layout_map(X, &I64).unwrap();
    engine.scan_ast(&body);
    engine.create_free_map();
    assert_eq!(engine.due_after(0), vec![J.0, X, V]);
    assert_eq!(
        engine.build_stmt(&body, 0, &I64),
        Err(LowerError::Internal(InternalError::MissingLayout { symbol: V }))
    );
    assert!(engine.backend().events.is_empty());
    assert_eq!(engine.due_after(0), vec![J.0, X, V]);
    assert_eq!(engine.layout_of(V), None);
}

#[test]
fn failed_statements_and_expressions_leave_the_engine_as_it_was() {
    let error = Stmt::RuntimeError("no".to_string());
    let tag = Expr::GetTagId { structure: X, union_layout: Layout::Union(ShapeId(2)) };
    let foreign = Expr::Call(Call {
        call_type: CallType::Foreign { foreign_symbol: "puts".to_string(), ret_layout: I64 },
        arguments: vec![ONE],
    });
    let unresolved = low_level(LowLevel::NumAdd, vec![ONE, W]);
    let literal = Expr::Literal(Literal::Int(1));
    let arena = bumpalo::Bump::new();
    let env = env(&arena, true);
    let mut engine = Engine::new(&env, Recorder::new());
    // A literal is pending for one of the arguments.
    assert_eq!(engine.build_expr(&ONE, &literal, &I64), Ok(()));
    engine.set_layout_map(ONE, &I64).unwrap();
    engine.scan_ast(&error);
    engine.create_free_map();
    assert!(engine.build_stmt(&error, 0, &I64).is_err());
    assert!(engine.build_expr(&Z, &tag, &I64).is_err());
    assert!(engine.build_expr(&Z, &foreign, &I64).is_err());
    assert_eq!(
        engine.build_expr(&Z, &unresolved, &I64),
        Err(LowerError::Internal(InternalError::MissingLayout { symbol: W }))
    );
    assert!(engine.backend().events.is_empty());
    assert!(engine.has_pending_literal(ONE));
    assert_eq!(engine.layout_of(Z), None);
    assert_eq!(engine.layout_of(ONE), Some(I64));
}

#[test]
fn failed_low_level_has_only_loaded_the_literals() {
    let literal = Expr::Literal(Literal::Int(1));
    let arena = bumpalo::Bump::new();
    let env = env(&arena, true);
    let mut engine = Engine::new(&env, Recorder::new());
    assert_eq!(engine.build_expr(&ONE, &literal, &I64), Ok(()));
    let loaded = vec![Event::LoadLiteral(ONE, I64, Literal::Int(1))];
    assert!(engine.build_run_low_level(&Z, &LowLevel::NumAdd, &[X, ONE], &[F64, I64], &I64).is_err());
    assert_eq!(engine.backend().events, loaded);
    assert!(!engine.has_pending_literal(ONE));
    assert!(engine.build_run_low_level(&Z, &LowLevel::NumLt, &[X, ONE], &[I64, I64], &I64).is_err());
    assert!(engine.build_run_low_level(&Z, &LowLevel::NumAbs, &[X, ONE], &[I64, I64], &I64).is_err());
    assert!(engine.build_run_low_level(&Z, &LowLevel::ListLen, &[X], &[I64], &I64).is_err());
    assert!(engine.build_inline_builtin(&Z, LIB_FN, &[X], &[I64], &BOOL).is_err());
    assert!(engine.build_inline_builtin(&Z, Symbol(NUM_IS_ZERO), &[X], &[I64], &I64).is_err());
    assert_eq!(engine.backend().events, loaded);
}

#[test]
fn procedure_that_names_a_reserved_symbol_is_rejected() {
    let reserved = Symbol::dev_tmp(3);
    let in_body = proc(
        F,
        vec![(I64, X)],
        BOOL,
        let_(
            reserved,
            by_name(Symbol(NUM_IS_ZERO), vec![X], vec![I64], BOOL),
            BOOL,
            Stmt::Ret(reserved),
        ),
    );
    let (result, events) = lower(&in_body, false);
    assert_eq!(
        result,
        Err(LowerError::Internal(InternalError::ReservedSymbol { symbol: reserved }))
    );
    // The procedure was started, and nothing of its body was lowered.
    assert_eq!(events.len(), 2);

    let unused_argument = proc(F, vec![(I64, X), (I64, reserved)], I64, Stmt::Ret(X));
    let (result, events) = lower(&unused_argument, false);
    assert_eq!(
        result,
        Err(LowerError::Internal(InternalError::ReservedSymbol { symbol: reserved }))
    );
    assert_eq!(events.len(), 2);

    let highest_free = Symbol(0xFFFF_FFFE_FFFF_FFFF);
    let below = proc(F, vec![(I64, highest_free)], I64, Stmt::Ret(highest_free));
    assert!(lower(&below, false).0.is_ok());
}

#[test]
fn build_proc_hands_out_what_the_backend_gave() {
    let p = branching();
    let (result, events) = lower(&p, false);
    let (code, relocs) = result.unwrap();
    assert_eq!(code, vec![events.len() as u8]);
    assert_eq!(
        relocs,
        vec![
            Relocation::JmpToReturn { inst_loc: 5, inst_size: 1, offset: 0 },
            Relocation::JmpToReturn { inst_loc: 10, inst_size: 1, offset: 0 },
        ]
    );
}

#[test]
fn argument_without_layout_is_an_internal_error() {
    let p = proc(
        F,
        vec![(I64, X)],
        I64,
        let_(Z, low_level(LowLevel::NumAdd, vec![X, W]), I64, Stmt::Ret(Z)),
    );
    let (result, _) = lower(&p, false);
    assert_eq!(result, Err(LowerError::Internal(InternalError::MissingLayout { symbol: W })));

    let p = proc(F, vec![(I64, X)], I64, Stmt::Jump(J, vec![X, V, W]));
    let (result, _) = lower(&p, false);
    assert_eq!(result, Err(LowerError::Internal(InternalError::MissingLayout { symbol: V })));
}

#[test]
fn arg_layouts_are_looked_up_in_order() {
    let arena = bumpalo::Bump::new();
    let env = env(&arena, false);
    let mut engine = Engine::new(&env, Recorder::new());
    engine.set_layout_map(X, &I64).unwrap();
    engine.set_layout_map(Y, &F64).unwrap();
    engine.set_layout_map(Z, &BOOL).unwrap();
    assert_eq!(engine.arg_layouts(&[Z, X, Y, X]), Ok(&[BOOL, I64, F64, I64][..]));
    assert_eq!(engine.arg_layouts(&[]), Ok(&[][..]));
    assert_eq!(
        engine.arg_layouts(&[X, W, V]),
        Err(LowerError::Internal(InternalError::MissingLayout { symbol: W }))
    );
}

#[test]
fn join_and_jump_are_lowered_in_scan_order() {
    let params = vec![Param { symbol: A, borrow: false, layout: I64 }];
    let p = proc(
        F,
        vec![(I64, X)],
        I64,
        Stmt::Join {
            id: J,
            parameters: params.clone(),
            body: Box::new(Stmt::Ret(A)),
            remainder: Box::new(Stmt::Jump(J, vec![X])),
        },
    );
    let arena = bumpalo::Bump::new();
    let env = env(&arena, false);
    let mut engine = Engine::new(&env, Recorder::new());
    engine.scan_ast(&p.body);
    // Statements: 0 join, 1 ret a (the body), 2 jump (the remainder).
    assert_eq!(engine.last_seen(A), Some(1));
    assert_eq!(engine.last_seen(J.0), Some(2));
    assert_eq!(engine.last_seen(X), Some(2));

    let (result, events) = lower(&p, false);
    assert!(result.is_ok());
    assert_eq!(
        events,
        vec![
            Event::Reset("#UserApp_f_1".to_string(), SelfRecursive::NotSelfRecursive),
            Event::LoadArgs(vec![(I64, X)], I64),
            Event::Join(J, params, I64),
            Event::Return(A, I64),
            Event::Free(A),
            Event::JoinRemainder(J),
            Event::Jump(J, vec![X], vec![I64], I64),
            Event::Free(J.0),
            Event::Free(X),
            Event::JoinEnd(J),
            Event::Finalize,
        ]
    );
}

#[test]
fn join_parameter_layout_must_agree() {
    let p = proc(
        F,
        vec![(I64, X)],
        I64,
        Stmt::Join {
            id: J,
            parameters: vec![Param { symbol: X, borrow: false, layout: BOOL }],
            body: Box::new(Stmt::Ret(X)),
            remainder: Box::new(Stmt::Ret(X)),
        },
    );
    let (result, _) = lower(&p, false);
    assert_eq!(
        result,
        Err(LowerError::Internal(InternalError::LayoutOverwrite { symbol: X, got: BOOL, want: I64 }))
    );
}

#[test]
fn call_of_an_application_function_uses_its_link_name() {
    let p = proc(
        F,
        vec![(I64, X)],
        I64,
        let_(Z, by_name(HELPER, vec![X, X], vec![I64, I64], I64), I64, Stmt::Ret(Z)),
    );
    let (result, events) = lower(&p, false);
    assert!(result.is_ok());
    assert_eq!(
        events[2],
        Event::FnCall(Z, "#UserApp_helper_1".to_string(), vec![X, X], vec![I64, I64], I64)
    );
}

#[test]
fn call_of_a_wrapper_is_lowered_as_its_operation() {
    let p = proc(
        F,
        vec![(I64, X)],
        BOOL,
        let_(
            Y,
            by_name(Symbol(NUM_ADD), vec![X, X], vec![I64, I64], I64),
            I64,
            let_(Z, by_name(Symbol(BOOL_EQ), vec![X, Y], vec![I64, I64], BOOL), BOOL, Stmt::Ret(Z)),
        ),
    );
    let (result, events) = lower(&p, false);
    assert!(result.is_ok());
    assert_eq!(events[2], Event::NumAdd(Y, X, X, I64));
    assert_eq!(events[3], Event::Eq(Z, X, Y, I64));
}

#[test]
fn wrapper_call_with_mismatched_layouts_is_rejected() {
    let p = proc(
        F,
        vec![(I64, X)],
        I64,
        let_(Y, by_name(Symbol(NUM_ADD), vec![X, X], vec![I64, F64], I64), I64, Stmt::Ret(Y)),
    );
    let (result, _) = lower(&p, false);
    assert_eq!(
        result,
        Err(LowerError::Internal(InternalError::ArgumentLayouts {
            subject: Subject::LowLevel(LowLevel::NumAdd),
            first: I64,
            second: F64,
        }))
    );
}

#[test]
fn is_zero_is_a_comparison_with_a_scratch_zero() {
    let p = proc(
        F,
        vec![(I64, X)],
        BOOL,
        let_(
            Y,
            by_name(Symbol(NUM_IS_ZERO), vec![X], vec![I64], BOOL),
            BOOL,
            let_(Z, by_name(Symbol(NUM_IS_ZERO), vec![X], vec![I64], BOOL), BOOL, Stmt::Ret(Z)),
        ),
    );
    let (result, events) = lower(&p, false);
    assert!(result.is_ok());
    let first = Symbol::dev_tmp(0);
    let second = Symbol::dev_tmp(1);
    assert_eq!(first, Symbol(0xFFFF_FFFF_0000_0000));
    assert_eq!(second, Symbol(0xFFFF_FFFF_0000_0001));
    // `y` is bound and never used: it is released right after its binding.
    assert_eq!(
        events[2..10],
        [
            Event::LoadLiteral(first, I64, Literal::Int(0)),
            Event::Eq(Y, X, first, I64),
            Event::Free(first),
            Event::Free(Y),
            Event::LoadLiteral(second, I64, Literal::Int(0)),
            Event::Eq(Z, X, second, I64),
            Event::Free(second),
            Event::Free(X),
        ]
    );
}

#[test]
fn is_zero_checks_its_contract() {
    let arena = bumpalo::Bump::new();
    let env = env(&arena, false);
    let mut engine = Engine::new(&env, Recorder::new());
    let is_zero = Symbol(NUM_IS_ZERO);
    assert_eq!(
        engine.build_inline_builtin(&Z, is_zero, &[X, Y], &[I64, I64], &BOOL),
        Err(LowerError::Internal(InternalError::ArgumentCount {
            subject: Subject::Function(is_zero),
            expected: 1,
            arguments: 2,
            layouts: 2,
        }))
    );
    assert_eq!(
        engine.build_inline_builtin(&Z, is_zero, &[X], &[I64], &I64),
        Err(LowerError::Internal(InternalError::ReturnLayout {
            subject: Subject::Function(is_zero),
            got: I64,
            want: BOOL,
        }))
    );
    assert!(engine.backend().events.is_empty());
}

#[test]
fn other_builtin_functions_are_not_lowered() {
    let p = proc(
        F,
        vec![(F64, X)],
        F64,
        let_(Z, by_name(LIB_FN, vec![X, X], vec![F64, F64], F64), F64, Stmt::Ret(Z)),
    );
    let (result, _) = lower(&p, false);
    assert_eq!(result, Err(LowerError::NotImplemented(Unsupported::Function(LIB_FN))));
}

#[test]
fn function_without_a_name_is_an_internal_error() {
    let unknown = Symbol(9999);
    let p = proc(
        F,
        vec![(I64, X)],
        I64,
        let_(Z, by_name(unknown, vec![X], vec![I64], I64), I64, Stmt::Ret(Z)),
    );
    let (result, _) = lower(&p, false);
    assert_eq!(result, Err(LowerError::Internal(InternalError::MissingName { symbol: unknown })));

    let p = proc(unknown, vec![], I64, Stmt::Ret(X));
    let (result, events) = lower(&p, false);
    assert_eq!(result, Err(LowerError::Internal(InternalError::MissingName { symbol: unknown })));
    assert!(events.is_empty());
}

#[test]
fn unused_lazy_literal_is_never_loaded() {
    let p = proc(
        F,
        vec![(I64, X)],
        I64,
        let_(ONE, Expr::Literal(Literal::Int(1)), I64, Stmt::Ret(X)),
    );
    let (lazy, lazy_events) = lower(&p, true);
    assert!(lazy.is_ok());
    assert!(!lazy_events.contains(&Event::LoadLiteral(ONE, I64, Literal::Int(1))));
    let (eager, eager_events) = lower(&p, false);
    assert!(eager.is_ok());
    assert_eq!(eager_events[2], Event::LoadLiteral(ONE, I64, Literal::Int(1)));
}

#[test]
fn returned_lazy_literal_is_loaded_before_the_return() {
    let p = proc(
        F,
        vec![],
        STR,
        let_(ONE, Expr::Literal(Literal::Str("hi".to_string())), STR, Stmt::Ret(ONE)),
    );
    let (result, events) = lower(&p, true);
    assert!(result.is_ok());
    assert_eq!(
        events[2..5],
        [
            Event::LoadLiteral(ONE, STR, Literal::Str("hi".to_string())),
            Event::Return(ONE, STR),
            Event::Free(ONE),
        ]
    );
}

#[test]
fn lazy_literals_are_loaded_once_in_argument_order() {
    let one = Expr::Literal(Literal::Int(1));
    let two = Expr::Literal(Literal::Bool(true));
    let arena = bumpalo::Bump::new();
    let env = env(&arena, true);
    let mut engine = Engine::new(&env, Recorder::new());
    assert_eq!(engine.build_expr(&X, &one, &I64), Ok(()));
    assert_eq!(engine.build_expr(&Y, &two, &BOOL), Ok(()));
    assert!(engine.has_pending_literal(X));
    assert!(engine.has_pending_literal(Y));
    assert!(engine.backend().events.is_empty());
    engine.load_literal_symbols(&[Y, Z, X, Y]);
    assert!(!engine.has_pending_literal(X));
    assert!(!engine.has_pending_literal(Y));
    assert_eq!(
        engine.backend().events,
        vec![
            Event::LoadLiteral(Y, BOOL, Literal::Bool(true)),
            Event::LoadLiteral(X, I64, Literal::Int(1)),
        ]
    );
    engine.load_literal_symbol(X);
    assert_eq!(engine.backend().events.len(), 2);
}

#[test]
fn switch_condition_literal_is_loaded_first() {
    let p = proc(
        F,
        vec![],
        I64,
        let_(
            C,
            Expr::Literal(Literal::Bool(true)),
            BOOL,
            Stmt::Switch {
                cond_symbol: C,
                cond_layout: BOOL,
                branches: vec![],
                default_info: BranchInfo::Constructor { scrutinee: C, layout: BOOL, tag_id: 1 },
                default_branch: Box::new(Stmt::Ret(C)),
                ret_layout: BOOL,
            },
        ),
    );
    let (result, events) = lower(&p, true);
    assert!(result.is_ok());
    assert_eq!(
        events[2..],
        [
            Event::LoadLiteral(C, BOOL, Literal::Bool(true)),
            Event::Switch(C, BOOL, BOOL),
            Event::SwitchDefault(BranchInfo::Constructor { scrutinee: C, layout: BOOL, tag_id: 1 }),
            Event::Return(C, BOOL),
            Event::Free(C),
            Event::SwitchEnd,
            Event::Finalize,
        ]
    );
}

#[test]
fn error_in_a_branch_stops_the_lowering() {
    let body = Stmt::Switch {
        cond_symbol: C,
        cond_layout: BOOL,
        branches: vec![
            Branch { value: 0, info: BranchInfo::Unknown, body: Stmt::Ret(W) },
            Branch {
                value: 1,
                info: BranchInfo::Unknown,
                body: Stmt::RuntimeError("no".to_string()),
            },
            Branch { value: 2, info: BranchInfo::Unknown, body: Stmt::Ret(W) },
        ],
        default_info: BranchInfo::Unknown,
        default_branch: Box::new(Stmt::Ret(W)),
        ret_layout: I64,
    };
    let p = proc(G, vec![(BOOL, C), (I64, W)], I64, body);
    let (result, events) = lower(&p, false);
    assert_eq!(
        result,
        Err(LowerError::NotImplemented(Unsupported::Statement(StmtKind::RuntimeError)))
    );
    assert_eq!(events.last(), Some(&Event::SwitchBranch(1, BranchInfo::Unknown)));
}

#[test]
fn build_stmt_returns_the_next_index() {
    let p = branching();
    let q = straight_line();
    let arena = bumpalo::Bump::new();
    let env = env(&arena, false);
    let mut engine = Engine::new(&env, Recorder::new());
    engine.set_layout_map(W, &I64).unwrap();
    assert_eq!(engine.build_stmt(&p.body, 0, &I64), Ok(5));
    let mut engine = Engine::new(&env, Recorder::new());
    engine.set_layout_map(X, &I64).unwrap();
    assert_eq!(engine.build_stmt(&q.body, 10, &I64), Ok(14));
}
