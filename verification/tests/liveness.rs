use gen_dev::free_map::{create_free_map, FreeMap};
use gen_dev::ir::{
    Branch, BranchInfo, Call, CallType, Expr, ListLiteralElement, Literal, ModifyRc, Param, Stmt,
    TagName,
};
use gen_dev::layout::{Builtin, IntWidth, Layout, ShapeId};
use gen_dev::liveness::LastSeen;
use gen_dev::low_level::LowLevel;
use gen_dev::symbol::{JoinPointId, Symbol};

const I64: Layout = Layout::Builtin(Builtin::Int(IntWidth::I64));
const UNION: Layout = Layout::Union(ShapeId(3));

fn sym(n: u64) -> Symbol {
    Symbol(n)
}

fn let_(s: Symbol, expr: Expr, following: Stmt) -> Stmt {
    Stmt::Let(s, expr, I64, Box::new(following))
}

fn add(a: Symbol, b: Symbol) -> Expr {
    Expr::Call(Call { call_type: CallType::LowLevel { op: LowLevel::NumAdd }, arguments: vec![a, b] })
}

fn field(structure: Symbol, index: u64) -> Expr {
    Expr::StructAtIndex { index, field_layouts: vec![I64, I64], structure }
}

#[test]
fn new_table_is_empty() {
    let table = LastSeen::new();
    assert_eq!(table.get(sym(1)), None);
    assert!(table.symbols().is_empty());
}

#[test]
fn mark_overwrites_and_keeps_first_seen_order() {
    let mut table = LastSeen::new();
    table.mark(sym(5), 0);
    table.mark(sym(3), 1);
    table.mark(sym(5), 4);
    table.mark(sym(9), 4);
    assert_eq!(table.get(sym(5)), Some(4));
    assert_eq!(table.get(sym(3)), Some(1));
    assert_eq!(table.get(sym(9)), Some(4));
    assert_eq!(table.get(sym(4)), None);
    assert_eq!(table.symbols(), &vec![sym(5), sym(3), sym(9)]);
    table.clear();
    assert_eq!(table.get(sym(5)), None);
    assert!(table.symbols().is_empty());
}

#[test]
fn set_last_seen_marks_the_owner_too() {
    let scope = vec![(sym(1), sym(10))];
    let mut table = LastSeen::new();
    table.set_last_seen(sym(1), 7, &scope);
    assert_eq!(table.get(sym(1)), Some(7));
    assert_eq!(table.get(sym(10)), Some(7));
    table.set_last_seen(sym(2), 8, &scope);
    assert_eq!(table.get(sym(2)), Some(8));
    assert_eq!(table.get(sym(10)), Some(7));
    assert_eq!(table.symbols(), &vec![sym(1), sym(10), sym(2)]);
}

#[test]
fn set_last_seen_follows_the_chain_of_sources() {
    // 3 is a view into 2, which is a view into 1.
    let scope = vec![(sym(2), sym(1)), (sym(9), sym(8)), (sym(3), sym(2))];
    let mut table = LastSeen::new();
    table.set_last_seen(sym(3), 4, &scope);
    assert_eq!(table.symbols(), &vec![sym(3), sym(2), sym(1)]);
    assert_eq!(table.get(sym(1)), Some(4));
    assert_eq!(table.get(sym(8)), None);
    table.set_last_seen(sym(2), 5, &scope);
    assert_eq!(table.get(sym(3)), Some(4));
    assert_eq!(table.get(sym(2)), Some(5));
    assert_eq!(table.get(sym(1)), Some(5));
}

#[test]
fn source_is_looked_up_where_the_view_was_bound() {
    // 2 was bound as a view into 1 before 1 itself became a view into 7:
    // the structure behind 2 is the earlier 1, which is no view.
    let scope = vec![(sym(2), sym(1)), (sym(1), sym(7))];
    let mut table = LastSeen::new();
    table.set_last_seen(sym(2), 3, &scope);
    assert_eq!(table.symbols(), &vec![sym(2), sym(1)]);
    table.set_last_seen(sym(1), 4, &scope);
    assert_eq!(table.get(sym(7)), Some(4));
    // The innermost binding of a symbol wins.
    let scope = vec![(sym(1), sym(10)), (sym(2), sym(20)), (sym(1), sym(30))];
    let mut table = LastSeen::new();
    table.set_last_seen(sym(1), 0, &scope);
    assert_eq!(table.symbols(), &vec![sym(1), sym(30)]);
}

#[test]
fn set_last_seen_all_marks_each_symbol() {
    let scope = vec![(sym(2), sym(20))];
    let mut table = LastSeen::new();
    table.set_last_seen_all(&[sym(1), sym(2), sym(1)], 3, &scope);
    assert_eq!(table.get(sym(1)), Some(3));
    assert_eq!(table.get(sym(2)), Some(3));
    assert_eq!(table.get(sym(20)), Some(3));
    assert_eq!(table.symbols(), &vec![sym(1), sym(2), sym(20)]);
    table.set_last_seen_all(&[], 9, &scope);
    assert_eq!(table.symbols().len(), 3);
}

#[test]
fn scan_ast_call_marks_the_arguments_of_every_call_type() {
    let call_types = vec![
        CallType::ByName { name: sym(100), ret_layout: I64, arg_layouts: vec![I64, I64] },
        CallType::Foreign { foreign_symbol: "puts".to_string(), ret_layout: I64 },
        CallType::LowLevel { op: LowLevel::NumAdd },
        CallType::HigherOrder { op: LowLevel::ListLen, function_name: sym(101) },
    ];
    for call_type in call_types {
        let call = Call { call_type, arguments: vec![sym(1), sym(2)] };
        let mut table = LastSeen::new();
        table.scan_ast_call(&call, 5, &Vec::new());
        assert_eq!(table.get(sym(1)), Some(5));
        assert_eq!(table.get(sym(2)), Some(5));
        // The callee is no value of the procedure.
        assert_eq!(table.get(sym(100)), None);
        assert_eq!(table.get(sym(101)), None);
        assert_eq!(table.symbols().len(), 2);
    }
}

#[test]
fn scan_expr_marks_the_symbols_of_each_expression() {
    let cases: Vec<(Expr, Vec<Symbol>)> = vec![
        (Expr::Literal(Literal::Int(3)), vec![]),
        (
            Expr::Tag {
                tag_layout: UNION,
                tag_name: TagName::Closure(sym(40)),
                tag_id: 1,
                arguments: vec![sym(1), sym(2)],
            },
            vec![sym(1), sym(2)],
        ),
        (Expr::Struct(vec![sym(3), sym(1)]), vec![sym(3), sym(1)]),
        (field(sym(7), 0), vec![sym(7)]),
        (Expr::GetTagId { structure: sym(8), union_layout: UNION }, vec![sym(8)]),
        (
            Expr::UnionAtIndex { structure: sym(9), tag_id: 0, union_layout: UNION, index: 1 },
            vec![sym(9)],
        ),
        (
            Expr::Array {
                elem_layout: I64,
                elems: vec![
                    ListLiteralElement::Symbol(sym(1)),
                    ListLiteralElement::Literal(Literal::Int(2)),
                    ListLiteralElement::Symbol(sym(3)),
                ],
            },
            vec![sym(1), sym(3)],
        ),
        (Expr::EmptyArray, vec![]),
        (
            Expr::Reuse {
                symbol: sym(5),
                update_tag_id: true,
                tag_layout: UNION,
                tag_name: TagName::Private(sym(6)),
                tag_id: 0,
                arguments: vec![sym(1)],
            },
            vec![sym(5), sym(6), sym(1)],
        ),
        (
            Expr::Reuse {
                symbol: sym(5),
                update_tag_id: true,
                tag_layout: UNION,
                tag_name: TagName::Closure(sym(6)),
                tag_id: 0,
                arguments: vec![sym(1)],
            },
            vec![sym(5), sym(6), sym(1)],
        ),
        (
            Expr::Reuse {
                symbol: sym(5),
                update_tag_id: true,
                tag_layout: UNION,
                tag_name: TagName::Global("A".to_string()),
                tag_id: 0,
                arguments: vec![sym(1)],
            },
            vec![sym(5), sym(1)],
        ),
        (Expr::Reset { symbol: sym(4) }, vec![sym(4)]),
        (Expr::RuntimeErrorFunction("no".to_string()), vec![]),
    ];
    for (expr, expected) in cases {
        let mut table = LastSeen::new();
        table.scan_expr(&expr, 2, &Vec::new());
        assert_eq!(table.symbols(), &expected, "{:?}", expr);
        for s in expected {
            assert_eq!(table.get(s), Some(2));
        }
    }
}

#[test]
fn last_seen_is_the_final_use_in_walk_order() {
    // 0: let a = x + x
    // 1: join j(p):
    // 2:     let b = p + a      (the body)
    // 3:     ret b
    // 4:   switch a:            (the remainder)
    // 5:     0 => jump j(x)
    // 6:     1 => let c = a + a
    // 7:          jump j(c)
    // 8:     _ => inc x; ...
    // 9:          ret a
    let (x, a, b, c, p) = (sym(1), sym(2), sym(3), sym(4), sym(5));
    let j = JoinPointId(sym(50));
    let body = let_(
        a,
        add(x, x),
        Stmt::Join {
            id: j,
            parameters: vec![Param { symbol: p, borrow: false, layout: I64 }],
            body: Box::new(let_(b, add(p, a), Stmt::Ret(b))),
            remainder: Box::new(Stmt::Switch {
                cond_symbol: a,
                cond_layout: I64,
                branches: vec![
                    Branch { value: 0, info: BranchInfo::Unknown, body: Stmt::Jump(j, vec![x]) },
                    Branch {
                        value: 1,
                        info: BranchInfo::Unknown,
                        body: let_(c, add(a, a), Stmt::Jump(j, vec![c])),
                    },
                ],
                default_info: BranchInfo::Unknown,
                default_branch: Box::new(Stmt::Refcounting(
                    ModifyRc::Inc(x, 1),
                    Box::new(Stmt::Ret(a)),
                )),
                ret_layout: I64,
            }),
        },
    );
    assert_eq!(body.checked_size(), Some(10));
    let mut table = LastSeen::new();
    table.scan_ast(&body);
    assert_eq!(table.get(x), Some(8));
    assert_eq!(table.get(a), Some(9));
    assert_eq!(table.get(p), Some(2));
    assert_eq!(table.get(b), Some(3));
    assert_eq!(table.get(c), Some(7));
    assert_eq!(table.get(j.0), Some(7));
    assert_eq!(table.symbols(), &vec![a, x, p, b, j.0, c]);
}

#[test]
fn scan_stmt_returns_the_next_index_and_restores_the_scope() {
    let (s, f, u) = (sym(1), sym(2), sym(3));
    let body = let_(f, field(s, 0), let_(u, add(f, f), Stmt::Ret(u)));
    let mut scope = vec![(sym(8), sym(9))];
    let mut table = LastSeen::new();
    let next = table.scan_stmt(&body, 10, &mut scope);
    assert_eq!(next, 13);
    assert_eq!(scope, vec![(sym(8), sym(9))]);
    assert_eq!(table.get(s), Some(11));
    assert_eq!(table.get(f), Some(11));
    assert_eq!(table.get(u), Some(12));
}

#[test]
fn scan_uses_the_scope_it_is_given() {
    let (d, t) = (sym(1), sym(2));
    let mut scope = vec![(d, t)];
    let mut table = LastSeen::new();
    let next = table.scan_stmt(&Stmt::Ret(d), 4, &mut scope);
    assert_eq!(next, 5);
    assert_eq!(table.get(d), Some(4));
    assert_eq!(table.get(t), Some(4));
}

#[test]
fn tag_id_and_union_member_are_views_too() {
    let (t, id, member, r) = (sym(1), sym(2), sym(3), sym(4));
    let body = let_(
        id,
        Expr::GetTagId { structure: t, union_layout: UNION },
        let_(
            member,
            Expr::UnionAtIndex { structure: t, tag_id: 0, union_layout: UNION, index: 0 },
            let_(r, add(id, id), let_(sym(5), add(member, r), Stmt::Ret(sym(5)))),
        ),
    );
    let mut table = LastSeen::new();
    table.scan_ast(&body);
    assert_eq!(table.get(id), Some(2));
    assert_eq!(table.get(member), Some(3));
    assert_eq!(table.get(t), Some(3));
}

#[test]
fn view_of_a_view_keeps_the_backing_structure_alive() {
    let (t, inner, leaf, r) = (sym(1), sym(2), sym(3), sym(4));
    let body = let_(
        inner,
        field(t, 0),
        let_(leaf, field(inner, 1), let_(r, add(leaf, leaf), Stmt::Ret(r))),
    );
    let mut table = LastSeen::new();
    table.scan_ast(&body);
    // Statements: 0 let inner, 1 let leaf, 2 let r, 3 ret.
    assert_eq!(table.get(leaf), Some(2));
    assert_eq!(table.get(inner), Some(2));
    assert_eq!(table.get(t), Some(2));
}

#[test]
fn view_can_be_released_before_its_structure() {
    let (s, d, u) = (sym(1), sym(2), sym(3));
    let body = let_(d, field(s, 0), let_(u, field(s, 1), Stmt::Ret(u)));
    let mut table = LastSeen::new();
    table.scan_ast(&body);
    // Statements: 0 let d = s.0, 1 let u = s.1, 2 ret u.
    assert_eq!(table.get(d), Some(0));
    assert_eq!(table.get(s), Some(2));
    assert_eq!(table.get(u), Some(2));
}

#[test]
fn rebinding_a_view_changes_its_source() {
    let (t, other, d, r) = (sym(1), sym(2), sym(3), sym(4));
    let body = let_(d, field(t, 0), let_(d, field(other, 0), let_(r, add(d, d), Stmt::Ret(r))));
    let mut table = LastSeen::new();
    table.scan_ast(&body);
    // Statements: 0 let d = t.0, 1 let d = other.0, 2 let r, 3 ret.
    assert_eq!(table.get(t), Some(1));
    assert_eq!(table.get(other), Some(2));
    assert_eq!(table.get(d), Some(2));
}

#[test]
fn checked_size_counts_the_statements() {
    assert_eq!(Stmt::Ret(sym(1)).checked_size(), Some(1));
    assert_eq!(Stmt::Jump(JoinPointId(sym(1)), vec![]).checked_size(), Some(1));
    assert_eq!(Stmt::RuntimeError("x".to_string()).checked_size(), Some(1));
    let nested = let_(sym(1), Expr::EmptyArray, Stmt::Refcounting(ModifyRc::Dec(sym(1)), Box::new(Stmt::Ret(sym(1)))));
    assert_eq!(nested.checked_size(), Some(3));
    let switch = Stmt::Switch {
        cond_symbol: sym(1),
        cond_layout: I64,
        branches: vec![
            Branch { value: 0, info: BranchInfo::Unknown, body: Stmt::Ret(sym(1)) },
            Branch {
                value: 1,
                info: BranchInfo::Unknown,
                body: let_(sym(2), Expr::EmptyArray, Stmt::Ret(sym(2))),
            },
        ],
        default_info: BranchInfo::Unknown,
        default_branch: Box::new(Stmt::Ret(sym(1))),
        ret_layout: I64,
    };
    assert_eq!(switch.checked_size(), Some(5));
}

#[test]
fn free_map_push_take_and_copy() {
    let arena = bumpalo::Bump::new();
    let mut map = FreeMap::new();
    assert_eq!(map.symbols_at(0), vec![]);
    map.push(3, sym(1), &arena);
    map.push(3, sym(2), &arena);
    map.push(0, sym(9), &arena);
    map.push(3, sym(1), &arena);
    assert_eq!(map.symbols_at(3), vec![sym(1), sym(2), sym(1)]);
    assert_eq!(map.symbols_at(0), vec![sym(9)]);
    assert_eq!(map.symbols_at(1), vec![]);
    let taken = map.take(3);
    assert_eq!(taken.map(|l| l.to_vec()), Some(vec![sym(1), sym(2), sym(1)]));
    assert_eq!(map.symbols_at(3), vec![]);
    assert!(map.take(3).is_none());
    assert!(map.take(7).is_none());
    assert_eq!(map.symbols_at(0), vec![sym(9)]);
}

#[test]
fn create_free_map_inverts_the_table() {
    let mut table = LastSeen::new();
    table.mark(sym(1), 0);
    table.mark(sym(2), 2);
    table.mark(sym(3), 1);
    table.mark(sym(1), 2);
    table.mark(sym(4), 5);
    table.mark(sym(5), 2);
    let arena = bumpalo::Bump::new();
    let map = create_free_map(&table, &arena);
    assert_eq!(map.symbols_at(0), vec![]);
    assert_eq!(map.symbols_at(1), vec![sym(3)]);
    assert_eq!(map.symbols_at(2), vec![sym(1), sym(2), sym(5)]);
    assert_eq!(map.symbols_at(5), vec![sym(4)]);
    assert_eq!(map.symbols_at(3), vec![]);

    let empty = create_free_map(&LastSeen::new(), &arena);
    for at in 0..4 {
        assert_eq!(empty.symbols_at(at), vec![]);
    }
}

#[test]
fn structure_is_seen_no_earlier_than_each_view_into_it() {
    // 0: let d = t.0
    // 1: let e = d.1
    // 2: let r = e + e
    // 3: let q = r + r
    // 4: ret q
    let (t, d, e, r, q) = (sym(1), sym(2), sym(3), sym(4), sym(5));
    let body = let_(
        d,
        field(t, 0),
        let_(e, field(d, 1), let_(r, add(e, e), let_(q, add(r, r), Stmt::Ret(q)))),
    );
    let mut table = LastSeen::new();
    table.scan_ast(&body);
    // `d` is referred to last at statement 1 and seen last at statement 2,
    // through `e`; `t` is referred to at statement 0 only.
    assert_eq!(table.get(e), Some(2));
    assert_eq!(table.get(d), Some(2));
    assert_eq!(table.get(t), Some(2));
    assert!(table.get(d) <= table.get(t));
    assert!(table.get(e) <= table.get(d));
    assert_eq!(table.get(r), Some(3));
}

#[test]
fn without_views_the_entry_is_the_last_reference() {
    // 0: let a = x + y
    // 1: let b = a + x
    // 2: ret b
    let (x, y, a, b) = (sym(1), sym(2), sym(3), sym(4));
    let body = let_(a, add(x, y), let_(b, add(a, x), Stmt::Ret(b)));
    let mut table = LastSeen::new();
    table.scan_ast(&body);
    assert_eq!(table.get(y), Some(0));
    assert_eq!(table.get(x), Some(1));
    assert_eq!(table.get(a), Some(1));
    assert_eq!(table.get(b), Some(2));
    assert_eq!(table.get(sym(9)), None);
}
