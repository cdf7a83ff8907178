use gen_dev::env::{module_is_app, Interns};
use gen_dev::error::{InternalError, LowerError, Unsupported};
use gen_dev::ir::{CallKind, CallType, ExprKind, Stmt, StmtKind};
use gen_dev::layout::{Builtin, FloatWidth, IntWidth, Layout, ShapeId};
use gen_dev::low_level::{
    LowLevel, BOOL_EQ, BOOL_NEQ, NUM_ABS, NUM_ACOS, NUM_ADD, NUM_ASIN, NUM_ATAN, NUM_IS_ZERO,
    NUM_LT, NUM_MUL, NUM_NEG, NUM_POW_INT, NUM_ROUND, NUM_SUB, NUM_TO_FLOAT, STR_CONCAT,
};
use gen_dev::relocation::Relocation;
use gen_dev::symbol::{find_reserved, JoinPointId, Symbol, DEV_TMP_BASE};
use gen_dev::symbol_map::{SymbolMap, SymbolSet};

#[test]
fn symbol_map_insert_get_remove() {
    let mut map: SymbolMap<u32> = SymbolMap::new();
    assert_eq!(map.get(Symbol(1)), None);
    assert!(!map.contains_key(Symbol(1)));
    assert_eq!(map.insert(Symbol(1), 10), None);
    assert_eq!(map.insert(Symbol(2), 20), None);
    assert_eq!(map.insert(Symbol(1), 11), Some(10));
    assert_eq!(map.get(Symbol(1)), Some(&11));
    assert_eq!(map.get(Symbol(2)), Some(&20));
    assert!(map.contains_key(Symbol(2)));
    assert_eq!(map.remove(Symbol(1)), Some(11));
    assert_eq!(map.remove(Symbol(1)), None);
    assert_eq!(map.get(Symbol(1)), None);
    assert_eq!(map.get(Symbol(2)), Some(&20));
    map.clear();
    assert_eq!(map.get(Symbol(2)), None);
}

#[test]
fn symbol_set_insert_and_contains() {
    let mut set = SymbolSet::new();
    assert!(!set.contains(Symbol(1)));
    assert!(set.insert(Symbol(1)));
    assert!(!set.insert(Symbol(1)));
    assert!(set.insert(Symbol(2)));
    assert!(set.contains(Symbol(1)));
    assert!(set.contains(Symbol(2)));
    assert!(!set.contains(Symbol(3)));
}

#[test]
fn interner_gives_module_ident_and_link_name() {
    let mut interns = Interns::new();
    assert_eq!(interns.module_string(Symbol(1)), None);
    assert_eq!(interns.ident_string(Symbol(1)), None);
    assert_eq!(interns.symbol_string(Symbol(1)), None);
    interns.insert(Symbol(1), "#UserApp", "main");
    interns.insert(Symbol(2), "Num", "add");
    assert_eq!(interns.module_string(Symbol(1)), Some("#UserApp"));
    assert_eq!(interns.ident_string(Symbol(1)), Some("main"));
    assert_eq!(interns.symbol_string(Symbol(1)), Some("#UserApp_main_1".to_string()));
    assert_eq!(interns.symbol_string(Symbol(2)), Some("Num_add_1".to_string()));
    assert_eq!(interns.module_string(Symbol(3)), None);
    interns.insert(Symbol(1), "Str", "concat");
    assert_eq!(interns.module_string(Symbol(1)), Some("Str"));
    assert_eq!(interns.symbol_string(Symbol(1)), Some("Str_concat_1".to_string()));
}

#[test]
fn application_modules_start_with_the_prefix() {
    assert!(module_is_app("#UserApp"));
    assert!(module_is_app("#UserApp.Helpers"));
    assert!(module_is_app("#UserAppé"));
    assert!(!module_is_app("#UserAp"));
    assert!(!module_is_app(""));
    assert!(!module_is_app("Num"));
    assert!(!module_is_app("x#UserApp"));
    assert!(!module_is_app("#userapp"));
    assert!(!module_is_app("#UserÄpp"));
    assert!(!module_is_app("éééééééé"));
}

#[test]
fn inlined_wrappers() {
    let table = [
        (STR_CONCAT, LowLevel::StrConcat),
        (NUM_ADD, LowLevel::NumAdd),
        (NUM_SUB, LowLevel::NumSub),
        (NUM_MUL, LowLevel::NumMul),
        (NUM_LT, LowLevel::NumLt),
        (NUM_ABS, LowLevel::NumAbs),
        (NUM_NEG, LowLevel::NumNeg),
        (NUM_ROUND, LowLevel::NumRound),
        (NUM_TO_FLOAT, LowLevel::NumToFloat),
        (NUM_POW_INT, LowLevel::NumPowInt),
        (NUM_ATAN, LowLevel::NumAtan),
        (NUM_ACOS, LowLevel::NumAcos),
        (NUM_ASIN, LowLevel::NumAsin),
        (BOOL_EQ, LowLevel::Eq),
        (BOOL_NEQ, LowLevel::NotEq),
    ];
    for (i, (number, op)) in table.iter().enumerate() {
        assert_eq!(LowLevel::from_inlined_wrapper(Symbol(*number)), Some(*op));
        for (other, _) in &table[i + 1..] {
            assert_ne!(number, other);
        }
        assert_ne!(*number, NUM_IS_ZERO);
    }
    // The wrapper of this builtin holds logic of its own.
    assert_eq!(LowLevel::from_inlined_wrapper(Symbol(NUM_IS_ZERO)), None);
    assert_eq!(LowLevel::from_inlined_wrapper(Symbol(0)), None);
    assert_eq!(LowLevel::from_inlined_wrapper(Symbol(DEV_TMP_BASE)), None);
}

#[test]
fn first_reserved_symbol_is_found() {
    assert_eq!(find_reserved(&[]), None);
    assert_eq!(find_reserved(&[Symbol(1), Symbol(DEV_TMP_BASE - 1)]), None);
    assert_eq!(
        find_reserved(&[Symbol(1), Symbol(u64::MAX), Symbol(DEV_TMP_BASE)]),
        Some(Symbol(u64::MAX))
    );
    assert!(Symbol(DEV_TMP_BASE).is_dev_tmp());
    assert!(Symbol::dev_tmp(9).is_dev_tmp());
    assert!(!Symbol(DEV_TMP_BASE - 1).is_dev_tmp());
    assert!(!Symbol(0).is_dev_tmp());
}

#[test]
fn scratch_symbols_lie_in_the_reserved_range() {
    assert_eq!(Symbol::dev_tmp(0), Symbol(DEV_TMP_BASE));
    assert_eq!(Symbol::dev_tmp(7), Symbol(DEV_TMP_BASE + 7));
    assert_eq!(Symbol::dev_tmp(u32::MAX), Symbol(u64::MAX));
    assert_eq!(JoinPointId(Symbol(3)), JoinPointId(Symbol(3)));
    assert_ne!(JoinPointId(Symbol(3)), JoinPointId(Symbol(4)));
}

#[test]
fn only_the_boolean_layout_is_bool() {
    assert!(Layout::Builtin(Builtin::Bool).is_bool());
    assert!(!Layout::Builtin(Builtin::Int(IntWidth::U8)).is_bool());
    assert!(!Layout::Builtin(Builtin::Float(FloatWidth::F32)).is_bool());
    assert!(!Layout::Builtin(Builtin::Str).is_bool());
    assert!(!Layout::Builtin(Builtin::Decimal).is_bool());
    assert!(!Layout::Builtin(Builtin::List(ShapeId(0))).is_bool());
    assert!(!Layout::Builtin(Builtin::Dict(ShapeId(0))).is_bool());
    assert!(!Layout::Struct(ShapeId(0)).is_bool());
    assert!(!Layout::Union(ShapeId(0)).is_bool());
    assert_ne!(Layout::Struct(ShapeId(1)), Layout::Struct(ShapeId(2)));
    assert_ne!(Layout::Struct(ShapeId(1)), Layout::Union(ShapeId(1)));
}

#[test]
fn kinds_of_constructs() {
    assert_eq!(Stmt::Ret(Symbol(1)).kind(), StmtKind::Ret);
    assert_eq!(Stmt::Jump(JoinPointId(Symbol(1)), vec![]).kind(), StmtKind::Jump);
    assert_eq!(Stmt::RuntimeError(String::new()).kind(), StmtKind::RuntimeError);
    assert_eq!(CallType::LowLevel { op: LowLevel::Not }.kind(), CallKind::LowLevel);
    assert_eq!(
        CallType::ByName { name: Symbol(1), ret_layout: Layout::Builtin(Builtin::Str), arg_layouts: vec![] }
            .kind(),
        CallKind::ByName
    );
    assert_eq!(
        CallType::Foreign { foreign_symbol: "f".to_string(), ret_layout: Layout::Builtin(Builtin::Str) }
            .kind(),
        CallKind::Foreign
    );
    assert_eq!(
        CallType::HigherOrder { op: LowLevel::ListLen, function_name: Symbol(1) }.kind(),
        CallKind::HigherOrder
    );
}

#[test]
fn the_two_error_classes_are_told_apart() {
    let internal = LowerError::Internal(InternalError::MissingLayout { symbol: Symbol(1) });
    let missing = LowerError::NotImplemented(Unsupported::Expression(ExprKind::Tag));
    assert!(internal.is_internal());
    assert!(!internal.is_not_implemented());
    assert!(missing.is_not_implemented());
    assert!(!missing.is_internal());
    assert_ne!(internal, missing);
}

#[test]
fn relocations_compare_by_value() {
    let local = Relocation::LocalData { offset: 4, data: vec![1, 2, 3] };
    assert_eq!(local.clone(), local);
    assert_ne!(local, Relocation::LocalData { offset: 4, data: vec![1, 2] });
    let function = Relocation::LinkedFunction { offset: 8, name: "malloc".to_string() };
    let data = Relocation::LinkedData { offset: 8, name: "malloc".to_string() };
    assert_ne!(function, data);
    let jump = Relocation::JmpToReturn { inst_loc: 10, inst_size: 5, offset: 20 };
    assert_eq!(jump, Relocation::JmpToReturn { inst_loc: 10, inst_size: 5, offset: 20 });
    assert_ne!(jump, Relocation::JmpToReturn { inst_loc: 10, inst_size: 5, offset: 21 });
}
