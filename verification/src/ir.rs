//! The monomorphic intermediate representation that the engine consumes.

use vstd::prelude::*;
use crate::layout::Layout;
use crate::low_level::LowLevel;
use crate::symbol::{JoinPointId, Symbol};

verus! {

/// A value known at compile time.
#[derive(Clone, Debug, PartialEq, Eq)]
pub enum Literal {
    Int(i128),
    /// A fraction, as the bits of its IEEE 754 double.
    Float(u64),
    /// A fixed-point decimal, as its scaled integer.
    Decimal(i128),
    Str(String),
    Bool(bool),
    Byte(u8),
}

/// One element of an array expression.
#[derive(Clone, Debug, PartialEq, Eq)]
pub enum ListLiteralElement {
    Literal(Literal),
    Symbol(Symbol),
}

/// The name of a tag.
#[derive(Clone, Debug, PartialEq, Eq)]
pub enum TagName {
    Global(String),
    Private(Symbol),
    Closure(Symbol),
}

/// How a call finds its callee.
#[derive(Clone, Debug, PartialEq, Eq)]
pub enum CallType {
    ByName { name: Symbol, ret_layout: Layout, arg_layouts: Vec<Layout> },
    Foreign { foreign_symbol: String, ret_layout: Layout },
    LowLevel { op: LowLevel },
    HigherOrder { op: LowLevel, function_name: Symbol },
}

/// The kinds of call, for diagnostics.
#[derive(Clone, Copy, PartialEq, Eq, Hash, Debug, Structural)]
pub enum CallKind {
    ByName,
    Foreign,
    LowLevel,
    HigherOrder,
}

/// A call with its argument symbols.
#[derive(Clone, Debug, PartialEq, Eq)]
pub struct Call {
    pub call_type: CallType,
    pub arguments: Vec<Symbol>,
}

/// An expression: what a `Let` binds.
#[derive(Clone, Debug, PartialEq, Eq)]
pub enum Expr {
    Literal(Literal),
    Call(Call),
    Tag { tag_layout: Layout, tag_name: TagName, tag_id: u16, arguments: Vec<Symbol> },
    Struct(Vec<Symbol>),
    StructAtIndex { index: u64, field_layouts: Vec<Layout>, structure: Symbol },
    GetTagId { structure: Symbol, union_layout: Layout },
    UnionAtIndex { structure: Symbol, tag_id: u16, union_layout: Layout, index: u64 },
    Array { elem_layout: Layout, elems: Vec<ListLiteralElement> },
    EmptyArray,
    Reuse {
        symbol: Symbol,
        update_tag_id: bool,
        tag_layout: Layout,
        tag_name: TagName,
        tag_id: u16,
        arguments: Vec<Symbol>,
    },
    Reset { symbol: Symbol },
    RuntimeErrorFunction(String),
}

/// The kinds of expression, for diagnostics.
#[derive(Clone, Copy, PartialEq, Eq, Hash, Debug, Structural)]
pub enum ExprKind {
    Literal,
    Call,
    Tag,
    Struct,
    StructAtIndex,
    GetTagId,
    UnionAtIndex,
    Array,
    EmptyArray,
    Reuse,
    Reset,
    RuntimeErrorFunction,
}

/// An adjustment of a reference count.
#[derive(Clone, Copy, PartialEq, Eq, Hash, Debug, Structural)]
pub enum ModifyRc {
    Inc(Symbol, u64),
    Dec(Symbol),
    DecRef(Symbol),
}

/// What a branch of a `Switch` has learnt about the scrutinee.
#[derive(Clone, Copy, PartialEq, Eq, Hash, Debug, Structural)]
pub enum BranchInfo {
    Unknown,
    Constructor { scrutinee: Symbol, layout: Layout, tag_id: u16 },
}

/// A parameter of a join point.
#[derive(Clone, Copy, PartialEq, Eq, Hash, Debug, Structural)]
pub struct Param {
    pub symbol: Symbol,
    pub borrow: bool,
    pub layout: Layout,
}

/// Whether a procedure calls itself in tail position, and through which
/// join point.
#[derive(Clone, Copy, PartialEq, Eq, Hash, Debug, Structural)]
pub enum SelfRecursive {
    NotSelfRecursive,
    SelfRecursive(JoinPointId),
}

/// A branch of a `Switch`: taken when the condition equals `value`.
#[derive(Debug, PartialEq, Eq)]
pub struct Branch {
    pub value: u64,
    pub info: BranchInfo,
    pub body: Stmt,
}

/// A statement. A procedure body is a tree of statements.
#[derive(Debug, PartialEq, Eq)]
pub enum Stmt {
    Let(Symbol, Expr, Layout, Box<Stmt>),
    Switch {
        cond_symbol: Symbol,
        cond_layout: Layout,
        branches: Vec<Branch>,
        default_info: BranchInfo,
        default_branch: Box<Stmt>,
        ret_layout: Layout,
    },
    Ret(Symbol),
    Refcounting(ModifyRc, Box<Stmt>),
    Join { id: JoinPointId, parameters: Vec<Param>, body: Box<Stmt>, remainder: Box<Stmt> },
    Jump(JoinPointId, Vec<Symbol>),
    RuntimeError(String),
}

/// The kinds of statement, for diagnostics.
#[derive(Clone, Copy, PartialEq, Eq, Hash, Debug, Structural)]
pub enum StmtKind {
    Let,
    Switch,
    Ret,
    Refcounting,
    Join,
    Jump,
    RuntimeError,
}

/// A procedure: arguments with their layouts, a return layout and a body.
#[derive(Debug, PartialEq, Eq)]
pub struct Proc {
    pub name: Symbol,
    pub args: Vec<(Layout, Symbol)>,
    pub body: Stmt,
    pub ret_layout: Layout,
    pub is_self_recursive: SelfRecursive,
}

impl ModifyRc {
    /// The symbol whose count is adjusted.
    pub open spec fn symbol(self) -> Symbol {
        match self {
            ModifyRc::Inc(s, _) => s,
            ModifyRc::Dec(s) => s,
            ModifyRc::DecRef(s) => s,
        }
    }

    /// The symbol whose count is adjusted.
    pub fn get_symbol(&self) -> (s: Symbol)
        ensures
            s == self.symbol(),
    {
        match self {
            ModifyRc::Inc(s, _) => *s,
            ModifyRc::Dec(s) => *s,
            ModifyRc::DecRef(s) => *s,
        }
    }
}

impl TagName {
    /// The symbol that names the tag, for a private or closure tag.
    pub open spec fn symbols(self) -> Seq<Symbol> {
        match self {
            TagName::Global(_) => seq![],
            TagName::Private(s) => seq![s],
            TagName::Closure(s) => seq![s],
        }
    }
}

impl CallType {
    /// The kind of this call.
    pub open spec fn spec_kind(self) -> CallKind {
        match self {
            CallType::ByName { .. } => CallKind::ByName,
            CallType::Foreign { .. } => CallKind::Foreign,
            CallType::LowLevel { .. } => CallKind::LowLevel,
            CallType::HigherOrder { .. } => CallKind::HigherOrder,
        }
    }

    /// The kind of this call.
    pub fn kind(&self) -> (k: CallKind)
        ensures
            k == self.spec_kind(),
    {
        match self {
            CallType::ByName { .. } => CallKind::ByName,
            CallType::Foreign { .. } => CallKind::Foreign,
            CallType::LowLevel { .. } => CallKind::LowLevel,
            CallType::HigherOrder { .. } => CallKind::HigherOrder,
        }
    }
}

/// The symbols among the elements of an array expression, in order.
pub open spec fn element_symbols(elems: Seq<ListLiteralElement>) -> Seq<Symbol>
    decreases elems.len(),
{
    if elems.len() == 0 {
        seq![]
    } else {
        let rest = element_symbols(elems.drop_last());
        match elems.last() {
            ListLiteralElement::Symbol(s) => rest.push(s),
            ListLiteralElement::Literal(_) => rest,
        }
    }
}

impl Expr {
    /// The kind of this expression.
    pub open spec fn spec_kind(self) -> ExprKind {
        match self {
            Expr::Literal(_) => ExprKind::Literal,
            Expr::Call(_) => ExprKind::Call,
            Expr::Tag { .. } => ExprKind::Tag,
            Expr::Struct(_) => ExprKind::Struct,
            Expr::StructAtIndex { .. } => ExprKind::StructAtIndex,
            Expr::GetTagId { .. } => ExprKind::GetTagId,
            Expr::UnionAtIndex { .. } => ExprKind::UnionAtIndex,
            Expr::Array { .. } => ExprKind::Array,
            Expr::EmptyArray => ExprKind::EmptyArray,
            Expr::Reuse { .. } => ExprKind::Reuse,
            Expr::Reset { .. } => ExprKind::Reset,
            Expr::RuntimeErrorFunction(_) => ExprKind::RuntimeErrorFunction,
        }
    }

    /// The kind of this expression.
    pub fn kind(&self) -> (k: ExprKind)
        ensures
            k == self.spec_kind(),
    {
        match self {
            Expr::Literal(_) => ExprKind::Literal,
            Expr::Call(_) => ExprKind::Call,
            Expr::Tag { .. } => ExprKind::Tag,
            Expr::Struct(_) => ExprKind::Struct,
            Expr::StructAtIndex { .. } => ExprKind::StructAtIndex,
            Expr::GetTagId { .. } => ExprKind::GetTagId,
            Expr::UnionAtIndex { .. } => ExprKind::UnionAtIndex,
            Expr::Array { .. } => ExprKind::Array,
            Expr::EmptyArray => ExprKind::EmptyArray,
            Expr::Reuse { .. } => ExprKind::Reuse,
            Expr::Reset { .. } => ExprKind::Reset,
            Expr::RuntimeErrorFunction(_) => ExprKind::RuntimeErrorFunction,
        }
    }

    /// The symbols that the expression refers to, in the order in which
    /// they occur in it.
    pub open spec fn symbols(self) -> Seq<Symbol> {
        match self {
            Expr::Literal(_) => seq![],
            Expr::Call(call) => call.arguments@,
            Expr::Tag { arguments, .. } => arguments@,
            Expr::Struct(fields) => fields@,
            Expr::StructAtIndex { structure, .. } => seq![structure],
            Expr::GetTagId { structure, .. } => seq![structure],
            Expr::UnionAtIndex { structure, .. } => seq![structure],
            Expr::Array { elems, .. } => element_symbols(elems@),
            Expr::EmptyArray => seq![],
            Expr::Reuse { symbol, tag_name, arguments, .. } => seq![symbol] + tag_name.symbols()
                + arguments@,
            Expr::Reset { symbol, .. } => seq![symbol],
            Expr::RuntimeErrorFunction(_) => seq![],
        }
    }

    /// The structure that the value of the expression is a view into: the
    /// source of a field, tag-id or union-member extraction.
    pub open spec fn source(self) -> Option<Symbol> {
        match self {
            Expr::StructAtIndex { structure, .. } => Some(structure),
            Expr::GetTagId { structure, .. } => Some(structure),
            Expr::UnionAtIndex { structure, .. } => Some(structure),
            _ => None,
        }
    }
}

/// The symbols of a list of join-point parameters, in order.
pub open spec fn param_symbols(params: Seq<Param>) -> Seq<Symbol> {
    Seq::new(params.len(), |i: int| params[i].symbol)
}

/// Number of statements in the bodies of `branches`.
pub open spec fn branches_size(branches: Seq<Branch>) -> nat
    decreases branches,
{
    if branches.len() == 0 {
        0
    } else {
        branches[0].body.size() + branches_size(branches.skip(1))
    }
}

impl Stmt {
    /// The kind of this statement.
    pub open spec fn spec_kind(self) -> StmtKind {
        match self {
            Stmt::Let(..) => StmtKind::Let,
            Stmt::Switch { .. } => StmtKind::Switch,
            Stmt::Ret(_) => StmtKind::Ret,
            Stmt::Refcounting(..) => StmtKind::Refcounting,
            Stmt::Join { .. } => StmtKind::Join,
            Stmt::Jump(..) => StmtKind::Jump,
            Stmt::RuntimeError(_) => StmtKind::RuntimeError,
        }
    }

    /// The kind of this statement.
    pub fn kind(&self) -> (k: StmtKind)
        ensures
            k == self.spec_kind(),
    {
        match self {
            Stmt::Let(..) => StmtKind::Let,
            Stmt::Switch { .. } => StmtKind::Switch,
            Stmt::Ret(_) => StmtKind::Ret,
            Stmt::Refcounting(..) => StmtKind::Refcounting,
            Stmt::Join { .. } => StmtKind::Join,
            Stmt::Jump(..) => StmtKind::Jump,
            Stmt::RuntimeError(_) => StmtKind::RuntimeError,
        }
    }

    /// Number of statements in the tree rooted at this statement.
    ///
    /// A statement is identified by its index in the pre-order walk of the
    /// procedure body: the body itself has index 0, the continuation of a
    /// `Let` or `Refcounting` follows it directly, the branches of a
    /// `Switch` follow it in order with the default branch last, and the
    /// body of a `Join` comes before its remainder.
    pub open spec fn size(self) -> nat
        decreases self,
    {
        match self {
            Stmt::Let(_, _, _, following) => 1 + following.size(),
            Stmt::Switch { branches, default_branch, .. } => 1 + branches_size(branches@)
                + default_branch.size(),
            Stmt::Ret(_) => 1,
            Stmt::Refcounting(_, following) => 1 + following.size(),
            Stmt::Join { body, remainder, .. } => 1 + body.size() + remainder.size(),
            Stmt::Jump(..) => 1,
            Stmt::RuntimeError(_) => 1,
        }
    }

    /// Number of statements in the tree rooted at this statement, if it
    /// fits a `usize`.
    pub fn checked_size(&self) -> (n: Option<usize>)
        ensures
            match n {
                Some(n) => n == self.size(),
                None => self.size() > usize::MAX,
            },
        decreases self,
    {
        match self {
            Stmt::Let(_, _, _, following) => match following.checked_size() {
                Some(n) => n.checked_add(1),
                None => None,
            },
            Stmt::Switch { branches, default_branch, .. } => {
                let mut total: usize = 1;
                let mut i: usize = 0;
                assert(branches@.skip(0) =~= branches@);
                while i < branches.len()
                    invariant
                        i <= branches.len(),
                        total + branches_size(branches@.skip(i as int)) == 1 + branches_size(
                            branches@,
                        ),
                        *self is Switch,
                        self->branches == *branches,
                    decreases branches.len() - i,
                {
                    assert(branches@.skip(i as int).skip(1) =~= branches@.skip(i + 1));
                    let size = match branches[i].body.checked_size() {
                        Some(size) => size,
                        None => {
                            return None;
                        },
                    };
                    total = match total.checked_add(size) {
                        Some(total) => total,
                        None => {
                            return None;
                        },
                    };
                    i = i + 1;
                }
                match default_branch.checked_size() {
                    Some(n) => total.checked_add(n),
                    None => None,
                }
            },
            Stmt::Ret(_) => Some(1),
            Stmt::Refcounting(_, following) => match following.checked_size() {
                Some(n) => n.checked_add(1),
                None => None,
            },
            Stmt::Join { body, remainder, .. } => {
                let first = match body.checked_size() {
                    Some(first) => first,
                    None => {
                        return None;
                    },
                };
                let second = match remainder.checked_size() {
                    Some(second) => second,
                    None => {
                        return None;
                    },
                };
                match first.checked_add(second) {
                    Some(both) => both.checked_add(1),
                    None => None,
                }
            },
            Stmt::Jump(..) => Some(1),
            Stmt::RuntimeError(_) => Some(1),
        }
    }

    /// The symbols that the statement itself refers to, without those of
    /// the statements below it: for a `Let`, the bound symbol and then the
    /// symbols of the expression.
    pub open spec fn symbols(self) -> Seq<Symbol> {
        match self {
            Stmt::Let(sym, expr, _, _) => seq![sym] + expr.symbols(),
            Stmt::Switch { cond_symbol, .. } => seq![cond_symbol],
            Stmt::Ret(sym) => seq![sym],
            Stmt::Refcounting(modify, _) => seq![modify.symbol()],
            Stmt::Join { parameters, .. } => param_symbols(parameters@),
            Stmt::Jump(id, args) => seq![id.0] + args@,
            Stmt::RuntimeError(_) => seq![],
        }
    }
}

} // verus!
