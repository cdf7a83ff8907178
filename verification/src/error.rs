//! The two ways in which lowering fails. Neither is recovered from: the
//! procedure's code is discarded.

use vstd::prelude::*;
use crate::ir::{CallKind, ExprKind, StmtKind};
use crate::layout::Layout;
use crate::low_level::LowLevel;
use crate::symbol::Symbol;

verus! {

/// The operation whose contract an argument list has broken.
#[derive(Clone, Copy, PartialEq, Eq, Hash, Debug, Structural)]
pub enum Subject {
    LowLevel(LowLevel),
    Function(Symbol),
}

/// The IR breaks an invariant that this stage relies on: a bug of an
/// earlier stage.
#[derive(Clone, Copy, PartialEq, Eq, Hash, Debug, Structural)]
pub enum InternalError {
    /// A symbol whose layout was recorded as `want` is given the layout
    /// `got`.
    LayoutOverwrite { symbol: Symbol, got: Layout, want: Layout },
    /// An argument has no recorded layout.
    MissingLayout { symbol: Symbol },
    /// A symbol has no name in the interner.
    MissingName { symbol: Symbol },
    /// A procedure names a symbol of the range that is reserved for the
    /// engine's scratch symbols.
    ReservedSymbol { symbol: Symbol },
    /// The operation takes `expected` arguments and was given `arguments`
    /// arguments with `layouts` layouts.
    ArgumentCount { subject: Subject, expected: usize, arguments: usize, layouts: usize },
    /// The operation's arguments must share one layout.
    ArgumentLayouts { subject: Subject, first: Layout, second: Layout },
    /// The operation's result must have the layout `want`.
    ReturnLayout { subject: Subject, got: Layout, want: Layout },
}

/// A construct that this backend does not lower.
#[derive(Clone, Copy, PartialEq, Eq, Hash, Debug, Structural)]
pub enum Unsupported {
    Statement(StmtKind),
    Expression(ExprKind),
    CallType(CallKind),
    LowLevel(LowLevel),
    Function(Symbol),
}

/// Why a procedure could not be lowered.
#[derive(Clone, Copy, PartialEq, Eq, Hash, Debug, Structural)]
pub enum LowerError {
    Internal(InternalError),
    NotImplemented(Unsupported),
}

impl LowerError {
    /// Whether the error reports a broken invariant of the IR.
    pub fn is_internal(&self) -> (b: bool)
        ensures
            b == (*self is Internal),
    {
        match self {
            LowerError::Internal(_) => true,
            LowerError::NotImplemented(_) => false,
        }
    }

    /// Whether the error reports a construct that is not lowered yet.
    pub fn is_not_implemented(&self) -> (b: bool)
        ensures
            b == (*self is NotImplemented),
    {
        match self {
            LowerError::Internal(_) => false,
            LowerError::NotImplemented(_) => true,
        }
    }
}

} // verus!
