//! Primitive operations with a fixed contract on their arguments.

use vstd::prelude::*;
use crate::symbol::Symbol;

verus! {

/// A low-level operation of the IR.
#[derive(Clone, Copy, PartialEq, Eq, Hash, Debug, Structural)]
pub enum LowLevel {
    StrConcat,
    StrJoinWith,
    StrIsEmpty,
    StrStartsWith,
    StrEndsWith,
    StrCountGraphemes,
    ListLen,
    ListGetUnsafe,
    ListAppend,
    NumAdd,
    NumAddWrap,
    NumAddChecked,
    NumSub,
    NumSubWrap,
    NumSubChecked,
    NumMul,
    NumMulWrap,
    NumMulChecked,
    NumGt,
    NumGte,
    NumLt,
    NumLte,
    NumCompare,
    NumDivUnchecked,
    NumRemUnchecked,
    NumIsMultipleOf,
    NumAbs,
    NumNeg,
    NumSin,
    NumCos,
    NumSqrtUnchecked,
    NumLogUnchecked,
    NumRound,
    NumToFloat,
    NumPow,
    NumCeiling,
    NumPowInt,
    NumFloor,
    NumIsFinite,
    NumAtan,
    NumAcos,
    NumAsin,
    Eq,
    NotEq,
    And,
    Or,
    Not,
    Hash,
    ExpectTrue,
}

/// Number of the builtin function that concatenates two strings.
pub const STR_CONCAT: u64 = 0x0000_0003_0000_0002;

/// Number of the builtin function that adds two numbers.
pub const NUM_ADD: u64 = 0x0000_0001_0000_0008;

/// Number of the builtin function that subtracts two numbers.
pub const NUM_SUB: u64 = 0x0000_0001_0000_0009;

/// Number of the builtin function that multiplies two numbers.
pub const NUM_MUL: u64 = 0x0000_0001_0000_000A;

/// Number of the builtin function that tells whether one number is less
/// than another.
pub const NUM_LT: u64 = 0x0000_0001_0000_000B;

/// Number of the builtin function that gives a number's absolute value.
pub const NUM_ABS: u64 = 0x0000_0001_0000_0010;

/// Number of the builtin function that negates a number.
pub const NUM_NEG: u64 = 0x0000_0001_0000_0011;

/// Number of the builtin function that rounds a fraction.
pub const NUM_ROUND: u64 = 0x0000_0001_0000_0017;

/// Number of the builtin function that tells whether a number is zero.
pub const NUM_IS_ZERO: u64 = 0x0000_0001_0000_0019;

/// Number of the builtin function that converts a number to a fraction.
pub const NUM_TO_FLOAT: u64 = 0x0000_0001_0000_0020;

/// Number of the builtin function that raises an integer to a power.
pub const NUM_POW_INT: u64 = 0x0000_0001_0000_0025;

/// Number of the builtin arc tangent.
pub const NUM_ATAN: u64 = 0x0000_0001_0000_0027;

/// Number of the builtin arc cosine.
pub const NUM_ACOS: u64 = 0x0000_0001_0000_0028;

/// Number of the builtin arc sine.
pub const NUM_ASIN: u64 = 0x0000_0001_0000_0029;

/// Number of the builtin structural equality.
pub const BOOL_EQ: u64 = 0x0000_0002_0000_0009;

/// Number of the builtin structural inequality.
pub const BOOL_NEQ: u64 = 0x0000_0002_0000_000A;

impl LowLevel {
    /// The low-level operation that the builtin function `symbol` merely
    /// wraps, if it is such a wrapper. A builtin whose wrapper holds logic
    /// of its own has none.
    pub open spec fn inlined_wrapper(symbol: Symbol) -> Option<LowLevel> {
        if symbol.0 == STR_CONCAT {
            Some(LowLevel::StrConcat)
        } else if symbol.0 == NUM_ADD {
            Some(LowLevel::NumAdd)
        } else if symbol.0 == NUM_SUB {
            Some(LowLevel::NumSub)
        } else if symbol.0 == NUM_MUL {
            Some(LowLevel::NumMul)
        } else if symbol.0 == NUM_LT {
            Some(LowLevel::NumLt)
        } else if symbol.0 == NUM_ABS {
            Some(LowLevel::NumAbs)
        } else if symbol.0 == NUM_NEG {
            Some(LowLevel::NumNeg)
        } else if symbol.0 == NUM_ROUND {
            Some(LowLevel::NumRound)
        } else if symbol.0 == NUM_TO_FLOAT {
            Some(LowLevel::NumToFloat)
        } else if symbol.0 == NUM_POW_INT {
            Some(LowLevel::NumPowInt)
        } else if symbol.0 == NUM_ATAN {
            Some(LowLevel::NumAtan)
        } else if symbol.0 == NUM_ACOS {
            Some(LowLevel::NumAcos)
        } else if symbol.0 == NUM_ASIN {
            Some(LowLevel::NumAsin)
        } else if symbol.0 == BOOL_EQ {
            Some(LowLevel::Eq)
        } else if symbol.0 == BOOL_NEQ {
            Some(LowLevel::NotEq)
        } else {
            None
        }
    }

    /// The low-level operation that the builtin function `symbol` merely
    /// wraps, if it is such a wrapper.
    pub fn from_inlined_wrapper(symbol: Symbol) -> (op: Option<LowLevel>)
        ensures
            op == LowLevel::inlined_wrapper(symbol),
    {
        let n: u64 = symbol.0;
        if n == STR_CONCAT {
            Some(LowLevel::StrConcat)
        } else if n == NUM_ADD {
            Some(LowLevel::NumAdd)
        } else if n == NUM_SUB {
            Some(LowLevel::NumSub)
        } else if n == NUM_MUL {
            Some(LowLevel::NumMul)
        } else if n == NUM_LT {
            Some(LowLevel::NumLt)
        } else if n == NUM_ABS {
            Some(LowLevel::NumAbs)
        } else if n == NUM_NEG {
            Some(LowLevel::NumNeg)
        } else if n == NUM_ROUND {
            Some(LowLevel::NumRound)
        } else if n == NUM_TO_FLOAT {
            Some(LowLevel::NumToFloat)
        } else if n == NUM_POW_INT {
            Some(LowLevel::NumPowInt)
        } else if n == NUM_ATAN {
            Some(LowLevel::NumAtan)
        } else if n == NUM_ACOS {
            Some(LowLevel::NumAcos)
        } else if n == NUM_ASIN {
            Some(LowLevel::NumAsin)
        } else if n == BOOL_EQ {
            Some(LowLevel::Eq)
        } else if n == BOOL_NEQ {
            Some(LowLevel::NotEq)
        } else {
            None
        }
    }
}

} // verus!
