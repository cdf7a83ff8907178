//! Machine representations of IR values.

use vstd::prelude::*;

verus! {

/// Width and signedness of an integer.
#[derive(Clone, Copy, PartialEq, Eq, Hash, Debug, Structural)]
pub enum IntWidth {
    U8,
    U16,
    U32,
    U64,
    U128,
    I8,
    I16,
    I32,
    I64,
    I128,
}

/// Width of a floating-point number.
#[derive(Clone, Copy, PartialEq, Eq, Hash, Debug, Structural)]
pub enum FloatWidth {
    F32,
    F64,
    F128,
}

/// Index of an aggregate's shape (its field or variant layouts) in the
/// layout table of the stage that produced the IR. Equal shapes have equal
/// indices.
#[derive(Clone, Copy, PartialEq, Eq, Hash, Debug, Structural)]
pub struct ShapeId(pub u32);

/// Representation of a primitive value.
#[derive(Clone, Copy, PartialEq, Eq, Hash, Debug, Structural)]
pub enum Builtin {
    Int(IntWidth),
    Float(FloatWidth),
    Bool,
    Decimal,
    Str,
    /// A list whose elements have the given shape.
    List(ShapeId),
    /// A dictionary whose key and value layouts have the given shape.
    Dict(ShapeId),
}

/// Structural description of a value's machine representation. Two layouts
/// are the same representation exactly when they are equal.
#[derive(Clone, Copy, PartialEq, Eq, Hash, Debug, Structural)]
pub enum Layout {
    Builtin(Builtin),
    /// A struct whose field layouts have the given shape.
    Struct(ShapeId),
    /// A tag union whose variants have the given shape.
    Union(ShapeId),
}

impl Layout {
    /// The layout of a boolean.
    pub open spec fn spec_bool() -> Layout {
        Layout::Builtin(Builtin::Bool)
    }

    /// Whether this is the layout of a boolean.
    pub fn is_bool(&self) -> (b: bool)
        ensures
            b == (*self == Layout::spec_bool()),
    {
        match self {
            Layout::Builtin(Builtin::Bool) => true,
            _ => false,
        }
    }
}

} // verus!
