//! Interned identifiers of IR values.

use vstd::prelude::*;

verus! {

/// An opaque, interned identifier of one IR value. Two symbols are the same
/// value exactly when their numbers are equal.
#[derive(Clone, Copy, PartialEq, Eq, Hash, Debug, Structural)]
pub struct Symbol(pub u64);

/// The name of a join point: a symbol of its own.
#[derive(Clone, Copy, PartialEq, Eq, Hash, Debug, Structural)]
pub struct JoinPointId(pub Symbol);

/// First number of the range reserved for the engine's scratch symbols.
/// A procedure that names a symbol of the range is not lowered.
pub const DEV_TMP_BASE: u64 = 0xFFFF_FFFF_0000_0000;

/// Whether `s` lies in the range reserved for the engine's scratch
/// symbols.
pub open spec fn is_scratch(s: Symbol) -> bool {
    s.0 >= DEV_TMP_BASE
}

/// The first of `syms` that lies in the reserved range.
pub open spec fn first_reserved(syms: Seq<Symbol>) -> Option<Symbol>
    decreases syms.len(),
{
    if syms.len() == 0 {
        None
    } else if is_scratch(syms[0]) {
        Some(syms[0])
    } else {
        first_reserved(syms.skip(1))
    }
}

/// Where no symbol is found in the reserved range, none lies in it.
pub proof fn lemma_none_reserved(syms: Seq<Symbol>, s: Symbol)
    requires
        first_reserved(syms) is None,
        syms.contains(s),
    ensures
        !is_scratch(s),
    decreases syms.len(),
{
    if syms[0] != s {
        let i = choose|i: int| 0 <= i < syms.len() && syms[i] == s;
        assert(syms.skip(1)[i - 1] == s);
        lemma_none_reserved(syms.skip(1), s);
    }
}

/// The first of `syms` that lies in the reserved range.
pub fn find_reserved(syms: &[Symbol]) -> (found: Option<Symbol>)
    ensures
        found == first_reserved(syms@),
{
    let mut i: usize = 0;
    assert(syms@.skip(0) =~= syms@);
    while i < syms.len()
        invariant
            i <= syms.len(),
            first_reserved(syms@.skip(i as int)) == first_reserved(syms@),
        decreases syms.len() - i,
    {
        assert(syms@.skip(i as int).skip(1) =~= syms@.skip(i + 1));
        if syms[i].is_dev_tmp() {
            return Some(syms[i]);
        }
        i = i + 1;
    }
    None
}

impl Symbol {
    /// The `n`-th scratch symbol of the engine.
    pub open spec fn scratch(n: u32) -> Symbol {
        Symbol((DEV_TMP_BASE + n) as u64)
    }

    /// The `n`-th scratch symbol of the engine.
    pub fn dev_tmp(n: u32) -> (s: Symbol)
        ensures
            s == Symbol::scratch(n),
            is_scratch(s),
    {
        Symbol(DEV_TMP_BASE + n as u64)
    }

    /// Whether the symbol lies in the range reserved for scratch symbols.
    pub fn is_dev_tmp(&self) -> (b: bool)
        ensures
            b == is_scratch(*self),
    {
        self.0 >= DEV_TMP_BASE
    }
}

} // verus!
