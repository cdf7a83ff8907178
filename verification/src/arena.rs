//! Arena-allocated vectors.
//!
//! The lists that the engine builds while it lowers a procedure live in a
//! bump arena. This module declares the arena's types and states what the
//! calls into them do; Verus takes these statements on trust.

use vstd::prelude::*;
use crate::layout::Layout;
use crate::symbol::Symbol;

verus! {

/// `bumpalo::Bump`, the arena. Nothing is said of what it holds.
#[verifier::external_type_specification]
#[verifier::external_body]
pub struct ExBump<const MIN_ALIGN: usize>(bumpalo::Bump<MIN_ALIGN>);

/// `bumpalo::collections::Vec`, a growable vector whose buffer lives in the
/// arena.
#[verifier::external_type_specification]
#[verifier::external_body]
#[verifier::reject_recursive_types(T)]
pub struct ExBumpVec<'bump, T>(bumpalo::collections::Vec<'bump, T>);

/// The symbols that an arena vector holds, first to last.
pub uninterp spec fn bump_symbols(v: bumpalo::collections::Vec<'_, Symbol>) -> Seq<Symbol>;

/// The layouts that an arena vector holds, first to last.
pub uninterp spec fn bump_layouts(v: bumpalo::collections::Vec<'_, Layout>) -> Seq<Layout>;

/// `bumpalo::collections::Vec::new_in`: a vector in `arena` that holds
/// nothing.
#[verifier::external_body]
pub(crate) fn symbols_new_in<'a>(arena: &'a bumpalo::Bump) -> (v: bumpalo::collections::Vec<
    'a,
    Symbol,
>)
    ensures
        bump_symbols(v) == Seq::<Symbol>::empty(),
{
    bumpalo::collections::Vec::new_in(arena)
}

/// `bumpalo::collections::Vec::push`: `sym` is appended after the symbols
/// held so far. The call panics when the length would overflow `usize`, so
/// such vectors are excluded. It also gives up when the grown buffer would
/// pass `isize::MAX` bytes or the arena cannot grow: that is a limit of
/// the machine's memory, of which nothing is stated here.
#[verifier::external_body]
pub(crate) fn symbols_push<'a>(v: &mut bumpalo::collections::Vec<'a, Symbol>, sym: Symbol)
    requires
        bump_symbols(*old(v)).len() < usize::MAX,
    ensures
        bump_symbols(*final(v)) == bump_symbols(*old(v)).push(sym),
{
    v.push(sym)
}

/// `bumpalo::collections::Vec::as_slice`: the symbols held, as a slice.
#[verifier::external_body]
pub(crate) fn symbols_as_slice<'b, 'a>(v: &'b bumpalo::collections::Vec<'a, Symbol>) -> (s: &'b [Symbol])
    ensures
        s@ == bump_symbols(*v),
{
    v.as_slice()
}

/// `bumpalo::collections::Vec::new_in`: a vector in `arena` that holds
/// nothing.
#[verifier::external_body]
pub(crate) fn layouts_new_in<'a>(arena: &'a bumpalo::Bump) -> (v: bumpalo::collections::Vec<
    'a,
    Layout,
>)
    ensures
        bump_layouts(v) == Seq::<Layout>::empty(),
{
    bumpalo::collections::Vec::new_in(arena)
}

/// `bumpalo::collections::Vec::reserve`: makes room for `additional` more
/// layouts and leaves those held as they are. The call panics when the new
/// capacity would overflow `usize`, so such requests are excluded. It also
/// gives up when the new buffer would pass `isize::MAX` bytes or the arena
/// cannot grow: that is a limit of the machine's memory, of which nothing
/// is stated here.
#[verifier::external_body]
pub(crate) fn layouts_reserve<'a>(v: &mut bumpalo::collections::Vec<'a, Layout>, additional: usize)
    requires
        bump_layouts(*old(v)).len() + additional <= usize::MAX,
    ensures
        bump_layouts(*final(v)) == bump_layouts(*old(v)),
{
    v.reserve(additional)
}

/// `bumpalo::collections::Vec::push`: `layout` is appended after the
/// layouts held so far. The call panics when the length would overflow
/// `usize`, so such vectors are excluded. It also gives up when the grown
/// buffer would pass `isize::MAX` bytes or the arena cannot grow: that is
/// a limit of the machine's memory, of which nothing is stated here.
#[verifier::external_body]
pub(crate) fn layouts_push<'a>(v: &mut bumpalo::collections::Vec<'a, Layout>, layout: Layout)
    requires
        bump_layouts(*old(v)).len() < usize::MAX,
    ensures
        bump_layouts(*final(v)) == bump_layouts(*old(v)).push(layout),
{
    v.push(layout)
}

/// `bumpalo::collections::Vec::into_bump_slice`: the layouts held, as a
/// slice that lives as long as the arena.
#[verifier::external_body]
pub(crate) fn layouts_into_bump_slice<'a>(v: bumpalo::collections::Vec<'a, Layout>) -> (s: &'a [Layout])
    ensures
        s@ == bump_layouts(v),
{
    v.into_bump_slice()
}

} // verus!
