//! The compilation context: what is fixed for a whole compilation run.

use vstd::prelude::*;
use vstd::string::{StrSliceExecFns, StringExecFns};
use crate::symbol::Symbol;
use crate::symbol_map::{SymbolMap, SymbolSet};

verus! {

/// The names of one symbol: its module and its identifier in it.
pub struct SymbolName {
    pub module: String,
    pub ident: String,
}

/// The names of one symbol, as sequences of characters.
pub struct NameView {
    pub module: Seq<char>,
    pub ident: Seq<char>,
}

/// The name interner: the module and identifier that each symbol stands
/// for.
pub struct Interns {
    names: SymbolMap<SymbolName>,
}

impl View for Interns {
    type V = Map<Symbol, NameView>;

    closed spec fn view(&self) -> Map<Symbol, NameView> {
        Map::new(
            |s: Symbol| self.names@.contains_key(s),
            |s: Symbol| NameView { module: self.names@[s].module@, ident: self.names@[s].ident@ },
        )
    }
}

/// The prefix of the names of the modules that belong to the application.
pub open spec fn app_module_prefix() -> Seq<char> {
    seq!['#', 'U', 's', 'e', 'r', 'A', 'p', 'p']
}

/// Whether a module of this name belongs to the application.
pub open spec fn is_app_module(module: Seq<char>) -> bool {
    app_module_prefix().is_prefix_of(module)
}

/// The name under which the function `name` is linked: module and
/// identifier joined by `_`, followed by `_1`, the number of the
/// function's first specialization.
pub open spec fn link_name(name: NameView) -> Seq<char> {
    name.module + seq!['_'] + name.ident + seq!['_', '1']
}

/// Whether `module` is the name of a module of the application.
pub fn module_is_app(module: &str) -> (b: bool)
    ensures
        b == is_app_module(module@),
{
    let prefix = "#UserApp";
    proof {
        reveal_strlit("#UserApp");
    }
    assert(prefix@ =~= app_module_prefix());
    let n: usize = module.unicode_len();
    if n < 8 {
        return false;
    }
    let mut i: usize = 0;
    while i < 8
        invariant
            i <= 8,
            8 <= module@.len(),
            prefix@ == app_module_prefix(),
            forall|j: int| 0 <= j < i ==> module@[j] == app_module_prefix()[j],
        decreases 8 - i,
    {
        if module.get_char(i) != prefix.get_char(i) {
            return false;
        }
        i = i + 1;
    }
    assert(module@.subrange(0, 8) =~= app_module_prefix());
    true
}

impl Interns {
    /// An interner that knows no symbol.
    pub fn new() -> (interns: Self)
        ensures
            interns@ == Map::<Symbol, NameView>::empty(),
    {
        let interns = Interns { names: SymbolMap::new() };
        assert(interns@ =~= Map::<Symbol, NameView>::empty());
        interns
    }

    /// Records that `sym` stands for `ident` in `module`.
    pub fn insert(&mut self, sym: Symbol, module: &str, ident: &str)
        ensures
            final(self)@ == old(self)@.insert(sym, NameView { module: module@, ident: ident@ }),
    {
        let name = SymbolName { module: String::from_str(module), ident: String::from_str(ident) };
        self.names.insert(sym, name);
        assert(self@ =~= old(self)@.insert(sym, NameView { module: module@, ident: ident@ }));
    }

    /// The name of the module of `sym`, if the symbol is known.
    pub fn module_string(&self, sym: Symbol) -> (module: Option<&str>)
        ensures
            match module {
                Some(m) => self@.contains_key(sym) && m@ == self@[sym].module,
                None => !self@.contains_key(sym),
            },
    {
        match self.names.get(sym) {
            Some(name) => Some(name.module.as_str()),
            None => None,
        }
    }

    /// The identifier of `sym`, if the symbol is known.
    pub fn ident_string(&self, sym: Symbol) -> (ident: Option<&str>)
        ensures
            match ident {
                Some(i) => self@.contains_key(sym) && i@ == self@[sym].ident,
                None => !self@.contains_key(sym),
            },
    {
        match self.names.get(sym) {
            Some(name) => Some(name.ident.as_str()),
            None => None,
        }
    }

    /// The name under which the function `sym` is linked, if the symbol is
    /// known.
    pub fn symbol_string(&self, sym: Symbol) -> (linked: Option<String>)
        ensures
            match linked {
                Some(s) => self@.contains_key(sym) && s@ == link_name(self@[sym]),
                None => !self@.contains_key(sym),
            },
    {
        match self.names.get(sym) {
            Some(name) => {
                proof {
                    reveal_strlit("_");
                    reveal_strlit("_1");
                }
                let s = String::from_str(name.module.as_str());
                let s = s.concat("_");
                let s = s.concat(name.ident.as_str());
                let s = s.concat("_1");
                assert(s@ =~= link_name(self@[sym]));
                Some(s)
            },
            None => None,
        }
    }
}

/// The compilation context. It is read and never changed while procedures
/// are lowered.
pub struct Env<'a> {
    /// Where the lists built during lowering are allocated.
    pub arena: &'a bumpalo::Bump,
    /// The names of the symbols.
    pub interns: Interns,
    /// The symbols that the host can see.
    pub exposed_to_host: SymbolSet,
    /// Whether the load of a literal is put off until its first use.
    pub lazy_literals: bool,
    /// Whether wrappers of the allocator functions are generated.
    pub generate_allocators: bool,
}

} // verus!
