//! What the linker reads of one relocatable object module.
use vstd::prelude::*;

verus! {

/// One entry of a module's symbol table.
#[derive(Debug, Clone, PartialEq, Eq)]
pub struct Symbol {
    /// The symbol's name, if it has one.
    pub name: Option<String>,
    /// Whether the symbol is defined in a section of its module.
    pub defined: bool,
    /// The symbol's address, relative to the start of its module's code.
    pub address: u64,
    /// The symbol's size in bytes.
    pub size: u64,
}

/// A `Symbol` as a mathematical value.
pub struct SymbolView {
    pub name: Option<Seq<char>>,
    pub defined: bool,
    pub address: nat,
    pub size: nat,
}

/// The view of an optional name.
pub open spec fn name_view(name: Option<String>) -> Option<Seq<char>> {
    match name {
        Some(n) => Some(n@),
        None => None,
    }
}

impl View for Symbol {
    type V = SymbolView;

    open spec fn view(&self) -> SymbolView {
        SymbolView {
            name: name_view(self.name),
            defined: self.defined,
            address: self.address as nat,
            size: self.size as nat,
        }
    }
}

/// The views of a sequence of symbols, in the same order.
pub open spec fn symbols_view(symbols: Seq<Symbol>) -> Seq<SymbolView> {
    Seq::new(symbols.len(), |i: int| symbols[i]@)
}

/// One relocatable object module: its symbol table in the order of the
/// object file, the bytes of its code section and the bytes of its
/// relocation section.
#[derive(Debug, Clone, PartialEq, Eq)]
pub struct Module {
    pub symbols: Vec<Symbol>,
    pub code: Vec<u8>,
    pub relocations: Vec<u8>,
}

/// A `Module` as a mathematical value.
pub struct ModuleView {
    pub symbols: Seq<SymbolView>,
    pub code: Seq<u8>,
    pub relocations: Seq<u8>,
}

impl View for Module {
    type V = ModuleView;

    open spec fn view(&self) -> ModuleView {
        ModuleView {
            symbols: symbols_view(self.symbols@),
            code: self.code@,
            relocations: self.relocations@,
        }
    }
}

/// The views of a sequence of modules, in the same order.
pub open spec fn modules_view(modules: Seq<Module>) -> Seq<ModuleView> {
    Seq::new(modules.len(), |i: int| modules[i]@)
}

} // verus!
