//! Reading a module out of the bytes of an object file.
//!
//! The container format is the business of the `object` crate. The linker
//! asks it for two things only: the symbol table, and the bytes of a section
//! with a given name.
use vstd::prelude::*;
use object::{Object, ObjectSection, ObjectSymbol};
use crate::error::{result_view, Failure, LinkError};
use crate::module::{symbols_view, Module, ModuleView, Symbol, SymbolView};

verus! {

/// Name of the section that holds a module's code.
pub const CODE_SECTION: &'static str = ".cs";

/// Name of the section that holds a module's relocation records.
pub const RELOCATION_SECTION: &'static str = ".rels.cs";

/// The symbols that the `object` crate finds in an object file, in the order
/// in which it yields them, or `None` where it cannot parse the bytes.
pub uninterp spec fn object_symbols(data: Seq<u8>) -> Option<Seq<SymbolView>>;

/// The bytes of the section called `name` that the `object` crate finds in
/// an object file, or `None` where it cannot parse the file or finds no such
/// section in it.
pub uninterp spec fn object_section(data: Seq<u8>, name: Seq<char>) -> Option<Seq<u8>>;

/// The view of a symbol table that may be missing.
pub open spec fn optional_symbols_view(symbols: Option<Vec<Symbol>>) -> Option<Seq<SymbolView>> {
    match symbols {
        Some(v) => Some(symbols_view(v@)),
        None => None,
    }
}

/// The view of section bytes that may be missing.
pub open spec fn optional_bytes_view(bytes: Option<Vec<u8>>) -> Option<Seq<u8>> {
    match bytes {
        Some(v) => Some(v@),
        None => None,
    }
}

/// `object::File::parse`, then `Object::symbols` on the file: each symbol
/// that the iterator yields, as its name (`ObjectSymbol::name`, absent where
/// that fails), whether it lies in a section
/// (`ObjectSymbol::section_index`), its address and its size. `None` where
/// the bytes do not parse.
#[verifier::external_body]
fn read_symbols(data: &[u8]) -> (symbols: Option<Vec<Symbol>>)
    ensures
        optional_symbols_view(symbols) == object_symbols(data@),
{
    let file = object::File::parse(data).ok()?;
    let mut symbols = Vec::new();
    for symbol in file.symbols() {
        symbols.push(Symbol {
            name: symbol.name().ok().map(String::from),
            defined: symbol.section_index().is_some(),
            address: symbol.address(),
            size: symbol.size(),
        });
    }
    Some(symbols)
}

/// `object::File::parse`, then `Object::section_by_name` on the file and
/// `ObjectSection::data` on the section: a copy of the section's bytes.
/// `None` where the bytes do not parse, where the file has no section of
/// that name, or where the section's bytes cannot be had.
#[verifier::external_body]
fn read_section(data: &[u8], name: &str) -> (bytes: Option<Vec<u8>>)
    ensures
        optional_bytes_view(bytes) == object_section(data@, name@),
{
    let file = object::File::parse(data).ok()?;
    let section = file.section_by_name(name)?;
    section.data().ok().map(|bytes| bytes.to_vec())
}

/// The module made of what was read from an object file, or the failure
/// where a part is missing. The symbol table is missing where the file does
/// not parse.
pub open spec fn assembled(
    symbols: Option<Seq<SymbolView>>,
    relocations: Option<Seq<u8>>,
    code: Option<Seq<u8>>,
) -> Result<ModuleView, Failure> {
    match (symbols, relocations, code) {
        (None, _, _) => Err(Failure::Unparseable),
        (Some(_), None, _) => Err(Failure::MissingRelocationSection),
        (Some(_), Some(_), None) => Err(Failure::MissingCodeSection),
        (Some(symbols), Some(relocations), Some(code)) => Ok(
            ModuleView { symbols, code, relocations },
        ),
    }
}

/// The module that an object file holds.
pub open spec fn module_of(data: Seq<u8>) -> Result<ModuleView, Failure> {
    assembled(
        object_symbols(data),
        object_section(data, RELOCATION_SECTION@),
        object_section(data, CODE_SECTION@),
    )
}

/// Puts together what was read from an object file.
pub fn assemble_module(
    symbols: Option<Vec<Symbol>>,
    relocations: Option<Vec<u8>>,
    code: Option<Vec<u8>>,
) -> (module: Result<Module, LinkError>)
    ensures
        result_view(module) == assembled(
            optional_symbols_view(symbols),
            optional_bytes_view(relocations),
            optional_bytes_view(code),
        ),
{
    let symbols = match symbols {
        Some(symbols) => symbols,
        None => return Err(LinkError::Unparseable),
    };
    let relocations = match relocations {
        Some(relocations) => relocations,
        None => return Err(LinkError::MissingRelocationSection),
    };
    let code = match code {
        Some(code) => code,
        None => return Err(LinkError::MissingCodeSection),
    };
    Ok(Module { symbols, code, relocations })
}

/// Reads a module out of the bytes of an object file.
pub fn read_module(data: &[u8]) -> (module: Result<Module, LinkError>)
    ensures
        result_view(module) == module_of(data@),
{
    let symbols = read_symbols(data);
    let relocations = read_section(data, RELOCATION_SECTION);
    let code = read_section(data, CODE_SECTION);
    assemble_module(symbols, relocations, code)
}

} // verus!
