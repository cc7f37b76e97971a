//! The linker as mathematics: what each step makes of the state before it.
//!
//! A link has two phases. The first takes the modules one by one, in the
//! order given: it enters their symbols into the address table, appends
//! their code to the image and notes their relocations. The second runs
//! once the table is complete: it resolves every noted relocation and puts
//! the trampoline in front of the image. A failure in any step ends the
//! link; the first failure in this order is the one reported.
use vstd::prelude::*;
use crate::arch::{addressable, unit_of, ENTRY, HLT, INSTRUCTION_BYTES};
use crate::codegen::{entrypoint_bytes, load_addr_bytes, LOAD_ADDR_LEN};
use crate::error::Failure;
use crate::ingest::module_of;
use crate::module::{ModuleView, SymbolView};
use crate::reloc::{relocations_of, Relocation};

verus! {

/// A symbol as the linker keeps it: with its ordinal among the symbols of
/// all modules.
pub struct SymbolRecord {
    pub name: Option<Seq<char>>,
    pub symbol_index: nat,
    pub address: nat,
    pub size: nat,
}

/// A relocation that waits for the address table to be complete.
pub struct Patch {
    /// Ordinal of the target among the symbols of all modules; `None` where
    /// the record names a symbol that its module does not have.
    pub symbol_index: Option<nat>,
    /// Offset of the patch in the merged code.
    pub cs_offset: nat,
}

/// The state of a link between two modules.
pub struct LinkerView {
    /// The symbols of all modules so far, in order.
    pub symbols: Seq<SymbolRecord>,
    /// The address in the merged code of every symbol defined so far.
    pub addresses: Map<Seq<char>, nat>,
    /// The merged code.
    pub image: Seq<u8>,
    /// The relocations of all modules so far, in order.
    pub patches: Seq<Patch>,
}

/// The state of a link before the first module.
pub open spec fn initial() -> LinkerView {
    LinkerView {
        symbols: Seq::empty(),
        addresses: Map::empty(),
        image: Seq::empty(),
        patches: Seq::empty(),
    }
}

/// Whether a symbol is a definition: it has a name and lies in a section.
pub open spec fn is_definition(symbol: SymbolView) -> bool {
    symbol.defined && symbol.name is Some
}

/// Whether a symbol defines the entry function.
pub open spec fn is_entry(symbol: SymbolView) -> bool {
    symbol.defined && symbol.name == Some(ENTRY@)
}

/// The address table after one more symbol of a module whose code starts at
/// `base`. A definition is entered at `base` plus its own address. It fails
/// where its name is taken, or where it is an entry function too short to
/// hold an instruction.
pub open spec fn with_symbol(
    addresses: Map<Seq<char>, nat>,
    base: nat,
    symbol: SymbolView,
) -> Result<Map<Seq<char>, nat>, Failure> {
    if is_definition(symbol) {
        let name = symbol.name->0;
        if addresses.contains_key(name) {
            Err(Failure::DuplicateSymbol(name))
        } else if is_entry(symbol) && symbol.size < INSTRUCTION_BYTES {
            Err(Failure::EntryTooSmall)
        } else {
            Ok(addresses.insert(name, base + symbol.address))
        }
    } else {
        Ok(addresses)
    }
}

/// The address table after the symbols of a module, taken in order.
pub open spec fn with_symbols(
    addresses: Map<Seq<char>, nat>,
    base: nat,
    symbols: Seq<SymbolView>,
) -> Result<Map<Seq<char>, nat>, Failure>
    decreases symbols.len(),
{
    if symbols.len() == 0 {
        Ok(addresses)
    } else {
        match with_symbols(addresses, base, symbols.drop_last()) {
            Ok(before) => with_symbol(before, base, symbols.last()),
            Err(failure) => Err(failure),
        }
    }
}

/// Where the last instruction of the entry function starts, if one of
/// `symbols` defines it, for a module whose code starts at `base`.
pub open spec fn halt_offset(base: nat, symbols: Seq<SymbolView>) -> Option<int>
    decreases symbols.len(),
{
    if symbols.len() == 0 {
        None
    } else if is_entry(symbols.last()) {
        Some(base + symbols.last().address + symbols.last().size - INSTRUCTION_BYTES)
    } else {
        halt_offset(base, symbols.drop_last())
    }
}

/// `image` with the bytes from `at` on replaced by `bytes`.
pub open spec fn overwritten(image: Seq<u8>, at: int, bytes: Seq<u8>) -> Seq<u8> {
    Seq::new(
        image.len(),
        |i: int|
            if at <= i < at + bytes.len() {
                bytes[i - at]
            } else {
                image[i]
            },
    )
}

/// The instruction that stops the machine.
pub open spec fn halt_bytes() -> Seq<u8> {
    seq![HLT, HLT]
}

/// The image after the code of a module is appended and, where the module
/// defines the entry function, the instruction at `halt` is replaced by a
/// halt. It fails where that instruction does not lie within the image.
pub open spec fn with_code(image: Seq<u8>, code: Seq<u8>, halt: Option<int>) -> Result<
    Seq<u8>,
    Failure,
> {
    match halt {
        None => Ok(image + code),
        Some(at) => if at + INSTRUCTION_BYTES <= image.len() + code.len() {
            Ok(overwritten(image + code, at, halt_bytes()))
        } else {
            Err(Failure::PatchOutOfRange)
        },
    }
}

/// The record kept of the `i`-th symbol of a module whose first symbol has
/// the ordinal `first`.
pub open spec fn record_of(symbol: SymbolView, first: nat, i: int) -> SymbolRecord {
    SymbolRecord {
        name: symbol.name,
        symbol_index: (first + i) as nat,
        address: symbol.address,
        size: symbol.size,
    }
}

/// The records kept of the symbols of a module.
pub open spec fn records_of(symbols: Seq<SymbolView>, first: nat) -> Seq<SymbolRecord> {
    Seq::new(symbols.len(), |i: int| record_of(symbols[i], first, i))
}

/// The patch noted for a relocation of a module whose code starts at `base`
/// and which has `count` symbols, the first with the ordinal `first`.
pub open spec fn patch_of(relocation: Relocation, base: nat, first: nat, count: nat) -> Patch {
    Patch {
        symbol_index: if relocation.symbol < count {
            Some(first + relocation.symbol as nat)
        } else {
            None
        },
        cs_offset: base + relocation.offset as nat,
    }
}

/// The patches noted for the relocations of a module.
pub open spec fn patches_of(relocations: Seq<Relocation>, base: nat, first: nat, count: nat) -> Seq<
    Patch,
> {
    Seq::new(relocations.len(), |i: int| patch_of(relocations[i], base, first, count))
}

/// The state after one more module: its symbols are defined, its code is
/// appended, the entry function is made to halt, and its relocations are
/// noted.
pub open spec fn merged(state: LinkerView, module: ModuleView) -> Result<LinkerView, Failure> {
    let base = state.image.len();
    let first = state.symbols.len();
    match with_symbols(state.addresses, base, module.symbols) {
        Err(failure) => Err(failure),
        Ok(addresses) => match with_code(state.image, module.code, halt_offset(base, module.symbols)) {
            Err(failure) => Err(failure),
            Ok(image) => match relocations_of(module.relocations) {
                Err(failure) => Err(failure),
                Ok(relocations) => Ok(
                    LinkerView {
                        symbols: state.symbols + records_of(module.symbols, first),
                        addresses,
                        image,
                        patches: state.patches + patches_of(
                            relocations,
                            base,
                            first,
                            module.symbols.len(),
                        ),
                    },
                ),
            },
        },
    }
}

/// The state after all of `modules`, taken in order.
pub open spec fn collected(modules: Seq<ModuleView>) -> Result<LinkerView, Failure>
    decreases modules.len(),
{
    if modules.len() == 0 {
        Ok(initial())
    } else {
        match collected(modules.drop_last()) {
            Ok(state) => merged(state, modules.last()),
            Err(failure) => Err(failure),
        }
    }
}

/// The state after one more object file: the module is read, then merged.
pub open spec fn merged_object(state: LinkerView, data: Seq<u8>) -> Result<LinkerView, Failure> {
    match module_of(data) {
        Ok(module) => merged(state, module),
        Err(failure) => Err(failure),
    }
}

/// The state after all of `objects`, taken in order.
pub open spec fn collected_objects(objects: Seq<Seq<u8>>) -> Result<LinkerView, Failure>
    decreases objects.len(),
{
    if objects.len() == 0 {
        Ok(initial())
    } else {
        match collected_objects(objects.drop_last()) {
            Ok(state) => merged_object(state, objects.last()),
            Err(failure) => Err(failure),
        }
    }
}

/// The name of the symbol that a patch refers to, if it refers to one that
/// has a name.
pub open spec fn target_name(symbols: Seq<SymbolRecord>, patch: Patch) -> Option<Seq<char>> {
    match patch.symbol_index {
        Some(i) => if i < symbols.len() {
            symbols[i as int].name
        } else {
            None
        },
        None => None,
    }
}

/// The image after one patch: code that loads the address unit of the
/// target, written over the bytes at the patch's offset.
pub open spec fn patched(
    symbols: Seq<SymbolRecord>,
    addresses: Map<Seq<char>, nat>,
    image: Seq<u8>,
    patch: Patch,
) -> Result<Seq<u8>, Failure> {
    match target_name(symbols, patch) {
        None => Err(Failure::UnnamedTarget),
        Some(name) => if !addresses.contains_key(name) {
            Err(Failure::UndefinedSymbol(name))
        } else if !addressable(addresses[name]) {
            Err(Failure::AddressTooBig)
        } else if patch.cs_offset + LOAD_ADDR_LEN > image.len() {
            Err(Failure::PatchOutOfRange)
        } else {
            Ok(overwritten(image, patch.cs_offset as int, load_addr_bytes(unit_of(addresses[name]))))
        },
    }
}

/// The image after `patches`, applied in order.
pub open spec fn resolved(
    symbols: Seq<SymbolRecord>,
    addresses: Map<Seq<char>, nat>,
    image: Seq<u8>,
    patches: Seq<Patch>,
) -> Result<Seq<u8>, Failure>
    decreases patches.len(),
{
    if patches.len() == 0 {
        Ok(image)
    } else {
        match resolved(symbols, addresses, image, patches.drop_last()) {
            Ok(before) => patched(symbols, addresses, before, patches.last()),
            Err(failure) => Err(failure),
        }
    }
}

/// The final image: the trampoline to the entry function, then the merged
/// code with every relocation resolved.
pub open spec fn finished(state: LinkerView) -> Result<Seq<u8>, Failure> {
    if !state.addresses.contains_key(ENTRY@) {
        Err(Failure::MissingEntry)
    } else if !addressable(state.addresses[ENTRY@]) {
        Err(Failure::AddressTooBig)
    } else {
        match resolved(state.symbols, state.addresses, state.image, state.patches) {
            Ok(image) => Ok(entrypoint_bytes(unit_of(state.addresses[ENTRY@])) + image),
            Err(failure) => Err(failure),
        }
    }
}

/// The image that linking `modules` yields.
pub open spec fn linked(modules: Seq<ModuleView>) -> Result<Seq<u8>, Failure> {
    match collected(modules) {
        Ok(state) => finished(state),
        Err(failure) => Err(failure),
    }
}

/// The image that linking the object files `objects` yields.
pub open spec fn linked_objects(objects: Seq<Seq<u8>>) -> Result<Seq<u8>, Failure> {
    match collected_objects(objects) {
        Ok(state) => finished(state),
        Err(failure) => Err(failure),
    }
}

/// Once a symbol has failed, the symbols after it change nothing.
pub proof fn lemma_with_symbols_stops(
    addresses: Map<Seq<char>, nat>,
    base: nat,
    symbols: Seq<SymbolView>,
    n: int,
)
    requires
        0 <= n <= symbols.len(),
        with_symbols(addresses, base, symbols.take(n)) is Err,
    ensures
        with_symbols(addresses, base, symbols) == with_symbols(addresses, base, symbols.take(n)),
    decreases symbols.len() - n,
{
    if n < symbols.len() {
        assert(symbols.take(n + 1).drop_last() =~= symbols.take(n));
        lemma_with_symbols_stops(addresses, base, symbols, n + 1);
    } else {
        assert(symbols.take(n) =~= symbols);
    }
}

/// Once a patch has failed, the patches after it change nothing.
pub proof fn lemma_resolved_stops(
    symbols: Seq<SymbolRecord>,
    addresses: Map<Seq<char>, nat>,
    image: Seq<u8>,
    patches: Seq<Patch>,
    n: int,
)
    requires
        0 <= n <= patches.len(),
        resolved(symbols, addresses, image, patches.take(n)) is Err,
    ensures
        resolved(symbols, addresses, image, patches) == resolved(
            symbols,
            addresses,
            image,
            patches.take(n),
        ),
    decreases patches.len() - n,
{
    if n < patches.len() {
        assert(patches.take(n + 1).drop_last() =~= patches.take(n));
        lemma_resolved_stops(symbols, addresses, image, patches, n + 1);
    } else {
        assert(patches.take(n) =~= patches);
    }
}

/// Once a module has failed, the modules after it change nothing.
pub proof fn lemma_collected_stops(modules: Seq<ModuleView>, n: int)
    requires
        0 <= n <= modules.len(),
        collected(modules.take(n)) is Err,
    ensures
        collected(modules) == collected(modules.take(n)),
    decreases modules.len() - n,
{
    if n < modules.len() {
        assert(modules.take(n + 1).drop_last() =~= modules.take(n));
        lemma_collected_stops(modules, n + 1);
    } else {
        assert(modules.take(n) =~= modules);
    }
}

/// Once an object file has failed, the files after it change nothing.
pub proof fn lemma_collected_objects_stops(objects: Seq<Seq<u8>>, n: int)
    requires
        0 <= n <= objects.len(),
        collected_objects(objects.take(n)) is Err,
    ensures
        collected_objects(objects) == collected_objects(objects.take(n)),
    decreases objects.len() - n,
{
    if n < objects.len() {
        assert(objects.take(n + 1).drop_last() =~= objects.take(n));
        lemma_collected_objects_stops(objects, n + 1);
    } else {
        assert(objects.take(n) =~= objects);
    }
}

} // verus!
