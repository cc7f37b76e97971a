//! The linker: a state that takes modules one by one and is then finished
//! into the final image.
use vstd::prelude::*;
use crate::arch::{address_unit, ENTRY, HLT, INSTRUCTION_BYTES};
use crate::codegen::{gen_entrypoint, load_addr_code, LOAD_ADDR_LEN};
use crate::error::{result_view, Failure, LinkError};
use crate::ingest::read_module;
use crate::model::{
    collected, collected_objects, finished, halt_bytes, halt_offset, initial,
    lemma_collected_objects_stops, lemma_collected_stops, lemma_resolved_stops,
    lemma_with_symbols_stops, linked, linked_objects, merged, merged_object, overwritten,
    patches_of, records_of, resolved, with_symbols, LinkerView, Patch, SymbolRecord,
};
use crate::module::{modules_view, name_view, Module};
use crate::reloc::parse_relocations;
use crate::symtab::SymbolTable;

verus! {

/// A symbol as the linker keeps it.
#[derive(Debug, Clone, PartialEq, Eq)]
pub struct SimpleSymbol {
    /// The symbol's name, if it has one.
    pub name: Option<String>,
    /// The symbol's ordinal among the symbols of all modules.
    pub symbol_index: usize,
    /// The symbol's address, relative to the start of its module's code.
    pub address: u64,
    /// The symbol's size in bytes.
    pub size: u64,
}

impl View for SimpleSymbol {
    type V = SymbolRecord;

    open spec fn view(&self) -> SymbolRecord {
        SymbolRecord {
            name: name_view(self.name),
            symbol_index: self.symbol_index as nat,
            address: self.address as nat,
            size: self.size as nat,
        }
    }
}

/// A relocation that waits for the address table to be complete: what to
/// write the address of, and where.
#[derive(Debug, Clone, Copy, PartialEq, Eq)]
pub struct WriteSymbol {
    /// Ordinal of the target among the symbols of all modules; `None` where
    /// the record names a symbol that its module does not have.
    pub symbol_index: Option<usize>,
    /// Offset of the patch in the merged code.
    pub cs_offset: u128,
}

impl View for WriteSymbol {
    type V = Patch;

    open spec fn view(&self) -> Patch {
        Patch {
            symbol_index: match self.symbol_index {
                Some(i) => Some(i as nat),
                None => None,
            },
            cs_offset: self.cs_offset as nat,
        }
    }
}

/// The views of the kept symbols, in order.
pub open spec fn records_view(symbols: Seq<SimpleSymbol>) -> Seq<SymbolRecord> {
    Seq::new(symbols.len(), |i: int| symbols[i]@)
}

/// The views of the noted relocations, in order.
pub open spec fn patches_view(relocations: Seq<WriteSymbol>) -> Seq<Patch> {
    Seq::new(relocations.len(), |i: int| relocations[i]@)
}

/// The state of a link.
pub struct Linker {
    symbols: Vec<SimpleSymbol>,
    addresses: SymbolTable,
    executable: Vec<u8>,
    relocations: Vec<WriteSymbol>,
}

impl View for Linker {
    type V = LinkerView;

    closed spec fn view(&self) -> LinkerView {
        LinkerView {
            symbols: records_view(self.symbols@),
            addresses: self.addresses@,
            image: self.executable@,
            patches: patches_view(self.relocations@),
        }
    }
}

/// Writes `bytes` over the bytes of `image` from `at` on.
fn overwrite(image: &mut Vec<u8>, at: usize, bytes: &Vec<u8>)
    requires
        at + bytes@.len() <= old(image)@.len(),
    ensures
        final(image)@ == overwritten(old(image)@, at as int, bytes@),
{
    let len = image.len();
    let mut k: usize = 0;
    while k < bytes.len()
        invariant
            k <= bytes@.len(),
            at + bytes@.len() <= len,
            image@.len() == len,
            len == old(image)@.len(),
            forall|i: int|
                0 <= i < image@.len() ==> image@[i] == if at <= i < at + k {
                    bytes@[i - at]
                } else {
                    old(image)@[i]
                },
        decreases bytes@.len() - k,
    {
        image.set(at + k, bytes[k]);
        k = k + 1;
    }
    assert(image@ =~= overwritten(old(image)@, at as int, bytes@));
}

/// A copy of an optional name.
fn clone_name(name: &Option<String>) -> (copy: Option<String>)
    ensures
        name_view(copy) == name_view(*name),
{
    match name {
        Some(n) => Some(n.clone()),
        None => None,
    }
}

impl Linker {
    /// The state of a link before the first module.
    pub fn new() -> (linker: Linker)
        ensures
            linker@ == initial(),
    {
        let linker = Linker {
            symbols: Vec::new(),
            addresses: SymbolTable::new(),
            executable: Vec::new(),
            relocations: Vec::new(),
        };
        assert(linker@.symbols =~= initial().symbols);
        assert(linker@.patches =~= initial().patches);
        linker
    }

    /// Length of the merged code so far: where the code of the next module
    /// will start.
    pub fn code_len(&self) -> (len: usize)
        ensures
            len == self@.image.len(),
    {
        self.executable.len()
    }

    /// Number of symbols so far: the ordinal that the first symbol of the
    /// next module will get.
    pub fn symbol_count(&self) -> (count: usize)
        ensures
            count == self@.symbols.len(),
    {
        self.symbols.len()
    }

    /// The symbols of all modules so far, each at its ordinal.
    pub fn symbols(&self) -> (symbols: &Vec<SimpleSymbol>)
        ensures
            records_view(symbols@) == self@.symbols,
    {
        &self.symbols
    }

    /// The merged code so far.
    pub fn code(&self) -> (code: &Vec<u8>)
        ensures
            code@ == self@.image,
    {
        &self.executable
    }

    /// The relocations of all modules so far, in order.
    pub fn relocations(&self) -> (relocations: &Vec<WriteSymbol>)
        ensures
            patches_view(relocations@) == self@.patches,
    {
        &self.relocations
    }

    /// The address in the merged code of the symbol called `name`, if a
    /// module so far defines it.
    pub fn symbol_address(&self, name: &str) -> (address: Option<u128>)
        ensures
            address is Some <==> self@.addresses.contains_key(name@),
            address matches Some(a) ==> a == self@.addresses[name@],
    {
        let name = name.to_owned();
        self.addresses.get(&name)
    }

    /// Merges one more module: defines its symbols, appends its code, makes
    /// the entry function halt if the module defines it, and notes its
    /// relocations.
    pub fn add_module(self, module: &Module) -> (linker: Result<Linker, LinkError>)
        ensures
            result_view(linker) == merged(self@, module@),
    {
        let ghost before = self@;
        let ghost m = module@;
        let mut symbols = self.symbols;
        let mut addresses = self.addresses;
        let mut executable = self.executable;
        let mut relocations = self.relocations;
        let base: usize = executable.len();
        let first: usize = symbols.len();
        let count: usize = module.symbols.len();
        let entry = ENTRY.to_owned();
        let mut halt: Option<u128> = None;
        let mut i: usize = 0;
        while i < count
            invariant
                i <= count,
                count == module.symbols@.len(),
                before == self@,
                m == module@,
                symbols@.len() == first + i,
                entry@ == ENTRY@,
                base == before.image.len(),
                first == before.symbols.len(),
                with_symbols(before.addresses, base as nat, m.symbols.take(i as int)) == Ok::<
                    Map<Seq<char>, nat>,
                    Failure,
                >(addresses@),
                records_view(symbols@) == before.symbols + records_of(
                    m.symbols.take(i as int),
                    first as nat,
                ),
                match halt {
                    Some(at) => halt_offset(base as nat, m.symbols.take(i as int)) == Some(
                        at as int,
                    ) && at + INSTRUCTION_BYTES <= 3 * u64::MAX,
                    None => halt_offset(base as nat, m.symbols.take(i as int)) is None,
                },
            decreases count - i,
        {
            let symbol = &module.symbols[i];
            proof {
                assert(m.symbols.take(i + 1).drop_last() =~= m.symbols.take(i as int));
                assert(m.symbols.take(i + 1).last() == symbol@);
            }
            if symbol.defined {
                match &symbol.name {
                    Some(name) => {
                        if addresses.get(name).is_some() {
                            proof {
                                lemma_with_symbols_stops(
                                    before.addresses,
                                    base as nat,
                                    m.symbols,
                                    i + 1,
                                );
                            }
                            return Err(LinkError::DuplicateSymbol(name.clone()));
                        }
                        let is_entry = *name == entry;
                        if is_entry && symbol.size < INSTRUCTION_BYTES as u64 {
                            proof {
                                lemma_with_symbols_stops(
                                    before.addresses,
                                    base as nat,
                                    m.symbols,
                                    i + 1,
                                );
                            }
                            return Err(LinkError::EntryTooSmall);
                        }
                        let address: u128 = base as u128 + symbol.address as u128;
                        addresses = addresses.insert(name.clone(), address);
                        if is_entry {
                            halt = Some(address + symbol.size as u128 - INSTRUCTION_BYTES as u128);
                        }
                    },
                    None => {},
                }
            }
            let ghost kept = symbols@;
            assert(symbols.len() == first + i);
            symbols.push(
                SimpleSymbol {
                    name: clone_name(&symbol.name),
                    symbol_index: first + i,
                    address: symbol.address,
                    size: symbol.size,
                },
            );
            proof {
                let grown = before.symbols + records_of(m.symbols.take(i + 1), first as nat);
                assert(records_view(symbols@).len() == grown.len());
                assert forall|j: int| 0 <= j < grown.len() implies records_view(symbols@)[j]
                    == grown[j] by {
                    if j < first + i {
                        assert(symbols@[j] == kept[j]);
                        assert(records_view(kept)[j] == (before.symbols + records_of(
                            m.symbols.take(i as int),
                            first as nat,
                        ))[j]);
                    }
                }
                assert(records_view(symbols@) =~= grown);
            }
            i = i + 1;
        }
        proof {
            assert(m.symbols.take(count as int) =~= m.symbols);
            assert(symbols.len() == first + count);
        }
        let ghost merged_before = executable@;
        executable.extend_from_slice(module.code.as_slice());
        proof {
            assert(executable@ =~= merged_before + m.code);
        }
        match halt {
            Some(at) => {
                if at + INSTRUCTION_BYTES as u128 > executable.len() as u128 {
                    return Err(LinkError::PatchOutOfRange);
                }
                let code: Vec<u8> = vec![HLT, HLT];
                proof {
                    assert(code@ =~= halt_bytes());
                }
                overwrite(&mut executable, at as usize, &code);
            },
            None => {},
        }
        let records = match parse_relocations(module.relocations.as_slice()) {
            Ok(records) => records,
            Err(error) => {
                return Err(error);
            },
        };
        let mut k: usize = 0;
        while k < records.len()
            invariant
                k <= records@.len(),
                first + count <= usize::MAX,
                relocations@.len() == before.patches.len() + k,
                patches_view(relocations@) == before.patches + patches_of(
                    records@.take(k as int),
                    base as nat,
                    first as nat,
                    count as nat,
                ),
            decreases records@.len() - k,
        {
            let record = records[k];
            let symbol_index = if (record.symbol as usize) < count {
                Some(first + record.symbol as usize)
            } else {
                None
            };
            let ghost noted = relocations@;
            relocations.push(
                WriteSymbol { symbol_index, cs_offset: base as u128 + record.offset as u128 },
            );
            proof {
                let grown = before.patches + patches_of(
                    records@.take(k + 1),
                    base as nat,
                    first as nat,
                    count as nat,
                );
                assert(patches_view(relocations@).len() == grown.len());
                assert forall|j: int| 0 <= j < grown.len() implies patches_view(relocations@)[j]
                    == grown[j] by {
                    if j < before.patches.len() + k {
                        assert(relocations@[j] == noted[j]);
                        assert(patches_view(noted)[j] == (before.patches + patches_of(
                            records@.take(k as int),
                            base as nat,
                            first as nat,
                            count as nat,
                        ))[j]);
                    }
                }
                assert(patches_view(relocations@) =~= grown);
            }
            k = k + 1;
        }
        proof {
            assert(records@.take(records@.len() as int) =~= records@);
        }
        Ok(Linker { symbols, addresses, executable, relocations })
    }

    /// Reads a module out of the bytes of an object file and merges it.
    pub fn add_object(self, data: &[u8]) -> (linker: Result<Linker, LinkError>)
        ensures
            result_view(linker) == merged_object(self@, data@),
    {
        match read_module(data) {
            Ok(module) => self.add_module(&module),
            Err(error) => Err(error),
        }
    }

    /// Resolves every relocation and puts the trampoline in front of the
    /// merged code.
    pub fn finish(self) -> (output: Result<Vec<u8>, LinkError>)
        ensures
            result_view(output) == finished(self@),
    {
        let ghost state = self@;
        let symbols = self.symbols;
        let addresses = self.addresses;
        let mut image = self.executable;
        let relocations = self.relocations;
        let entry = ENTRY.to_owned();
        let address = match addresses.get(&entry) {
            Some(address) => address,
            None => {
                return Err(LinkError::MissingEntry);
            },
        };
        let unit = match address_unit(address) {
            Some(unit) => unit,
            None => {
                return Err(LinkError::AddressTooBig);
            },
        };
        let mut output = gen_entrypoint(unit);
        let mut k: usize = 0;
        while k < relocations.len()
            invariant
                k <= relocations@.len(),
                state == self@,
                state.addresses.contains_key(ENTRY@),
                crate::arch::addressable(state.addresses[ENTRY@]),
                state.symbols == records_view(symbols@),
                state.addresses == addresses@,
                state.patches == patches_view(relocations@),
                resolved(state.symbols, state.addresses, state.image, state.patches.take(k as int))
                    == Ok::<Seq<u8>, Failure>(image@),
            decreases relocations@.len() - k,
        {
            let patch = relocations[k];
            proof {
                assert(state.patches.take(k + 1).drop_last() =~= state.patches.take(k as int));
                assert(state.patches.take(k + 1).last() == patch@);
            }
            let target: Option<&String> = match patch.symbol_index {
                Some(i) => if i < symbols.len() {
                    match &symbols[i].name {
                        Some(name) => Some(name),
                        None => None,
                    }
                } else {
                    None
                },
                None => None,
            };
            let name = match target {
                Some(name) => name,
                None => {
                    proof {
                        lemma_resolved_stops(
                            state.symbols,
                            state.addresses,
                            state.image,
                            state.patches,
                            k + 1,
                        );
                    }
                    return Err(LinkError::UnnamedTarget);
                },
            };
            let address = match addresses.get(name) {
                Some(address) => address,
                None => {
                    proof {
                        lemma_resolved_stops(
                            state.symbols,
                            state.addresses,
                            state.image,
                            state.patches,
                            k + 1,
                        );
                    }
                    return Err(LinkError::UndefinedSymbol(name.clone()));
                },
            };
            let unit = match address_unit(address) {
                Some(unit) => unit,
                None => {
                    proof {
                        lemma_resolved_stops(
                            state.symbols,
                            state.addresses,
                            state.image,
                            state.patches,
                            k + 1,
                        );
                    }
                    return Err(LinkError::AddressTooBig);
                },
            };
            let len = image.len();
            if len < LOAD_ADDR_LEN || patch.cs_offset > (len - LOAD_ADDR_LEN) as u128 {
                proof {
                    lemma_resolved_stops(
                        state.symbols,
                        state.addresses,
                        state.image,
                        state.patches,
                        k + 1,
                    );
                }
                return Err(LinkError::PatchOutOfRange);
            }
            let code = load_addr_code(unit);
            overwrite(&mut image, patch.cs_offset as usize, &code);
            k = k + 1;
        }
        proof {
            assert(state.patches.take(k as int) =~= state.patches);
        }
        output.append(&mut image);
        Ok(output)
    }
}

/// Links `modules`, in the order given, into the final image.
pub fn link(modules: &Vec<Module>) -> (output: Result<Vec<u8>, LinkError>)
    ensures
        result_view(output) == linked(modules_view(modules@)),
{
    let ghost all = modules_view(modules@);
    let mut linker = Linker::new();
    let mut i: usize = 0;
    assert(all.take(0) =~= Seq::<crate::module::ModuleView>::empty());
    while i < modules.len()
        invariant
            i <= modules@.len(),
            all == modules_view(modules@),
            collected(all.take(i as int)) == Ok::<LinkerView, Failure>(linker@),
        decreases modules@.len() - i,
    {
        proof {
            assert(all.take(i + 1).drop_last() =~= all.take(i as int));
            assert(all.take(i + 1).last() == modules@[i as int]@);
        }
        linker = match linker.add_module(&modules[i]) {
            Ok(next) => next,
            Err(error) => {
                proof {
                    lemma_collected_stops(all, i + 1);
                }
                return Err(error);
            },
        };
        i = i + 1;
    }
    proof {
        assert(all.take(i as int) =~= all);
    }
    linker.finish()
}

/// The bytes of each object file, in order.
pub open spec fn objects_view(objects: Seq<Vec<u8>>) -> Seq<Seq<u8>> {
    Seq::new(objects.len(), |i: int| objects[i]@)
}

/// Links the object files whose bytes are `objects`, in the order given,
/// into the final image. Each file is read only once the files before it
/// are merged.
pub fn link_objects(objects: &Vec<Vec<u8>>) -> (output: Result<Vec<u8>, LinkError>)
    ensures
        result_view(output) == linked_objects(objects_view(objects@)),
{
    let ghost all = objects_view(objects@);
    let mut linker = Linker::new();
    let mut i: usize = 0;
    assert(all.take(0) =~= Seq::<Seq<u8>>::empty());
    while i < objects.len()
        invariant
            i <= objects@.len(),
            all == objects_view(objects@),
            collected_objects(all.take(i as int)) == Ok::<LinkerView, Failure>(linker@),
        decreases objects@.len() - i,
    {
        proof {
            assert(all.take(i + 1).drop_last() =~= all.take(i as int));
            assert(all.take(i + 1).last() == objects@[i as int]@);
        }
        linker = match linker.add_object(objects[i].as_slice()) {
            Ok(next) => next,
            Err(error) => {
                proof {
                    lemma_collected_objects_stops(all, i + 1);
                }
                return Err(error);
            },
        };
        i = i + 1;
    }
    proof {
        assert(all.take(i as int) =~= all);
    }
    linker.finish()
}

} // verus!
