//! What holds of every link.
//!
//! The laws speak of the modules that go in and of the image that comes
//! out: where the code of each module lies, which addresses its symbols
//! get, which bytes the linker writes, and which inputs it turns down.
use vstd::prelude::*;
use crate::arch::{unit_of, ENTRY, ENTRYPOINT_LEN, HLT, INSTRUCTION_BYTES, UNIT_MAX};
use crate::codegen::{entrypoint_bytes, loaded_unit, LOAD_ADDR_LEN};
use crate::error::{result_view, Failure, LinkError};
use crate::model::{
    collected, halt_offset, is_definition, is_entry, lemma_collected_stops, linked, merged,
    patch_of, patched, patches_of, record_of, records_of, resolved, target_name, with_symbol,
    with_symbols, LinkerView, Patch, SymbolRecord,
};
use crate::module::{ModuleView, SymbolView};
use crate::reloc::{relocations_of, Relocation};

verus! {

/// Total length of the code of `modules`.
pub open spec fn code_len(modules: Seq<ModuleView>) -> nat
    decreases modules.len(),
{
    if modules.len() == 0 {
        0
    } else {
        code_len(modules.drop_last()) + modules.last().code.len()
    }
}

/// Where the code of the `k`-th module starts in the merged code: the total
/// length of the code of the modules before it.
pub open spec fn code_base(modules: Seq<ModuleView>, k: int) -> nat {
    code_len(modules.take(k))
}

/// Total number of symbols of `modules`.
pub open spec fn symbol_count(modules: Seq<ModuleView>) -> nat
    decreases modules.len(),
{
    if modules.len() == 0 {
        0
    } else {
        symbol_count(modules.drop_last()) + modules.last().symbols.len()
    }
}

/// The ordinal of the first symbol of the `k`-th module: the number of
/// symbols of the modules before it.
pub open spec fn symbol_base(modules: Seq<ModuleView>, k: int) -> nat {
    symbol_count(modules.take(k))
}

/// What a successful pass over the symbols of a module has done to the
/// address table: it kept what was there, it entered every definition at
/// `base` plus its own address under a name that was free, and it entered
/// nothing else.
pub proof fn lemma_with_symbols_ok(
    addresses: Map<Seq<char>, nat>,
    base: nat,
    symbols: Seq<SymbolView>,
)
    requires
        with_symbols(addresses, base, symbols) is Ok,
    ensures
        ({
            let after = with_symbols(addresses, base, symbols)->Ok_0;
            &&& forall|n: Seq<char>| #[trigger]
                addresses.contains_key(n) ==> after.contains_key(n) && after[n] == addresses[n]
            &&& forall|j: int|
                0 <= j < symbols.len() && is_definition(#[trigger] symbols[j])
                    ==> !addresses.contains_key(symbols[j].name->0) && after.contains_key(
                    symbols[j].name->0,
                ) && after[symbols[j].name->0] == base + symbols[j].address
            &&& forall|i: int, j: int|
                0 <= i < j < symbols.len() && is_definition(#[trigger] symbols[i])
                    && is_definition(#[trigger] symbols[j]) ==> symbols[i].name != symbols[j].name
            &&& forall|n: Seq<char>| #[trigger]
                after.contains_key(n) ==> addresses.contains_key(n) || exists|j: int|
                    0 <= j < symbols.len() && is_definition(#[trigger] symbols[j])
                        && symbols[j].name == Some(n)
            &&& forall|j: int|
                0 <= j < symbols.len() && is_entry(#[trigger] symbols[j]) ==> symbols[j].size
                    >= INSTRUCTION_BYTES
        }),
    decreases symbols.len(),
{
    if symbols.len() > 0 {
        let front = symbols.drop_last();
        let last = symbols.last();
        let middle = with_symbols(addresses, base, front)->Ok_0;
        let after = with_symbols(addresses, base, symbols)->Ok_0;
        lemma_with_symbols_ok(addresses, base, front);
        assert(with_symbol(middle, base, last) == Ok::<Map<Seq<char>, nat>, Failure>(after));
        assert forall|j: int| 0 <= j < symbols.len() && is_definition(#[trigger] symbols[j]) implies 
            !addresses.contains_key(symbols[j].name->0) && after.contains_key(symbols[j].name->0)
            && after[symbols[j].name->0] == base + symbols[j].address by {
            if j < front.len() {
                assert(front[j] == symbols[j]);
            }
        }
        assert forall|i: int, j: int|
            0 <= i < j < symbols.len() && is_definition(#[trigger] symbols[i]) && is_definition(
                #[trigger] symbols[j],
            ) implies symbols[i].name != symbols[j].name by {
            assert(front[i] == symbols[i]);
            if j < front.len() {
                assert(front[j] == symbols[j]);
            }
        }
        assert forall|n: Seq<char>| #[trigger] after.contains_key(n) implies addresses.contains_key(n)
            || exists|j: int|
            0 <= j < symbols.len() && is_definition(#[trigger] symbols[j]) && symbols[j].name
                == Some(n) by {
            if middle.contains_key(n) {
                if !addresses.contains_key(n) {
                    let j = choose|j: int|
                        0 <= j < front.len() && is_definition(#[trigger] front[j]) && front[j].name
                            == Some(n);
                    assert(symbols[j] == front[j]);
                }
            } else {
                assert(symbols[symbols.len() - 1].name == Some(n));
            }
        }
        assert forall|j: int| 0 <= j < symbols.len() && is_entry(#[trigger] symbols[j]) implies 
            symbols[j].size >= INSTRUCTION_BYTES by {
            if j < front.len() {
                assert(front[j] == symbols[j]);
            }
        }
    }
}

/// Where the symbols of a module were entered without failure, the entry
/// function among them is at least one instruction long, and its last
/// instruction is the one to be replaced.
pub proof fn lemma_halt_offset(
    addresses: Map<Seq<char>, nat>,
    base: nat,
    symbols: Seq<SymbolView>,
    j: int,
)
    requires
        with_symbols(addresses, base, symbols) is Ok,
        0 <= j < symbols.len(),
        is_entry(symbols[j]),
    ensures
        symbols[j].size >= INSTRUCTION_BYTES,
        halt_offset(base, symbols) == Some(
            base + symbols[j].address + symbols[j].size - INSTRUCTION_BYTES,
        ),
    decreases symbols.len(),
{
    lemma_with_symbols_ok(addresses, base, symbols);
    if j < symbols.len() - 1 {
        assert(is_definition(symbols[j]));
        if is_entry(symbols.last()) {
            assert(is_definition(symbols[symbols.len() - 1]));
            assert(false);
        }
        assert(symbols.drop_last()[j] == symbols[j]);
        lemma_halt_offset(addresses, base, symbols.drop_last(), j);
    }
}

/// Whether `later` is a state that `earlier` can grow into: the image, the
/// symbols and the patches of `earlier` are still there, each at its place,
/// and every address is still the same.
pub open spec fn extends(later: LinkerView, earlier: LinkerView) -> bool {
    &&& starts_with(later.image, earlier.image)
    &&& starts_with(later.symbols, earlier.symbols)
    &&& starts_with(later.patches, earlier.patches)
    &&& forall|name: Seq<char>| #[trigger]
        earlier.addresses.contains_key(name) ==> later.addresses.contains_key(name)
            && later.addresses[name] == earlier.addresses[name]
}

/// Whether `whole` begins with the elements of `start`.
pub open spec fn starts_with<A>(whole: Seq<A>, start: Seq<A>) -> bool {
    &&& start.len() <= whole.len()
    &&& forall|i: int| 0 <= i < start.len() ==> #[trigger] start[i] == whole[i]
}

/// The records of a module's relocation section; none where the section is
/// malformed.
pub open spec fn records(module: ModuleView) -> Seq<Relocation> {
    match relocations_of(module.relocations) {
        Ok(relocations) => relocations,
        Err(_) => Seq::empty(),
    }
}

/// What merging a module does, where it succeeds: the state grows by the
/// module's code, symbols and patches, and the last instruction of the
/// entry function, if the module defines it, is a halt.
pub proof fn lemma_merged_ok(state: LinkerView, module: ModuleView)
    requires
        merged(state, module) is Ok,
    ensures
        ({
            let after = merged(state, module)->Ok_0;
            let base = state.image.len();
            &&& extends(after, state)
            &&& with_symbols(state.addresses, base, module.symbols) == Ok::<
                Map<Seq<char>, nat>,
                Failure,
            >(after.addresses)
            &&& after.image.len() == base + module.code.len()
            &&& after.symbols == state.symbols + records_of(module.symbols, state.symbols.len())
            &&& after.patches == state.patches + patches_of(
                records(module),
                base,
                state.symbols.len(),
                module.symbols.len(),
            )
            &&& forall|i: int|
                base <= i < after.image.len() ==> #[trigger] after.image[i] == module.code[i
                    - base] || (halt_offset(base, module.symbols) matches Some(at) && at <= i < at
                    + INSTRUCTION_BYTES)
            &&& forall|j: int|
                0 <= j < module.symbols.len() && is_entry(#[trigger] module.symbols[j]) ==> {
                    let at = base + module.symbols[j].address + module.symbols[j].size
                        - INSTRUCTION_BYTES;
                    &&& base <= at
                    &&& at + INSTRUCTION_BYTES <= after.image.len()
                    &&& after.image[at] == HLT
                    &&& after.image[at + 1] == HLT
                }
        }),
{
    let after = merged(state, module)->Ok_0;
    let base = state.image.len();
    lemma_with_symbols_ok(state.addresses, base, module.symbols);
    assert forall|j: int|
        0 <= j < module.symbols.len() && is_entry(#[trigger] module.symbols[j]) implies {
        let at = base + module.symbols[j].address + module.symbols[j].size - INSTRUCTION_BYTES;
        &&& base <= at
        &&& at + INSTRUCTION_BYTES <= after.image.len()
        &&& after.image[at] == HLT
        &&& after.image[at + 1] == HLT
    } by {
        lemma_halt_offset(state.addresses, base, module.symbols, j);
    }
    if halt_offset(base, module.symbols) is Some {
        lemma_halt_offset_is_entry(base, module.symbols);
        let j = choose|j: int| 0 <= j < module.symbols.len() && is_entry(#[trigger] module.symbols[j]);
        lemma_halt_offset(state.addresses, base, module.symbols, j);
    }
}

/// An instruction is replaced by a halt only where a symbol defines the
/// entry function.
proof fn lemma_halt_offset_is_entry(base: nat, symbols: Seq<SymbolView>)
    requires
        halt_offset(base, symbols) is Some,
    ensures
        exists|j: int| 0 <= j < symbols.len() && is_entry(#[trigger] symbols[j]),
    decreases symbols.len(),
{
    if is_entry(symbols.last()) {
        assert(is_entry(symbols[symbols.len() - 1]));
    } else {
        lemma_halt_offset_is_entry(base, symbols.drop_last());
        let j = choose|j: int|
            0 <= j < symbols.drop_last().len() && is_entry(#[trigger] symbols.drop_last()[j]);
        assert(symbols[j] == symbols.drop_last()[j]);
    }
}

/// A link that succeeds has succeeded on every initial part of its modules,
/// and each module was merged into the state that the modules before it
/// left.
pub proof fn lemma_collected_step(modules: Seq<ModuleView>, k: int)
    requires
        collected(modules) is Ok,
        0 <= k < modules.len(),
    ensures
        collected(modules.take(k)) is Ok,
        collected(modules.take(k + 1)) is Ok,
        collected(modules.take(k + 1)) == merged(collected(modules.take(k))->Ok_0, modules[k]),
{
    if collected(modules.take(k)) is Err {
        lemma_collected_stops(modules, k);
    }
    if collected(modules.take(k + 1)) is Err {
        lemma_collected_stops(modules, k + 1);
    }
    assert(modules.take(k + 1).drop_last() =~= modules.take(k));
}

/// The state after all modules extends the state after the first `k`, whose
/// image is as long as their code and which holds as many symbols as they
/// have.
pub proof fn lemma_collected_extends(modules: Seq<ModuleView>, k: int)
    requires
        collected(modules) is Ok,
        0 <= k <= modules.len(),
    ensures
        collected(modules.take(k)) is Ok,
        extends(collected(modules)->Ok_0, collected(modules.take(k))->Ok_0),
        collected(modules.take(k))->Ok_0.image.len() == code_base(modules, k),
        collected(modules.take(k))->Ok_0.symbols.len() == symbol_base(modules, k),
    decreases modules.len() - k,
{
    if k == modules.len() {
        assert(modules.take(k) =~= modules);
        lemma_collected_sizes(modules);
    } else {
        lemma_collected_step(modules, k);
        lemma_collected_extends(modules, k + 1);
        lemma_merged_ok(collected(modules.take(k))->Ok_0, modules[k]);
        lemma_collected_sizes(modules.take(k));
    }
}

/// The image after all modules is as long as their code, and the state
/// holds as many symbols as they have.
pub proof fn lemma_collected_sizes(modules: Seq<ModuleView>)
    requires
        collected(modules) is Ok,
    ensures
        collected(modules)->Ok_0.image.len() == code_len(modules),
        collected(modules)->Ok_0.symbols.len() == symbol_count(modules),
    decreases modules.len(),
{
    if modules.len() > 0 {
        lemma_collected_sizes(modules.drop_last());
        lemma_merged_ok(collected(modules.drop_last())->Ok_0, modules.last());
    }
}

/// Whether a patch writes the byte at `i` of the merged code.
pub open spec fn covers(patch: Patch, i: int) -> bool {
    patch.cs_offset <= i < patch.cs_offset + LOAD_ADDR_LEN
}

/// Whether a patch can be carried out: its target has a name, the name has
/// an address, the address fits, and the patch lies within `len` bytes.
pub open spec fn resolvable(
    symbols: Seq<SymbolRecord>,
    addresses: Map<Seq<char>, nat>,
    len: nat,
    patch: Patch,
) -> bool {
    &&& target_name(symbols, patch) matches Some(name)
    &&& addresses.contains_key(name)
    &&& crate::arch::addressable(addresses[name])
    &&& patch.cs_offset + LOAD_ADDR_LEN <= len
}

/// What resolving the patches does, where it succeeds: every patch could be
/// carried out, the image kept its length, and no byte changed but those
/// that a patch covers.
pub proof fn lemma_resolved_ok(
    symbols: Seq<SymbolRecord>,
    addresses: Map<Seq<char>, nat>,
    image: Seq<u8>,
    patches: Seq<Patch>,
)
    requires
        resolved(symbols, addresses, image, patches) is Ok,
    ensures
        ({
            let after = resolved(symbols, addresses, image, patches)->Ok_0;
            &&& after.len() == image.len()
            &&& forall|q: int|
                0 <= q < patches.len() ==> resolvable(
                    symbols,
                    addresses,
                    image.len(),
                    #[trigger] patches[q],
                )
            &&& forall|i: int|
                0 <= i < image.len() ==> #[trigger] after[i] == image[i] || exists|q: int|
                    0 <= q < patches.len() && covers(#[trigger] patches[q], i)
        }),
    decreases patches.len(),
{
    if patches.len() > 0 {
        let front = patches.drop_last();
        let last = patches.last();
        let middle = resolved(symbols, addresses, image, front)->Ok_0;
        let after = resolved(symbols, addresses, image, patches)->Ok_0;
        lemma_resolved_ok(symbols, addresses, image, front);
        assert(patched(symbols, addresses, middle, last) == Ok::<Seq<u8>, Failure>(after));
        assert forall|q: int| 0 <= q < patches.len() implies resolvable(
            symbols,
            addresses,
            image.len(),
            #[trigger] patches[q],
        ) by {
            if q < front.len() {
                assert(front[q] == patches[q]);
            }
        }
        assert forall|i: int| 0 <= i < image.len() implies #[trigger] after[i] == image[i]
            || exists|q: int| 0 <= q < patches.len() && covers(#[trigger] patches[q], i) by {
            if covers(last, i) {
                assert(covers(patches[patches.len() - 1], i));
            } else if middle[i] != image[i] {
                let q = choose|q: int| 0 <= q < front.len() && covers(#[trigger] front[q], i);
                assert(patches[q] == front[q]);
            }
        }
    }
}

/// A patch that cannot be carried out makes the resolution fail.
pub proof fn lemma_resolved_needs(
    symbols: Seq<SymbolRecord>,
    addresses: Map<Seq<char>, nat>,
    image: Seq<u8>,
    patches: Seq<Patch>,
    q: int,
)
    requires
        0 <= q < patches.len(),
        !resolvable(symbols, addresses, image.len(), patches[q]),
    ensures
        resolved(symbols, addresses, image, patches) is Err,
{
    if resolved(symbols, addresses, image, patches) is Ok {
        lemma_resolved_ok(symbols, addresses, image, patches);
    }
}

/// An image that is produced at all is as long as the trampoline and the
/// code of all modules together.
pub proof fn law_output_length(modules: Seq<ModuleView>)
    requires
        linked(modules) is Ok,
    ensures
        linked(modules)->Ok_0.len() == ENTRYPOINT_LEN + code_len(modules),
{
    let state = collected(modules)->Ok_0;
    lemma_collected_sizes(modules);
    lemma_resolved_ok(state.symbols, state.addresses, state.image, state.patches);
}

/// Every definition gets the address at which its module's code starts
/// plus its address within the module.
pub proof fn law_symbol_addresses(modules: Seq<ModuleView>, k: int, j: int)
    requires
        collected(modules) is Ok,
        0 <= k < modules.len(),
        0 <= j < modules[k].symbols.len(),
        is_definition(modules[k].symbols[j]),
    ensures
        collected(modules)->Ok_0.addresses.contains_key(modules[k].symbols[j].name->0),
        collected(modules)->Ok_0.addresses[modules[k].symbols[j].name->0] == code_base(modules, k)
            + modules[k].symbols[j].address,
{
    let before = collected(modules.take(k))->Ok_0;
    lemma_collected_step(modules, k);
    lemma_collected_extends(modules, k);
    lemma_collected_extends(modules, k + 1);
    lemma_merged_ok(before, modules[k]);
    lemma_with_symbols_ok(before.addresses, before.image.len(), modules[k].symbols);
    let name = modules[k].symbols[j].name->0;
    assert(collected(modules.take(k + 1))->Ok_0.addresses.contains_key(name));
}

/// Two definitions of one name, in one module or in two, make the link
/// fail.
pub proof fn law_duplicate_definition_fails(
    modules: Seq<ModuleView>,
    k1: int,
    j1: int,
    k2: int,
    j2: int,
)
    requires
        0 <= k1 < modules.len(),
        0 <= j1 < modules[k1].symbols.len(),
        0 <= k2 < modules.len(),
        0 <= j2 < modules[k2].symbols.len(),
        k1 != k2 || j1 != j2,
        is_definition(modules[k1].symbols[j1]),
        is_definition(modules[k2].symbols[j2]),
        modules[k1].symbols[j1].name == modules[k2].symbols[j2].name,
    ensures
        collected(modules) is Err,
        linked(modules) is Err,
{
    if collected(modules) is Ok {
        if k1 == k2 {
            let before = collected(modules.take(k1))->Ok_0;
            lemma_collected_step(modules, k1);
            lemma_merged_ok(before, modules[k1]);
            lemma_with_symbols_ok(before.addresses, before.image.len(), modules[k1].symbols);
            if j1 < j2 {
                assert(modules[k1].symbols[j1].name != modules[k1].symbols[j2].name);
            } else {
                assert(modules[k1].symbols[j2].name != modules[k1].symbols[j1].name);
            }
        } else {
            let (ka, ja, kb, jb) = if k1 < k2 {
                (k1, j1, k2, j2)
            } else {
                (k2, j2, k1, j1)
            };
            let name = modules[ka].symbols[ja].name->0;
            let front = modules.take(kb);
            let before = collected(front)->Ok_0;
            lemma_collected_step(modules, kb);
            assert(front[ka] == modules[ka]);
            law_symbol_addresses(front, ka, ja);
            lemma_merged_ok(before, modules[kb]);
            lemma_with_symbols_ok(before.addresses, before.image.len(), modules[kb].symbols);
            assert(!before.addresses.contains_key(modules[kb].symbols[jb].name->0));
        }
    }
}

/// Whether some module defines a symbol called `name`.
pub open spec fn defines(modules: Seq<ModuleView>, name: Seq<char>) -> bool {
    exists|k: int, j: int|
        0 <= k < modules.len() && 0 <= j < modules[k].symbols.len() && is_definition(
            #[trigger] modules[k].symbols[j],
        ) && modules[k].symbols[j].name == Some(name)
}

/// The address table holds exactly the names that the modules define.
pub proof fn lemma_addresses_are_definitions(modules: Seq<ModuleView>, name: Seq<char>)
    requires
        collected(modules) is Ok,
    ensures
        collected(modules)->Ok_0.addresses.contains_key(name) <==> defines(modules, name),
    decreases modules.len(),
{
    let state = collected(modules)->Ok_0;
    if defines(modules, name) {
        let (k, j) = choose|k: int, j: int|
            0 <= k < modules.len() && 0 <= j < modules[k].symbols.len() && is_definition(
                #[trigger] modules[k].symbols[j],
            ) && modules[k].symbols[j].name == Some(name);
        law_symbol_addresses(modules, k, j);
    }
    if state.addresses.contains_key(name) {
        let front = modules.drop_last();
        let last = modules.last();
        let before = collected(front)->Ok_0;
        lemma_with_symbols_ok(before.addresses, before.image.len(), last.symbols);
        if before.addresses.contains_key(name) {
            lemma_addresses_are_definitions(front, name);
            let (k, j) = choose|k: int, j: int|
                0 <= k < front.len() && 0 <= j < front[k].symbols.len() && is_definition(
                    #[trigger] front[k].symbols[j],
                ) && front[k].symbols[j].name == Some(name);
            assert(modules[k].symbols[j] == front[k].symbols[j]);
        } else {
            let j = choose|j: int|
                0 <= j < last.symbols.len() && is_definition(#[trigger] last.symbols[j])
                    && last.symbols[j].name == Some(name);
            assert(modules[modules.len() - 1].symbols[j] == last.symbols[j]);
        }
    }
}

/// The name that the `i`-th relocation of a module refers to, if the
/// relocation names a symbol of the module and that symbol has a name.
pub open spec fn reference(module: ModuleView, i: int) -> Option<Seq<char>> {
    let ordinal = records(module)[i].symbol as int;
    if ordinal < module.symbols.len() {
        module.symbols[ordinal].name
    } else {
        None
    }
}

/// The patch that the linker notes for the `i`-th relocation of the `k`-th
/// module.
pub open spec fn noted(modules: Seq<ModuleView>, k: int, i: int) -> Patch {
    patch_of(
        records(modules[k])[i],
        code_base(modules, k),
        symbol_base(modules, k),
        modules[k].symbols.len(),
    )
}

/// Number of relocations of `modules`.
pub open spec fn record_count(modules: Seq<ModuleView>) -> nat
    decreases modules.len(),
{
    if modules.len() == 0 {
        0
    } else {
        record_count(modules.drop_last()) + records(modules.last()).len()
    }
}

/// The patches of the state are the relocations of the modules, module by
/// module and in the order of the records, and each refers to the symbol
/// that its record names.
pub proof fn lemma_patches_are_records(modules: Seq<ModuleView>, k: int, i: int)
    requires
        collected(modules) is Ok,
        0 <= k < modules.len(),
        0 <= i < records(modules[k]).len(),
    ensures
        ({
            let state = collected(modules)->Ok_0;
            let q = record_count(modules.take(k)) + i;
            &&& q < state.patches.len()
            &&& state.patches[q] == noted(modules, k, i)
            &&& target_name(state.symbols, state.patches[q]) == reference(modules[k], i)
        }),
{
    let state = collected(modules)->Ok_0;
    let before = collected(modules.take(k))->Ok_0;
    let after = collected(modules.take(k + 1))->Ok_0;
    lemma_collected_step(modules, k);
    lemma_collected_extends(modules, k);
    lemma_collected_extends(modules, k + 1);
    lemma_merged_ok(before, modules[k]);
    lemma_collected_patches(modules.take(k));
    let q = record_count(modules.take(k)) + i;
    assert(after.patches[q] == noted(modules, k, i));
    assert(state.patches[q] == after.patches[q]);
    let ordinal = records(modules[k])[i].symbol as int;
    if ordinal < modules[k].symbols.len() {
        let at = symbol_base(modules, k) + ordinal;
        assert(after.symbols[at] == record_of(
            modules[k].symbols[ordinal],
            symbol_base(modules, k),
            ordinal,
        ));
        assert(state.symbols[at] == after.symbols[at]);
    }
}

/// The state holds as many patches as the modules have relocations.
pub proof fn lemma_collected_patches(modules: Seq<ModuleView>)
    requires
        collected(modules) is Ok,
    ensures
        collected(modules)->Ok_0.patches.len() == record_count(modules),
    decreases modules.len(),
{
    if modules.len() > 0 {
        lemma_collected_patches(modules.drop_last());
        lemma_merged_ok(collected(modules.drop_last())->Ok_0, modules.last());
    }
}

/// Every patch of the state was noted for a relocation of some module.
pub proof fn lemma_patches_come_from_records(modules: Seq<ModuleView>, q: int)
    requires
        collected(modules) is Ok,
        0 <= q < collected(modules)->Ok_0.patches.len(),
    ensures
        exists|k: int, i: int|
            0 <= k < modules.len() && 0 <= i < records(modules[k]).len() && collected(
                modules,
            )->Ok_0.patches[q] == #[trigger] noted(modules, k, i),
    decreases modules.len(),
{
    let front = modules.drop_last();
    let last = modules.last();
    let before = collected(front)->Ok_0;
    let k_last = modules.len() - 1;
    lemma_merged_ok(before, last);
    lemma_collected_patches(front);
    if q < before.patches.len() {
        lemma_patches_come_from_records(front, q);
        let (k, i) = choose|k: int, i: int|
            0 <= k < front.len() && 0 <= i < records(front[k]).len() && before.patches[q]
                == #[trigger] noted(front, k, i);
        assert(front.take(k) =~= modules.take(k));
        assert(front[k] == modules[k]);
        assert(noted(front, k, i) == noted(modules, k, i));
    } else {
        let i = q - before.patches.len();
        assert(modules.take(k_last) =~= front);
        lemma_collected_sizes(front);
        assert(collected(modules)->Ok_0.patches[q] == noted(modules, k_last, i));
    }
}

/// A relocation that refers to a symbol which its module does not have, to
/// one without a name, or to a name that no module defines makes the link
/// fail.
pub proof fn law_undefined_reference_fails(modules: Seq<ModuleView>, k: int, i: int)
    requires
        0 <= k < modules.len(),
        0 <= i < records(modules[k]).len(),
        match reference(modules[k], i) {
            Some(name) => !defines(modules, name),
            None => true,
        },
    ensures
        linked(modules) is Err,
{
    if collected(modules) is Ok {
        let state = collected(modules)->Ok_0;
        lemma_patches_are_records(modules, k, i);
        let q = record_count(modules.take(k)) + i;
        if reference(modules[k], i) is Some {
            lemma_addresses_are_definitions(modules, reference(modules[k], i)->0);
        }
        lemma_resolved_needs(state.symbols, state.addresses, state.image, state.patches, q);
    }
}

/// Where in the merged code the last instruction of an entry function
/// starts that is the symbol `symbol` of the `k`-th module.
pub open spec fn entry_end(modules: Seq<ModuleView>, k: int, symbol: SymbolView) -> int {
    code_base(modules, k) + symbol.address + symbol.size - INSTRUCTION_BYTES
}

/// In an image that is produced at all, the last instruction of the entry
/// function is a halt, whatever the module held there, unless a relocation
/// writes over it.
pub proof fn law_entry_halts(modules: Seq<ModuleView>, k: int, j: int)
    requires
        linked(modules) is Ok,
        0 <= k < modules.len(),
        0 <= j < modules[k].symbols.len(),
        is_entry(modules[k].symbols[j]),
        forall|k2: int, i: int|
            0 <= k2 < modules.len() && 0 <= i < records(modules[k2]).len() ==> {
                let patch = #[trigger] noted(modules, k2, i);
                &&& !covers(patch, entry_end(modules, k, modules[k].symbols[j]))
                &&& !covers(patch, entry_end(modules, k, modules[k].symbols[j]) + 1)
            },
    ensures
        ({
            let image = linked(modules)->Ok_0;
            let at = ENTRYPOINT_LEN + entry_end(modules, k, modules[k].symbols[j]);
            &&& ENTRYPOINT_LEN <= at
            &&& at + INSTRUCTION_BYTES <= image.len()
            &&& image[at] == HLT
            &&& image[at + 1] == HLT
        }),
{
    let state = collected(modules)->Ok_0;
    let before = collected(modules.take(k))->Ok_0;
    let after = collected(modules.take(k + 1))->Ok_0;
    let at = entry_end(modules, k, modules[k].symbols[j]);
    lemma_collected_step(modules, k);
    lemma_collected_extends(modules, k);
    lemma_collected_extends(modules, k + 1);
    lemma_merged_ok(before, modules[k]);
    assert(after.image[at] == HLT && after.image[at + 1] == HLT);
    assert(state.image[at] == after.image[at] && state.image[at + 1] == after.image[at + 1]);
    let image = resolved(state.symbols, state.addresses, state.image, state.patches)->Ok_0;
    lemma_resolved_ok(state.symbols, state.addresses, state.image, state.patches);
    assert forall|q: int| 0 <= q < state.patches.len() implies !covers(
        #[trigger] state.patches[q],
        at,
    ) && !covers(state.patches[q], at + 1) by {
        lemma_patches_come_from_records(modules, q);
    }
    assert(image[at] == state.image[at]);
    assert(image[at + 1] == state.image[at + 1]);
    crate::codegen::lemma_loaded_unit_round_trip(unit_of(state.addresses[ENTRY@]));
}

/// The image that is produced starts with the trampoline to the entry
/// function: code that loads the address unit of the function, the high
/// byte in its fourth byte and the low byte in its eighth, and a jump.
pub proof fn law_trampoline_loads_entry(modules: Seq<ModuleView>, k: int, j: int)
    requires
        linked(modules) is Ok,
        0 <= k < modules.len(),
        0 <= j < modules[k].symbols.len(),
        is_entry(modules[k].symbols[j]),
    ensures
        ({
            let image = linked(modules)->Ok_0;
            let unit = unit_of(code_base(modules, k) + modules[k].symbols[j].address);
            &&& 0 <= unit <= UNIT_MAX
            &&& ENTRYPOINT_LEN <= image.len()
            &&& image.take(ENTRYPOINT_LEN as int) == entrypoint_bytes(unit)
            &&& loaded_unit(image) == unit
            &&& image[3] == unit / 256
            &&& image[7] == unit % 256
        }),
{
    let state = collected(modules)->Ok_0;
    let unit = unit_of(code_base(modules, k) + modules[k].symbols[j].address);
    law_symbol_addresses(modules, k, j);
    crate::codegen::lemma_loaded_unit_round_trip(unit);
    let image = linked(modules)->Ok_0;
    assert(image.take(ENTRYPOINT_LEN as int) =~= entrypoint_bytes(unit));
}

/// Linking the same modules in the same order twice yields the same: the
/// same failure, or images that agree byte for byte.
pub proof fn law_link_is_deterministic(
    modules: Seq<ModuleView>,
    first: Result<Vec<u8>, LinkError>,
    second: Result<Vec<u8>, LinkError>,
)
    requires
        result_view(first) == linked(modules),
        result_view(second) == linked(modules),
    ensures
        result_view(first) == result_view(second),
        first matches Ok(image) ==> second is Ok && second->Ok_0@ == image@,
{
}

/// Linking the same object files in the same order twice yields the same:
/// the same failure, or images that agree byte for byte.
pub proof fn law_link_objects_is_deterministic(
    objects: Seq<Seq<u8>>,
    first: Result<Vec<u8>, LinkError>,
    second: Result<Vec<u8>, LinkError>,
)
    requires
        result_view(first) == crate::model::linked_objects(objects),
        result_view(second) == crate::model::linked_objects(objects),
    ensures
        result_view(first) == result_view(second),
        first matches Ok(image) ==> second is Ok && second->Ok_0@ == image@,
{
}

/// Object files link as the modules that are read out of them.
pub proof fn law_objects_link_as_their_modules(objects: Seq<Seq<u8>>, modules: Seq<ModuleView>)
    requires
        objects.len() == modules.len(),
        forall|i: int|
            0 <= i < objects.len() ==> crate::ingest::module_of(#[trigger] objects[i]) == Ok::<
                ModuleView,
                Failure,
            >(modules[i]),
    ensures
        crate::model::collected_objects(objects) == collected(modules),
        crate::model::linked_objects(objects) == linked(modules),
    decreases objects.len(),
{
    if objects.len() > 0 {
        let last = objects.len() - 1;
        assert(crate::ingest::module_of(objects[last]) == Ok::<ModuleView, Failure>(modules[last]));
        assert forall|i: int| 0 <= i < objects.drop_last().len() implies crate::ingest::module_of(
            #[trigger] objects.drop_last()[i],
        ) == Ok::<ModuleView, Failure>(modules.drop_last()[i]) by {
            assert(objects.drop_last()[i] == objects[i]);
        }
        law_objects_link_as_their_modules(objects.drop_last(), modules.drop_last());
    }
}

/// An object file that cannot be read makes the link fail.
pub proof fn law_unreadable_object_fails(objects: Seq<Seq<u8>>, i: int)
    requires
        0 <= i < objects.len(),
        crate::ingest::module_of(objects[i]) is Err,
    ensures
        crate::model::linked_objects(objects) is Err,
{
    assert(objects.take(i + 1).drop_last() =~= objects.take(i));
    assert(objects.take(i + 1).last() == objects[i]);
    crate::model::lemma_collected_objects_stops(objects, i + 1);
}

/// Whether the byte at `at` of the merged code belongs to the last
/// instruction of an entry function.
pub open spec fn halted(modules: Seq<ModuleView>, at: int) -> bool {
    exists|k: int, j: int|
        0 <= k < modules.len() && 0 <= j < modules[k].symbols.len() && is_entry(
            #[trigger] modules[k].symbols[j],
        ) && entry_end(modules, k, modules[k].symbols[j]) <= at < entry_end(
            modules,
            k,
            modules[k].symbols[j],
        ) + INSTRUCTION_BYTES
}

/// Whether a relocation writes the byte at `at` of the merged code.
pub open spec fn relocated(modules: Seq<ModuleView>, at: int) -> bool {
    exists|k: int, i: int|
        0 <= k < modules.len() && 0 <= i < records(modules[k]).len() && covers(
            #[trigger] noted(modules, k, i),
            at,
        )
}

/// The code is merged in the order of the modules and without gaps: before
/// the relocations are resolved, every byte of a module's code stands at the
/// module's base plus its offset, but for the halt.
pub proof fn lemma_collected_code(modules: Seq<ModuleView>, k: int, i: int)
    requires
        collected(modules) is Ok,
        0 <= k < modules.len(),
        0 <= i < modules[k].code.len(),
        !halted(modules, code_base(modules, k) + i),
    ensures
        code_base(modules, k) + i < collected(modules)->Ok_0.image.len(),
        collected(modules)->Ok_0.image[code_base(modules, k) + i] == modules[k].code[i],
{
    let state = collected(modules)->Ok_0;
    let before = collected(modules.take(k))->Ok_0;
    let after = collected(modules.take(k + 1))->Ok_0;
    let base = code_base(modules, k);
    let at = base + i;
    lemma_collected_step(modules, k);
    lemma_collected_extends(modules, k);
    lemma_collected_extends(modules, k + 1);
    lemma_merged_ok(before, modules[k]);
    let symbols = modules[k].symbols;
    match halt_offset(base, symbols) {
        Some(offset) => {
            lemma_halt_offset_is_entry(base, symbols);
            let j = choose|j: int| 0 <= j < symbols.len() && is_entry(#[trigger] symbols[j]);
            lemma_halt_offset(before.addresses, base, symbols, j);
            assert(is_entry(modules[k].symbols[j]));
            assert(offset == entry_end(modules, k, modules[k].symbols[j]));
        },
        None => {},
    }
    assert(after.image[at] == modules[k].code[i]);
    assert(after.image[at] == state.image[at]);
}

/// In an image that is produced at all, the code of every module stands
/// behind the trampoline at the module's base, byte for byte, but for the
/// last instruction of the entry function and for what relocations write.
pub proof fn law_code_is_kept(modules: Seq<ModuleView>, k: int, i: int)
    requires
        linked(modules) is Ok,
        0 <= k < modules.len(),
        0 <= i < modules[k].code.len(),
        !halted(modules, code_base(modules, k) + i),
        !relocated(modules, code_base(modules, k) + i),
    ensures
        ENTRYPOINT_LEN + code_base(modules, k) + i < linked(modules)->Ok_0.len(),
        linked(modules)->Ok_0[ENTRYPOINT_LEN + code_base(modules, k) + i] == modules[k].code[i],
{
    let state = collected(modules)->Ok_0;
    let at = code_base(modules, k) + i;
    lemma_collected_code(modules, k, i);
    lemma_resolved_ok(state.symbols, state.addresses, state.image, state.patches);
    let image = resolved(state.symbols, state.addresses, state.image, state.patches)->Ok_0;
    assert forall|q: int| 0 <= q < state.patches.len() implies !covers(
        #[trigger] state.patches[q],
        at,
    ) by {
        lemma_patches_come_from_records(modules, q);
    }
    assert(image[at] == state.image[at]);
    crate::codegen::lemma_loaded_unit_round_trip(unit_of(state.addresses[ENTRY@]));
}

} // verus!
