//! Machine code that the linker writes into the image.
use vstd::prelude::*;
use crate::arch::{ADDI_R_AC, CLEAR_R_AC, JMP_R_AC, SHIFT_R_AC, UNIT_MAX};

verus! {

/// Length in bytes of the code that loads an address unit.
pub const LOAD_ADDR_LEN: usize = 8;

/// The two bytes of an instruction word, high byte first.
pub open spec fn word_bytes(word: u16) -> Seq<u8> {
    seq![(word / 256) as u8, (word % 256) as u8]
}

/// The code that leaves `unit` in the accumulator: clear it, add the high
/// byte, shift left by eight, add the low byte.
pub open spec fn load_addr_bytes(unit: int) -> Seq<u8> {
    word_bytes(CLEAR_R_AC) + seq![ADDI_R_AC, (unit / 256) as u8] + word_bytes(SHIFT_R_AC)
        + seq![ADDI_R_AC, (unit % 256) as u8]
}

/// The trampoline: load `unit`, then jump through the accumulator.
pub open spec fn entrypoint_bytes(unit: int) -> Seq<u8> {
    load_addr_bytes(unit) + word_bytes(JMP_R_AC)
}

/// The unit that a piece of load-address code leaves in the accumulator,
/// read back from its two immediate bytes.
pub open spec fn loaded_unit(code: Seq<u8>) -> int {
    code[3] * 256 + code[7]
}

/// Appends the two bytes of `word` to `code`.
fn push_word(code: &mut Vec<u8>, word: u16)
    ensures
        final(code)@ == old(code)@ + word_bytes(word),
{
    let high: u16 = word >> 8;
    let low: u16 = word & 0xFF;
    assert(high == word / 256 && low == word % 256) by (bit_vector)
        requires
            high == word >> 8,
            low == word & 0xFF,
    ;
    code.push(high as u8);
    code.push(low as u8);
    assert(code@ =~= old(code)@ + word_bytes(word));
}

/// Generates the code that loads the address unit `addr` into the
/// accumulator.
pub fn load_addr_code(addr: usize) -> (code: Vec<u8>)
    requires
        addr <= UNIT_MAX,
    ensures
        code@ == load_addr_bytes(addr as int),
        code@.len() == LOAD_ADDR_LEN,
{
    let top: usize = addr >> 8;
    let bottom: usize = addr & 0xFF;
    assert(top == addr / 256 && bottom == addr % 256 && top <= 0xFF) by (bit_vector)
        requires
            top == addr >> 8,
            bottom == addr & 0xFF,
            addr <= 0xFFFF,
    ;
    let mut code = Vec::<u8>::new();
    push_word(&mut code, CLEAR_R_AC);
    code.push(ADDI_R_AC);
    code.push(top as u8);
    push_word(&mut code, SHIFT_R_AC);
    code.push(ADDI_R_AC);
    code.push(bottom as u8);
    assert(code@ =~= load_addr_bytes(addr as int));
    code
}

/// Generates the trampoline that jumps to the address unit `addr`.
pub fn gen_entrypoint(addr: usize) -> (code: Vec<u8>)
    requires
        addr <= UNIT_MAX,
    ensures
        code@ == entrypoint_bytes(addr as int),
        code@.len() == crate::arch::ENTRYPOINT_LEN,
{
    let mut code = load_addr_code(addr);
    push_word(&mut code, JMP_R_AC);
    code
}

/// The two immediate bytes of load-address code hold the high and the low
/// byte of the unit, so the unit can be read back from them.
pub proof fn lemma_loaded_unit_round_trip(unit: int)
    requires
        0 <= unit <= UNIT_MAX,
    ensures
        load_addr_bytes(unit).len() == LOAD_ADDR_LEN,
        load_addr_bytes(unit)[3] == unit / 256,
        load_addr_bytes(unit)[7] == unit % 256,
        loaded_unit(load_addr_bytes(unit)) == unit,
        entrypoint_bytes(unit).len() == crate::arch::ENTRYPOINT_LEN,
        loaded_unit(entrypoint_bytes(unit)) == unit,
{
}

} // verus!
