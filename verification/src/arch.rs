//! Constants of the target machine and its addressing scheme.
use vstd::prelude::*;

verus! {

/// Width of one instruction, in bytes. The machine addresses its memory in
/// units of this size.
pub const INSTRUCTION_BYTES: usize = 2;

/// Length in bytes of the trampoline that precedes the merged code in the
/// final image.
pub const ENTRYPOINT_LEN: usize = 10;

/// A jump through the accumulator continues one unit after the unit held in
/// the accumulator, so every encoded address is one unit short of its target.
pub const JUMP_BIAS: usize = 1;

/// Largest address unit that the accumulator can hold.
pub const UNIT_MAX: usize = 0xFFFF;

/// Clears the accumulator.
pub const CLEAR_R_AC: u16 = 0b0110110110110000;

/// Shifts the accumulator left by eight bits.
pub const SHIFT_R_AC: u16 = 0b0011110100000000;

/// Jumps to the address unit held in the accumulator.
pub const JMP_R_AC: u16 = 0b1011110000000000;

/// First byte of the instruction that adds its second byte to the accumulator.
pub const ADDI_R_AC: u8 = 0b00011100;

/// Both bytes of the instruction that stops the machine.
pub const HLT: u8 = 0b11111111;

/// Name of the function at which the program starts.
pub const ENTRY: &'static str = "main";

/// The address unit that code must load to reach the byte at `address` of the
/// merged code, once the trampoline stands in front of it.
pub open spec fn unit_of(address: nat) -> int {
    (address + ENTRYPOINT_LEN) / (INSTRUCTION_BYTES as int) - JUMP_BIAS
}

/// Whether the unit of `address` fits the accumulator.
pub open spec fn addressable(address: nat) -> bool {
    unit_of(address) <= UNIT_MAX
}

/// Converts a byte address of the merged code into its address unit, or
/// `None` where the unit does not fit in 16 bits.
pub fn address_unit(address: u128) -> (unit: Option<usize>)
    ensures
        unit == (if addressable(address as nat) {
            Some(unit_of(address as nat) as usize)
        } else {
            None
        }),
{
    match address.checked_add(ENTRYPOINT_LEN as u128) {
        None => None,
        Some(shifted) => {
            let unit: u128 = shifted / (INSTRUCTION_BYTES as u128) - (JUMP_BIAS as u128);
            if unit > UNIT_MAX as u128 {
                None
            } else {
                Some(unit as usize)
            }
        },
    }
}

} // verus!
