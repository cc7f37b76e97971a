//! The relocation section: a flat sequence of records of eight bytes.
//!
//! A record holds, in this order, the offset of the patch as a 32-bit
//! little-endian integer, one byte for the kind of relocation, one byte for
//! the ordinal of the target symbol, and two bytes of padding. The kind and
//! the padding are not read.
use vstd::prelude::*;
use vstd::slice::slice_subrange;
use byteorder::{ByteOrder, LittleEndian};
use crate::error::{Failure, LinkError};

verus! {

/// Length of one relocation record, in bytes.
pub const RELOCATION_BYTES: usize = 8;

/// Position within a record of the byte that holds the symbol ordinal.
pub const RELOCATION_SYMBOL_AT: usize = 5;

/// One relocation record.
#[derive(Debug, Clone, Copy, PartialEq, Eq)]
pub struct Relocation {
    /// Offset of the patch from the start of the module's code.
    pub offset: u32,
    /// Ordinal of the target in the module's own symbol table.
    pub symbol: u8,
}

/// The first four bytes of `bytes` as an unsigned integer, least significant
/// byte first.
pub open spec fn le_u32(bytes: Seq<u8>) -> int {
    bytes[0] + 0x100 * bytes[1] + 0x1_0000 * bytes[2] + 0x100_0000 * bytes[3]
}

/// The `i`-th record of a relocation section.
pub open spec fn relocation_at(bytes: Seq<u8>, i: int) -> Relocation {
    Relocation {
        offset: le_u32(bytes.subrange(RELOCATION_BYTES * i, RELOCATION_BYTES * i + 4)) as u32,
        symbol: bytes[RELOCATION_BYTES * i + RELOCATION_SYMBOL_AT],
    }
}

/// The records of a relocation section, or the failure where the section
/// ends inside a record.
pub open spec fn relocations_of(bytes: Seq<u8>) -> Result<Seq<Relocation>, Failure> {
    if bytes.len() % (RELOCATION_BYTES as nat) == 0 {
        Ok(
            Seq::new(
                bytes.len() / (RELOCATION_BYTES as nat),
                |i: int| relocation_at(bytes, i),
            ),
        )
    } else {
        Err(Failure::TruncatedRelocations)
    }
}

/// `byteorder::LittleEndian::read_u32`: the first four bytes of `buf`, read
/// as an unsigned integer with the least significant byte first. The call
/// panics on a shorter buffer, which the precondition excludes.
#[verifier::external_body]
fn read_u32_le(buf: &[u8]) -> (value: u32)
    requires
        buf@.len() >= 4,
    ensures
        value == le_u32(buf@),
{
    LittleEndian::read_u32(buf)
}

/// Reads the records of a relocation section.
pub fn parse_relocations(bytes: &[u8]) -> (records: Result<Vec<Relocation>, LinkError>)
    ensures
        match records {
            Ok(v) => relocations_of(bytes@) == Ok::<Seq<Relocation>, Failure>(v@),
            Err(e) => relocations_of(bytes@) == Err::<Seq<Relocation>, Failure>(e@),
        },
{
    let len = bytes.len();
    if len % RELOCATION_BYTES != 0 {
        return Err(LinkError::TruncatedRelocations);
    }
    let count = len / RELOCATION_BYTES;
    let mut records: Vec<Relocation> = Vec::new();
    let mut i: usize = 0;
    while i < count
        invariant
            len == bytes@.len(),
            count == len / RELOCATION_BYTES,
            len % RELOCATION_BYTES == 0,
            i <= count,
            records@.len() == i,
            forall|k: int| 0 <= k < i ==> records@[k] == relocation_at(bytes@, k),
        decreases count - i,
    {
        let start = i * RELOCATION_BYTES;
        let field = slice_subrange(bytes, start, start + 4);
        let offset = read_u32_le(field);
        let symbol = bytes[start + RELOCATION_SYMBOL_AT];
        records.push(Relocation { offset, symbol });
        i = i + 1;
    }
    assert(records@ =~= relocations_of(bytes@)->Ok_0);
    Ok(records)
}

} // verus!
