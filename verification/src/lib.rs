//! A static linker for a 16-bit, accumulator-based instruction set.
//!
//! Relocatable object modules are merged, in the order given, into one flat
//! image: their symbols are entered into a single address table, their code
//! sections are concatenated, the last instruction of the entry function is
//! turned into a halt, every relocation is replaced by code that loads the
//! address of its target, and a trampoline that jumps to the entry function
//! is put in front.
pub mod arch;
pub mod codegen;
pub mod error;
pub mod ingest;
pub mod laws;
pub mod linker;
pub mod model;
pub mod module;
pub mod reloc;
pub mod symtab;
