//! The ways in which a link fails.
use vstd::prelude::*;

verus! {

/// Why a link was abandoned. Every failure is final: nothing is produced.
#[derive(Debug, Clone, PartialEq, Eq)]
pub enum LinkError {
    /// The bytes of a module are not an object file that can be read.
    Unparseable,
    /// A module has no relocation section.
    MissingRelocationSection,
    /// A module has no code section.
    MissingCodeSection,
    /// A relocation section does not consist of whole records.
    TruncatedRelocations,
    /// A symbol of this name is defined a second time.
    DuplicateSymbol(String),
    /// The entry function is shorter than one instruction, so it has no
    /// last instruction to replace.
    EntryTooSmall,
    /// A patch would reach beyond the end of the merged code.
    PatchOutOfRange,
    /// No module defines the entry function.
    MissingEntry,
    /// A relocation refers to a symbol that its module does not have, or to
    /// one without a name.
    UnnamedTarget,
    /// A relocation refers to a symbol of this name, which no module defines.
    UndefinedSymbol(String),
    /// The address of a referenced symbol does not fit in 16 bits.
    AddressTooBig,
}

/// The classes of failure.
#[derive(Debug, Clone, Copy, PartialEq, Eq, Structural)]
pub enum ErrorKind {
    /// A module is no object file, lacks a section, or its relocation
    /// section is malformed.
    Format,
    /// A name is defined twice.
    DuplicateDefinition,
    /// A relocation refers to something that has no address.
    UndefinedSymbol,
    /// No module defines the entry function.
    MissingEntry,
    /// An address, a size or an offset lies outside what the image or the
    /// machine can hold.
    RangeViolation,
}

/// A `LinkError` as a mathematical value: names are sequences of characters.
pub enum Failure {
    Unparseable,
    MissingRelocationSection,
    MissingCodeSection,
    TruncatedRelocations,
    DuplicateSymbol(Seq<char>),
    EntryTooSmall,
    PatchOutOfRange,
    MissingEntry,
    UnnamedTarget,
    UndefinedSymbol(Seq<char>),
    AddressTooBig,
}

impl View for LinkError {
    type V = Failure;

    open spec fn view(&self) -> Failure {
        match *self {
            LinkError::Unparseable => Failure::Unparseable,
            LinkError::MissingRelocationSection => Failure::MissingRelocationSection,
            LinkError::MissingCodeSection => Failure::MissingCodeSection,
            LinkError::TruncatedRelocations => Failure::TruncatedRelocations,
            LinkError::DuplicateSymbol(name) => Failure::DuplicateSymbol(name@),
            LinkError::EntryTooSmall => Failure::EntryTooSmall,
            LinkError::PatchOutOfRange => Failure::PatchOutOfRange,
            LinkError::MissingEntry => Failure::MissingEntry,
            LinkError::UnnamedTarget => Failure::UnnamedTarget,
            LinkError::UndefinedSymbol(name) => Failure::UndefinedSymbol(name@),
            LinkError::AddressTooBig => Failure::AddressTooBig,
        }
    }
}

impl Failure {
    /// The class that a failure belongs to.
    pub open spec fn kind(self) -> ErrorKind {
        match self {
            Failure::Unparseable => ErrorKind::Format,
            Failure::MissingRelocationSection => ErrorKind::Format,
            Failure::MissingCodeSection => ErrorKind::Format,
            Failure::TruncatedRelocations => ErrorKind::Format,
            Failure::DuplicateSymbol(_) => ErrorKind::DuplicateDefinition,
            Failure::EntryTooSmall => ErrorKind::RangeViolation,
            Failure::PatchOutOfRange => ErrorKind::RangeViolation,
            Failure::MissingEntry => ErrorKind::MissingEntry,
            Failure::UnnamedTarget => ErrorKind::UndefinedSymbol,
            Failure::UndefinedSymbol(_) => ErrorKind::UndefinedSymbol,
            Failure::AddressTooBig => ErrorKind::RangeViolation,
        }
    }
}

impl LinkError {
    /// The class that the failure belongs to.
    pub fn kind(&self) -> (kind: ErrorKind)
        ensures
            kind == self@.kind(),
    {
        match self {
            LinkError::Unparseable => ErrorKind::Format,
            LinkError::MissingRelocationSection => ErrorKind::Format,
            LinkError::MissingCodeSection => ErrorKind::Format,
            LinkError::TruncatedRelocations => ErrorKind::Format,
            LinkError::DuplicateSymbol(_) => ErrorKind::DuplicateDefinition,
            LinkError::EntryTooSmall => ErrorKind::RangeViolation,
            LinkError::PatchOutOfRange => ErrorKind::RangeViolation,
            LinkError::MissingEntry => ErrorKind::MissingEntry,
            LinkError::UnnamedTarget => ErrorKind::UndefinedSymbol,
            LinkError::UndefinedSymbol(_) => ErrorKind::UndefinedSymbol,
            LinkError::AddressTooBig => ErrorKind::RangeViolation,
        }
    }
}

/// The view of a result: the view of what was produced, or of the failure.
pub open spec fn result_view<T: View>(result: Result<T, LinkError>) -> Result<T::V, Failure> {
    match result {
        Ok(value) => Ok(value@),
        Err(error) => Err(error@),
    }
}

} // verus!
