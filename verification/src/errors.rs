//! Errors of machine-identifier derivation.

use vstd::prelude::*;

verus! {

/// Why a raw SMBIOS firmware table was refused.
#[derive(Debug, Clone, Copy, PartialEq, Eq)]
pub enum SmbiosFault {
    /// The data is shorter than the eight-byte header in front of the table.
    HeaderTooShort,
    /// The header's table length does not fit in a `usize` offset.
    LengthOverflow,
    /// The header announces `table_len` bytes where only `buffer_len` follow it.
    TableExceedsBuffer { table_len: usize, buffer_len: usize },
    /// Fewer than four bytes remain for a structure header.
    TruncatedStructureHeader,
    /// A structure of type `kind` declares a formatted length under four.
    InvalidStructureLength { kind: u8, length: usize },
    /// A structure's formatted length does not fit in a `usize` offset.
    StructureLengthOverflow,
    /// The formatted area of a structure of type `kind` runs past the table.
    StructureExceedsTable { kind: u8 },
    /// A structure's string set has no double-NUL terminator inside the table.
    UnterminatedStrings,
}

/// Errors of machine-identifier derivation.
#[derive(Debug, PartialEq, Eq)]
pub enum MIDError {
    /// The sources gave no identifier at all.
    ResultMidError,
    /// The raw system data could not be read as what it claims to be.
    InvalidSystemData(SmbiosFault),
}

} // verus!
