//! The ways in which reading and writing a language file can fail.

use vstd::prelude::*;

verus! {

/// Why a language file could not be read.
#[derive(Debug, Clone, Copy, PartialEq, Eq, Structural)]
pub enum LangReadingError {
    /// The bytes end before a field that they announce is complete.
    IOError,
    /// The zlib stream is damaged or cut short before the last entry ends.
    DecompressError,
    /// The bytes of a key or of a value are not UTF-8.
    FromUtf8Error,
    /// The entry count is below zero.
    NegativeEntryCountError { entry_count: i32 },
}

/// Why a language file could not be written.
#[derive(Debug, Clone, Copy, PartialEq, Eq, Structural)]
pub enum LangWritingError {
    /// The compressor reported an error.
    IOError,
    /// There are more entries than a signed 32-bit count can hold.
    TooManyEntriesError { entry_count: usize },
    /// A key has more bytes than an unsigned 16-bit length can hold.
    TooLongKey { key_length: usize },
    /// A value has more bytes than an unsigned 16-bit length can hold.
    TooLongValue { value_length: usize },
}

} // verus!
