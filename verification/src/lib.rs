//! Reading and writing Brawlhalla language (`.bin`) files.
//!
//! A language file is a four-byte header followed by a zlib stream that
//! holds a table of string pairs. [`LangFile`] is the table in memory;
//! [`LangFile::read`] and [`LangFile::write`] convert between it and the
//! bytes of a file.

pub mod entry_map;
pub mod error;
pub mod format;
pub mod lang_file;
pub mod tsv;
pub mod utf8;
pub mod wire;
pub mod zlib;

pub use entry_map::EntryMap;
pub use error::{LangReadingError, LangWritingError};
pub use lang_file::{read_string, LangFile};
