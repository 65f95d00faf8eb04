//! A flat archive of named, compressed records: each record is a fixed
//! 56-byte header followed by its stored payload.

pub mod header;

pub use header::{Header, HEADER_SIZE};
pub mod reader;

pub use reader::{ArchiveReader, ReadError};
pub mod builder;

pub use builder::{ArchiveBuilder, ArchiveBuilderError, CompressionLevel};
