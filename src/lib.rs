//! A versioned, append-only archive: one byte image that accumulates
//! compressed snapshots of named files, indexed per version.
pub mod archive;
pub mod codec;
pub mod compress;
pub mod format;
pub mod index;
pub mod reader;
pub mod serial;

pub use archive::{AppendArchive, Archive, ArchiveError};
pub use format::{Contents, FileType, Metadata, Timestamp, VersionNumber};
pub use reader::ReadArchive;
