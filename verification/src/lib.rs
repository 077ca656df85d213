//! # tar_minimal
//!
//! A minimalist, Unix-focused TAR library: the USTAR header format, the
//! decisions of archive creation (entry names, termination blocks) and of
//! extraction (what each header block asks for, and refusing entries whose
//! target lies outside the destination).
//!
//! The library does no I/O itself: the caller moves the bytes, the library
//! says which bytes and what they mean.

pub mod builder;
pub mod decoder;
pub mod header;
pub mod octal;
pub mod paths;

/// A builder for creating TAR archives.
pub use builder::Builder;

/// A decoder for extracting TAR archives.
pub use decoder::Decoder;

pub use header::TarHeader;
