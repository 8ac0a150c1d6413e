//! Directory subsystem for FAT12/16/32 volumes.
//!
//! The crate parses and synthesizes the packed 32-byte directory records of
//! the FAT on-disk format, aggregates VFAT long-file-name (LFN) runs,
//! generates collision-free 8.3 short names from long names, and offers a
//! directory API (lookup, create, remove, rename) over an in-memory model of
//! the volume's directory regions.  The cluster allocator, the FAT table and
//! the device I/O layer are external collaborators: the model holds each
//! directory's raw bytes as a plain byte vector and hands cluster numbers in
//! and out as plain integers.
use vstd::prelude::*;

pub mod codec;
pub mod lfn;
pub mod path;
pub mod sfn;
pub mod dir;

verus! {

/// Errors reported by the directory subsystem.
#[derive(Clone, Copy, Debug, PartialEq, Eq, Structural)]
pub enum Error {
    /// A path component does not exist.
    NotFound,
    /// A long name failed validation (empty, over-long or bad character).
    InvalidInput,
    /// A rename destination exists, or the short-name generator is exhausted.
    AlreadyExists,
    /// A path component resolved to a directory where a file was required.
    IsADirectory,
    /// A path component resolved to a file where a directory was required.
    NotADirectory,
    /// `remove` was asked to delete a directory that still has user entries.
    NonEmptyDirectory,
    /// A write ran past the fixed-size root region.
    DirectoryFull,
}

/// The FAT variant of the volume; decides how the first-cluster field of a
/// directory record is read and written.
#[derive(Clone, Copy, Debug, PartialEq, Eq, Structural)]
pub enum FatType {
    Fat12,
    Fat16,
    Fat32,
}

} // verus!
