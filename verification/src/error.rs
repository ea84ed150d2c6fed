//! What can go wrong in the store.

use vstd::prelude::*;
use std::io;
use std::path::PathBuf;

verus! {

/// `std::io::Error`, the cause that the system gives for a failure. It is
/// carried along and never looked into.
#[verifier::external_type_specification]
#[verifier::external_body]
pub struct ExIoError(std::io::Error);

/// `std::path::PathBuf`, the path of a file that could not be opened. It is
/// carried along and never looked into.
#[verifier::external_type_specification]
#[verifier::external_body]
pub struct ExPathBuf(std::path::PathBuf);

/// Database error.
#[derive(Debug)]
pub enum Error {
    /// Failed to open or create a backing file.
    FileOpen(PathBuf, io::Error),
    /// Failed to create a memory map.
    Mmap(io::Error),
    /// Failed to write into a memory map.
    MmapWrite(io::Error),
    /// The database path exists and does not point to a directory.
    PathNotDir,
    /// The database path does not exist.
    PathNotFound,
    /// A record with this key already exists.
    RecordExists(usize),
    /// The data file does not hold what its header promises.
    DataFileDamaged,
    /// The sequence number index does not agree with the data file.
    SeqNoIndexDamaged,
    /// Failed to extend a file.
    Extend(io::Error),
    /// Failed to flush records to the drive.
    Flush(io::Error),
    /// Failed to get the metadata of a file.
    Metadata(io::Error),
    /// Failed to make a memory map read-only.
    Protect(io::Error),
    /// The header of a file cannot be decoded.
    ReadHeader,
    /// Failed to update the header of a file.
    UpdateHeader(io::Error),
    /// The lock around a storage is poisoned.
    StorageLock,
}

} // verus!
