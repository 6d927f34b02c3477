//! Failures of the disk-space layer, each with what is needed to find its cause.
use vstd::prelude::*;

verus! {

#[derive(Debug, PartialEq, Eq)]
pub enum StorageError {
    /// A partition file could not be read or written, or its contents are
    /// not a consistent partition image.
    IOError { part_num: usize },
    /// Every page of the partition is allocated.
    OutOfSpace { part_num: usize },
    /// The page is not allocated, or lies beyond the partition's capacity.
    PageNotAllocated { part_num: usize, page_num: usize },
    /// The page to free is already free.
    DoubleFree { part_num: usize, page_num: usize },
    /// A file of the storage directory is not named by a partition number.
    CorruptDirectory { name: String },
}

} // verus!
