//! What can go wrong when an image is built or read.

use vstd::prelude::*;

use crate::layout::DataLayout;

verus! {

/// The broad class of an error.
#[derive(Clone, Copy, PartialEq, Eq, Debug, Structural)]
pub enum ErrorKind {
    NotFound,
    InvalidInput,
    InvalidData,
    UnexpectedEof,
}

#[derive(Clone, Copy, PartialEq, Eq, Debug, Structural)]
pub enum Error {
    /// The block size is not a power of two between 512 and 65536.
    InvalidBlockSize { block_size: usize },
    /// The volume name is longer than 16 bytes.
    VolumeNameTooLong,
    /// The path names the root, where an entry other than a directory is
    /// wanted.
    InvalidPath,
    /// A component of the path other than the last one is no directory.
    MissingParent,
    /// The source ended before the bytes that were asked for.
    UnexpectedEof,
    /// The superblock does not start with the magic number.
    BadMagic,
    /// The block size of the superblock is out of range.
    InvalidBlockBits { bits: u8 },
    /// The inode has extended attributes.
    XattrsUnsupported { nid: u64 },
    /// The inode's data layout has no meaning.
    UnknownDataLayout { nid: u64 },
    /// The inode's data layout is known and cannot be read.
    UnsupportedDataLayout { nid: u64, layout: DataLayout },
    /// The inode is no regular file, directory or symlink.
    UnsupportedFileType { nid: u64 },
    NotADirectory { nid: u64 },
    NotAFileOrSymlink { nid: u64 },
    /// A piece of a directory is shorter than one record.
    DirentChunkTooSmall,
    /// The first record of a piece of a directory gives no record count.
    DirentBadNameoff,
    /// A name of a directory lies outside its piece, or among the records.
    DirentBadNameOffsets,
    DirentNonUtf8Name,
    DirentUnknownFileType,
}

impl Error {
    pub open spec fn spec_kind(self) -> ErrorKind {
        match self {
            Error::InvalidBlockSize { .. } => ErrorKind::InvalidInput,
            Error::VolumeNameTooLong => ErrorKind::InvalidInput,
            Error::InvalidPath => ErrorKind::InvalidInput,
            Error::MissingParent => ErrorKind::NotFound,
            Error::UnexpectedEof => ErrorKind::UnexpectedEof,
            _ => ErrorKind::InvalidData,
        }
    }

    /// The broad class of this error.
    pub fn kind(&self) -> (k: ErrorKind)
        ensures
            k == self.spec_kind(),
    {
        match self {
            Error::InvalidBlockSize { .. } => ErrorKind::InvalidInput,
            Error::VolumeNameTooLong => ErrorKind::InvalidInput,
            Error::InvalidPath => ErrorKind::InvalidInput,
            Error::MissingParent => ErrorKind::NotFound,
            Error::UnexpectedEof => ErrorKind::UnexpectedEof,
            _ => ErrorKind::InvalidData,
        }
    }
}

} // verus!
