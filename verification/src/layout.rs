//! On-disk constants and the small enumerations of the format
//! (see fs/erofs/erofs_fs.h).

use vstd::prelude::*;

pub mod mode;
pub mod xattr_index;

verus! {

pub const EROFS_SUPER_MAGIC_V1: u32 = 0xE0F5E1E2;

/// To allow for x86 boot sectors and other oddities.
pub const EROFS_SUPER_OFFSET: usize = 1024;

pub const EROFS_FEATURE_COMPAT_SB_CHKSUM: u32 = 0x00000001;
pub const EROFS_FEATURE_INCOMPAT_CHUNKED_FILE: u32 = 0x00000004;
pub const EROFS_FEATURE_INCOMPAT_DEVICE_TABLE: u32 = 0x00000008;
pub const EROFS_ALL_FEATURE_INCOMPAT: u32 = 0x000001FF;

pub const EROFS_I_VERSION_BIT: u16 = 0;
pub const EROFS_I_DATALAYOUT_BIT: u16 = 1;
pub const EROFS_I_NLINK_1_BIT: u16 = 4;
pub const EROFS_I_DOT_OMITTED_BIT: u16 = 4;

pub const SIZE_INODE_COMPACT: usize = 32;
pub const SIZE_INODE_EXTENDED: usize = 64;
pub const SIZE_DIRENT: usize = 12;
pub const SIZE_XATTR_IBODY_HEADER: usize = 12;
pub const SIZE_XATTR_ENTRY: usize = 4;
pub const SIZE_DEVICE_SLOT: usize = 128;
pub const SIZE_CHUNK_INDEX: usize = 8;
pub const SIZE_SUPER_BLOCK: usize = 128;

pub const EROFS_NAME_LEN: usize = 255;

/// Chunk format bits (i_u for chunk-based inodes).
pub const EROFS_CHUNK_FORMAT_BLKBITS_MASK: u32 = 0x001F;
pub const EROFS_CHUNK_FORMAT_INDEXES: u32 = 0x0020;
pub const EROFS_CHUNK_FORMAT_48BIT: u32 = 0x0040;

/// Sentinel physical block address marking a hole (sparse chunk).
pub const NULL_ADDR: u64 = 0xFFFF_FFFF_FFFF_FFFF;

/// How the data of an inode is stored. The variants stand in the order of
/// their on-disk codes, which start at zero.
#[derive(Clone, Copy, PartialEq, Eq, Debug, Structural)]
pub enum DataLayout {
    FlatPlain,
    CompressedFull,
    FlatInline,
    CompressedCompact,
    ChunkBased,
}

impl DataLayout {
    /// The on-disk code.
    pub open spec fn code(self) -> u8 {
        match self {
            DataLayout::FlatPlain => 0,
            DataLayout::CompressedFull => 1,
            DataLayout::FlatInline => 2,
            DataLayout::CompressedCompact => 3,
            DataLayout::ChunkBased => 4,
        }
    }

    /// The layout with on-disk code `v`, if there is one.
    pub open spec fn of_code(v: u8) -> Option<DataLayout> {
        match v {
            0 => Some(DataLayout::FlatPlain),
            1 => Some(DataLayout::CompressedFull),
            2 => Some(DataLayout::FlatInline),
            3 => Some(DataLayout::CompressedCompact),
            4 => Some(DataLayout::ChunkBased),
            _ => None,
        }
    }

    pub fn from_u8(v: u8) -> (r: Option<Self>)
        ensures
            r == DataLayout::of_code(v),
            r is Some <==> v <= 4,
            r matches Some(l) ==> l.code() == v,
    {
        match v {
            0 => Some(DataLayout::FlatPlain),
            1 => Some(DataLayout::CompressedFull),
            2 => Some(DataLayout::FlatInline),
            3 => Some(DataLayout::CompressedCompact),
            4 => Some(DataLayout::ChunkBased),
            _ => None,
        }
    }

    pub fn to_u8(self) -> (v: u8)
        ensures
            v == self.code(),
    {
        match self {
            DataLayout::FlatPlain => 0,
            DataLayout::CompressedFull => 1,
            DataLayout::FlatInline => 2,
            DataLayout::CompressedCompact => 3,
            DataLayout::ChunkBased => 4,
        }
    }
}

/// The file type of a directory entry. The variants stand in the order of
/// their on-disk codes, which start at zero.
#[derive(Clone, Copy, PartialEq, Eq, PartialOrd, Ord, Debug, Structural)]
pub enum FileType {
    Unknown,
    RegFile,
    Dir,
    Chrdev,
    Blkdev,
    Fifo,
    Sock,
    Symlink,
}

impl FileType {
    /// The on-disk code.
    pub open spec fn code(self) -> u8 {
        match self {
            FileType::Unknown => 0,
            FileType::RegFile => 1,
            FileType::Dir => 2,
            FileType::Chrdev => 3,
            FileType::Blkdev => 4,
            FileType::Fifo => 5,
            FileType::Sock => 6,
            FileType::Symlink => 7,
        }
    }

    /// The file type with on-disk code `v`, if there is one.
    pub open spec fn of_code(v: u8) -> Option<FileType> {
        match v {
            0 => Some(FileType::Unknown),
            1 => Some(FileType::RegFile),
            2 => Some(FileType::Dir),
            3 => Some(FileType::Chrdev),
            4 => Some(FileType::Blkdev),
            5 => Some(FileType::Fifo),
            6 => Some(FileType::Sock),
            7 => Some(FileType::Symlink),
            _ => None,
        }
    }

    /// The file type that the type bits of a mode stand for.
    pub open spec fn of_mode(m: u16) -> FileType {
        let bits = m & mode::S_IFMT;
        if bits == mode::S_IFREG {
            FileType::RegFile
        } else if bits == mode::S_IFDIR {
            FileType::Dir
        } else if bits == mode::S_IFCHR {
            FileType::Chrdev
        } else if bits == mode::S_IFBLK {
            FileType::Blkdev
        } else if bits == mode::S_IFIFO {
            FileType::Fifo
        } else if bits == mode::S_IFSOCK {
            FileType::Sock
        } else if bits == mode::S_IFLNK {
            FileType::Symlink
        } else {
            FileType::Unknown
        }
    }

    pub fn from_u8(v: u8) -> (r: Option<Self>)
        ensures
            r == FileType::of_code(v),
            r is Some <==> v <= 7,
            r matches Some(t) ==> t.code() == v,
    {
        match v {
            0 => Some(FileType::Unknown),
            1 => Some(FileType::RegFile),
            2 => Some(FileType::Dir),
            3 => Some(FileType::Chrdev),
            4 => Some(FileType::Blkdev),
            5 => Some(FileType::Fifo),
            6 => Some(FileType::Sock),
            7 => Some(FileType::Symlink),
            _ => None,
        }
    }

    pub fn to_u8(self) -> (v: u8)
        ensures
            v == self.code(),
    {
        match self {
            FileType::Unknown => 0,
            FileType::RegFile => 1,
            FileType::Dir => 2,
            FileType::Chrdev => 3,
            FileType::Blkdev => 4,
            FileType::Fifo => 5,
            FileType::Sock => 6,
            FileType::Symlink => 7,
        }
    }

    pub fn from_mode(m: u16) -> (t: FileType)
        ensures
            t == FileType::of_mode(m),
    {
        let bits: u16 = mode::file_type(m);
        if bits == mode::S_IFREG {
            FileType::RegFile
        } else if bits == mode::S_IFDIR {
            FileType::Dir
        } else if bits == mode::S_IFCHR {
            FileType::Chrdev
        } else if bits == mode::S_IFBLK {
            FileType::Blkdev
        } else if bits == mode::S_IFIFO {
            FileType::Fifo
        } else if bits == mode::S_IFSOCK {
            FileType::Sock
        } else if bits == mode::S_IFLNK {
            FileType::Symlink
        } else {
            FileType::Unknown
        }
    }
}

/// The on-disk code of a data layout decodes to that layout, and the code of
/// a file type to that file type.
pub proof fn codes_round_trip(l: DataLayout, t: FileType)
    ensures
        DataLayout::of_code(l.code()) == Some(l),
        FileType::of_code(t.code()) == Some(t),
{
}

} // verus!
