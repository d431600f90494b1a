//! File mode bits.

use vstd::prelude::*;

verus! {

pub const S_IFMT: u16 = 0o170000;
pub const S_IFREG: u16 = 0o100000;
pub const S_IFDIR: u16 = 0o040000;
pub const S_IFCHR: u16 = 0o020000;
pub const S_IFBLK: u16 = 0o060000;
pub const S_IFIFO: u16 = 0o010000;
pub const S_IFSOCK: u16 = 0o140000;
pub const S_IFLNK: u16 = 0o120000;

/// The type bits of a mode.
pub fn file_type(mode: u16) -> (bits: u16)
    ensures
        bits == mode & S_IFMT,
{
    mode & S_IFMT
}

} // verus!
