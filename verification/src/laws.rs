//! What the operations are for, stated by what can be seen of their results:
//! the bytes of an image at their offsets, the entries that a path leads to,
//! the order of names.

pub mod builder;
pub mod bytes;
pub mod directory;
pub mod emission;
pub mod inode;
pub mod limits;
pub mod machines;
pub mod names;
pub mod path;
pub mod placement;
pub mod reading;
pub mod sample;
pub mod superblock;
pub mod tree;
pub mod xattr;
