//! Builds EROFS images and reads them back.
//!
//! A [`Builder`] collects a tree of entries, plans where each of them goes,
//! and hands the finished image out region by region. A [`Reader`] walks such
//! an image again. Neither performs I/O: where bytes come from or go to a
//! stream, a reader or a writer, the library says what to do next and is told
//! how it went.

pub mod bytes;
pub mod calls;
pub mod dirent;
pub mod error;
pub mod image;
pub mod laws;
pub mod layout;
pub mod meta;
pub mod names;
pub mod order;
pub mod path;
pub mod plan;
pub mod read_back;
pub mod reader;
pub mod round_trip;
pub mod sample;
pub mod sink;
pub mod source;
pub mod streaming;
pub mod tree;
pub mod writer;

pub use error::{Error, ErrorKind};
pub use layout::{DataLayout, FileType};
pub use meta::{InodeMeta, Xattrs};
pub use plan::{DEFAULT_BLOCK_SIZE, MAX_BLOCK_SIZE, MIN_BLOCK_SIZE};
pub use reader::{Dirent, Reader, Stat};
pub use sink::AsyncWriteSink;
pub use source::{AsyncReadSource, StreamSource};
pub use writer::{Builder, CreateOptions, Drain, Writer};
