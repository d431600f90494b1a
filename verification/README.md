# erofs-rs

A library to build [EROFS](https://docs.kernel.org/filesystems/erofs.html)
images and to read them back, written and verified in Verus.

## Usage

```rust
use erofs_rs::{CreateOptions, InodeMeta, Reader, Writer};

let mut w = Writer::new(CreateOptions::default())?;
w.mkdir("/etc", InodeMeta::dir(0o755))?;
w.add_file("/etc/motd", InodeMeta::reg(0o644), 6, b"hello\n")?;
assert!(w.can_finish());
let image = w.finish();

let r = Reader::open(image)?;
let etc = &r.dirents(r.root_nid())?[0];
```

`Writer` is for contents that are at hand. With `Builder`, contents can come
out of streams: `add_file` gives a ticket, `next_stream` tells which stream to
drain next, and `supply` takes what came out of it. `Builder::finish` hands the
image out region by region.

## Layout

- `src/` is the library. It performs no I/O: `sink`, `source`, `reader` and
  `writer` say what to read or write next and are told how it went.
  - `tree` holds the entries, `plan` decides where they go, `image` and
    `dirent` give their bytes.
  - `round_trip`, `read_back`, `order`, `streaming` and `calls` state what holds
    of an image as a whole: it takes the blocks its superblock says, its
    checksum verifies, a directory is stored in the order of its names, and it
    does not matter which contents are streamed and when they come.
  - `read_back` states what the reader gives back of the tree: kind, mode and
    size, contents, targets and listings. It holds of regular files,
    directories and symlinks without extended attributes; the reader refuses
    other entries. A listing comes back where every name fits in a block beside
    its record and none that ends a run ends in a zero byte.
- `app/` is a program over tokio that packs a fixture or a directory, and a
  reader of images in files.
- `tests/` runs the library.
