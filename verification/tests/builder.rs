//! Options, paths, duplicates and the bytes of small images.

use erofs_rs::layout::{mode, EROFS_FEATURE_COMPAT_SB_CHKSUM, EROFS_SUPER_OFFSET};
use erofs_rs::path::clean;
use erofs_rs::{
    Builder, CreateOptions, Error, ErrorKind, FileType, InodeMeta, Reader, Writer,
    DEFAULT_BLOCK_SIZE, MAX_BLOCK_SIZE, MIN_BLOCK_SIZE,
};

fn le16(b: &[u8], o: usize) -> u16 {
    u16::from_le_bytes([b[o], b[o + 1]])
}

fn le32(b: &[u8], o: usize) -> u32 {
    u32::from_le_bytes([b[o], b[o + 1], b[o + 2], b[o + 3]])
}

fn le64(b: &[u8], o: usize) -> u64 {
    le32(b, o) as u64 | (le32(b, o + 4) as u64) << 32
}

fn builder() -> Builder {
    Builder::new(CreateOptions::default()).unwrap()
}

fn image(b: Builder) -> Vec<u8> {
    assert!(b.can_finish());
    b.finish().concat()
}

fn with_block_size(block_size: usize) -> CreateOptions {
    CreateOptions {
        block_size,
        ..Default::default()
    }
}

fn names(img: Vec<u8>) -> Vec<String> {
    let r = Reader::open(img).unwrap();
    r.dirents(0).unwrap().into_iter().map(|d| d.name).collect()
}

#[test]
fn default_options() {
    let o = CreateOptions::default();
    assert_eq!(o.block_size, DEFAULT_BLOCK_SIZE);
    assert_eq!(o.block_size, 4096);
    assert_eq!((o.build_time, o.build_time_nsec), (0, 0));
    assert_eq!(o.uuid, [0; 16]);
    assert_eq!(o.volume_name, "");
    assert!(!o.checksum);
}

#[test]
fn block_sizes_are_powers_of_two_within_bounds() {
    assert_eq!((MIN_BLOCK_SIZE, MAX_BLOCK_SIZE), (512, 65536));
    for bits in 9..=16 {
        assert!(Builder::new(with_block_size(1 << bits)).is_ok());
    }
    for block_size in [0, 1, 256, 511, 513, 768, 4095, 4097, 65535, 131072, usize::MAX] {
        let e = Builder::new(with_block_size(block_size)).err().unwrap();
        assert_eq!(e, Error::InvalidBlockSize { block_size });
        assert_eq!(e.kind(), ErrorKind::InvalidInput);
    }
}

#[test]
fn volume_names_have_at_most_sixteen_bytes() {
    let with_name = |name: &str| CreateOptions {
        volume_name: name.to_string(),
        ..Default::default()
    };
    let b = Builder::new(with_name("0123456789abcdef")).unwrap();
    let img = image(b);
    assert_eq!(&img[EROFS_SUPER_OFFSET + 64..EROFS_SUPER_OFFSET + 80], b"0123456789abcdef");
    let e = Builder::new(with_name("0123456789abcdefg")).err().unwrap();
    assert_eq!(e, Error::VolumeNameTooLong);
    assert_eq!(e.kind(), ErrorKind::InvalidInput);
    // Nine characters, eighteen bytes.
    let e = Builder::new(with_name("\u{e9}\u{e9}\u{e9}\u{e9}\u{e9}\u{e9}\u{e9}\u{e9}\u{e9}"));
    assert_eq!(e.err(), Some(Error::VolumeNameTooLong));
    // A bad block size is reported first.
    let both = CreateOptions {
        block_size: 3,
        ..with_name("0123456789abcdefg")
    };
    assert_eq!(Builder::new(both).err(), Some(Error::InvalidBlockSize { block_size: 3 }));
}

#[test]
fn superblock_fields() {
    let mut b = Builder::new(CreateOptions {
        block_size: 1024,
        build_time: 0x0102030405060708,
        build_time_nsec: 0x11121314,
        uuid: [9; 16],
        volume_name: "vol".to_string(),
        checksum: false,
    })
    .unwrap();
    b.add_bytes("/f", InodeMeta::reg(0o644), vec![5; 3000]).unwrap();
    let img = image(b);
    let sb = &img[EROFS_SUPER_OFFSET..EROFS_SUPER_OFFSET + 128];
    assert_eq!(le32(sb, 0), 0xE0F5E1E2);
    assert_eq!(le32(sb, 4), 0, "no checksum");
    assert_eq!(le32(sb, 8), 0, "no feature");
    assert_eq!((sb[12], sb[13]), (10, 0));
    assert_eq!(le16(sb, 14), 0);
    assert_eq!(le64(sb, 16), 2, "inodes");
    assert_eq!(le64(sb, 24), 0x0102030405060708);
    assert_eq!(le32(sb, 32), 0x11121314);
    // Two blocks up to the end of the superblock, three of data, one of metadata.
    assert_eq!(le32(sb, 36), 6);
    assert_eq!(le32(sb, 40), 5);
    assert_eq!(&sb[44..48], [0; 4]);
    assert_eq!(&sb[48..64], [9; 16]);
    assert_eq!(&sb[64..80], b"vol\0\0\0\0\0\0\0\0\0\0\0\0\0");
    assert_eq!(&sb[80..90], [0; 10]);
    assert_eq!(sb[90], 10);
    assert_eq!(&sb[91..], [0; 37]);
    assert_eq!(img.len(), 6 * 1024);
    assert_eq!(&img[2048..5048], vec![5; 3000]);
    assert!(img[..1024].iter().all(|b| *b == 0));
}

/// The checksum over some bytes, as the superblock has it.
fn crc32c(bytes: &[u8]) -> u32 {
    let mut crc = u32::MAX;
    for byte in bytes {
        crc ^= *byte as u32;
        for _ in 0..8 {
            crc = if crc & 1 == 1 { (crc >> 1) ^ 0x82F63B78 } else { crc >> 1 };
        }
    }
    crc
}

#[test]
fn a_checksum_is_emitted_for_every_block_size() {
    let o = EROFS_SUPER_OFFSET;
    for bits in 9..=16 {
        let bs = 1 << bits;
        let mut b = Builder::new(CreateOptions {
            checksum: true,
            ..with_block_size(bs)
        })
        .unwrap();
        b.mkdir("/d", InodeMeta::dir(0o700)).unwrap();
        let mut img = image(b);
        assert_eq!(le32(&img, o + 8), EROFS_FEATURE_COMPAT_SB_CHKSUM);
        let stored = le32(&img, o + 4);
        img[o + 4..o + 8].fill(0);
        // Up to the end of the first block, or a block's length where that
        // does not reach the superblock.
        let end = if bs < o { o + bs } else { bs };
        assert_eq!(stored, crc32c(&img[o..end]));
        assert_ne!(stored, 0);
    }
}

#[test]
fn an_empty_image_of_the_smallest_blocks_has_its_checksum() {
    let b = Builder::new(CreateOptions {
        checksum: true,
        ..with_block_size(512)
    })
    .unwrap();
    let img = image(b);
    assert_eq!(le32(&img, 1032), 1);
    assert_eq!(img.len(), 4 * 512);
}

#[test]
fn compact_inode_bytes() {
    let mut b = builder();
    let mut meta = InodeMeta::reg(0o640);
    meta.uid = 0x1234;
    meta.gid = 0x5678;
    meta.nlink = Some(3);
    b.add_bytes("/f", meta, b"abc".to_vec()).unwrap();
    let img = image(b);
    let meta_off = le32(&img, EROFS_SUPER_OFFSET + 40) as usize * 4096;
    let r = Reader::open(img.clone()).unwrap();
    let nid = r.dirents(0).unwrap()[0].nid;
    let base = meta_off + nid as usize * 32;
    let inode = &img[base..base + 35];
    assert_eq!(le16(inode, 0), 4, "inline, compact");
    assert_eq!(le16(inode, 2), 0);
    assert_eq!(le16(inode, 4), 0o100640);
    assert_eq!(le16(inode, 6), 3);
    assert_eq!(le32(inode, 8), 3);
    assert_eq!(&inode[12..24], [0; 12]);
    assert_eq!(le16(inode, 24), 0x1234);
    assert_eq!(le16(inode, 26), 0x5678);
    assert_eq!(&inode[28..32], [0; 4]);
    assert_eq!(&inode[32..], b"abc");
}

#[test]
fn extended_inode_bytes() {
    let mut b = builder();
    let mut meta = InodeMeta::reg(0o600);
    meta.uid = 0x12345;
    meta.gid = 7;
    meta.mtime = 0x0A0B0C0D0E0F;
    meta.mtime_nsec = 99;
    b.add_bytes("/f", meta, vec![1; 5000]).unwrap();
    let img = image(b);
    let meta_off = le32(&img, EROFS_SUPER_OFFSET + 40) as usize * 4096;
    let r = Reader::open(img.clone()).unwrap();
    let nid = r.dirents(0).unwrap()[0].nid;
    let base = meta_off + nid as usize * 32;
    let inode = &img[base..base + 64];
    assert_eq!(le16(inode, 0), 1, "plain, extended");
    assert_eq!(le16(inode, 2), 0);
    assert_eq!(le16(inode, 4), 0o100600);
    assert_eq!(&inode[6..8], [0; 2]);
    assert_eq!(le64(inode, 8), 5000);
    assert_eq!(le32(inode, 16), 1, "first block behind the superblock");
    assert_eq!(&inode[20..24], [0; 4]);
    assert_eq!(le32(inode, 24), 0x12345);
    assert_eq!(le32(inode, 28), 7);
    assert_eq!(le64(inode, 32), 0x0A0B0C0D0E0F);
    assert_eq!(le32(inode, 40), 99);
    assert_eq!(le32(inode, 44), 1, "nlink");
    assert_eq!(&inode[48..], [0; 16]);
}

#[test]
fn the_build_time_decides_between_the_inode_forms() {
    let opts = CreateOptions {
        build_time: 77,
        ..Default::default()
    };
    let mut b = Builder::new(opts).unwrap();
    let mut same = InodeMeta::reg(0o644);
    same.mtime = 77;
    b.add_bytes("/same", same, Vec::new()).unwrap();
    b.add_bytes("/other", InodeMeta::reg(0o644), Vec::new()).unwrap();
    let img = image(b);
    let meta_off = le32(&img, EROFS_SUPER_OFFSET + 40) as usize * 4096;
    let r = Reader::open(img.clone()).unwrap();
    for d in r.dirents(0).unwrap() {
        let format = le16(&img, meta_off + d.nid as usize * 32);
        assert_eq!(format & 1, if d.name == "same" { 0 } else { 1 });
    }
}

#[test]
fn device_nodes_keep_their_number() {
    let mut b = builder();
    let mut meta = InodeMeta::default();
    meta.mode = mode::S_IFCHR | 0o666;
    meta.rdev = 0x0105;
    b.mknod("/zero", meta).unwrap();
    let img = image(b);
    let meta_off = le32(&img, EROFS_SUPER_OFFSET + 40) as usize * 4096;
    let r = Reader::open(img.clone()).unwrap();
    let d = &r.dirents(0).unwrap()[0];
    assert_eq!(d.kind, FileType::Chrdev);
    assert_eq!(le32(&img, meta_off + d.nid as usize * 32 + 16), 0x0105);
    let nid = d.nid;
    assert_eq!(r.stat(nid), Err(Error::UnsupportedFileType { nid }));
}

#[test]
fn directories_count_their_subdirectories_as_links() {
    let mut b = builder();
    b.mkdir("/a", InodeMeta::dir(0o755)).unwrap();
    b.mkdir("/b", InodeMeta::dir(0o755)).unwrap();
    b.add_bytes("/f", InodeMeta::reg(0o644), Vec::new()).unwrap();
    let img = image(b);
    let meta_off = le32(&img, EROFS_SUPER_OFFSET + 40) as usize * 4096;
    assert_eq!(le16(&img, meta_off + 6), 4);
}

#[test]
fn paths_are_cleaned() {
    let parts = |p: &str| -> Vec<String> {
        clean(p).into_iter().map(|n| String::from_utf8(n).unwrap()).collect()
    };
    assert_eq!(parts("/a/b"), ["a", "b"]);
    assert_eq!(parts("a//b/"), ["a", "b"]);
    assert_eq!(parts("///./a/./b"), ["a", "b"]);
    assert_eq!(parts("/a/../b"), ["b"]);
    assert_eq!(parts("../../b/..x"), ["b", "..x"]);
    assert!(parts("").is_empty());
    assert!(parts("/").is_empty());
    assert!(parts("/a/..").is_empty());
    // Cleaning what is clean changes nothing.
    assert_eq!(parts(&parts("/x/./y/../z").join("/")), ["x", "z"]);
}

#[test]
fn the_root_takes_only_metadata() {
    let mut b = builder();
    for path in ["", "/", "/a/..", "."] {
        assert_eq!(b.add_file(path, InodeMeta::reg(0o644)), Err(Error::InvalidPath));
        assert_eq!(b.add_bytes(path, InodeMeta::reg(0o644), vec![]), Err(Error::InvalidPath));
        assert_eq!(b.symlink(path, b"t", InodeMeta::symlink()), Err(Error::InvalidPath));
        assert_eq!(b.mknod(path, InodeMeta::default()), Err(Error::InvalidPath));
    }
    assert_eq!(Error::InvalidPath.kind(), ErrorKind::InvalidInput);
    assert_eq!(b.mkdir("/", InodeMeta::dir(0o711)), Ok(()));
    let r = Reader::open(image(b)).unwrap();
    assert_eq!(r.stat(0).unwrap().mode, mode::S_IFDIR | 0o711);
    assert!(r.dirents(0).unwrap().is_empty());
}

#[test]
fn parents_are_made_and_must_be_directories() {
    let mut b = builder();
    b.add_bytes("/a/b/f", InodeMeta::reg(0o600), b"x".to_vec()).unwrap();
    assert_eq!(
        b.add_bytes("/a/b/f/g", InodeMeta::reg(0o600), vec![]),
        Err(Error::MissingParent)
    );
    assert_eq!(b.mkdir("/a/b/f/g/h", InodeMeta::dir(0o700)), Err(Error::MissingParent));
    assert_eq!(Error::MissingParent.kind(), ErrorKind::NotFound);
    let r = Reader::open(image(b)).unwrap();
    let a = r.dirents(0).unwrap();
    assert_eq!(a.len(), 1);
    assert_eq!((a[0].name.as_str(), a[0].kind), ("a", FileType::Dir));
    assert_eq!(r.stat(a[0].nid).unwrap().mode, mode::S_IFDIR | 0o755);
    let inner = r.dirents(a[0].nid).unwrap();
    let f = r.dirents(inner[0].nid).unwrap();
    assert_eq!((f.len(), f[0].name.as_str()), (1, "f"));
}

#[test]
fn an_entry_that_is_there_stays() {
    let mut b = builder();
    b.add_bytes("/f", InodeMeta::reg(0o600), b"first".to_vec()).unwrap();
    b.add_bytes("/f", InodeMeta::reg(0o644), b"second".to_vec()).unwrap();
    b.mkdir("//./f", InodeMeta::dir(0o755)).unwrap();
    b.symlink("f", b"t", InodeMeta::symlink()).unwrap();
    let r = Reader::open(image(b)).unwrap();
    let d = r.dirents(0).unwrap();
    assert_eq!(d.len(), 1);
    assert_eq!(r.stat(d[0].nid).unwrap().mode, mode::S_IFREG | 0o600);
    let mut out = Vec::new();
    assert_eq!(r.read_content(d[0].nid, &mut out), Ok(5));
    assert_eq!(out, b"first");
}

#[test]
fn a_directory_made_for_a_path_keeps_its_mode() {
    let mut b = builder();
    b.add_bytes("/d/f", InodeMeta::reg(0o600), vec![]).unwrap();
    b.mkdir("/d", InodeMeta::dir(0o700)).unwrap();
    let r = Reader::open(image(b)).unwrap();
    let d = r.dirents(0).unwrap();
    assert_eq!(r.stat(d[0].nid).unwrap().mode, mode::S_IFDIR | 0o755);
}

#[test]
fn a_writer_reads_no_further_than_the_size() {
    let mut w = Writer::new(CreateOptions::default()).unwrap();
    w.add_file("/f", InodeMeta::reg(0o644), 3, b"abcdef").unwrap();
    assert_eq!(
        w.add_file("/g", InodeMeta::reg(0o644), 4, b"abc"),
        Err(Error::UnexpectedEof)
    );
    assert_eq!(w.add_file("/", InodeMeta::reg(0o644), 0, b""), Err(Error::InvalidPath));
    let img = w.finish();
    let r = Reader::open(img.clone()).unwrap();
    assert_eq!(names(img), ["f"]);
    let mut out = Vec::new();
    r.read_content(r.dirents(0).unwrap()[0].nid, &mut out).unwrap();
    assert_eq!(out, b"abc");
}

#[test]
fn metadata_constructors_set_the_type() {
    assert_eq!(InodeMeta::dir(0o107755).mode, 0o047755);
    assert_eq!(InodeMeta::reg(0o040644).mode, 0o100644);
    assert_eq!(InodeMeta::symlink().mode, 0o120777);
    let m = InodeMeta::default();
    assert_eq!((m.mode, m.uid, m.gid, m.mtime, m.mtime_nsec), (0o644, 0, 0, 0, 0));
    assert_eq!((m.nlink, m.rdev, m.xattrs.len()), (None, 0, 0));
}
