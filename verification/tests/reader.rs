//! Reading images that are damaged or hold what is not read.

use erofs_rs::layout::EROFS_SUPER_OFFSET;
use erofs_rs::reader::{parse_dirents, InodeView, Superblock};
use erofs_rs::{
    CreateOptions, DataLayout, Error, ErrorKind, FileType, InodeMeta, Reader, Stat, Writer,
};

const BS: usize = 4096;

fn sample() -> Vec<u8> {
    let mut w = Writer::new(CreateOptions::default()).unwrap();
    w.add_file("/f", InodeMeta::reg(0o644), 5, b"hello").unwrap();
    w.mkdir("/d", InodeMeta::dir(0o755)).unwrap();
    w.finish()
}

/// Where the metadata of an image starts.
fn meta_off(img: &[u8]) -> usize {
    let o = EROFS_SUPER_OFFSET + 40;
    u32::from_le_bytes([img[o], img[o + 1], img[o + 2], img[o + 3]]) as usize * BS
}

fn nid_of(img: &[u8], name: &str) -> u64 {
    let r = Reader::open(img.to_vec()).unwrap();
    let ds = r.dirents(0).unwrap();
    ds.iter().find(|d| d.name == name).unwrap().nid
}

/// The sample image with some bytes of an inode changed.
fn patched(name: &str, at: usize, bytes: &[u8]) -> (Vec<u8>, u64) {
    let mut img = sample();
    let nid = nid_of(&img, name);
    let o = meta_off(&img) + nid as usize * 32 + at;
    img[o..o + bytes.len()].copy_from_slice(bytes);
    (img, nid)
}

/// One record of a directory.
fn record(nid: u64, nameoff: u16, kind: u8) -> Vec<u8> {
    let mut r = nid.to_le_bytes().to_vec();
    r.extend_from_slice(&nameoff.to_le_bytes());
    r.push(kind);
    r.push(0);
    r
}

fn parse_err(blob: &[u8]) -> Error {
    parse_dirents(blob, 512).err().unwrap()
}

#[test]
fn stat_and_content() {
    let img = sample();
    let (f, d) = (nid_of(&img, "f"), nid_of(&img, "d"));
    let r = Reader::open(img).unwrap();
    assert_eq!(r.root_nid(), 0);
    assert_eq!(
        r.stat(f),
        Ok(Stat { kind: FileType::RegFile, mode: 0o100644, size: 5 })
    );
    assert_eq!(r.stat(d).unwrap().kind, FileType::Dir);
    let mut out = b"<".to_vec();
    assert_eq!(r.read_content(f, &mut out), Ok(5));
    assert_eq!(out, b"<hello");
    assert_eq!(r.read_content(d, &mut out), Err(Error::NotAFileOrSymlink { nid: d }));
    assert_eq!(r.dirents(f).err(), Some(Error::NotADirectory { nid: f }));
    assert_eq!(out, b"<hello");
}

#[test]
fn truncated_and_foreign_images_are_rejected() {
    assert_eq!(Reader::open(vec![]).err(), Some(Error::UnexpectedEof));
    assert_eq!(Reader::open(vec![0; 1151]).err(), Some(Error::UnexpectedEof));
    assert_eq!(Reader::open(vec![0; 1152]).err(), Some(Error::BadMagic));
    assert_eq!(Error::BadMagic.kind(), ErrorKind::InvalidData);
    assert_eq!(Error::UnexpectedEof.kind(), ErrorKind::UnexpectedEof);
    for bits in [0u8, 8, 17, 255] {
        let mut img = sample();
        img[EROFS_SUPER_OFFSET + 12] = bits;
        assert_eq!(Reader::open(img).err(), Some(Error::InvalidBlockBits { bits }));
    }
}

#[test]
fn an_inode_beyond_the_end_is_an_error() {
    let r = Reader::open(sample()).unwrap();
    assert_eq!(r.stat(1 << 40), Err(Error::UnexpectedEof));
    let (img, nid) = patched("f", 8, &100_000u32.to_le_bytes());
    let r = Reader::open(img).unwrap();
    let mut out = Vec::new();
    assert_eq!(r.read_content(nid, &mut out), Err(Error::UnexpectedEof));
    assert!(out.is_empty());
    let (img, nid) = patched("d", 8, &100_000u32.to_le_bytes());
    let r = Reader::open(img).unwrap();
    assert_eq!(r.dirents(nid).err(), Some(Error::UnexpectedEof));
}

#[test]
fn an_empty_directory_has_nothing_to_read() {
    // No data, and a first block behind the end of the image.
    let mut plain = vec![0; 20];
    plain[4..6].copy_from_slice(&0o040755u16.to_le_bytes());
    plain[16..20].copy_from_slice(&0xFFFF_0000u32.to_le_bytes());
    let (img, nid) = patched("d", 0, &plain);
    let r = Reader::open(img).unwrap();
    assert_eq!(r.stat(nid).unwrap().size, 0);
    assert!(r.dirents(nid).unwrap().is_empty());
}

#[test]
fn whole_chunks_of_a_cut_content_are_handed_out() {
    let mut w = Writer::new(CreateOptions::default()).unwrap();
    let data = vec![3u8; 70_000];
    w.add_file("/f", InodeMeta::reg(0o644), 70_000, &data).unwrap();
    let mut img = w.finish();
    // Let the content start where only one chunk and a bit are left.
    let start = img.len() / BS - 17;
    let o = meta_off(&img) + nid_of(&img, "f") as usize * 32;
    img[o + 16..o + 20].copy_from_slice(&(start as u32).to_le_bytes());
    let nid = (o - meta_off(&img)) as u64 / 32;
    let expected = img[start * BS..start * BS + 65536].to_vec();
    let r = Reader::open(img).unwrap();
    let mut out = Vec::new();
    assert_eq!(r.read_content(nid, &mut out), Err(Error::UnexpectedEof));
    assert_eq!(out, expected);
}

#[test]
fn inodes_that_are_not_read() {
    let (img, nid) = patched("f", 2, &[1, 0]);
    assert_eq!(Reader::open(img).unwrap().stat(nid), Err(Error::XattrsUnsupported { nid }));
    let (img, nid) = patched("f", 0, &[5 << 1, 0]);
    assert_eq!(Reader::open(img).unwrap().stat(nid), Err(Error::UnknownDataLayout { nid }));
    for layout in [
        DataLayout::CompressedFull,
        DataLayout::CompressedCompact,
        DataLayout::ChunkBased,
    ] {
        let (img, nid) = patched("f", 0, &[layout.to_u8() << 1, 0]);
        assert_eq!(
            Reader::open(img).unwrap().stat(nid),
            Err(Error::UnsupportedDataLayout { nid, layout })
        );
    }
    for mode in [0u16, 0o010644, 0o020644, 0o060644, 0o140644] {
        let (img, nid) = patched("f", 4, &mode.to_le_bytes());
        assert_eq!(
            Reader::open(img).unwrap().stat(nid),
            Err(Error::UnsupportedFileType { nid })
        );
    }
}

#[test]
fn damaged_directories() {
    assert!(parse_dirents(&[], 512).unwrap().is_empty());
    assert_eq!(parse_err(&[0; 11]), Error::DirentChunkTooSmall);
    assert_eq!(parse_err(&[0; 12]), Error::DirentBadNameoff);
    assert_eq!(parse_err(&record(1, 24, 1)), Error::DirentBadNameoff);
    // A name among the records.
    let mut blob = record(1, 24, 1);
    blob.extend(record(2, 12, 1));
    blob.extend_from_slice(b"ab");
    assert_eq!(parse_err(&blob), Error::DirentBadNameOffsets);
    // A name that is not UTF-8.
    let mut blob = record(1, 12, 1);
    blob.push(0xFF);
    assert_eq!(parse_err(&blob), Error::DirentNonUtf8Name);
    // A kind that does not exist.
    let mut blob = record(1, 12, 8);
    blob.push(b'a');
    assert_eq!(parse_err(&blob), Error::DirentUnknownFileType);
    for e in [
        Error::DirentChunkTooSmall,
        Error::DirentBadNameoff,
        Error::DirentBadNameOffsets,
        Error::DirentNonUtf8Name,
        Error::DirentUnknownFileType,
    ] {
        assert_eq!(e.kind(), ErrorKind::InvalidData);
    }
}

#[test]
fn records_of_a_piece() {
    let mut blob = record(0, 36, 2);
    blob.extend(record(7, 37, 7));
    blob.extend(record(9, 40, 1));
    blob.extend_from_slice(b".abc\xC3\xA9\0\0\0");
    let ds = parse_dirents(&blob, 512).unwrap();
    assert_eq!(ds.len(), 2);
    assert_eq!((ds[0].name.as_str(), ds[0].nid, ds[0].kind), ("abc", 7, FileType::Symlink));
    assert_eq!((ds[1].name.as_str(), ds[1].nid, ds[1].kind), ("\u{e9}", 9, FileType::RegFile));
}

#[test]
fn steps_say_what_to_read() {
    assert_eq!(Superblock::location(), (1024, 128));
    let img = sample();
    let sb = Superblock::parse(&img[1024..1152]).unwrap();
    assert_eq!(sb.block_size, BS);
    assert_eq!(sb.meta_off as usize, meta_off(&img));
    assert_eq!(sb.inode_offset(3), sb.meta_off + 96);
    let base = sb.inode_offset(0);
    let head = &img[base as usize..base as usize + 32];
    assert_eq!(InodeView::length(head), 32);
    let v = InodeView::parse(0, base, head).unwrap();
    assert_eq!((v.kind, v.layout), (FileType::Dir, DataLayout::FlatInline));
    assert_eq!(sb.data_offset(&v), base + 32);
}

#[test]
fn codes_of_layouts_and_file_types() {
    for v in 0..=255u8 {
        assert_eq!(DataLayout::from_u8(v).map(|l| l.to_u8()), if v < 5 { Some(v) } else { None });
        assert_eq!(FileType::from_u8(v).map(|t| t.to_u8()), if v < 8 { Some(v) } else { None });
    }
    assert_eq!(DataLayout::from_u8(2), Some(DataLayout::FlatInline));
    assert_eq!(FileType::from_u8(7), Some(FileType::Symlink));
    assert_eq!(FileType::from_mode(0o120777), FileType::Symlink);
    assert_eq!(FileType::from_mode(0o140000), FileType::Sock);
    assert_eq!(FileType::from_mode(0o644), FileType::Unknown);
    assert_eq!(erofs_rs::layout::mode::file_type(0o100644), 0o100000);
}
