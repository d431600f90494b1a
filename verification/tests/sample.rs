//! The sample program's contents.

use erofs_rs::reader::InodeView;
use erofs_rs::sample::{
    build_fixture, child_path, chunks, fixture_content, is_packed, meta_from, pack_file,
    uuid_from_seed, HostFile, HostStat,
};
use erofs_rs::{Builder, CreateOptions, Error, FileType, InodeMeta, Reader};
use rand::{RngCore, SeedableRng};

fn stat() -> HostStat {
    HostStat {
        mode: 0o100644,
        uid: 1000,
        gid: 100,
        mtime: 12,
        mtime_nsec: 34,
        nlink: 2,
        rdev: 0,
    }
}

#[test]
fn uuids_come_from_the_seed() {
    for seed in [0, 1, 1_700_000_000, u64::MAX] {
        let mut expected = [0u8; 16];
        rand::rngs::StdRng::seed_from_u64(seed).fill_bytes(&mut expected);
        assert_eq!(uuid_from_seed(seed), expected);
        assert_eq!(uuid_from_seed(seed), uuid_from_seed(seed));
    }
    assert_ne!(uuid_from_seed(0), uuid_from_seed(1));
    assert_ne!(uuid_from_seed(0), [0; 16]);
}

#[test]
fn the_large_file_in_chunks() {
    let big = fixture_content();
    assert_eq!(big.len(), 100_000);
    assert!(big.iter().enumerate().all(|(i, b)| *b == (i % 251) as u8));
    let pieces = chunks(&big, 7777);
    assert_eq!(pieces.len(), 13);
    assert!(pieces[..12].iter().all(|p| p.len() == 7777));
    assert_eq!(pieces[12].len(), 100_000 - 12 * 7777);
    assert_eq!(pieces.concat(), big);
    assert!(chunks(&[], 5).is_empty());
}

#[test]
fn the_fixture() {
    let mut b = Builder::new(CreateOptions::default()).unwrap();
    let ticket = build_fixture(&mut b).unwrap().unwrap();
    assert_eq!(b.next_stream(), Some(ticket));
    b.supply(ticket, fixture_content());
    assert!(b.can_finish());
    let r = Reader::open(b.finish().concat()).unwrap();
    let ds = r.dirents(0).unwrap();
    let found: Vec<(&str, FileType)> = ds.iter().map(|d| (d.name.as_str(), d.kind)).collect();
    assert_eq!(
        found,
        [
            ("big.bin", FileType::RegFile),
            ("empty", FileType::Dir),
            ("empty-file", FileType::RegFile),
            ("etc", FileType::Dir),
            ("link", FileType::Symlink),
            ("zero", FileType::Chrdev),
        ]
    );
    let mut big = Vec::new();
    r.read_content(ds[0].nid, &mut big).unwrap();
    assert_eq!(big, fixture_content());
    assert_eq!(r.stat(ds[0].nid).unwrap().mode, 0o100600);
    assert!(r.dirents(ds[1].nid).unwrap().is_empty());
    assert_eq!(r.stat(ds[2].nid).unwrap().size, 0);
    let mut target = Vec::new();
    r.read_content(ds[4].nid, &mut target).unwrap();
    assert_eq!(target, b"etc/motd");
    let etc = r.dirents(ds[3].nid).unwrap();
    assert_eq!(etc[0].name, "motd");
    // It has an attribute, which is not read.
    let nid = etc[0].nid;
    let refused: Result<InodeView, Error> = r.inode(nid);
    assert_eq!(refused, Err(Error::XattrsUnsupported { nid }));
}

#[test]
fn a_step_of_the_fixture_can_fail() {
    let mut b = Builder::new(CreateOptions::default()).unwrap();
    b.add_bytes("/etc", InodeMeta::reg(0o644), vec![]).unwrap();
    assert_eq!(build_fixture(&mut b), Err(Error::MissingParent));
    // The entries before that step are kept.
    let r = Reader::open(b.finish().concat()).unwrap();
    assert_eq!(r.dirents(0).unwrap().len(), 1);
}

#[test]
fn the_fixture_wants_no_content_for_a_path_that_is_taken() {
    let mut b = Builder::new(CreateOptions::default()).unwrap();
    b.add_bytes("/big.bin", InodeMeta::reg(0o644), vec![]).unwrap();
    assert_eq!(build_fixture(&mut b), Ok(None));
}

#[test]
fn metadata_of_host_files() {
    let m = meta_from(&stat());
    assert_eq!((m.mode, m.uid, m.gid), (0o100644, 1000, 100));
    assert_eq!((m.mtime, m.mtime_nsec, m.nlink, m.rdev), (12, 34, Some(2), 0));
    assert_eq!(m.xattrs.len(), 0);
    let m = meta_from(&HostStat {
        mode: 0xABCD_81A4,
        mtime: -5,
        mtime_nsec: -1,
        nlink: 0x1_0000_0003,
        rdev: 0x2_0000_0004,
        ..stat()
    });
    assert_eq!(m.mode, 0x81A4);
    assert_eq!((m.mtime, m.mtime_nsec), (0, 0));
    assert_eq!((m.nlink, m.rdev), (Some(3), 4));
}

#[test]
fn names_and_paths_of_host_files() {
    assert!(is_packed(""));
    assert!(is_packed(&"n".repeat(255)));
    assert!(!is_packed(&"n".repeat(256)));
    assert!(!is_packed(&"\u{e9}".repeat(128)));
    assert_eq!(child_path("/", "a"), "/a");
    assert_eq!(child_path("/a//", "b"), "/a/b");
    assert_eq!(child_path("/\u{e9}", "b"), "/\u{e9}/b");
    assert_eq!(child_path("", "b"), "/b");
    assert_eq!(child_path("//", "b/"), "/b/");
}

#[test]
fn packing_host_files() {
    let mut b = Builder::new(CreateOptions::default()).unwrap();
    let dir = HostStat { mode: 0o040711, ..stat() };
    let link = HostStat { mode: 0o120777, ..stat() };
    let fifo = HostStat { mode: 0o010600, ..stat() };
    assert_eq!(pack_file(&mut b, "/", HostFile::Dir, &dir), Ok(None));
    assert_eq!(pack_file(&mut b, "/d", HostFile::Dir, &dir), Ok(None));
    let link_file = HostFile::Symlink(b"target".to_vec());
    assert_eq!(pack_file(&mut b, "/l", link_file, &link), Ok(None));
    assert_eq!(pack_file(&mut b, "/p", HostFile::Special, &fifo), Ok(None));
    let ticket = pack_file(&mut b, "/d/f", HostFile::Regular, &stat()).unwrap().unwrap();
    assert_eq!(pack_file(&mut b, "/d/f", HostFile::Regular, &stat()), Ok(None));
    assert_eq!(
        pack_file(&mut b, "/", HostFile::Regular, &stat()),
        Err(Error::InvalidPath)
    );
    assert_eq!(
        pack_file(&mut b, "/l/x", HostFile::Dir, &dir),
        Err(Error::MissingParent)
    );
    b.supply(ticket, b"content".to_vec());
    let r = Reader::open(b.finish().concat()).unwrap();
    assert_eq!(r.stat(0).unwrap().mode, 0o040711);
    let ds = r.dirents(0).unwrap();
    let kinds: Vec<FileType> = ds.iter().map(|d| d.kind).collect();
    assert_eq!(kinds, [FileType::Dir, FileType::Symlink, FileType::Fifo]);
    let f = &r.dirents(ds[0].nid).unwrap()[0];
    let mut out = Vec::new();
    r.read_content(f.nid, &mut out).unwrap();
    assert_eq!(out, b"content");
}
