//! Extended attributes, directory data and the order of names.

use erofs_rs::dirent::{build_dirents, dirent_data_size, DirEntry};
use erofs_rs::layout::EROFS_SUPER_OFFSET;
use erofs_rs::meta::{calc_xattr_size, split_xattr_name, write_xattrs, xattr_count};
use erofs_rs::names::sort_positions;
use erofs_rs::path::clean;
use erofs_rs::plan::sorted_dir_entries;
use erofs_rs::reader::parse_dirents;
use erofs_rs::tree::{Content, Node, Tree};
use erofs_rs::{Builder, CreateOptions, FileType, InodeMeta, Xattrs};

fn xattrs(entries: &[(&str, &[u8])]) -> Xattrs {
    let mut x = Xattrs::new();
    for (name, value) in entries {
        x.insert(name.to_string(), value.to_vec());
    }
    x
}

fn entry(name: &str, nid: u64, kind: FileType) -> DirEntry {
    DirEntry {
        name: name.as_bytes().to_vec(),
        nid,
        kind,
    }
}

#[test]
fn prefixes_of_attribute_names() {
    let split = |name: &str| -> (u8, String) {
        let (index, rest) = split_xattr_name(name.as_bytes());
        (index, String::from_utf8(rest.to_vec()).unwrap())
    };
    assert_eq!(split("user.a.b"), (1, "a.b".to_string()));
    assert_eq!(split("system.posix_acl_access.x"), (2, "x".to_string()));
    assert_eq!(split("system.posix_acl_default.x"), (3, "x".to_string()));
    assert_eq!(split("trusted.origin"), (4, "origin".to_string()));
    assert_eq!(split("lustre."), (5, String::new()));
    assert_eq!(split("security.selinux"), (6, "selinux".to_string()));
    assert_eq!(split("system.posix_acl_access"), (0, "system.posix_acl_access".to_string()));
    assert_eq!(split("user"), (0, "user".to_string()));
    assert_eq!(split(""), (0, String::new()));
}

#[test]
fn attributes_are_kept_by_name() {
    let mut x = xattrs(&[("user.b", b"1"), ("user.a", b"2")]);
    assert_eq!(x.insert("user.b".to_string(), b"3".to_vec()), Some(b"1".to_vec()));
    assert_eq!(x.insert("user.c".to_string(), b"4".to_vec()), None);
    let all: Vec<(String, Vec<u8>)> = (0..x.len())
        .map(|i| (x.entry(i).name.clone(), x.entry(i).value.clone()))
        .collect();
    assert_eq!(
        all,
        [
            ("user.a".to_string(), b"2".to_vec()),
            ("user.b".to_string(), b"3".to_vec()),
            ("user.c".to_string(), b"4".to_vec()),
        ]
    );
}

#[test]
fn attribute_bytes() {
    let mut out = Vec::new();
    let x = xattrs(&[("trusted.origin", b"erofs-rs"), ("user.x", b"")]);
    write_xattrs(&x, &mut out);
    let mut expected = vec![0xFF, 0xFF, 0xFF, 0xFF, 0, 0, 0, 0, 0, 0, 0, 0];
    expected.extend_from_slice(&[6, 4, 8, 0]);
    expected.extend_from_slice(b"originerofs-rs\0\0");
    expected.extend_from_slice(&[1, 1, 0, 0]);
    expected.extend_from_slice(b"x\0\0\0");
    assert_eq!(out, expected);
    assert_eq!(calc_xattr_size(&x), Some(out.len()));
    // Twelve bytes of header count as one, and each four bytes as one more.
    assert_eq!(xattr_count(40), 8);
    assert_eq!(xattr_count(12), 1);
    assert_eq!(xattr_count(0), 0);
    assert_eq!(calc_xattr_size(&Xattrs::new()), Some(0));
}

#[test]
fn attributes_follow_their_inode() {
    let mut b = Builder::new(CreateOptions::default()).unwrap();
    let mut meta = InodeMeta::dir(0o755);
    meta.xattrs = xattrs(&[("user.k", b"vv")]);
    b.mkdir("/", meta).unwrap();
    let img = b.finish().concat();
    let o = EROFS_SUPER_OFFSET + 40;
    let meta_off = u32::from_le_bytes([img[o], img[o + 1], img[o + 2], img[o + 3]]) as usize * 4096;
    // Header of twelve bytes, one entry of eight.
    assert_eq!(&img[meta_off + 2..meta_off + 4], [3, 0]);
    assert_eq!(&img[meta_off + 32..meta_off + 36], [0xFF; 4]);
    assert_eq!(&img[meta_off + 44..meta_off + 52], b"\x01\x01\x02\0kvv\0");
    // The listing comes behind them.
    assert_eq!(&img[meta_off + 52..meta_off + 64], b"\0\0\0\0\0\0\0\0\x18\0\x02\0");
}

#[test]
fn directory_bytes() {
    let es = vec![
        entry(".", 0, FileType::Dir),
        entry("..", 0, FileType::Dir),
        entry("motd", 0x0102, FileType::RegFile),
    ];
    let out = build_dirents(&es, 512);
    let mut expected = Vec::new();
    expected.extend_from_slice(b"\0\0\0\0\0\0\0\0\x24\0\x02\0");
    expected.extend_from_slice(b"\0\0\0\0\0\0\0\0\x25\0\x02\0");
    expected.extend_from_slice(b"\x02\x01\0\0\0\0\0\0\x27\0\x01\0");
    expected.extend_from_slice(b"...motd");
    assert_eq!(out, expected);
    assert_eq!(dirent_data_size(&es, 512), Some(43));
}

#[test]
fn directories_are_cut_into_blocks() {
    let mut es = vec![entry(".", 0, FileType::Dir), entry("..", 0, FileType::Dir)];
    for i in 0..100u64 {
        es.push(entry(&format!("name-{i:03}"), i, FileType::RegFile));
    }
    // 25 entries of 20 bytes fill 500 of 512; the first block has two more short ones.
    let out = build_dirents(&es, 512);
    assert_eq!(dirent_data_size(&es, 512), Some(out.len()));
    assert_eq!(out.len(), 4 * 512 + 20);
    assert_eq!(dirent_data_size(&es, 4096), Some(12 + 1 + 12 + 2 + 100 * 20));
    let ds = parse_dirents(&out, 512).unwrap();
    assert_eq!(ds.len(), 100);
    for (i, d) in ds.iter().enumerate() {
        assert_eq!((d.name.as_str(), d.nid), (format!("name-{i:03}").as_str(), i as u64));
    }
}

#[test]
fn a_name_that_fills_more_than_a_block_stands_alone() {
    let long = "x".repeat(600);
    let es = vec![
        entry(".", 0, FileType::Dir),
        entry("..", 0, FileType::Dir),
        entry(&long, 3, FileType::RegFile),
    ];
    // The long name is not the last: its run takes two blocks.
    assert_eq!(dirent_data_size(&es, 512), Some(512 + 612));
    assert_eq!(build_dirents(&es, 512).len(), 512 + 612);
}

#[test]
fn positions_sorted_by_name() {
    let names: Vec<Vec<u8>> = ["b", "", "ab", "a", "b", "\u{e9}", "A"]
        .iter()
        .map(|s| s.as_bytes().to_vec())
        .collect();
    assert_eq!(sort_positions(&names), [1, 6, 3, 2, 0, 4, 5]);
    assert!(sort_positions(&Vec::new()).is_empty());
}

#[test]
fn directory_data_is_the_same_in_any_order() {
    // The number of an entry by its name, so that only the order differs.
    let number = |name: &[u8]| -> u64 {
        match name {
            b"" => 1,
            b"a" => 20,
            b"b" => 30,
            _ => 40,
        }
    };
    let data = |paths: [&str; 3]| -> Vec<u8> {
        let mut t = Tree::new();
        for path in paths {
            let node = Node::new(InodeMeta::reg(0o644), Content::Empty, Vec::new());
            t.add(&clean(path), node).unwrap();
        }
        let numbers: Vec<u64> = (0..t.len()).map(|i| number(&t.node(i).name)).collect();
        build_dirents(&sorted_dir_entries(&t, 0, &numbers), 512)
    };
    let first = data(["/a", "/b", "/c"]);
    assert_eq!(data(["/c", "/b", "/a"]), first);
    assert_eq!(data(["/b", "/c", "/a"]), first);
    let ds = parse_dirents(&first, 512).unwrap();
    let found: Vec<(&str, u64)> = ds.iter().map(|d| (d.name.as_str(), d.nid)).collect();
    assert_eq!(found, [("a", 20), ("b", 30), ("c", 40)]);
}
