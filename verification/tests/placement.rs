//! Where inodes and data go.

use std::collections::HashSet;

use erofs_rs::layout::EROFS_SUPER_OFFSET;
use erofs_rs::meta::InodeMeta;
use erofs_rs::path::clean;
use erofs_rs::plan::{plan_layout, Geometry};
use erofs_rs::tree::{Content, Node, Tree};
use erofs_rs::{Builder, CreateOptions, DataLayout, Error, Reader};

fn le32(b: &[u8], o: usize) -> u32 {
    u32::from_le_bytes([b[o], b[o + 1], b[o + 2], b[o + 3]])
}

fn geometry(block_size: usize) -> Geometry {
    Geometry {
        block_size,
        build_time: 0,
        build_time_nsec: 0,
    }
}

fn file(len: usize) -> Node {
    Node::new(InodeMeta::reg(0o644), Content::Inline(vec![1; len]), Vec::new())
}

fn directory() -> Node {
    Node::new(InodeMeta::dir(0o755), Content::Empty, Vec::new())
}

/// A tree of files of all sizes up to some blocks.
fn sizes(block_size: usize) -> Tree {
    let mut t = Tree::new();
    for i in 0..200 {
        let len = i * block_size / 61;
        let node = if i % 3 == 0 {
            let mut meta = InodeMeta::reg(0o600);
            meta.mtime = 9;
            Node::new(meta, Content::Inline(vec![7; len]), Vec::new())
        } else {
            file(len)
        };
        t.add(&clean(&format!("/d{}/f{i}", i % 5)), node).unwrap();
    }
    t
}

#[test]
fn inodes_and_inline_data_stay_within_a_block() {
    for block_size in [512, 1024, 4096] {
        let t = sizes(block_size);
        let plan = plan_layout(&t, geometry(block_size)).unwrap();
        let mut inline = 0;
        for p in &plan.nodes {
            let core = if p.compact { 32 } else { 64 };
            assert!(p.start % block_size + core <= block_size);
            if p.layout == DataLayout::FlatInline {
                inline += 1;
                let data = p.start + core + p.xattr_size;
                assert!(data % block_size + p.trailing_size <= block_size);
            }
        }
        assert!(inline > 10 && inline < plan.nodes.len());
    }
}

#[test]
fn inode_numbers_are_distinct_and_the_root_is_zero() {
    let t = sizes(512);
    let plan = plan_layout(&t, geometry(512)).unwrap();
    let numbers: HashSet<u64> = plan.nodes.iter().map(|p| p.nid).collect();
    assert_eq!(numbers.len(), t.len());
    assert_eq!(plan.nodes[0].nid, 0);
}

#[test]
fn places_and_blocks_of_a_small_tree() {
    let mut t = Tree::new();
    t.add(&clean("/a"), file(10)).unwrap();
    t.add(&clean("/b"), file(1000)).unwrap();
    t.add(&clean("/c"), file(0)).unwrap();
    let plan = plan_layout(&t, geometry(512)).unwrap();
    // The root: 32 bytes of inode and 5 * 12 + 6 bytes of listing.
    let starts: Vec<usize> = plan.nodes.iter().map(|p| p.start).collect();
    assert_eq!(starts, [0, 128, 192, 224]);
    let blocks: Vec<Option<u32>> = plan.nodes.iter().map(|p| p.data_blkaddr).collect();
    assert_eq!(blocks, [None, None, Some(3), None]);
    assert_eq!(plan.nodes[0].size, 66);
    assert_eq!(plan.nodes[0].nlink, 2);
    assert_eq!(plan.meta_bytes, 256);
    assert_eq!((plan.meta_blkaddr, plan.meta_blocks), (5, 1));
}

#[test]
fn every_entry_is_emitted_once_behind_its_directory() {
    let mut t = Tree::new();
    t.add(&clean("/b"), directory()).unwrap();
    t.add(&clean("/a/x"), file(1)).unwrap();
    t.add(&clean("/b/y"), file(1)).unwrap();
    // Positions: 0 root, 1 b, 2 a, 3 a/x, 4 b/y.
    assert_eq!(t.collect_entries(), [0, 1, 4, 2, 3]);
    assert_eq!(t.effective_nlink(0), Some(4));
    assert_eq!(t.effective_nlink(1), Some(2));
    assert_eq!(t.effective_nlink(3), Some(1));
}

#[test]
fn adding_returns_the_position() {
    let mut t = Tree::new();
    assert_eq!(t.add(&clean("/a/b/c"), file(1)), Ok(Some(3)));
    assert_eq!(t.add(&clean("/a/b/c"), file(2)), Ok(None));
    assert_eq!(t.add(&clean("/a/b"), directory()), Ok(None));
    assert_eq!(t.add(&clean("/a/b/c/d"), file(1)), Err(Error::MissingParent));
    assert_eq!(t.len(), 4);
    assert_eq!(t.node(3).name, b"c");
    assert_eq!(t.node(3).on_disk_size(), 1);
}

#[test]
fn paths_lead_to_the_same_entries_in_the_image() {
    let mut b = Builder::new(CreateOptions::default()).unwrap();
    let paths = ["/one", "/dir/two", "/dir/sub/three", "/other/sub/three"];
    for (i, path) in paths.iter().enumerate() {
        b.add_bytes(path, InodeMeta::reg(0o644), vec![i as u8; i + 1]).unwrap();
    }
    let r = Reader::open(b.finish().concat()).unwrap();
    let resolve = |path: &str| -> Option<u64> {
        let mut nid = r.root_nid();
        for name in clean(path) {
            let ds = r.dirents(nid).ok()?;
            nid = ds.iter().find(|d| d.name.as_bytes() == name)?.nid;
        }
        Some(nid)
    };
    for (i, path) in paths.iter().enumerate() {
        let mut out = Vec::new();
        r.read_content(resolve(path).unwrap(), &mut out).unwrap();
        assert_eq!(out, vec![i as u8; i + 1]);
    }
    assert_eq!(resolve("/dir/three"), None);
    assert_eq!(resolve("/one/x"), None);
    assert_eq!(resolve("/"), Some(0));
}

#[test]
fn data_comes_in_emission_order_between_superblock_and_metadata() {
    let mut b = Builder::new(CreateOptions {
        block_size: 512,
        ..Default::default()
    })
    .unwrap();
    b.mkdir("/d", InodeMeta::dir(0o755)).unwrap();
    b.add_bytes("/last", InodeMeta::reg(0o644), vec![2; 600]).unwrap();
    b.add_bytes("/d/first", InodeMeta::reg(0o644), vec![1; 513]).unwrap();
    let regions = b.finish();
    let lens: Vec<usize> = regions.iter().map(|r| r.len()).collect();
    assert_eq!(lens, [1536, 1024, 1024, 512]);
    assert!(regions[1][..513].iter().all(|b| *b == 1));
    assert!(regions[1][513..].iter().all(|b| *b == 0));
    assert!(regions[2][..600].iter().all(|b| *b == 2));
    let img = regions.concat();
    assert_eq!(le32(&img, EROFS_SUPER_OFFSET + 40), 7);
}
