//! End-to-end: build an image with Writer, then walk it back with Reader
//! and compare against the source tree.

use std::collections::BTreeMap;

use erofs_rs::{CreateOptions, FileType, InodeMeta, Reader, Writer};

const BS: usize = 4096;

#[derive(Clone, Debug, PartialEq)]
enum Node {
    Dir(BTreeMap<String, Node>),
    File(Vec<u8>, bool),
    Symlink(String),
}

fn dir(entries: &[(&str, Node)]) -> Node {
    Node::Dir(
        entries
            .iter()
            .map(|(n, v)| ((*n).to_string(), v.clone()))
            .collect(),
    )
}

fn add(w: &mut Writer, path: &str, n: &Node) {
    match n {
        Node::Dir(children) => {
            w.mkdir(path, InodeMeta::dir(0o555)).unwrap();
            for (name, c) in children {
                add(w, &format!("{path}/{name}"), c);
            }
        }
        Node::File(data, exec) => {
            let meta = InodeMeta::reg(if *exec { 0o555 } else { 0o444 });
            w.add_file(path, meta, data.len() as u64, data).unwrap();
        }
        Node::Symlink(target) => {
            w.symlink(path, target.as_bytes(), InodeMeta::symlink()).unwrap();
        }
    }
}

fn build_with(tree: &Node, opts: CreateOptions) -> Vec<u8> {
    let mut w = Writer::new(opts).unwrap();
    add(&mut w, "", tree);
    assert!(w.can_finish());
    w.finish()
}

fn build(tree: &Node) -> Vec<u8> {
    let opts = CreateOptions {
        block_size: BS,
        ..Default::default()
    };
    build_with(tree, opts)
}

fn source_tree() -> Node {
    let mut many = BTreeMap::new();
    for i in 0..300 {
        let data = vec![(i % 251) as u8; (i % 7) * 100];
        many.insert(
            format!("entry-{i:04}-with-a-longish-name"),
            Node::File(data, false),
        );
    }
    dir(&[
        (
            "sub",
            dir(&[
                ("run.sh", Node::File(b"#!/bin/sh\n".to_vec(), true)),
                (
                    "nested",
                    dir(&[("deep.txt", Node::File(b"deep".to_vec(), false))]),
                ),
                ("link", Node::Symlink("deep.txt".to_string())),
            ]),
        ),
        ("empty.bin", Node::File(Vec::new(), false)),
        ("inline.txt", Node::File(b"inline".to_vec(), false)),
        (
            "streamed.bin",
            Node::File((0..10_000u32).map(|i| (i % 251) as u8).collect(), false),
        ),
        ("big-link", Node::Symlink("sub/nested/deep.txt".to_string())),
        ("many", Node::Dir(many)),
    ])
}

fn walk(r: &Reader, nid: u64) -> Node {
    let mut entries = r.dirents(nid).unwrap();
    // reader returns stored order; sort for comparison like a consumer would
    entries.sort_by(|a, b| a.name.cmp(&b.name));
    let mut children = BTreeMap::new();
    for e in entries {
        let node = match e.kind {
            FileType::Dir => walk(r, e.nid),
            FileType::Symlink => {
                let mut target = Vec::new();
                r.read_content(e.nid, &mut target).unwrap();
                Node::Symlink(String::from_utf8(target).unwrap())
            }
            _ => {
                let st = r.stat(e.nid).unwrap();
                let exec = st.mode & 0o111 != 0;
                let mut data = Vec::with_capacity(st.size as usize);
                let n = r.read_content(e.nid, &mut data).unwrap();
                assert_eq!(n, st.size);
                Node::File(data, exec)
            }
        };
        children.insert(e.name, node);
    }
    Node::Dir(children)
}

#[test]
fn reader_round_trips_tree() {
    let tree = source_tree();
    let img = build(&tree);
    let r = Reader::open(img).unwrap();
    let root_nid = r.root_nid();
    let root = walk(&r, root_nid);
    match (&tree, &root) {
        (Node::Dir(a), Node::Dir(b)) => {
            // the source root has no "." / ".." entries to compare
            assert_eq!(a, b);
        }
        _ => unreachable!(),
    }
}

#[test]
fn dirents_are_name_sorted_test() {
    // writer inserts out of byte order; dirents must come back sorted
    let tree = dir(&[
        ("z-first-added", Node::File(b"z".to_vec(), false)),
        ("a", Node::File(b"a".to_vec(), false)),
        ("m", Node::File(b"m".to_vec(), false)),
    ]);
    let img = build(&tree);
    let r = Reader::open(img).unwrap();
    let names: Vec<String> = r
        .dirents(r.root_nid())
        .unwrap()
        .into_iter()
        .map(|d| d.name)
        .collect();
    assert_eq!(names, ["a", "m", "z-first-added"]);
}

#[test]
fn bad_magic_is_rejected_test() {
    assert!(Reader::open(vec![0u8; 4096]).is_err());
}

#[test]
fn names_below_the_dot_come_back_sorted() {
    // `!` and `-` stand before `.` in byte order.
    let mut w = Writer::new(CreateOptions::default()).unwrap();
    for name in ["z", "!bang", "a", "-dash", "\u{e9}t\u{e9}", "..."] {
        w.add_file(name, InodeMeta::reg(0o644), 0, b"").unwrap();
    }
    let r = Reader::open(w.finish()).unwrap();
    let names: Vec<String> = r.dirents(0).unwrap().into_iter().map(|d| d.name).collect();
    assert_eq!(names, ["!bang", "-dash", "...", "a", "z", "\u{e9}t\u{e9}"]);
}

fn with_block_size(block_size: usize) -> CreateOptions {
    CreateOptions {
        block_size,
        ..Default::default()
    }
}

fn le32(b: &[u8], o: usize) -> usize {
    u32::from_le_bytes([b[o], b[o + 1], b[o + 2], b[o + 3]]) as usize
}

#[test]
fn every_block_size_reads_back() {
    for bits in 9..=16 {
        let bs = 1 << bits;
        // Twenty bytes for each entry: the directory takes several runs.
        let entries: BTreeMap<String, Node> = (0..bs / 8)
            .map(|i| (format!("{i:08}"), Node::File(vec![i as u8; i % 4], false)))
            .collect();
        let tree = dir(&[
            ("a", Node::File(vec![1; 700], false)),
            ("b", Node::File(vec![2; 100_000], true)),
            ("d", dir(&[("l", Node::Symlink("x".repeat(600)))])),
            ("runs", Node::Dir(entries)),
            ("z", Node::File(vec![3; 100_000], false)),
        ]);
        let img = build_with(&tree, with_block_size(bs));
        assert_eq!(img.len(), le32(&img, 1024 + 36) * bs);
        let r = Reader::open(img).unwrap();
        assert_eq!(walk(&r, r.root_nid()), tree);
    }
}

#[test]
fn the_source_tree_reads_back_at_every_block_size() {
    let tree = source_tree();
    for bits in 9..=16 {
        let img = build_with(&tree, with_block_size(1 << bits));
        assert_eq!(img.len(), le32(&img, 1024 + 36) << bits);
        let r = Reader::open(img).unwrap();
        assert_eq!(walk(&r, 0), tree);
    }
}

#[test]
fn long_names_in_small_blocks_read_back() {
    for (letters, blocks, meta) in [("ab", 6, 5), ("abc", 7, 6)] {
        let mut w = Writer::new(with_block_size(512)).unwrap();
        let names: Vec<String> = letters.chars().map(|c| c.to_string().repeat(250)).collect();
        for name in &names {
            w.add_file(&format!("/{name}"), InodeMeta::reg(0o644), 0, b"").unwrap();
        }
        let img = w.finish();
        assert_eq!(le32(&img, 1060), blocks);
        assert_eq!(le32(&img, 1064), meta);
        assert_eq!(img.len(), blocks * 512);
        let r = Reader::open(img).unwrap();
        let listed: Vec<String> = r.dirents(0).unwrap().into_iter().map(|d| d.name).collect();
        assert_eq!(listed, names);
    }
}

#[test]
fn a_directory_over_several_blocks_reads_back() {
    let entries: BTreeMap<String, Node> = (0..2000)
        .map(|i| (format!("{i:05}"), Node::File(vec![i as u8; 3], false)))
        .collect();
    let tree = dir(&[
        ("before", Node::File(vec![8; 9000], false)),
        ("huge", Node::Dir(entries)),
        ("zz-after", Node::File(vec![9; 9000], false)),
    ]);
    let r = Reader::open(build(&tree)).unwrap();
    assert_eq!(walk(&r, 0), tree);
}
