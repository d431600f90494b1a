//! Where everything goes: the metadata area holds the inodes in emission
//! order, each followed by its attributes and, where it fits in the block, by
//! its data; the other data goes to blocks of its own in front of it.

use vstd::arithmetic::div_mod::{lemma_fundamental_div_mod, lemma_mod_bound};
use vstd::prelude::*;

use crate::bytes::{div_ceil, lemma_rounded, rounded, units};
use crate::dirent::{checked_round_up, dir_size, dirent_data_size, entry_views,
    lemma_dir_size_from_nonnegative, names_of, DirEntry, EntryView};
use crate::layout::{DataLayout, FileType, EROFS_SUPER_OFFSET, SIZE_INODE_COMPACT,
    SIZE_INODE_EXTENDED, SIZE_SUPER_BLOCK};
use crate::meta::{calc_xattr_size, xattr_bytes_have_xattr_size, xattr_size};
use crate::names::{ints, is_order_of, order, order_is_defined, sort_positions, sorted, views};
use crate::tree::{children, copy_bytes, emission_order_is_complete, entry_wf, is_child,
    lemma_children, nlink_of, own_size, preorder, tree_wf, Node, NodeView, Tree};

verus! {

pub const DEFAULT_BLOCK_SIZE: usize = 4096;
pub const MIN_BLOCK_SIZE: usize = 512;
pub const MAX_BLOCK_SIZE: usize = 65536;

/// The step in which inodes are numbered and placed.
pub const INODE_SLOT: usize = 32;

/// What the layout of an image depends on besides its entries.
#[derive(Clone, Copy)]
pub struct Geometry {
    pub block_size: usize,
    pub build_time: u64,
    pub build_time_nsec: u32,
}

impl Geometry {
    /// A block size that is a multiple of the inode slot and within bounds.
    pub open spec fn wf(self) -> bool {
        &&& MIN_BLOCK_SIZE <= self.block_size <= MAX_BLOCK_SIZE
        &&& self.block_size % INODE_SLOT == 0
    }

    pub open spec fn bs(self) -> int {
        self.block_size as int
    }
}

/// The names that a directory lists, `.` and `..` first.
pub open spec fn dir_names(t: Seq<NodeView>, i: int) -> Seq<Seq<u8>> {
    seq![seq![46u8], seq![46u8, 46u8]] + Seq::new(
        children(t, i).len(),
        |k: int| t[children(t, i)[k]].name,
    )
}

/// The entries that a directory lists, `.` and `..` first, where `nids` gives
/// the inode number of each entry of the tree.
pub open spec fn dir_entries(t: Seq<NodeView>, nids: Seq<u64>, i: int) -> Seq<EntryView> {
    seq![
        EntryView { name: seq![46u8], nid: nids[i], kind: FileType::Dir },
        EntryView { name: seq![46u8, 46u8], nid: nids[t[i].parent], kind: FileType::Dir },
    ] + Seq::new(
        children(t, i).len(),
        |k: int|
            EntryView {
                name: t[children(t, i)[k]].name,
                nid: nids[children(t, i)[k]],
                kind: t[children(t, i)[k]].kind,
            },
    )
}

/// The entries that a directory lists, sorted by name.
pub open spec fn sorted_entries(t: Seq<NodeView>, nids: Seq<u64>, i: int) -> Seq<EntryView> {
    Seq::new(
        dir_entries(t, nids, i).len(),
        |k: int| dir_entries(t, nids, i)[order(dir_names(t, i))[k]],
    )
}

/// The length of the data of a directory, laid out for a block size.
pub open spec fn dir_size_of(t: Seq<NodeView>, i: int, bs: int) -> int {
    dir_size(sorted(dir_names(t, i)), bs)
}

/// The length of an entry's data: of a file its content, of a symlink its
/// target, of a directory its listing.
pub open spec fn payload_len(t: Seq<NodeView>, i: int, bs: int) -> int {
    match t[i].kind {
        FileType::RegFile => t[i].data.len() as int,
        FileType::Symlink => t[i].link.len() as int,
        FileType::Dir => dir_size_of(t, i, bs),
        _ => 0,
    }
}

/// The size of an entry that blocks are counted by, and that its inode gives.
pub open spec fn flat_size(t: Seq<NodeView>, i: int, bs: int) -> int {
    if t[i].kind == FileType::Dir {
        dir_size_of(t, i, bs)
    } else {
        own_size(t[i])
    }
}

/// Whether an entry gets by with the compact form of an inode.
pub open spec fn is_compact(t: Seq<NodeView>, i: int, g: Geometry) -> bool {
    &&& t[i].meta.uid <= 0xFFFF
    &&& t[i].meta.gid <= 0xFFFF
    &&& nlink_of(t, i) <= 0xFFFF
    &&& own_size(t[i]) <= 0xFFFF_FFFF
    &&& t[i].meta.mtime == g.build_time
    &&& t[i].meta.mtime_nsec == g.build_time_nsec
}

pub open spec fn inode_size(t: Seq<NodeView>, i: int, g: Geometry) -> int {
    if is_compact(t, i, g) {
        SIZE_INODE_COMPACT as int
    } else {
        SIZE_INODE_EXTENDED as int
    }
}

/// The length of an inode and its attributes.
pub open spec fn header_size(t: Seq<NodeView>, i: int, g: Geometry) -> int {
    inode_size(t, i, g) + xattr_size(t[i].meta.xattrs)
}

/// The place of an entry in the metadata area.
#[verifier::ext_equal]
pub struct Place {
    /// Where its inode starts.
    pub start: int,
    /// Its data follows its attributes.
    pub inline: bool,
    /// The length of that data.
    pub trailing: int,
    /// Where the next entry can start.
    pub next: int,
}

/// The place of entry `i` where `off` is free. An inode does not cross a block
/// boundary. Data is put behind it where, reckoned from `off`, it does not
/// cross one either; below the root, it must also share one block with the
/// inode.
pub open spec fn place(t: Seq<NodeView>, i: int, off: int, g: Geometry) -> Place {
    let bs = g.bs();
    let header = header_size(t, i, g);
    let len = payload_len(t, i, bs);
    let wanted = len > 0 && (off + header) % bs + len <= bs;
    let start = if off % bs + inode_size(t, i, g) > bs {
        rounded(off, bs)
    } else {
        off
    };
    let inline = wanted && (i == 0 || start % bs + header + len <= bs);
    let trailing = if inline {
        len
    } else {
        0
    };
    Place { start, inline, trailing, next: start + rounded(header + trailing, INODE_SLOT as int) }
}

/// What the first `k` entries, in emission order, take of the metadata area.
pub open spec fn off_at(t: Seq<NodeView>, g: Geometry, k: int) -> int
    decreases k,
{
    if k <= 0 {
        0
    } else {
        place(t, preorder(t, 0)[k - 1], off_at(t, g, k - 1), g).next
    }
}

/// The place of the entry that is emitted as number `k`.
pub open spec fn place_at(t: Seq<NodeView>, g: Geometry, k: int) -> Place {
    place(t, preorder(t, 0)[k], off_at(t, g, k), g)
}

/// The length of the metadata.
pub open spec fn meta_len(t: Seq<NodeView>, g: Geometry) -> int {
    off_at(t, g, t.len() as int)
}

/// Whether the entry that is emitted as number `k` has data in blocks of its
/// own.
pub open spec fn has_blocks(t: Seq<NodeView>, g: Geometry, k: int) -> bool {
    !place_at(t, g, k).inline && payload_len(t, preorder(t, 0)[k], g.bs()) > 0
}

/// The blocks at the front of the image, up to the end of the superblock.
pub open spec fn super_blocks(g: Geometry) -> int {
    units((EROFS_SUPER_OFFSET + SIZE_SUPER_BLOCK) as int, g.bs())
}

/// The first block behind the data of the first `k` entries.
pub open spec fn blk_at(t: Seq<NodeView>, g: Geometry, k: int) -> int
    decreases k,
{
    if k <= 0 {
        super_blocks(g)
    } else {
        blk_at(t, g, k - 1) + if has_blocks(t, g, k - 1) {
            units(flat_size(t, preorder(t, 0)[k - 1], g.bs()), g.bs())
        } else {
            0
        }
    }
}

/// The first block of the metadata area.
pub open spec fn meta_blk(t: Seq<NodeView>, g: Geometry) -> int {
    blk_at(t, g, t.len() as int)
}

/// The number of blocks of the image.
pub open spec fn total_blocks(t: Seq<NodeView>, g: Geometry) -> int {
    meta_blk(t, g) + units(meta_len(t, g), g.bs())
}

/// The number under which entry `i` is emitted.
pub open spec fn pos_of(t: Seq<NodeView>, i: int) -> int {
    preorder(t, 0).index_of(i)
}

/// The inode number of entry `i`.
pub open spec fn nid_of(t: Seq<NodeView>, g: Geometry, i: int) -> int {
    place_at(t, g, pos_of(t, i)).start / (INODE_SLOT as int)
}

/// The inode numbers of all entries.
pub open spec fn nids(t: Seq<NodeView>, g: Geometry) -> Seq<u64> {
    Seq::new(t.len(), |i: int| nid_of(t, g, i) as u64)
}

/// The sizes of an entry are within machine limits.
pub open spec fn entry_fits(t: Seq<NodeView>, i: int, g: Geometry) -> bool {
    &&& nlink_of(t, i) <= u32::MAX
    &&& xattr_size(t[i].meta.xattrs) <= usize::MAX
    &&& t[i].kind == FileType::Dir ==> dir_size_of(t, i, g.bs()) <= usize::MAX
}

/// The image is within machine limits: sizes and offsets can be represented,
/// and block addresses have 32 bits.
pub open spec fn image_fits(t: Seq<NodeView>, g: Geometry) -> bool {
    &&& forall|i: int| 0 <= i < t.len() ==> #[trigger] entry_fits(t, i, g)
    &&& rounded(meta_len(t, g), g.bs()) <= usize::MAX
    &&& meta_blk(t, g) <= u32::MAX
    &&& total_blocks(t, g) <= usize::MAX
}

/// Sorting commutes with taking the names.
pub proof fn lemma_sorted_entries(t: Seq<NodeView>, ns: Seq<u64>, i: int)
    ensures
        names_of(sorted_entries(t, ns, i)) == sorted(dir_names(t, i)),
        dir_entries(t, ns, i).len() == dir_names(t, i).len(),
        forall|k: int|
            0 <= k < dir_names(t, i).len() ==> (#[trigger] dir_entries(t, ns, i)[k]).name
                == dir_names(t, i)[k],
{
    let names = dir_names(t, i);
    let es = dir_entries(t, ns, i);
    order_is_defined(names);
    assert(es.len() == names.len());
    assert forall|k: int| 0 <= k < names.len() implies (#[trigger] es[k]).name == names[k] by {
    }
    assert forall|k: int| 0 <= k < names.len() implies names_of(sorted_entries(t, ns, i))[k]
        == sorted(names)[k] by {
        assert(0 <= order(names)[k] < names.len());
    }
    assert(names_of(sorted_entries(t, ns, i)) =~= sorted(names));
}

/// Sizes are not negative, and a directory's data is never empty.
pub proof fn lemma_payload_len(t: Seq<NodeView>, i: int, bs: int)
    requires
        bs > 0,
    ensures
        0 <= payload_len(t, i, bs),
        t[i].kind == FileType::Dir ==> payload_len(t, i, bs) > 0,
        0 < dir_size_of(t, i, bs),
        0 <= flat_size(t, i, bs),
        payload_len(t, i, bs) > 0 ==> flat_size(t, i, bs) == payload_len(t, i, bs),
{
    lemma_dir_size_from_nonnegative(sorted(dir_names(t, i)), 0, bs);
}

proof fn lemma_multiple_of_block(x: int, bs: int)
    requires
        bs > 0,
        bs % (INODE_SLOT as int) == 0,
        x % bs == 0,
    ensures
        x % (INODE_SLOT as int) == 0,
{
    let q = x / bs;
    let m = bs / 32;
    lemma_fundamental_div_mod(x, bs);
    lemma_fundamental_div_mod(bs, 32);
    assert(x == 32 * (m * q)) by (nonlinear_arith)
        requires
            x == bs * q,
            bs == 32 * m,
    ;
    let z = m * q;
    assert(x == 32 * z);
    assert((32 * z) % 32 == 0);
}

/// An entry goes behind what is taken, on an inode slot; its inode does not
/// cross a block boundary, nor does data that follows it; and the place ends
/// behind all of that.
pub proof fn lemma_place(t: Seq<NodeView>, i: int, off: int, g: Geometry)
    requires
        g.wf(),
        0 <= off,
        off % (INODE_SLOT as int) == 0,
        i == 0 ==> off == 0,
    ensures
        ({
            let p = place(t, i, off, g);
            &&& off <= p.start
            &&& p.start % (INODE_SLOT as int) == 0
            &&& p.start % g.bs() + inode_size(t, i, g) <= g.bs()
            &&& p.inline ==> (p.start + header_size(t, i, g)) % g.bs() + p.trailing <= g.bs()
            &&& p.start + header_size(t, i, g) + p.trailing <= p.next
            &&& p.next % (INODE_SLOT as int) == 0
            &&& p.start + INODE_SLOT <= p.next
            &&& 0 <= p.trailing
            &&& p.start < off + g.bs()
        }),
{
    let bs = g.bs();
    let p = place(t, i, off, g);
    let header = header_size(t, i, g);
    lemma_payload_len(t, i, bs);
    xattr_bytes_have_xattr_size(t[i].meta.xattrs);
    lemma_rounded(off, bs);
    lemma_rounded(header + p.trailing, 32);
    lemma_multiple_of_block(rounded(off, bs), bs);
    assert(0int % bs == 0) by {
        vstd::arithmetic::div_mod::lemma_small_mod(0, bs as nat);
    }
    lemma_mod_bound(off, bs);
    if p.inline && i != 0 {
        // The inode, its attributes and its data share a block.
        lemma_fundamental_div_mod(p.start, bs);
        lemma_mod_bound(p.start, bs);
        let r = p.start % bs + header;
        if r < bs {
            vstd::arithmetic::div_mod::lemma_fundamental_div_mod_converse(
                p.start + header,
                bs,
                p.start / bs,
                r,
            ) ;
        }
    }
}

proof fn lemma_off_step(t: Seq<NodeView>, g: Geometry, k: int)
    requires
        g.wf(),
        tree_wf(t),
        0 <= k <= t.len(),
    ensures
        0 <= off_at(t, g, k),
        off_at(t, g, k) % (INODE_SLOT as int) == 0,
    decreases k,
{
    if k > 0 {
        lemma_off_step(t, g, k - 1);
        emission_order_is_complete(t);
        let i = preorder(t, 0)[k - 1];
        if i == 0 && k > 1 {
            assert(preorder(t, 0)[0] == 0);
            assert(false);
        }
        lemma_place(t, i, off_at(t, g, k - 1), g);
    }
}

/// What holds of the place of every entry.
pub proof fn lemma_place_at(t: Seq<NodeView>, g: Geometry, k: int)
    requires
        g.wf(),
        tree_wf(t),
        0 <= k < t.len(),
    ensures
        ({
            let p = place_at(t, g, k);
            let i = preorder(t, 0)[k];
            &&& 0 <= i < t.len()
            &&& 0 <= off_at(t, g, k) <= p.start
            &&& p.start % (INODE_SLOT as int) == 0
            &&& p.start % g.bs() + inode_size(t, i, g) <= g.bs()
            &&& p.inline ==> (p.start + header_size(t, i, g)) % g.bs() + p.trailing <= g.bs()
            &&& p.start + header_size(t, i, g) + p.trailing <= p.next
            &&& p.next == off_at(t, g, k + 1)
            &&& p.start + INODE_SLOT <= p.next
            &&& 0 <= p.trailing
            &&& p.start < off_at(t, g, k) + g.bs()
        }),
{
    emission_order_is_complete(t);
    let i = preorder(t, 0)[k];
    assert(preorder(t, 0).contains(i));
    if i == 0 && k > 0 {
        assert(preorder(t, 0)[0] == 0);
        assert(false);
    }
    lemma_off_step(t, g, k);
    lemma_place(t, i, off_at(t, g, k), g);
}

/// No inode crosses a block boundary, and neither does data that follows its
/// inode.
pub proof fn nothing_crosses_a_block(t: Seq<NodeView>, g: Geometry, k: int)
    requires
        g.wf(),
        tree_wf(t),
        0 <= k < t.len(),
    ensures
        ({
            let p = place_at(t, g, k);
            let i = preorder(t, 0)[k];
            &&& p.start % g.bs() + inode_size(t, i, g) <= g.bs()
            &&& p.inline ==> (p.start + header_size(t, i, g)) % g.bs() + p.trailing <= g.bs()
        }),
{
    lemma_place_at(t, g, k);
}

/// Later entries lie further back.
pub proof fn lemma_off_ordered(t: Seq<NodeView>, g: Geometry, j: int, k: int)
    requires
        g.wf(),
        tree_wf(t),
        0 <= j <= k <= t.len(),
    ensures
        0 <= off_at(t, g, j) <= off_at(t, g, k),
    decreases k,
{
    lemma_off_step(t, g, j);
    if j < k {
        lemma_off_ordered(t, g, j, k - 1);
        lemma_place_at(t, g, k - 1);
    }
}

pub proof fn lemma_blk_ordered(t: Seq<NodeView>, g: Geometry, j: int, k: int)
    requires
        g.wf(),
        0 <= j <= k,
    ensures
        super_blocks(g) <= blk_at(t, g, j) <= blk_at(t, g, k),
        0 < super_blocks(g),
    decreases k,
{
    lemma_rounded((EROFS_SUPER_OFFSET + SIZE_SUPER_BLOCK) as int, g.bs());
    if j < k {
        lemma_blk_ordered(t, g, j, k - 1);
        lemma_payload_len(t, preorder(t, 0)[k - 1], g.bs());
        lemma_rounded(flat_size(t, preorder(t, 0)[k - 1], g.bs()), g.bs());
    } else if j > 0 {
        lemma_blk_ordered(t, g, j - 1, j - 1);
        lemma_payload_len(t, preorder(t, 0)[k - 1], g.bs());
        lemma_rounded(flat_size(t, preorder(t, 0)[k - 1], g.bs()), g.bs());
    }
}

/// The number under which an entry is emitted.
pub proof fn lemma_pos_of(t: Seq<NodeView>, i: int)
    requires
        tree_wf(t),
        0 <= i < t.len(),
    ensures
        0 <= pos_of(t, i) < t.len(),
        preorder(t, 0)[pos_of(t, i)] == i,
{
    emission_order_is_complete(t);
    assert(preorder(t, 0).contains(i));
}

/// No two entries share an inode number, and the root has number zero.
pub proof fn inode_numbers_differ(t: Seq<NodeView>, g: Geometry, i: int, j: int)
    requires
        g.wf(),
        tree_wf(t),
        0 <= i < t.len(),
        0 <= j < t.len(),
    ensures
        i != j ==> nid_of(t, g, i) != nid_of(t, g, j),
        nid_of(t, g, 0) == 0,
{
    lemma_pos_of(t, i);
    lemma_pos_of(t, j);
    let (p, q) = (pos_of(t, i), pos_of(t, j));
    lemma_place_at(t, g, p);
    lemma_place_at(t, g, q);
    if p < q {
        lemma_off_ordered(t, g, p + 1, q);
    } else if q < p {
        lemma_off_ordered(t, g, q + 1, p);
    }
    emission_order_is_complete(t);
    lemma_pos_of(t, 0);
    let z = pos_of(t, 0);
    if z != 0 {
        assert(preorder(t, 0)[0] == preorder(t, 0)[z]);
    }
    vstd::arithmetic::div_mod::lemma_small_mod(0, g.bs() as nat);
}

/// What is planned for an entry.
#[derive(Clone, Copy)]
pub struct NodePlan {
    /// Where its inode starts in the metadata area.
    pub start: usize,
    pub nid: u64,
    pub layout: DataLayout,
    pub compact: bool,
    pub nlink: u32,
    pub xattr_size: usize,
    /// The length of the data that follows its attributes.
    pub trailing_size: usize,
    /// The size that its inode gives.
    pub size: usize,
    /// The first block of data that has blocks of its own.
    pub data_blkaddr: Option<u32>,
}

/// The plan of the entry that is emitted as number `k`, but for its blocks.
pub open spec fn places_entry(p: NodePlan, t: Seq<NodeView>, g: Geometry, i: int, at: Place) -> bool {
    &&& p.start == at.start
    &&& p.nid == at.start / (INODE_SLOT as int)
    &&& p.layout == if at.inline {
        DataLayout::FlatInline
    } else {
        DataLayout::FlatPlain
    }
    &&& p.compact == is_compact(t, i, g)
    &&& p.nlink == nlink_of(t, i)
    &&& p.xattr_size == xattr_size(t[i].meta.xattrs)
    &&& p.trailing_size == at.trailing
    &&& p.size == flat_size(t, i, g.bs())
}

/// The plan of the entry that is emitted as number `k`.
pub open spec fn plans_entry(p: NodePlan, t: Seq<NodeView>, g: Geometry, k: int) -> bool {
    &&& places_entry(p, t, g, preorder(t, 0)[k], place_at(t, g, k))
    &&& p.data_blkaddr == if has_blocks(t, g, k) {
        Some(blk_at(t, g, k) as u32)
    } else {
        None
    }
}

/// These are the plans for a tree, as far as the entry that is emitted as
/// number `k` is concerned.
pub open spec fn plans_at(nodes: Seq<NodePlan>, t: Seq<NodeView>, g: Geometry, k: int) -> bool {
    plans_entry(nodes[preorder(t, 0)[k]], t, g, k)
}

/// Where everything goes.
pub struct Plan {
    /// The entries in emission order.
    pub order: Vec<usize>,
    /// What is planned for each entry of the tree.
    pub nodes: Vec<NodePlan>,
    /// The length of the metadata.
    pub meta_bytes: usize,
    /// The first block of the metadata area.
    pub meta_blkaddr: u32,
    /// The number of blocks of the metadata area.
    pub meta_blocks: usize,
}

impl Plan {
    /// This is the plan for a tree.
    pub open spec fn plans(&self, t: Seq<NodeView>, g: Geometry) -> bool {
        &&& ints(self.order@) == preorder(t, 0)
        &&& self.nodes@.len() == t.len()
        &&& forall|k: int| 0 <= k < t.len() ==> #[trigger] plans_at(self.nodes@, t, g, k)
        &&& self.meta_bytes == meta_len(t, g)
        &&& self.meta_blkaddr == meta_blk(t, g)
        &&& self.meta_blocks == units(meta_len(t, g), g.bs())
    }
}

/// The entries that a directory lists, sorted by name.
pub fn sorted_dir_entries(tree: &Tree, i: usize, ns: &Vec<u64>) -> (r: Vec<DirEntry>)
    requires
        tree.wf(),
        i < tree@.len(),
        ns@.len() == tree@.len(),
    ensures
        entry_views(r@) == sorted_entries(tree@, ns@, i as int),
{
    let ghost t = tree@;
    let ghost names = dir_names(t, i as int);
    let ghost es = dir_entries(t, ns@, i as int);
    proof {
        tree.lemma_wf();
        lemma_children(t, i as int);
        if i > 0 {
            assert(entry_wf(t, i as int));
        }
    }
    let node: &Node = tree.node(i);
    let mut all: Vec<DirEntry> = Vec::new();
    let mut keys: Vec<Vec<u8>> = Vec::new();
    let mut dot: Vec<u8> = Vec::new();
    dot.push(46);
    let mut dotdot: Vec<u8> = Vec::new();
    dotdot.push(46);
    dotdot.push(46);
    keys.push(copy_bytes(dot.as_slice()));
    keys.push(copy_bytes(dotdot.as_slice()));
    assert(dot@ =~= seq![46u8]);
    assert(dotdot@ =~= seq![46u8, 46u8]);
    all.push(DirEntry { name: dot, nid: ns[i], kind: FileType::Dir });
    all.push(DirEntry { name: dotdot, nid: ns[node.parent], kind: FileType::Dir });
    let mut k: usize = 0;
    assert(entry_views(all@) =~= es.subrange(0, 2));
    assert(views(keys@) =~= names.subrange(0, 2));
    while k < node.children.len()
        invariant
            tree.wf(),
            t == tree@,
            i < t.len(),
            ns@.len() == t.len(),
            names == dir_names(t, i as int),
            es == dir_entries(t, ns@, i as int),
            ints(node.children@) == children(t, i as int),
            forall|l: int|
                0 <= l < children(t, i as int).len() ==> is_child(
                    t,
                    i as int,
                    #[trigger] children(t, i as int)[l],
                ),
            k <= node.children@.len(),
            entry_views(all@) == es.subrange(0, k + 2),
            views(keys@) == names.subrange(0, k + 2),
        decreases node.children@.len() - k,
    {
        let c: usize = node.children[k];
        assert(ints(node.children@)[k as int] == c);
        assert(is_child(t, i as int, children(t, i as int)[k as int]));
        let child: &Node = tree.node(c);
        let ghost before = entry_views(all@);
        let ghost keys_before = views(keys@);
        keys.push(copy_bytes(child.name.as_slice()));
        all.push(
            DirEntry {
                name: copy_bytes(child.name.as_slice()),
                nid: ns[c],
                kind: child.file_type,
            },
        );
        proof {
            assert(views(keys@) =~= keys_before.push(t[c as int].name));
            assert(views(keys@) =~= names.subrange(0, k + 3));
            assert(entry_views(all@) =~= before.push(es[k + 2]));
            assert(entry_views(all@) =~= es.subrange(0, k + 3));
        }
        k = k + 1;
    }
    assert(views(keys@) =~= names);
    assert(entry_views(all@) =~= es);
    let ord: Vec<usize> = sort_positions(&keys);
    proof {
        order_is_defined(names);
    }
    let mut r: Vec<DirEntry> = Vec::new();
    let mut m: usize = 0;
    let ghost sorted_es = sorted_entries(t, ns@, i as int);
    assert(entry_views(r@) =~= sorted_es.subrange(0, 0));
    while m < ord.len()
        invariant
            ints(ord@) == order(names),
            is_order_of(names, 0, names.len() as int, order(names)),
            names == dir_names(t, i as int),
            es == dir_entries(t, ns@, i as int),
            es.len() == names.len(),
            entry_views(all@) == es,
            sorted_es == sorted_entries(t, ns@, i as int),
            m <= ord@.len(),
            entry_views(r@) == sorted_es.subrange(0, m as int),
        decreases ord@.len() - m,
    {
        let q: usize = ord[m];
        assert(ints(ord@)[m as int] == q);
        assert(0 <= order(names)[m as int] < names.len());
        let ghost before = entry_views(r@);
        let e: &DirEntry = &all[q];
        assert(e@ == es[q as int]);
        r.push(DirEntry { name: copy_bytes(e.name.as_slice()), nid: e.nid, kind: e.kind });
        proof {
            assert(entry_views(r@) =~= before.push(sorted_es[m as int]));
            assert(entry_views(r@) =~= sorted_es.subrange(0, m + 1));
        }
        m = m + 1;
    }
    assert(entry_views(r@) =~= sorted_es);
    r
}

/// The lengths of an entry's data: as it is laid out, and as its inode gives
/// it.
fn data_sizes(tree: &Tree, i: usize, g: Geometry, blank: &Vec<u64>) -> (r: Option<(usize, usize)>)
    requires
        tree.wf(),
        i < tree@.len(),
        blank@.len() == tree@.len(),
        g.wf(),
    ensures
        r is Some <==> (tree@[i as int].kind == FileType::Dir ==> dir_size_of(
            tree@,
            i as int,
            g.bs(),
        ) <= usize::MAX),
        r matches Some(s) ==> s.0 == payload_len(tree@, i as int, g.bs()) && s.1 == flat_size(
            tree@,
            i as int,
            g.bs(),
        ),
{
    let node: &Node = tree.node(i);
    if node.is_dir() {
        let es: Vec<DirEntry> = sorted_dir_entries(tree, i, blank);
        proof {
            lemma_sorted_entries(tree@, blank@, i as int);
        }
        match dirent_data_size(&es, g.block_size) {
            Some(n) => Some((n, n)),
            None => None,
        }
    } else {
        let len: usize = match node.file_type {
            FileType::RegFile => node.content.as_slice().len(),
            FileType::Symlink => node.link_target.len(),
            _ => 0,
        };
        Some((len, node.on_disk_size()))
    }
}

/// Plans the place of an entry where `off` is free.
fn plan_node(tree: &Tree, i: usize, off: usize, g: Geometry, blank: &Vec<u64>) -> (r: Option<
    (NodePlan, usize),
>)
    requires
        tree.wf(),
        i < tree@.len(),
        blank@.len() == tree@.len(),
        g.wf(),
        off % INODE_SLOT == 0,
        i == 0 ==> off == 0,
    ensures
        r is Some <==> entry_fits(tree@, i as int, g) && place(tree@, i as int, off as int, g).next
            <= usize::MAX,
        r matches Some((p, next)) ==> {
            &&& places_entry(p, tree@, g, i as int, place(tree@, i as int, off as int, g))
            &&& p.data_blkaddr is None
            &&& next == place(tree@, i as int, off as int, g).next
        },
{
    let ghost t = tree@;
    let ghost at = place(t, i as int, off as int, g);
    let bs: usize = g.block_size;
    proof {
        lemma_place(t, i as int, off as int, g);
        lemma_payload_len(t, i as int, g.bs());
        xattr_bytes_have_xattr_size(t[i as int].meta.xattrs);
        lemma_mod_bound(off as int, bs as int);
    }
    let node: &Node = tree.node(i);
    let nlink: u32 = match tree.effective_nlink(i) {
        Some(n) => n,
        None => {
            return None;
        },
    };
    let xattrs: usize = match calc_xattr_size(&node.meta.xattrs) {
        Some(n) => n,
        None => {
            return None;
        },
    };
    let (len, size): (usize, usize) = match data_sizes(tree, i, g, blank) {
        Some(s) => s,
        None => {
            return None;
        },
    };
    let compact: bool = node.meta.uid <= 0xFFFF && node.meta.gid <= 0xFFFF && nlink <= 0xFFFF
        && node.on_disk_size() as u64 <= 0xFFFF_FFFF && node.meta.mtime == g.build_time
        && node.meta.mtime_nsec == g.build_time_nsec;
    let core: usize = if compact {
        SIZE_INODE_COMPACT
    } else {
        SIZE_INODE_EXTENDED
    };
    assert(core == inode_size(t, i as int, g));
    let header: usize = match core.checked_add(xattrs) {
        Some(n) => n,
        None => {
            return None;
        },
    };
    let behind: usize = match off.checked_add(header) {
        Some(n) => n,
        None => {
            return None;
        },
    };
    proof {
        lemma_mod_bound(behind as int, bs as int);
    }
    let wanted: bool = len > 0 && len <= bs - behind % bs;
    let start: usize = if off % bs + core > bs {
        match checked_round_up(off, bs) {
            Some(n) => n,
            None => {
                return None;
            },
        }
    } else {
        off
    };
    proof {
        lemma_mod_bound(start as int, bs as int);
    }
    let inline: bool = wanted && (i == 0 || (header <= bs && len <= bs - header && start % bs <= bs
        - header - len));
    let trailing: usize = if inline {
        len
    } else {
        0
    };
    assert(inline == at.inline);
    let body: usize = match header.checked_add(trailing) {
        Some(n) => n,
        None => {
            return None;
        },
    };
    proof {
        lemma_rounded(body as int, INODE_SLOT as int);
    }
    let total: usize = match checked_round_up(body, INODE_SLOT) {
        Some(n) => n,
        None => {
            return None;
        },
    };
    match start.checked_add(total) {
        Some(next) => Some(
            (
                NodePlan {
                    start,
                    nid: (start / INODE_SLOT) as u64,
                    layout: if inline {
                        DataLayout::FlatInline
                    } else {
                        DataLayout::FlatPlain
                    },
                    compact,
                    nlink,
                    xattr_size: xattrs,
                    trailing_size: trailing,
                    size,
                    data_blkaddr: None,
                },
                next,
            ),
        ),
        None => None,
    }
}

/// A plan for no entry.
fn blank_plan() -> (p: NodePlan)
    ensures
        p.start == 0,
        p.nid == 0,
        p.layout == DataLayout::FlatPlain,
        !p.compact,
        p.nlink == 0,
        p.xattr_size == 0,
        p.trailing_size == 0,
        p.size == 0,
        p.data_blkaddr is None,
{
    NodePlan {
        start: 0,
        nid: 0,
        layout: DataLayout::FlatPlain,
        compact: false,
        nlink: 0,
        xattr_size: 0,
        trailing_size: 0,
        size: 0,
        data_blkaddr: None,
    }
}

/// Plans where everything goes; there is no plan for an image that is not
/// within machine limits.
pub fn plan_layout(tree: &Tree, g: Geometry) -> (r: Option<Plan>)
    requires
        tree.wf(),
        g.wf(),
    ensures
        r is Some <==> image_fits(tree@, g),
        r matches Some(p) ==> p.plans(tree@, g),
{
    let ghost t = tree@;
    let ghost ord = preorder(t, 0);
    let n: usize = tree.len();
    proof {
        tree.lemma_wf();
        emission_order_is_complete(t);
        lemma_rounded((EROFS_SUPER_OFFSET + SIZE_SUPER_BLOCK) as int, g.bs());
    }
    let order: Vec<usize> = tree.collect_entries();
    let blank: Vec<u64> = vec![0u64; n];
    let mut nodes: Vec<NodePlan> = vec![blank_plan(); n];
    let mut off: usize = 0;
    let mut addr: u32 = div_ceil(EROFS_SUPER_OFFSET + SIZE_SUPER_BLOCK, g.block_size) as u32;
    proof {
        lemma_super_blocks_small(g);
    }
    let mut k: usize = 0;
    while k < n
        invariant
            tree.wf(),
            g.wf(),
            t == tree@,
            tree_wf(t),
            ord == preorder(t, 0),
            ints(order@) == ord,
            ord.len() == n,
            n == t.len(),
            ord.no_duplicates(),
            forall|j: int| #[trigger] ord.contains(j) <==> 0 <= j < t.len(),
            ord[0] == 0,
            blank@.len() == n,
            nodes@.len() == n,
            k <= n,
            off == off_at(t, g, k as int),
            addr == blk_at(t, g, k as int),
            forall|m: int| 0 <= m < k ==> #[trigger] plans_at(nodes@, t, g, m),
            forall|m: int| 0 <= m < k ==> entry_fits(t, #[trigger] ord[m], g),
        decreases n - k,
    {
        let i: usize = order[k];
        proof {
            assert(ints(order@)[k as int] == i);
            assert(ord.contains(ord[k as int]));
            lemma_off_step(t, g, k as int);
            lemma_off_ordered(t, g, k + 1, n as int);
            lemma_blk_ordered(t, g, k + 1, n as int);
            lemma_rounded(meta_len(t, g), g.bs());
            if i == 0 && k > 0 {
                assert(ord[0] == ord[k as int]);
            }
        }
        let (mut p, next): (NodePlan, usize) = match plan_node(tree, i, off, g, &blank) {
            Some(x) => x,
            None => {
                return None;
            },
        };
        let plain: bool = p.layout == DataLayout::FlatPlain && match tree.node(i).file_type {
            FileType::RegFile | FileType::Symlink => p.size > 0,
            FileType::Dir => true,
            _ => false,
        };
        proof {
            lemma_payload_len(t, i as int, g.bs());
            assert(plain == has_blocks(t, g, k as int));
        }
        if plain {
            let blocks: usize = div_ceil(p.size, g.block_size);
            p.data_blkaddr = Some(addr);
            if blocks as u64 > 0xFFFF_FFFF {
                return None;
            }
            addr = match addr.checked_add(blocks as u32) {
                Some(a) => a,
                None => {
                    return None;
                },
            };
        }
        let ghost before = nodes@;
        nodes[i] = p;
        proof {
            assert forall|m: int| 0 <= m < k + 1 implies #[trigger] plans_at(nodes@, t, g, m) by {
                if m < k {
                    assert(plans_at(before, t, g, m));
                    assert(ord[m] != ord[k as int]);
                    assert(ord.contains(ord[m]));
                    assert(nodes@[ord[m]] == before[ord[m]]);
                }
            }
        }
        off = next;
        k = k + 1;
    }
    proof {
        assert forall|i: int| 0 <= i < t.len() implies #[trigger] entry_fits(t, i, g) by {
            assert(ord.contains(i));
            assert(ord[ord.index_of(i)] == i);
        }
    }
    match checked_round_up(off, g.block_size) {
        Some(_) => {},
        None => {
            return None;
        },
    }
    let meta_blocks: usize = div_ceil(off, g.block_size);
    match (addr as usize).checked_add(meta_blocks) {
        Some(_) => {},
        None => {
            return None;
        },
    }
    Some(Plan { order, nodes, meta_bytes: off, meta_blkaddr: addr, meta_blocks })
}

/// The superblock takes between one and three blocks.
pub proof fn lemma_super_blocks_small(g: Geometry)
    requires
        g.wf(),
    ensures
        1 <= super_blocks(g) <= 3,
{
    let v = (EROFS_SUPER_OFFSET + SIZE_SUPER_BLOCK) as int;
    lemma_rounded(v, g.bs());
    let u = super_blocks(g);
    if u > 3 {
        assert(u * g.bs() >= 4 * g.bs()) by (nonlinear_arith)
            requires
                u >= 4,
                g.bs() > 0,
        ;
    }
}

} // verus!
