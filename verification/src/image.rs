//! The bytes of an image: the superblock area, the data that has blocks of its
//! own, and the metadata area, in this order.

use vstd::arithmetic::power2::{lemma2_to64, lemma_pow2_strictly_increases, pow2};
use vstd::prelude::*;

use crate::bytes::{le16, le32, le64, lemma_rounded, pad_to_block, padded, push_byte, push_le16,
    push_le32, push_le64, push_low32, push_slice, push_zeros, round_up, zeros};
use crate::dirent::{build_dirents, dir_bytes, dir_bytes_have_dir_size, entry_views, DirEntry};
use crate::layout::{DataLayout, FileType, EROFS_FEATURE_COMPAT_SB_CHKSUM, EROFS_SUPER_MAGIC_V1,
    EROFS_SUPER_OFFSET, SIZE_INODE_COMPACT, SIZE_INODE_EXTENDED, SIZE_SUPER_BLOCK};
use crate::meta::{write_xattrs, xattr_bytes, xattr_bytes_have_xattr_size, xattr_count,
    xattr_count_of, xattr_size};
use crate::names::{ints, order, order_is_defined, views};
use crate::path::is_name;
use crate::plan::{blk_at, dir_entries, dir_names, entry_fits, flat_size, has_blocks, header_size,
    image_fits, inode_size, is_compact, lemma_off_ordered, lemma_place_at, lemma_pos_of,
    lemma_sorted_entries, lemma_super_blocks_small, meta_blk, meta_len, nids, off_at, payload_len,
    place_at, plans_at, pos_of, sorted_dir_entries, sorted_entries, super_blocks, total_blocks,
    Geometry, NodePlan, Plan, INODE_SLOT, MAX_BLOCK_SIZE, MIN_BLOCK_SIZE};
use crate::reader::is_dot_name;
use crate::tree::{apart, children, copy_bytes, emission_order_is_complete, entry_wf, is_child,
    lemma_children, nlink_of, preorder, tree_wf, Node, NodeView, Tree};

verus! {

broadcast use crate::bytes::group_le_len;

/// One step of the checksum: shift a bit out and, if it was set, mix in the
/// polynomial.
pub open spec fn crc_step(c: u32) -> u32 {
    (c >> 1) ^ (if c & 1 != 0 {
        0x82F63B78
    } else {
        0u32
    })
}

/// `n` steps of the checksum.
pub open spec fn crc_steps(c: u32, n: int) -> u32
    decreases n,
{
    if n <= 0 {
        c
    } else {
        crc_step(crc_steps(c, n - 1))
    }
}

/// The CRC-32C of the first `n` bytes of `s`, started from all ones and not
/// inverted at the end.
pub open spec fn crc32c_upto(s: Seq<u8>, n: int) -> u32
    decreases n,
{
    if n <= 0 {
        0xFFFF_FFFFu32
    } else {
        crc_steps(crc32c_upto(s, n - 1) ^ (s[n - 1] as u32), 8)
    }
}

/// The CRC-32C of `s`, started from all ones and not inverted at the end.
pub open spec fn crc32c(s: Seq<u8>) -> u32 {
    crc32c_upto(s, s.len() as int)
}

/// `v` is a power of two.
pub open spec fn is_power_of_two(v: int) -> bool {
    exists|k: nat| #[trigger] pow2(k) == v
}

/// A block size that the format knows: a power of two within bounds.
pub open spec fn valid_block_size(bs: int) -> bool {
    MIN_BLOCK_SIZE <= bs <= MAX_BLOCK_SIZE && is_power_of_two(bs)
}

/// The exponent of a power of two.
pub open spec fn block_bits(bs: int) -> nat {
    choose|k: nat| #[trigger] pow2(k) == bs
}

/// What the superblock says.
pub struct SuperView {
    pub inodes: int,
    pub epoch: u64,
    pub fixed_nsec: u32,
    pub blocks: int,
    pub meta_blkaddr: int,
    pub bits: u8,
    pub uuid: Seq<u8>,
    pub volume_name: Seq<u8>,
}

/// The bytes of a superblock with the given checksum and compatible features.
/// The root directory has inode number zero.
pub open spec fn super_bytes(p: SuperView, crc: u32, features: u32) -> Seq<u8> {
    le32(EROFS_SUPER_MAGIC_V1 as int) + le32(crc as int) + le32(features as int) + seq![p.bits, 0u8]
        + le16(0) + le64(p.inodes) + le64(p.epoch as int) + le32(p.fixed_nsec as int) + le32(p.blocks)
        + le32(p.meta_blkaddr) + le32(0) + p.uuid + (p.volume_name + zeros(16 - p.volume_name.len()))
        + zeros(10) + seq![p.bits] + zeros(37)
}

/// The superblock area of `len` bytes.
pub open spec fn area_bytes(p: SuperView, crc: u32, features: u32, len: int) -> Seq<u8> {
    zeros(EROFS_SUPER_OFFSET as int) + super_bytes(p, crc, features) + zeros(
        len - EROFS_SUPER_OFFSET - SIZE_SUPER_BLOCK,
    )
}

/// Where the bytes end that the checksum covers from the superblock on: at the
/// end of the first block, or, where blocks are too small to reach the
/// superblock, a block's length behind its start.
pub open spec fn checksum_end(bits: u8) -> int {
    let bs = pow2(bits as nat) as int;
    if bs < EROFS_SUPER_OFFSET {
        EROFS_SUPER_OFFSET + bs
    } else {
        bs
    }
}

/// The checksum of a superblock area, taken with the feature bit set and the
/// checksum field zero.
pub open spec fn area_crc(p: SuperView, len: int) -> u32 {
    crc32c(
        area_bytes(p, 0, EROFS_FEATURE_COMPAT_SB_CHKSUM, len).subrange(
            EROFS_SUPER_OFFSET as int,
            checksum_end(p.bits),
        ),
    )
}

/// The superblock area of `len` bytes, with or without a checksum.
pub open spec fn super_area(p: SuperView, checksum: bool, len: int) -> Seq<u8> {
    if checksum {
        area_bytes(p, area_crc(p, len), EROFS_FEATURE_COMPAT_SB_CHKSUM, len)
    } else {
        area_bytes(p, 0, 0, len)
    }
}

/// The field of an inode that tells where its data is, or which device it
/// stands for.
pub open spec fn inode_union(n: NodeView, blk: Option<int>) -> int {
    match n.kind {
        FileType::RegFile | FileType::Dir | FileType::Symlink => match blk {
            Some(b) => b,
            None => 0,
        },
        FileType::Unknown => 0,
        _ => n.meta.rdev as int,
    }
}

/// The bytes of an inode.
pub open spec fn inode_bytes(
    n: NodeView,
    compact: bool,
    inline: bool,
    nlink: int,
    size: int,
    blk: Option<int>,
) -> Seq<u8> {
    let layout = if inline {
        DataLayout::FlatInline
    } else {
        DataLayout::FlatPlain
    };
    let xattrs = xattr_count_of(xattr_size(n.meta.xattrs));
    let union = inode_union(n, blk);
    if compact {
        le16(2 * layout.code()) + le16(xattrs) + le16(n.meta.mode as int) + le16(nlink) + le32(size)
            + zeros(4) + le32(union) + zeros(4) + le16(n.meta.uid as int) + le16(n.meta.gid as int)
            + zeros(4)
    } else {
        le16(2 * layout.code() + 1) + le16(xattrs) + le16(n.meta.mode as int) + zeros(2) + le64(size)
            + le32(union) + zeros(4) + le32(n.meta.uid as int) + le32(n.meta.gid as int) + le64(
            n.meta.mtime as int,
        ) + le32(n.meta.mtime_nsec as int) + le32(nlink) + zeros(16)
    }
}

/// The inode of the entry that is emitted as number `k`.
pub open spec fn inode_at(t: Seq<NodeView>, g: Geometry, k: int) -> Seq<u8> {
    let i = preorder(t, 0)[k];
    inode_bytes(
        t[i],
        is_compact(t, i, g),
        place_at(t, g, k).inline,
        nlink_of(t, i),
        flat_size(t, i, g.bs()),
        if has_blocks(t, g, k) {
            Some(blk_at(t, g, k))
        } else {
            None
        },
    )
}

/// The data of entry `i`: of a file its content, of a symlink its target, of
/// a directory its listing.
pub open spec fn payload(t: Seq<NodeView>, g: Geometry, i: int) -> Seq<u8> {
    match t[i].kind {
        FileType::RegFile => t[i].data,
        FileType::Symlink => t[i].link,
        FileType::Dir => dir_bytes(sorted_entries(t, nids(t, g), i), g.bs()),
        _ => Seq::empty(),
    }
}

/// The inode of the entry that is emitted as number `k`, with what follows it.
pub open spec fn entry_bytes(t: Seq<NodeView>, g: Geometry, k: int) -> Seq<u8> {
    let i = preorder(t, 0)[k];
    inode_at(t, g, k) + xattr_bytes(t[i].meta.xattrs) + if place_at(t, g, k).inline {
        payload(t, g, i)
    } else {
        Seq::empty()
    }
}

/// The metadata of the first `k` entries.
pub open spec fn meta_at(t: Seq<NodeView>, g: Geometry, k: int) -> Seq<u8>
    decreases k,
{
    if k <= 0 {
        Seq::empty()
    } else {
        let p = place_at(t, g, k - 1);
        let e = entry_bytes(t, g, k - 1);
        meta_at(t, g, k - 1) + zeros(p.start - off_at(t, g, k - 1)) + e + zeros(
            p.next - p.start - e.len(),
        )
    }
}

/// The regions of data of the first `k` entries.
pub open spec fn data_regions(t: Seq<NodeView>, g: Geometry, k: int) -> Seq<Seq<u8>>
    decreases k,
{
    if k <= 0 {
        Seq::empty()
    } else if has_blocks(t, g, k - 1) {
        data_regions(t, g, k - 1).push(padded(payload(t, g, preorder(t, 0)[k - 1]), g.bs()))
    } else {
        data_regions(t, g, k - 1)
    }
}

/// What an image depends on besides its entries.
pub struct ImageOptions {
    pub geometry: Geometry,
    pub uuid: Seq<u8>,
    pub volume_name: Seq<u8>,
    pub checksum: bool,
}

impl ImageOptions {
    pub open spec fn wf(self) -> bool {
        &&& valid_block_size(self.geometry.bs())
        &&& self.geometry.wf()
        &&& self.uuid.len() == 16
        &&& self.volume_name.len() <= 16
    }
}

/// What the superblock of an image says.
pub open spec fn super_view(t: Seq<NodeView>, o: ImageOptions) -> SuperView {
    let g = o.geometry;
    SuperView {
        inodes: t.len() as int,
        epoch: g.build_time,
        fixed_nsec: g.build_time_nsec,
        blocks: total_blocks(t, g),
        meta_blkaddr: meta_blk(t, g),
        bits: block_bits(g.bs()) as u8,
        uuid: o.uuid,
        volume_name: o.volume_name,
    }
}

/// The regions of an image, in order.
pub open spec fn regions(t: Seq<NodeView>, o: ImageOptions) -> Seq<Seq<u8>> {
    let g = o.geometry;
    seq![super_area(super_view(t, o), o.checksum, super_blocks(g) * g.bs())] + data_regions(
        t,
        g,
        t.len() as int,
    ).push(padded(meta_at(t, g, t.len() as int), g.bs()))
}

/// Regions one after another.
pub open spec fn concat(rs: Seq<Seq<u8>>) -> Seq<u8>
    decreases rs.len(),
{
    if rs.len() == 0 {
        Seq::empty()
    } else {
        concat(rs.drop_last()) + rs.last()
    }
}

/// An image.
pub open spec fn image(t: Seq<NodeView>, o: ImageOptions) -> Seq<u8> {
    concat(regions(t, o))
}

/// The block sizes that the format knows, with their exponents.
pub proof fn lemma_valid_block_size(bs: int)
    requires
        valid_block_size(bs),
    ensures
        pow2(block_bits(bs)) == bs,
        9 <= block_bits(bs) <= 16,
        bs % 32 == 0,
        bs == 512 || bs == 1024 || bs == 2048 || bs == 4096 || bs == 8192 || bs == 16384 || bs
            == 32768 || bs == 65536,
{
    lemma2_to64();
    let k = block_bits(bs);
    assert(pow2(k) == bs);
    if k < 9 {
        lemma_pow2_strictly_increases(k, 9);
    }
    if k > 16 {
        lemma_pow2_strictly_increases(16, k);
    }
}

/// An exponent belongs to one power of two.
pub proof fn lemma_block_bits(k: nat)
    requires
        9 <= k <= 16,
    ensures
        block_bits(pow2(k) as int) == k,
        valid_block_size(pow2(k) as int),
{
    lemma2_to64();
    let j = block_bits(pow2(k) as int);
    assert(pow2(j) == pow2(k));
    if j < k {
        lemma_pow2_strictly_increases(j, k);
    } else if k < j {
        lemma_pow2_strictly_increases(k, j);
    }
}

pub proof fn lemma_super_bytes_len(p: SuperView, crc: u32, features: u32)
    requires
        p.uuid.len() == 16,
        p.volume_name.len() <= 16,
    ensures
        super_bytes(p, crc, features).len() == SIZE_SUPER_BLOCK,
{
}

pub proof fn lemma_inode_bytes_len(
    n: NodeView,
    compact: bool,
    inline: bool,
    nlink: int,
    size: int,
    blk: Option<int>,
)
    ensures
        inode_bytes(n, compact, inline, nlink, size, blk).len() == if compact {
            SIZE_INODE_COMPACT
        } else {
            SIZE_INODE_EXTENDED
        },
{
}

pub proof fn lemma_payload_has_len(t: Seq<NodeView>, g: Geometry, i: int)
    requires
        g.wf(),
    ensures
        payload(t, g, i).len() == payload_len(t, i, g.bs()),
{
    lemma_sorted_entries(t, nids(t, g), i);
    dir_bytes_have_dir_size(sorted_entries(t, nids(t, g), i), g.bs());
}

/// An entry takes what was planned for it.
pub proof fn lemma_entry_bytes_len(t: Seq<NodeView>, g: Geometry, k: int)
    requires
        g.wf(),
        tree_wf(t),
        0 <= k < t.len(),
    ensures
        entry_bytes(t, g, k).len() == header_size(t, preorder(t, 0)[k], g) + place_at(
            t,
            g,
            k,
        ).trailing,
        entry_bytes(t, g, k).len() <= place_at(t, g, k).next - place_at(t, g, k).start,
        inode_at(t, g, k).len() == inode_size(t, preorder(t, 0)[k], g),
{
    let i = preorder(t, 0)[k];
    lemma_place_at(t, g, k);
    lemma_payload_has_len(t, g, i);
    xattr_bytes_have_xattr_size(t[i].meta.xattrs);
    lemma_inode_bytes_len(
        t[i],
        is_compact(t, i, g),
        place_at(t, g, k).inline,
        nlink_of(t, i),
        flat_size(t, i, g.bs()),
        if has_blocks(t, g, k) {
            Some(blk_at(t, g, k))
        } else {
            None
        },
    );
}

pub proof fn lemma_meta_at_len(t: Seq<NodeView>, g: Geometry, k: int)
    requires
        g.wf(),
        tree_wf(t),
        0 <= k <= t.len(),
    ensures
        meta_at(t, g, k).len() == off_at(t, g, k),
    decreases k,
{
    if k > 0 {
        lemma_meta_at_len(t, g, k - 1);
        lemma_place_at(t, g, k - 1);
        lemma_entry_bytes_len(t, g, k - 1);
    }
}

/// The bytes of a block size's exponent.
pub fn blk_bits(block_size: usize) -> (bits: u8)
    requires
        valid_block_size(block_size as int),
    ensures
        bits == block_bits(block_size as int),
{
    proof {
        lemma_valid_block_size(block_size as int);
        lemma2_to64();
        lemma_block_bits(9);
        lemma_block_bits(10);
        lemma_block_bits(11);
        lemma_block_bits(12);
        lemma_block_bits(13);
        lemma_block_bits(14);
        lemma_block_bits(15);
        lemma_block_bits(16);
    }
    match block_size {
        512 => 9,
        1024 => 10,
        2048 => 11,
        4096 => 12,
        8192 => 13,
        16384 => 14,
        32768 => 15,
        _ => 16,
    }
}

/// Whether the format knows a block size.
pub fn is_valid_block_size(block_size: usize) -> (r: bool)
    ensures
        r == valid_block_size(block_size as int),
{
    proof {
        if valid_block_size(block_size as int) {
            lemma_valid_block_size(block_size as int);
        }
        lemma2_to64();
        lemma_block_bits(9);
        lemma_block_bits(10);
        lemma_block_bits(11);
        lemma_block_bits(12);
        lemma_block_bits(13);
        lemma_block_bits(14);
        lemma_block_bits(15);
        lemma_block_bits(16);
    }
    match block_size {
        512 | 1024 | 2048 | 4096 | 8192 | 16384 | 32768 | 65536 => true,
        _ => false,
    }
}

/// The CRC-32C of some bytes, started from all ones and not inverted at the
/// end.
fn checksum_of(s: &[u8]) -> (c: u32)
    ensures
        c == crc32c(s@),
{
    let mut crc: u32 = 0xFFFF_FFFF;
    let mut k: usize = 0;
    while k < s.len()
        invariant
            k <= s@.len(),
            crc == crc32c_upto(s@, k as int),
        decreases s@.len() - k,
    {
        crc = crc ^ (s[k] as u32);
        let ghost mixed = crc;
        let mut b: u32 = 0;
        assert(crc == crc_steps(mixed, 0));
        while b < 8
            invariant
                b <= 8,
                crc == crc_steps(mixed, b as int),
            decreases 8 - b,
        {
            crc = (crc >> 1) ^ (if crc & 1 != 0 {
                0x82F63B78
            } else {
                0u32
            });
            b = b + 1;
        }
        k = k + 1;
    }
    crc
}

/// What the superblock says.
pub struct SuperblockParams<'a> {
    pub inodes: u64,
    pub epoch: u64,
    pub fixed_nsec: u32,
    /// The number of blocks, of which the superblock keeps 32 bits.
    pub blocks: u64,
    pub meta_blkaddr: u32,
    pub bits: u8,
    pub uuid: &'a [u8; 16],
    pub volume_name: &'a [u8],
}

impl<'a> View for SuperblockParams<'a> {
    type V = SuperView;

    open spec fn view(&self) -> SuperView {
        SuperView {
            inodes: self.inodes as int,
            epoch: self.epoch,
            fixed_nsec: self.fixed_nsec,
            blocks: self.blocks as int,
            meta_blkaddr: self.meta_blkaddr as int,
            bits: self.bits,
            uuid: self.uuid@,
            volume_name: self.volume_name@,
        }
    }
}

/// The superblock with the given checksum and compatible features.
fn build_super(p: &SuperblockParams, crc: u32, features: u32) -> (sb: Vec<u8>)
    requires
        p.volume_name@.len() <= 16,
    ensures
        sb@ == super_bytes(p@, crc, features),
{
    let mut name: Vec<u8> = Vec::new();
    push_slice(&mut name, p.volume_name);
    assert(name@ =~= p.volume_name@);
    push_zeros(&mut name, 16 - p.volume_name.len());
    let mut flags: Vec<u8> = Vec::new();
    flags.push(p.bits);  // blkszbits
    flags.push(0);  // sb_extslots
    assert(flags@ =~= seq![p.bits, 0u8]);
    let mut sb: Vec<u8> = Vec::new();
    push_le32(&mut sb, EROFS_SUPER_MAGIC_V1);
    assert(sb@ =~= le32(EROFS_SUPER_MAGIC_V1 as int));
    push_le32(&mut sb, crc);
    push_le32(&mut sb, features);
    push_slice(&mut sb, flags.as_slice());
    push_le16(&mut sb, 0);  // rootnid_2b
    push_le64(&mut sb, p.inodes);
    push_le64(&mut sb, p.epoch);
    push_le32(&mut sb, p.fixed_nsec);
    push_low32(&mut sb, p.blocks);
    push_le32(&mut sb, p.meta_blkaddr);
    push_le32(&mut sb, 0);  // xattr_blkaddr
    push_slice(&mut sb, p.uuid.as_slice());
    push_slice(&mut sb, name.as_slice());
    push_zeros(&mut sb, 10);  // feature_incompat to devt_slotoff
    push_byte(&mut sb, p.bits);  // dirblkbits
    push_zeros(&mut sb, 37);
    sb
}

/// The superblock area with the given checksum and compatible features.
fn build_area(p: &SuperblockParams, crc: u32, features: u32, len: usize) -> (area: Vec<u8>)
    requires
        p.volume_name@.len() <= 16,
        len >= EROFS_SUPER_OFFSET + SIZE_SUPER_BLOCK,
    ensures
        area@ == area_bytes(p@, crc, features, len as int),
{
    let sb: Vec<u8> = build_super(p, crc, features);
    let mut b: Vec<u8> = Vec::new();
    push_zeros(&mut b, EROFS_SUPER_OFFSET);
    assert(b@ =~= zeros(EROFS_SUPER_OFFSET as int));
    push_slice(&mut b, sb.as_slice());
    push_zeros(&mut b, len - EROFS_SUPER_OFFSET - SIZE_SUPER_BLOCK);
    b
}

/// The superblock area of `len` bytes.
///
/// A checksum is taken over a block's length but for the 1024 bytes that
/// precede the superblock, or, where a block has fewer, over a block's length
/// from the superblock on. The checksum field is zeroed and the feature bit
/// already set, and there is no final xor.
pub fn write_superblock(p: &SuperblockParams, checksum: bool, len: usize) -> (area: Vec<u8>)
    requires
        p.volume_name@.len() <= 16,
        len >= EROFS_SUPER_OFFSET + SIZE_SUPER_BLOCK,
        checksum ==> 9 <= p.bits <= 16 && checksum_end(p.bits) <= len,
    ensures
        area@ == super_area(p@, checksum, len as int),
{
    if checksum {
        let bare: Vec<u8> = build_area(p, 0, EROFS_FEATURE_COMPAT_SB_CHKSUM, len);
        proof {
            lemma2_to64();
            lemma_super_bytes_len(p@, 0, EROFS_FEATURE_COMPAT_SB_CHKSUM);
        }
        let end: usize = match p.bits {
            9 => EROFS_SUPER_OFFSET + 512,
            10 => 1024,
            11 => 2048,
            12 => 4096,
            13 => 8192,
            14 => 16384,
            15 => 32768,
            _ => 65536,
        };
        let crc: u32 = checksum_of(
            vstd::slice::slice_subrange(bare.as_slice(), EROFS_SUPER_OFFSET, end),
        );
        build_area(p, crc, EROFS_FEATURE_COMPAT_SB_CHKSUM, len)
    } else {
        build_area(p, 0, 0, len)
    }
}

/// Appends an inode.
pub fn write_inode(n: &Node, p: &NodePlan, buf: &mut Vec<u8>)
    requires
        p.xattr_size == xattr_size(n@.meta.xattrs),
        p.layout == DataLayout::FlatInline || p.layout == DataLayout::FlatPlain,
        p.compact ==> n@.meta.uid <= 0xFFFF && n@.meta.gid <= 0xFFFF && p.nlink <= 0xFFFF,
    ensures
        final(buf)@ == old(buf)@ + inode_bytes(
            n@,
            p.compact,
            p.layout == DataLayout::FlatInline,
            p.nlink as int,
            p.size as int,
            match p.data_blkaddr {
                Some(b) => Some(b as int),
                None => None,
            },
        ),
{
    proof {
        xattr_bytes_have_xattr_size(n@.meta.xattrs);
    }
    let union: u32 = match n.file_type {
        FileType::RegFile | FileType::Dir | FileType::Symlink => match p.data_blkaddr {
            Some(b) => b,
            None => 0,
        },
        FileType::Unknown => 0,
        _ => n.meta.rdev,
    };
    let layout: u16 = 2 * (p.layout.to_u8() as u16);
    let mut b: Vec<u8> = Vec::new();
    if p.compact {
        push_le16(&mut b, layout);
        assert(b@ =~= le16(layout as int));
        push_le16(&mut b, xattr_count(p.xattr_size));
        push_le16(&mut b, n.meta.mode);
        push_le16(&mut b, p.nlink as u16);
        push_low32(&mut b, p.size as u64);
        push_zeros(&mut b, 4);
        push_le32(&mut b, union);
        push_zeros(&mut b, 4);
        push_le16(&mut b, n.meta.uid as u16);
        push_le16(&mut b, n.meta.gid as u16);
        push_zeros(&mut b, 4);
    } else {
        push_le16(&mut b, layout + 1);
        assert(b@ =~= le16(layout + 1));
        push_le16(&mut b, xattr_count(p.xattr_size));
        push_le16(&mut b, n.meta.mode);
        push_zeros(&mut b, 2);
        push_le64(&mut b, p.size as u64);
        push_le32(&mut b, union);
        push_zeros(&mut b, 4);
        push_le32(&mut b, n.meta.uid);
        push_le32(&mut b, n.meta.gid);
        push_le64(&mut b, n.meta.mtime);
        push_le32(&mut b, n.meta.mtime_nsec);
        push_le32(&mut b, p.nlink);
        push_zeros(&mut b, 16);
    }
    push_slice(buf, b.as_slice());
}

/// A directory lists `.`, `..` and names that entries can have, each once.
pub proof fn lemma_listed_names(t: Seq<NodeView>, ns: Seq<u64>, i: int)
    requires
        tree_wf(t),
        0 <= i < t.len(),
    ensures
        forall|k: int|
            0 <= k < dir_names(t, i).len() ==> is_dot_name(#[trigger] dir_names(t, i)[k]) || is_name(
                dir_names(t, i)[k],
            ),
        forall|k: int|
            0 <= k < sorted_entries(t, ns, i).len() ==> is_dot_name(
                (#[trigger] sorted_entries(t, ns, i)[k]).name,
            ) || is_name(sorted_entries(t, ns, i)[k].name),
        forall|j: int, k: int|
            0 <= j < k < dir_names(t, i).len() ==> dir_names(t, i)[j] != dir_names(t, i)[k],
{
    let names = dir_names(t, i);
    let cs = children(t, i);
    lemma_children(t, i);
    lemma_sorted_entries(t, ns, i);
    order_is_defined(names);
    assert forall|k: int| 0 <= k < names.len() implies is_dot_name(#[trigger] names[k]) || is_name(
        names[k],
    ) by {
        if k >= 2 {
            assert(is_child(t, i, cs[k - 2]));
            assert(entry_wf(t, cs[k - 2]));
            assert(names[k] == t[cs[k - 2]].name);
        }
    }
    assert forall|k: int| 0 <= k < sorted_entries(t, ns, i).len() implies is_dot_name(
        (#[trigger] sorted_entries(t, ns, i)[k]).name,
    ) || is_name(sorted_entries(t, ns, i)[k].name) by {
        let p = order(names)[k];
        assert(0 <= p < names.len());
        assert(sorted_entries(t, ns, i)[k].name == dir_entries(t, ns, i)[p].name);
        assert(dir_entries(t, ns, i)[p].name == names[p]);
    }
    assert forall|j: int, k: int| 0 <= j < k < names.len() implies names[j] != names[k] by {
        if j >= 2 {
            assert(is_child(t, i, cs[j - 2]));
            assert(is_child(t, i, cs[k - 2]));
            assert(cs[j - 2] < cs[k - 2]);
            assert(apart(t, cs[j - 2], cs[k - 2]));
        } else if k >= 2 {
            assert(is_child(t, i, cs[k - 2]));
            assert(entry_wf(t, cs[k - 2]));
            assert(is_name(names[k]));
            assert(is_dot_name(names[j]));
        } else {
            assert(names[0].len() == 1 && names[1].len() == 2);
        }
    }
}

/// The inode numbers of all entries.
fn nid_table(tree: &Tree, g: Geometry, plan: &Plan) -> (r: Vec<u64>)
    requires
        tree.wf(),
        plan.plans(tree@, g),
    ensures
        r@ == nids(tree@, g),
{
    let ghost t = tree@;
    proof {
        tree.lemma_wf();
    }
    let mut r: Vec<u64> = Vec::new();
    let mut i: usize = 0;
    while i < plan.nodes.len()
        invariant
            t == tree@,
            tree_wf(t),
            plan.plans(t, g),
            i <= t.len(),
            r@ == nids(t, g).subrange(0, i as int),
        decreases t.len() - i,
    {
        proof {
            lemma_pos_of(t, i as int);
            let k = pos_of(t, i as int);
            assert(plans_at(plan.nodes@, t, g, k));
        }
        r.push(plan.nodes[i].nid);
        assert(r@ =~= nids(t, g).subrange(0, i + 1));
        i = i + 1;
    }
    assert(r@ =~= nids(t, g));
    r
}

/// The data of an entry.
fn payload_bytes(tree: &Tree, i: usize, g: Geometry, ns: &Vec<u64>) -> (r: Vec<u8>)
    requires
        tree.wf(),
        i < tree@.len(),
        g.wf(),
        ns@ == nids(tree@, g),
        entry_fits(tree@, i as int, g),
    ensures
        r@ == payload(tree@, g, i as int),
{
    let node: &Node = tree.node(i);
    match node.file_type {
        FileType::RegFile => copy_bytes(node.content.as_slice()),
        FileType::Symlink => copy_bytes(node.link_target.as_slice()),
        FileType::Dir => {
            let es: Vec<DirEntry> = sorted_dir_entries(tree, i, ns);
            proof {
                tree.lemma_wf();
                lemma_sorted_entries(tree@, ns@, i as int);
                lemma_listed_names(tree@, ns@, i as int);
                assert forall|k: int| 0 <= k < es@.len() implies #[trigger] es@[k].name@.len()
                    > 0 by {
                    assert(entry_views(es@)[k].name == es@[k].name@);
                }
            }
            build_dirents(&es, g.block_size)
        },
        _ => Vec::new(),
    }
}

/// The data that has blocks of its own, one region for each entry.
fn write_flat_data(tree: &Tree, g: Geometry, plan: &Plan, ns: &Vec<u64>) -> (out: Vec<Vec<u8>>)
    requires
        tree.wf(),
        g.wf(),
        plan.plans(tree@, g),
        ns@ == nids(tree@, g),
        image_fits(tree@, g),
    ensures
        views(out@) == data_regions(tree@, g, tree@.len() as int),
{
    let ghost t = tree@;
    proof {
        tree.lemma_wf();
        emission_order_is_complete(t);
    }
    let mut out: Vec<Vec<u8>> = Vec::new();
    let mut k: usize = 0;
    assert(views(out@) =~= Seq::empty());
    while k < plan.order.len()
        invariant
            tree.wf(),
            g.wf(),
            t == tree@,
            plan.plans(t, g),
            ns@ == nids(t, g),
            image_fits(t, g),
            preorder(t, 0).len() == t.len(),
            forall|j: int| #[trigger] preorder(t, 0).contains(j) <==> 0 <= j < t.len(),
            k <= t.len(),
            views(out@) == data_regions(t, g, k as int),
        decreases t.len() - k,
    {
        let i: usize = plan.order[k];
        proof {
            assert(ints(plan.order@)[k as int] == i);
            assert(preorder(t, 0)[k as int] == i);
            assert(preorder(t, 0).contains(preorder(t, 0)[k as int]));
            assert(plans_at(plan.nodes@, t, g, k as int));
            assert(entry_fits(t, i as int, g));
        }
        if plan.nodes[i].data_blkaddr.is_some() {
            let mut buf: Vec<u8> = payload_bytes(tree, i, g, ns);
            pad_to_block(&mut buf, g.block_size);
            let ghost before = views(out@);
            out.push(buf);
            assert(views(out@) =~= before.push(buf@));
        }
        k = k + 1;
    }
    out
}

/// Appends the inode of the entry that is emitted as number `k`, with what
/// follows it.
fn write_entry(
    tree: &Tree,
    k: usize,
    g: Geometry,
    plan: &Plan,
    ns: &Vec<u64>,
    buf: &mut Vec<u8>,
)
    requires
        tree.wf(),
        g.wf(),
        plan.plans(tree@, g),
        ns@ == nids(tree@, g),
        image_fits(tree@, g),
        k < tree@.len(),
    ensures
        final(buf)@ == old(buf)@ + entry_bytes(tree@, g, k as int),
{
    let ghost t = tree@;
    proof {
        tree.lemma_wf();
        emission_order_is_complete(t);
        assert(preorder(t, 0).contains(preorder(t, 0)[k as int]));
        assert(plans_at(plan.nodes@, t, g, k as int));
        assert(ints(plan.order@)[k as int] == plan.order@[k as int]);
    }
    let i: usize = plan.order[k];
    let p: &NodePlan = &plan.nodes[i];
    let node: &Node = tree.node(i);
    proof {
        assert(entry_fits(t, i as int, g));
        xattr_bytes_have_xattr_size(t[i as int].meta.xattrs);
        crate::plan::lemma_blk_ordered(t, g, k as int, t.len() as int);
        assert(match p.data_blkaddr {
            Some(b) => Some(b as int),
            None => None,
        } == if has_blocks(t, g, k as int) {
            Some(blk_at(t, g, k as int))
        } else {
            None
        });
    }
    write_inode(node, p, buf);
    let ghost head = buf@;
    assert(head == old(buf)@ + inode_at(t, g, k as int));
    if p.xattr_size > 0 {
        write_xattrs(&node.meta.xattrs, buf);
    }
    assert(buf@ =~= head + xattr_bytes(t[i as int].meta.xattrs));
    if p.layout == DataLayout::FlatInline {
        let data: Vec<u8> = payload_bytes(tree, i, g, ns);
        push_slice(buf, data.as_slice());
    }
    assert(buf@ =~= old(buf)@ + entry_bytes(t, g, k as int));
}

/// The metadata.
fn write_metadata(tree: &Tree, g: Geometry, plan: &Plan, ns: &Vec<u64>) -> (buf: Vec<u8>)
    requires
        tree.wf(),
        g.wf(),
        plan.plans(tree@, g),
        ns@ == nids(tree@, g),
        image_fits(tree@, g),
    ensures
        buf@ == meta_at(tree@, g, tree@.len() as int),
        buf@.len() == plan.meta_bytes,
{
    let ghost t = tree@;
    proof {
        tree.lemma_wf();
        emission_order_is_complete(t);
        lemma_meta_at_len(t, g, t.len() as int);
    }
    let mut buf: Vec<u8> = Vec::new();
    let mut k: usize = 0;
    while k < plan.order.len()
        invariant
            tree.wf(),
            g.wf(),
            t == tree@,
            tree_wf(t),
            plan.plans(t, g),
            ns@ == nids(t, g),
            image_fits(t, g),
            preorder(t, 0).len() == t.len(),
            forall|j: int| #[trigger] preorder(t, 0).contains(j) <==> 0 <= j < t.len(),
            k <= t.len(),
            buf@ == meta_at(t, g, k as int),
        decreases t.len() - k,
    {
        let i: usize = plan.order[k];
        let ghost at = place_at(t, g, k as int);
        proof {
            assert(ints(plan.order@)[k as int] == i);
            assert(preorder(t, 0).contains(preorder(t, 0)[k as int]));
            assert(plans_at(plan.nodes@, t, g, k as int));
            lemma_meta_at_len(t, g, k as int);
            lemma_place_at(t, g, k as int);
            lemma_entry_bytes_len(t, g, k as int);
            lemma_off_ordered(t, g, k + 1, t.len() as int);
            lemma_rounded(meta_len(t, g), g.bs());
            lemma_rounded(header_size(t, i as int, g) + at.trailing, INODE_SLOT as int);
        }
        let p: &NodePlan = &plan.nodes[i];
        let gap: usize = p.start - buf.len();
        push_zeros(&mut buf, gap);
        write_entry(tree, k, g, plan, ns, &mut buf);
        let core: usize = if p.compact {
            SIZE_INODE_COMPACT
        } else {
            SIZE_INODE_EXTENDED
        };
        let written: usize = core + p.xattr_size + p.trailing_size;
        push_zeros(&mut buf, round_up(written, INODE_SLOT) - written);
        k = k + 1;
    }
    buf
}

/// What an image depends on besides its entries.
pub struct ImageParams<'a> {
    pub geometry: Geometry,
    pub uuid: &'a [u8; 16],
    pub volume_name: &'a [u8],
    pub checksum: bool,
}

impl<'a> View for ImageParams<'a> {
    type V = ImageOptions;

    open spec fn view(&self) -> ImageOptions {
        ImageOptions {
            geometry: self.geometry,
            uuid: self.uuid@,
            volume_name: self.volume_name@,
            checksum: self.checksum,
        }
    }
}

/// The regions of an image, in order.
pub fn build_regions(tree: &Tree, params: &ImageParams, plan: &Plan) -> (out: Vec<Vec<u8>>)
    requires
        tree.wf(),
        params@.wf(),
        plan.plans(tree@, params@.geometry),
        image_fits(tree@, params@.geometry),
    ensures
        views(out@) == regions(tree@, params@),
{
    let ghost t = tree@;
    let ghost o = params@;
    let g: Geometry = params.geometry;
    proof {
        tree.lemma_wf();
        lemma_valid_block_size(g.bs());
        lemma2_to64();
        lemma_super_blocks_small(g);
        lemma_rounded((EROFS_SUPER_OFFSET + SIZE_SUPER_BLOCK) as int, g.bs());
        lemma_meta_at_len(t, g, t.len() as int);
    }
    let area_len: usize = round_up(EROFS_SUPER_OFFSET + SIZE_SUPER_BLOCK, g.block_size);
    let bits: u8 = blk_bits(g.block_size);
    let sp: SuperblockParams = SuperblockParams {
        inodes: tree.len() as u64,
        epoch: g.build_time,
        fixed_nsec: g.build_time_nsec,
        blocks: (plan.meta_blkaddr as usize + plan.meta_blocks) as u64,
        meta_blkaddr: plan.meta_blkaddr,
        bits,
        uuid: params.uuid,
        volume_name: params.volume_name,
    };
    let area: Vec<u8> = write_superblock(&sp, params.checksum, area_len);
    let ns: Vec<u64> = nid_table(tree, g, plan);
    let mut data: Vec<Vec<u8>> = write_flat_data(tree, g, plan, &ns);
    let mut meta: Vec<u8> = write_metadata(tree, g, plan, &ns);
    pad_to_block(&mut meta, g.block_size);
    let ghost flat = views(data@);
    let mut out: Vec<Vec<u8>> = Vec::new();
    out.push(area);
    out.append(&mut data);
    out.push(meta);
    proof {
        assert(sp@ == super_view(t, o));
        assert(views(out@) =~= regions(t, o));
    }
    out
}

} // verus!
