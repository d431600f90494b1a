//! A finished image reads back as the entries that it was built from.

use vstd::arithmetic::mul::lemma_mul_is_distributive_add_other_way;
use vstd::arithmetic::power2::lemma2_to64;
use vstd::prelude::*;
use vstd::utf8::{decode_utf8, decode_utf8_encode_utf8, encode_utf8};

use crate::bytes::{holds, le16, le16_round_trip, le32, le32_round_trip, le64, le64_round_trip,
    lemma_holds_concat, lemma_holds_within, lemma_rounded, padded, rounded, u16_at, u32_at, u64_at,
    units, zeros};
use crate::dirent::{names_of, EntryView};
use crate::error::Error;
use crate::image::{area_bytes, area_crc, block_bits, checksum_end, concat, crc32c, data_regions,
    entry_bytes, image, inode_at, inode_bytes, inode_union, lemma_entry_bytes_len,
    lemma_inode_bytes_len, lemma_meta_at_len, lemma_payload_has_len, lemma_super_bytes_len,
    lemma_valid_block_size, meta_at, payload, super_area, super_bytes, super_view, valid_block_size,
    ImageOptions, SuperView};
use crate::layout::{DataLayout, FileType, EROFS_FEATURE_COMPAT_SB_CHKSUM, EROFS_SUPER_MAGIC_V1,
    EROFS_SUPER_OFFSET, SIZE_INODE_COMPACT, SIZE_INODE_EXTENDED, SIZE_SUPER_BLOCK};
use crate::meta::{xattr_bytes, xattr_bytes_have_xattr_size};
use crate::names::{byte_order_is_total, less, order, order_is_defined, sorted, sorted_names_ascend};
use crate::plan::{blk_at, dir_entries, dir_names, entry_fits, flat_size, has_blocks, header_size,
    image_fits, inode_size, is_compact, lemma_blk_ordered, lemma_off_ordered, lemma_payload_len,
    lemma_place_at, lemma_pos_of, lemma_sorted_entries, meta_blk, meta_len, nid_of, nids, off_at,
    payload_len, place_at, pos_of, sorted_entries, super_blocks, total_blocks, Geometry,
    INODE_SLOT};
use crate::reader::{content_in, data_off, dirents_in, inode_in, inode_of, inode_off, is_dot_name,
    read_at, says_extended, stat_in, superblock_in, DirentView, InodeView, Stat, Superblock};
use crate::round_trip::{dirents_round_trip, listable, listing, listing_of, shown};
use crate::tree::{apart, children, emission_order_is_complete, entry_wf, find, is_child, is_named,
    lemma_children, lemma_find, lemma_nothing_below, lookup, nlink_of, preorder, tree_wf, NodeView};

verus! {

broadcast use crate::bytes::group_le_len;

/// An entry whose inode the reader takes: a regular file, directory or
/// symlink by its mode as well, without attributes, and of a size that its
/// inode can give.
pub open spec fn readable(t: Seq<NodeView>, g: Geometry, i: int) -> bool {
    &&& t[i].kind == FileType::RegFile || t[i].kind == FileType::Dir || t[i].kind
        == FileType::Symlink
    &&& t[i].kind == FileType::of_mode(t[i].meta.mode)
    &&& t[i].meta.xattrs.len() == 0
    &&& is_compact(t, i, g) ==> flat_size(t, i, g.bs()) <= 0xFFFF_FFFF
}

/// A directory whose listing the reader takes: its names can be given back.
pub open spec fn listable_dir(t: Seq<NodeView>, g: Geometry, i: int) -> bool {
    listable(sorted_entries(t, nids(t, g), i), g.bs())
}

pub proof fn lemma_concat_push(rs: Seq<Seq<u8>>, r: Seq<u8>)
    ensures
        concat(rs.push(r)) == concat(rs) + r,
{
    assert(rs.push(r).drop_last() =~= rs);
}

proof fn lemma_concat_front(a: Seq<u8>, rs: Seq<Seq<u8>>)
    ensures
        concat(seq![a] + rs) == a + concat(rs),
    decreases rs.len(),
{
    if rs.len() == 0 {
        assert(seq![a] + rs =~= Seq::<Seq<u8>>::empty().push(a));
        lemma_concat_push(Seq::empty(), a);
        assert(concat(Seq::<Seq<u8>>::empty()) =~= Seq::<u8>::empty());
        assert(Seq::<u8>::empty() + a =~= a);
        assert(a + concat(rs) =~= a);
    } else {
        let front = rs.drop_last();
        lemma_concat_front(a, front);
        assert(seq![a] + rs =~= (seq![a] + front).push(rs.last()));
        lemma_concat_push(seq![a] + front, rs.last());
        assert(a + concat(front) + rs.last() =~= a + concat(rs));
    }
}

/// The three areas of an image.
pub open spec fn area_of(t: Seq<NodeView>, o: ImageOptions) -> Seq<u8> {
    super_area(super_view(t, o), o.checksum, super_blocks(o.geometry) * o.geometry.bs())
}

pub open spec fn data_of(t: Seq<NodeView>, g: Geometry, k: int) -> Seq<u8> {
    concat(data_regions(t, g, k))
}

pub open spec fn meta_of(t: Seq<NodeView>, g: Geometry) -> Seq<u8> {
    padded(meta_at(t, g, t.len() as int), g.bs())
}

/// An image is its three areas, one after another.
pub proof fn lemma_image_areas(t: Seq<NodeView>, o: ImageOptions)
    ensures
        image(t, o) == area_of(t, o) + data_of(t, o.geometry, t.len() as int) + meta_of(
            t,
            o.geometry,
        ),
{
    let g = o.geometry;
    let ds = data_regions(t, g, t.len() as int);
    lemma_concat_front(area_of(t, o), ds.push(meta_of(t, g)));
    lemma_concat_push(ds, meta_of(t, g));
    assert(area_of(t, o) + (concat(ds) + meta_of(t, g)) =~= area_of(t, o) + concat(ds) + meta_of(
        t,
        g,
    ));
}

pub proof fn lemma_area_len(t: Seq<NodeView>, o: ImageOptions)
    requires
        o.wf(),
    ensures
        area_of(t, o).len() == super_blocks(o.geometry) * o.geometry.bs(),
        super_blocks(o.geometry) * o.geometry.bs() >= EROFS_SUPER_OFFSET + SIZE_SUPER_BLOCK,
{
    let g = o.geometry;
    lemma_rounded((EROFS_SUPER_OFFSET + SIZE_SUPER_BLOCK) as int, g.bs());
    let p = super_view(t, o);
    lemma_super_bytes_len(p, 0, 0);
    lemma_super_bytes_len(
        p,
        area_crc(p, super_blocks(g) * g.bs()),
        EROFS_FEATURE_COMPAT_SB_CHKSUM,
    );
}

/// The data of the first entries ends where the next block starts.
pub proof fn lemma_data_len(t: Seq<NodeView>, g: Geometry, k: int)
    requires
        g.wf(),
        0 <= k <= t.len(),
    ensures
        super_blocks(g) * g.bs() + data_of(t, g, k).len() == blk_at(t, g, k) * g.bs(),
    decreases k,
{
    if k > 0 {
        lemma_data_len(t, g, k - 1);
        if has_blocks(t, g, k - 1) {
            let i = preorder(t, 0)[k - 1];
            let p = payload(t, g, i);
            lemma_payload_has_len(t, g, i);
            lemma_rounded(p.len() as int, g.bs());
            lemma_concat_push(data_regions(t, g, k - 1), padded(p, g.bs()));
            lemma_payload_len(t, i, g.bs());
            let u = units(flat_size(t, i, g.bs()), g.bs());
            lemma_mul_is_distributive_add_other_way(g.bs(), blk_at(t, g, k - 1), u);
            assert(padded(p, g.bs()).len() == u * g.bs());
        }
    }
}

/// An image takes whole blocks, as many as are counted for it.
pub proof fn image_takes_whole_blocks(t: Seq<NodeView>, o: ImageOptions)
    requires
        o.wf(),
        tree_wf(t),
    ensures
        image(t, o).len() == total_blocks(t, o.geometry) * o.geometry.block_size,
{
    let g = o.geometry;
    let n = t.len() as int;
    lemma_image_areas(t, o);
    lemma_area_len(t, o);
    lemma_meta_at_len(t, g, n);
    lemma_off_ordered(t, g, 0, n);
    lemma_rounded(meta_len(t, g), g.bs());
    assert(meta_of(t, g).len() == rounded(meta_len(t, g), g.bs()));
    lemma_data_len(t, g, n);
    lemma_mul_is_distributive_add_other_way(
        g.bs(),
        meta_blk(t, g),
        units(meta_len(t, g), g.bs()),
    );
}

/// The metadata holds every entry where it was planned.
proof fn lemma_entry_held(t: Seq<NodeView>, g: Geometry, m: int, k: int)
    requires
        g.wf(),
        tree_wf(t),
        0 <= k < m <= t.len(),
    ensures
        holds(meta_at(t, g, m), place_at(t, g, k).start, entry_bytes(t, g, k)),
    decreases m,
{
    let p = place_at(t, g, m - 1);
    let e = entry_bytes(t, g, m - 1);
    let front = meta_at(t, g, m - 1);
    let gap = zeros(p.start - off_at(t, g, m - 1));
    let fill = zeros(p.next - p.start - e.len());
    lemma_place_at(t, g, m - 1);
    lemma_meta_at_len(t, g, m - 1);
    lemma_entry_bytes_len(t, g, m - 1);
    if k == m - 1 {
        lemma_holds_concat(front + gap, e, fill);
    } else {
        lemma_entry_held(t, g, m - 1, k);
        lemma_holds_concat(front, gap + e + fill, Seq::empty());
        assert(front + (gap + e + fill) =~= meta_at(t, g, m));
        lemma_holds_within(
            meta_at(t, g, m),
            0,
            front,
            place_at(t, g, k).start,
            entry_bytes(t, g, k),
        );
    }
}

/// The data area holds an entry's data from its first block on.
proof fn lemma_data_held(t: Seq<NodeView>, g: Geometry, m: int, k: int)
    requires
        g.wf(),
        0 <= k < m <= t.len(),
        has_blocks(t, g, k),
    ensures
        holds(
            data_of(t, g, m),
            blk_at(t, g, k) * g.bs() - super_blocks(g) * g.bs(),
            payload(t, g, preorder(t, 0)[k]),
        ),
    decreases m,
{
    let front = data_of(t, g, m - 1);
    let here = blk_at(t, g, k) * g.bs() - super_blocks(g) * g.bs();
    let p = payload(t, g, preorder(t, 0)[k]);
    lemma_data_len(t, g, k);
    if k == m - 1 {
        let fill = zeros(rounded(p.len() as int, g.bs()) - p.len());
        lemma_concat_push(data_regions(t, g, m - 1), padded(p, g.bs()));
        assert(data_of(t, g, m) =~= front + p + fill);
        lemma_holds_concat(front, p, fill);
    } else {
        lemma_data_held(t, g, m - 1, k);
        if has_blocks(t, g, m - 1) {
            let r = padded(payload(t, g, preorder(t, 0)[m - 1]), g.bs());
            lemma_concat_push(data_regions(t, g, m - 1), r);
            lemma_holds_concat(front, r, Seq::empty());
            lemma_holds_within(data_of(t, g, m), 0, front, here, p);
        }
    }
}

/// Reading bytes that an image holds gives those bytes.
proof fn lemma_read_held(img: Seq<u8>, off: int, part: Seq<u8>)
    requires
        holds(img, off, part),
    ensures
        read_at(img, off, part.len() as int) == Some(part),
{
}

proof fn lemma_super_fields(p: SuperView, crc: u32, features: u32)
    requires
        p.uuid.len() == 16,
        p.volume_name.len() <= 16,
        0 <= p.meta_blkaddr <= 0xFFFF_FFFF,
    ensures
        u32_at(super_bytes(p, crc, features), 0) == EROFS_SUPER_MAGIC_V1,
        super_bytes(p, crc, features)[12] == p.bits,
        u16_at(super_bytes(p, crc, features), 14) == 0,
        u32_at(super_bytes(p, crc, features), 40) == p.meta_blkaddr,
        u32_at(super_bytes(p, crc, features), 8) == features,
        0 <= p.blocks <= 0xFFFF_FFFF ==> u32_at(super_bytes(p, crc, features), 36) == p.blocks,
{
    let b = super_bytes(p, crc, features);
    lemma_super_bytes_len(p, crc, features);
    let magic = le32(EROFS_SUPER_MAGIC_V1 as int);
    let a = magic + le32(crc as int) + le32(features as int);
    let flags = seq![p.bits, 0u8];
    let root = le16(0);
    let mid = le64(p.inodes) + le64(p.epoch as int) + le32(p.fixed_nsec as int) + le32(p.blocks);
    let addr = le32(p.meta_blkaddr);
    let tail = le32(0) + p.uuid + (p.volume_name + zeros(16 - p.volume_name.len())) + zeros(10)
        + seq![p.bits] + zeros(37);
    assert(b =~= a + flags + root + mid + addr + tail);
    assert(b.subrange(0, 4) =~= magic);
    assert(b.subrange(14, 16) =~= root);
    assert(b.subrange(40, 44) =~= addr);
    le32_round_trip(b, 0, EROFS_SUPER_MAGIC_V1 as int);
    le16_round_trip(b, 14, 0);
    le32_round_trip(b, 40, p.meta_blkaddr);
    assert(b.subrange(8, 12) =~= le32(features as int));
    le32_round_trip(b, 8, features as int);
    if 0 <= p.blocks <= 0xFFFF_FFFF {
        assert(b.subrange(36, 40) =~= le32(p.blocks));
        le32_round_trip(b, 36, p.blocks);
    }
}

/// What the reader finds in the superblock of an image.
pub open spec fn superblock_for(t: Seq<NodeView>, g: Geometry) -> Superblock {
    Superblock {
        block_size: g.block_size,
        meta_off: (meta_blk(t, g) * g.bs()) as u64,
        root_nid: 0,
    }
}

/// The superblock of an image.
pub open spec fn super_of(t: Seq<NodeView>, o: ImageOptions) -> Seq<u8> {
    let p = super_view(t, o);
    if o.checksum {
        super_bytes(
            p,
            area_crc(p, super_blocks(o.geometry) * o.geometry.bs()),
            EROFS_FEATURE_COMPAT_SB_CHKSUM,
        )
    } else {
        super_bytes(p, 0, 0)
    }
}

/// The superblock area stands at the front of an image, and the superblock at
/// its place in it.
pub proof fn lemma_super_in_image(t: Seq<NodeView>, o: ImageOptions)
    requires
        o.wf(),
    ensures
        holds(image(t, o), 0, area_of(t, o)),
        holds(image(t, o), EROFS_SUPER_OFFSET as int, super_of(t, o)),
        super_of(t, o).len() == SIZE_SUPER_BLOCK,
{
    let g = o.geometry;
    let p = super_view(t, o);
    let len = super_blocks(g) * g.bs();
    let sb = super_of(t, o);
    let lead = zeros(EROFS_SUPER_OFFSET as int);
    let rest = zeros(len - EROFS_SUPER_OFFSET - SIZE_SUPER_BLOCK);
    lemma_image_areas(t, o);
    lemma_area_len(t, o);
    lemma_super_bytes_len(p, 0, 0);
    lemma_super_bytes_len(p, area_crc(p, len), EROFS_FEATURE_COMPAT_SB_CHKSUM);
    assert(area_of(t, o) == lead + sb + rest);
    lemma_holds_concat(lead, sb, rest);
    let behind = data_of(t, g, t.len() as int) + meta_of(t, g);
    lemma_holds_concat(area_of(t, o), behind, Seq::empty());
    assert(area_of(t, o) + behind =~= image(t, o));
    lemma_holds_within(image(t, o), 0, area_of(t, o), EROFS_SUPER_OFFSET as int, sb);
}

/// The fields of an image's superblock.
proof fn lemma_super_of_fields(t: Seq<NodeView>, o: ImageOptions)
    requires
        o.wf(),
        0 <= meta_blk(t, o.geometry) <= u32::MAX,
    ensures
        ({
            let sb = super_of(t, o);
            let p = super_view(t, o);
            &&& u32_at(sb, 0) == EROFS_SUPER_MAGIC_V1
            &&& sb[12] == p.bits
            &&& u16_at(sb, 14) == 0
            &&& u32_at(sb, 40) == p.meta_blkaddr
            &&& u32_at(sb, 8) == if o.checksum {
                EROFS_FEATURE_COMPAT_SB_CHKSUM
            } else {
                0
            }
            &&& 0 <= p.blocks <= 0xFFFF_FFFF ==> u32_at(sb, 36) == p.blocks
        }),
{
    let p = super_view(t, o);
    lemma_super_fields(p, 0, 0);
    lemma_super_fields(
        p,
        area_crc(p, super_blocks(o.geometry) * o.geometry.bs()),
        EROFS_FEATURE_COMPAT_SB_CHKSUM,
    );
}

/// The superblock of an image reads back: it gives the block size, where the
/// metadata starts, and the root.
pub proof fn superblock_reads_back(t: Seq<NodeView>, o: ImageOptions)
    requires
        o.wf(),
        0 <= meta_blk(t, o.geometry) <= u32::MAX,
    ensures
        superblock_in(image(t, o)) == Ok::<Superblock, Error>(superblock_for(t, o.geometry)),
{
    let g = o.geometry;
    lemma_super_in_image(t, o);
    lemma_read_held(image(t, o), EROFS_SUPER_OFFSET as int, super_of(t, o));
    lemma_super_of_fields(t, o);
    lemma_valid_block_size(g.bs());
    lemma2_to64();
}

/// A field that a part holds, the whole holds at the part's offset plus its
/// own.
proof fn lemma_u32_within(b: Seq<u8>, o: int, part: Seq<u8>, p: int)
    requires
        holds(b, o, part),
        0 <= p,
        p + 4 <= part.len(),
    ensures
        u32_at(b, o + p) == u32_at(part, p),
{
    let s = b.subrange(o, o + part.len());
    assert(b[o + p] == s[p] && b[o + p + 1] == s[p + 1] && b[o + p + 2] == s[p + 2] && b[o + p + 3]
        == s[p + 3]);
}

/// The bytes that the checksum covers lie in the superblock area.
proof fn lemma_checksum_end(g: Geometry)
    requires
        g.wf(),
        valid_block_size(g.bs()),
    ensures
        EROFS_SUPER_OFFSET <= checksum_end(block_bits(g.bs()) as u8),
        checksum_end(block_bits(g.bs()) as u8) <= super_blocks(g) * g.bs(),
{
    let v = (EROFS_SUPER_OFFSET + SIZE_SUPER_BLOCK) as int;
    lemma_valid_block_size(g.bs());
    lemma_rounded(v, g.bs());
    if g.bs() >= 1024 {
        assert(super_blocks(g) * g.bs() >= g.bs()) by (nonlinear_arith)
            requires
                super_blocks(g) >= 1,
                g.bs() > 0,
        ;
    } else {
        assert(units(v, 512) == 3);
    }
}

/// Blanking the checksum of a whole blanks that of its front.
proof fn lemma_blanked_front(img: Seq<u8>, area: Seq<u8>, end: int)
    requires
        holds(img, 0, area),
        EROFS_SUPER_OFFSET + SIZE_SUPER_BLOCK <= area.len(),
        EROFS_SUPER_OFFSET <= end <= area.len(),
    ensures
        without_checksum(img).subrange(EROFS_SUPER_OFFSET as int, end) == without_checksum(
            area,
        ).subrange(EROFS_SUPER_OFFSET as int, end),
{
    assert forall|j: int| 0 <= j < area.len() implies img[j] == area[j] by {
        assert(img.subrange(0, area.len() as int)[j] == area[j]);
    }
    assert(without_checksum(img).subrange(EROFS_SUPER_OFFSET as int, end) =~= without_checksum(
        area,
    ).subrange(EROFS_SUPER_OFFSET as int, end));
}

proof fn lemma_checksum_in_image(t: Seq<NodeView>, o: ImageOptions)
    requires
        o.wf(),
        o.checksum,
    ensures
        u32_at(image(t, o), EROFS_SUPER_OFFSET + 4) == crc32c(
            without_checksum(image(t, o)).subrange(
                EROFS_SUPER_OFFSET as int,
                checksum_end(block_bits(o.geometry.bs()) as u8),
            ),
        ),
{
    let g = o.geometry;
    lemma_area_len(t, o);
    lemma_super_in_image(t, o);
    lemma_checksum_end(g);
    checksum_verifies(super_view(t, o), super_blocks(g) * g.bs());
    lemma_u32_within(image(t, o), 0, area_of(t, o), EROFS_SUPER_OFFSET + 4);
    lemma_blanked_front(
        image(t, o),
        area_of(t, o),
        checksum_end(block_bits(g.bs()) as u8),
    );
}

/// The superblock of an image says how long the image is, where its metadata
/// starts, and whether it has a checksum; and the checksum verifies.
pub proof fn superblock_matches_the_image(t: Seq<NodeView>, o: ImageOptions)
    requires
        o.wf(),
        tree_wf(t),
        image_fits(t, o.geometry),
    ensures
        ({
            let g = o.geometry;
            let img = image(t, o);
            let at = EROFS_SUPER_OFFSET as int;
            &&& total_blocks(t, g) <= u32::MAX ==> u32_at(img, at + 36) == total_blocks(t, g)
                && img.len() == u32_at(img, at + 36) * g.block_size
            &&& u32_at(img, at + 40) == meta_blk(t, g)
            &&& u32_at(img, at + 8) == if o.checksum {
                EROFS_FEATURE_COMPAT_SB_CHKSUM
            } else {
                0
            }
            &&& o.checksum ==> u32_at(img, at + 4) == crc32c(
                without_checksum(img).subrange(at, checksum_end(block_bits(g.bs()) as u8)),
            )
        }),
{
    let g = o.geometry;
    let img = image(t, o);
    let at = EROFS_SUPER_OFFSET as int;
    let sb = super_of(t, o);
    lemma_blk_ordered(t, g, 0, t.len() as int);
    lemma_off_ordered(t, g, 0, t.len() as int);
    lemma_rounded(meta_len(t, g), g.bs());
    image_takes_whole_blocks(t, o);
    lemma_super_in_image(t, o);
    lemma_super_of_fields(t, o);
    lemma_u32_within(img, at, sb, 36);
    lemma_u32_within(img, at, sb, 40);
    lemma_u32_within(img, at, sb, 8);
    if o.checksum {
        lemma_checksum_in_image(t, o);
    }
}

/// `a` with the four bytes of the superblock's checksum blanked.
pub open spec fn without_checksum(a: Seq<u8>) -> Seq<u8> {
    let o = EROFS_SUPER_OFFSET + 4;
    a.subrange(0, o) + zeros(4) + a.subrange(o + 4, a.len() as int)
}

/// The checksum of a superblock area verifies: it is that of the bytes that it
/// covers, taken with the checksum itself blanked. The feature that announces
/// it is set.
pub proof fn checksum_verifies(p: SuperView, len: int)
    requires
        p.uuid.len() == 16,
        p.volume_name.len() <= 16,
        EROFS_SUPER_OFFSET + SIZE_SUPER_BLOCK <= len,
    ensures
        ({
            let a = super_area(p, true, len);
            &&& a.len() == len
            &&& u32_at(a, EROFS_SUPER_OFFSET + 4) == crc32c(
                without_checksum(a).subrange(EROFS_SUPER_OFFSET as int, checksum_end(p.bits)),
            )
            &&& u32_at(a, EROFS_SUPER_OFFSET + 8) == EROFS_FEATURE_COMPAT_SB_CHKSUM
        }),
{
    let features = EROFS_FEATURE_COMPAT_SB_CHKSUM;
    let crc = area_crc(p, len);
    let a = super_area(p, true, len);
    let blank = area_bytes(p, 0, features, len);
    let o = EROFS_SUPER_OFFSET + 4;
    lemma_super_bytes_len(p, crc, features);
    lemma_super_bytes_len(p, 0, features);
    let front = zeros(EROFS_SUPER_OFFSET as int) + le32(EROFS_SUPER_MAGIC_V1 as int);
    let back = le32(features as int) + seq![p.bits, 0u8] + le16(0) + le64(p.inodes) + le64(
        p.epoch as int,
    ) + le32(p.fixed_nsec as int) + le32(p.blocks) + le32(p.meta_blkaddr) + le32(0) + p.uuid + (
    p.volume_name + zeros(16 - p.volume_name.len())) + zeros(10) + seq![p.bits] + zeros(37) + zeros(
        len - EROFS_SUPER_OFFSET - SIZE_SUPER_BLOCK,
    );
    assert(a =~= front + le32(crc as int) + back);
    assert(blank =~= front + le32(0) + back);
    assert(le32(0) =~= zeros(4)) by {
        reveal(le32);
    }
    assert(a.subrange(0, o) =~= front);
    assert(a.subrange(o + 4, a.len() as int) =~= back);
    assert(without_checksum(a) =~= blank);
    assert(a.subrange(o, o + 4) =~= le32(crc as int));
    assert(a.subrange(o + 4, o + 8) =~= le32(features as int));
    le32_round_trip(a, o, crc as int);
    le32_round_trip(a, o + 4, features as int);
}

/// What an inode gives back.
proof fn lemma_inode_fields(
    n: NodeView,
    compact: bool,
    inline: bool,
    nlink: int,
    size: int,
    blk: Option<int>,
)
    requires
        n.meta.xattrs.len() == 0,
        compact ==> 0 <= size <= 0xFFFF_FFFF,
        !compact ==> 0 <= size < 0x1_0000_0000_0000_0000,
        0 <= inode_union(n, blk) <= 0xFFFF_FFFF,
    ensures
        ({
            let b = inode_bytes(n, compact, inline, nlink, size, blk);
            &&& u16_at(b, 0) == (if inline {
                4int
            } else {
                0
            }) + if compact {
                0int
            } else {
                1
            }
            &&& u16_at(b, 2) == 0
            &&& u16_at(b, 4) == n.meta.mode
            &&& compact ==> u32_at(b, 8) == size
            &&& !compact ==> u64_at(b, 8) == size
            &&& u32_at(b, 16) == inode_union(n, blk)
        }),
{
    let b = inode_bytes(n, compact, inline, nlink, size, blk);
    lemma_inode_bytes_len(n, compact, inline, nlink, size, blk);
    let form = (if inline {
        4int
    } else {
        0
    }) + if compact {
        0int
    } else {
        1
    };
    let union = inode_union(n, blk);
    assert(b.subrange(0, 2) =~= le16(form));
    assert(b.subrange(2, 4) =~= le16(0));
    assert(b.subrange(4, 6) =~= le16(n.meta.mode as int));
    assert(b.subrange(16, 20) =~= le32(union));
    le16_round_trip(b, 0, form);
    le16_round_trip(b, 2, 0);
    le16_round_trip(b, 4, n.meta.mode as int);
    le32_round_trip(b, 16, union);
    if compact {
        assert(b.subrange(8, 12) =~= le32(size));
        le32_round_trip(b, 8, size);
    } else {
        assert(b.subrange(8, 16) =~= le64(size));
        le64_round_trip(b, 8, size);
    }
}

/// The image holds the entry that is emitted as number `k` where the reader
/// looks for it.
pub proof fn lemma_entry_in_image(t: Seq<NodeView>, o: ImageOptions, k: int)
    requires
        o.wf(),
        tree_wf(t),
        0 <= k < t.len(),
    ensures
        holds(
            image(t, o),
            meta_blk(t, o.geometry) * o.geometry.bs() + place_at(t, o.geometry, k).start,
            entry_bytes(t, o.geometry, k),
        ),
{
    let g = o.geometry;
    let n = t.len() as int;
    let front = area_of(t, o) + data_of(t, g, n);
    let meta = meta_at(t, g, n);
    let fill = zeros(rounded(meta.len() as int, g.bs()) - meta.len());
    lemma_image_areas(t, o);
    lemma_area_len(t, o);
    lemma_data_len(t, g, n);
    assert(image(t, o) =~= front + meta + fill);
    lemma_holds_concat(front, meta, fill);
    lemma_entry_held(t, g, n, k);
    lemma_holds_within(
        image(t, o),
        front.len() as int,
        meta,
        place_at(t, g, k).start,
        entry_bytes(t, g, k),
    );
}

/// Data that has blocks of its own is where its inode says.
pub proof fn data_is_where_its_inode_says(t: Seq<NodeView>, o: ImageOptions, k: int)
    requires
        o.wf(),
        0 <= k < t.len(),
        has_blocks(t, o.geometry, k),
    ensures
        holds(
            image(t, o),
            blk_at(t, o.geometry, k) * o.geometry.bs(),
            payload(t, o.geometry, preorder(t, 0)[k]),
        ),
{
    let g = o.geometry;
    let n = t.len() as int;
    let area = area_of(t, o);
    let data = data_of(t, g, n);
    lemma_image_areas(t, o);
    lemma_area_len(t, o);
    lemma_holds_concat(area, data, meta_of(t, g));
    lemma_data_held(t, g, n, k);
    lemma_holds_within(
        image(t, o),
        area.len() as int,
        data,
        blk_at(t, g, k) * g.bs() - super_blocks(g) * g.bs(),
        payload(t, g, preorder(t, 0)[k]),
    );
}

/// What the reader finds in the inode of entry `i`.
pub open spec fn inode_for(t: Seq<NodeView>, g: Geometry, i: int) -> InodeView {
    let k = pos_of(t, i);
    let p = place_at(t, g, k);
    InodeView {
        kind: t[i].kind,
        mode: t[i].meta.mode,
        size: flat_size(t, i, g.bs()) as u64,
        layout: if p.inline {
            DataLayout::FlatInline
        } else {
            DataLayout::FlatPlain
        },
        blkaddr: if has_blocks(t, g, k) {
            blk_at(t, g, k) as u32
        } else {
            0
        },
        trailing_off: (meta_blk(t, g) * g.bs() + p.start + inode_size(t, i, g)) as u64,
    }
}

/// The sizes of a readable entry are within the limits of its inode, and so
/// are the offsets that the reader computes.
proof fn lemma_within_limits(t: Seq<NodeView>, o: ImageOptions, i: int)
    requires
        o.wf(),
        tree_wf(t),
        image_fits(t, o.geometry),
        image(t, o).len() <= u64::MAX,
        0 <= i < t.len(),
    ensures
        ({
            let g = o.geometry;
            let k = pos_of(t, i);
            let start = place_at(t, g, k).start;
            &&& 0 <= k < t.len()
            &&& preorder(t, 0)[k] == i
            &&& 0 <= meta_blk(t, g) <= u32::MAX
            &&& 0 <= blk_at(t, g, k) <= u32::MAX
            &&& 0 <= nid_of(t, g, i) <= u64::MAX
            &&& inode_off(superblock_for(t, g), nid_of(t, g, i) as u64) == meta_blk(t, g) * g.bs()
                + start
            &&& meta_blk(t, g) * g.bs() + start + header_size(t, i, g) + place_at(t, g, k).trailing
                <= u64::MAX
            &&& superblock_for(t, g).meta_off == meta_blk(t, g) * g.bs()
        }),
{
    let g = o.geometry;
    let k = pos_of(t, i);
    let start = place_at(t, g, k).start;
    lemma_pos_of(t, i);
    lemma_place_at(t, g, k);
    lemma_blk_ordered(t, g, 0, k);
    lemma_blk_ordered(t, g, k, t.len() as int);
    lemma_entry_in_image(t, o, k);
    lemma_entry_bytes_len(t, g, k);
    let base = meta_blk(t, g) * g.bs();
    assert(0 <= base <= 0xFFFF_FFFF * 65536) by (nonlinear_arith)
        requires
            base == meta_blk(t, g) * g.bs(),
            0 <= meta_blk(t, g) <= 0xFFFF_FFFF,
            0 <= g.bs() <= 65536,
    ;
}

/// An inode that an image holds whole is the one that the reader interprets.
proof fn lemma_inode_found(img: Seq<u8>, sb: Superblock, nid: u64, buf: Seq<u8>)
    requires
        holds(img, inode_off(sb, nid), buf),
        buf.len() == if says_extended(buf) {
            SIZE_INODE_EXTENDED
        } else {
            SIZE_INODE_COMPACT
        },
    ensures
        inode_in(img, sb, nid) == inode_of(nid, inode_off(sb, nid), buf),
{
    let base = inode_off(sb, nid);
    let head = img.subrange(base, base + SIZE_INODE_COMPACT);
    assert forall|j: int| 0 <= j < SIZE_INODE_COMPACT implies head[j] == buf[j] by {
        assert(img.subrange(base, base + buf.len())[j] == buf[j]);
    }
    assert(u16_at(head, 0) == u16_at(buf, 0));
    if !says_extended(buf) {
        assert(head =~= buf);
    }
}

/// Bytes that hold the fields of an inode mean that inode.
proof fn lemma_fields_mean(nid: u64, base: int, b: Seq<u8>, v: InodeView, extended: bool)
    requires
        u16_at(b, 0) == 2 * v.layout.code() + if extended {
            1int
        } else {
            0
        },
        v.layout == DataLayout::FlatPlain || v.layout == DataLayout::FlatInline,
        u16_at(b, 2) == 0,
        u16_at(b, 4) == v.mode,
        v.kind == FileType::of_mode(v.mode),
        v.kind == FileType::RegFile || v.kind == FileType::Dir || v.kind == FileType::Symlink,
        extended ==> u64_at(b, 8) == v.size,
        !extended ==> u32_at(b, 8) == v.size,
        u32_at(b, 16) == v.blkaddr,
        v.trailing_off == base + if extended {
            SIZE_INODE_EXTENDED
        } else {
            SIZE_INODE_COMPACT
        },
    ensures
        says_extended(b) == extended,
        inode_of(nid, base, b) == Ok::<InodeView, Error>(v),
{
}

/// An inode with no attributes means what was put into it.
proof fn lemma_inode_means(
    n: NodeView,
    compact: bool,
    inline: bool,
    nlink: int,
    size: int,
    blk: Option<int>,
    nid: u64,
    base: int,
    v: InodeView,
)
    requires
        n.meta.xattrs.len() == 0,
        compact ==> 0 <= size <= 0xFFFF_FFFF,
        0 <= size <= u64::MAX,
        0 <= inode_union(n, blk) <= 0xFFFF_FFFF,
        v.kind == n.kind,
        v.kind == FileType::of_mode(v.mode),
        v.kind == FileType::RegFile || v.kind == FileType::Dir || v.kind == FileType::Symlink,
        v.mode == n.meta.mode,
        v.size == size,
        v.layout == if inline {
            DataLayout::FlatInline
        } else {
            DataLayout::FlatPlain
        },
        v.blkaddr == inode_union(n, blk),
        v.trailing_off == base + if compact {
            SIZE_INODE_COMPACT
        } else {
            SIZE_INODE_EXTENDED
        },
    ensures
        says_extended(inode_bytes(n, compact, inline, nlink, size, blk)) == !compact,
        inode_of(nid, base, inode_bytes(n, compact, inline, nlink, size, blk)) == Ok::<
            InodeView,
            Error,
        >(v),
{
    lemma_inode_fields(n, compact, inline, nlink, size, blk);
    lemma_fields_mean(nid, base, inode_bytes(n, compact, inline, nlink, size, blk), v, !compact);
}

/// The inode that is emitted as number `k` is where its number says: so many
/// inode slots behind the start of the metadata.
pub proof fn inodes_are_where_their_numbers_say(t: Seq<NodeView>, o: ImageOptions, k: int)
    requires
        o.wf(),
        tree_wf(t),
        0 <= k < t.len(),
    ensures
        holds(
            image(t, o),
            meta_blk(t, o.geometry) * o.geometry.bs() + INODE_SLOT * nid_of(
                t,
                o.geometry,
                preorder(t, 0)[k],
            ),
            inode_at(t, o.geometry, k),
        ),
{
    let g = o.geometry;
    let i = preorder(t, 0)[k];
    lemma_place_at(t, g, k);
    lemma_pos_of(t, i);
    emission_order_is_complete(t);
    assert(preorder(t, 0)[pos_of(t, i)] == preorder(t, 0)[k]);
    lemma_entry_in_image(t, o, k);
    lemma_entry_front(
        image(t, o),
        meta_blk(t, g) * g.bs() + place_at(t, g, k).start,
        inode_at(t, g, k),
        xattr_bytes(t[i].meta.xattrs),
        if place_at(t, g, k).inline {
            payload(t, g, i)
        } else {
            Seq::empty()
        },
    );
}

proof fn lemma_entry_front(b: Seq<u8>, o: int, x: Seq<u8>, y: Seq<u8>, z: Seq<u8>)
    requires
        holds(b, o, x + y + z),
    ensures
        holds(b, o, x),
{
    lemma_holds_concat(x, y + z, Seq::empty());
    assert(x + (y + z) =~= x + y + z);
    lemma_holds_within(b, o, x + y + z, 0, x);
}

/// The inode of a readable entry means what the entry is.
proof fn lemma_entry_inode_means(t: Seq<NodeView>, o: ImageOptions, i: int)
    requires
        o.wf(),
        tree_wf(t),
        image_fits(t, o.geometry),
        image(t, o).len() <= u64::MAX,
        0 <= i < t.len(),
        readable(t, o.geometry, i),
        flat_size(t, i, o.geometry.bs()) <= u64::MAX,
    ensures
        ({
            let g = o.geometry;
            let nid = nid_of(t, g, i) as u64;
            let buf = inode_at(t, g, pos_of(t, i));
            &&& says_extended(buf) == !is_compact(t, i, g)
            &&& inode_of(nid, inode_off(superblock_for(t, g), nid), buf) == Ok::<InodeView, Error>(
                inode_for(t, g, i),
            )
        }),
{
    let g = o.geometry;
    let k = pos_of(t, i);
    let sb = superblock_for(t, g);
    let nid = nid_of(t, g, i) as u64;
    let blk = if has_blocks(t, g, k) {
        Some(blk_at(t, g, k))
    } else {
        None
    };
    lemma_within_limits(t, o, i);
    lemma_payload_len(t, i, g.bs());
    lemma_inode_means(
        t[i],
        is_compact(t, i, g),
        place_at(t, g, k).inline,
        nlink_of(t, i),
        flat_size(t, i, g.bs()),
        blk,
        nid,
        inode_off(sb, nid),
        inode_for(t, g, i),
    );
}

/// The image holds the inode of an entry where the reader looks for it.
proof fn lemma_inode_where_read(t: Seq<NodeView>, o: ImageOptions, i: int)
    requires
        o.wf(),
        tree_wf(t),
        image_fits(t, o.geometry),
        image(t, o).len() <= u64::MAX,
        0 <= i < t.len(),
    ensures
        holds(
            image(t, o),
            inode_off(superblock_for(t, o.geometry), nid_of(t, o.geometry, i) as u64),
            inode_at(t, o.geometry, pos_of(t, i)),
        ),
        inode_at(t, o.geometry, pos_of(t, i)).len() == inode_size(t, i, o.geometry),
{
    lemma_within_limits(t, o, i);
    lemma_place_at(t, o.geometry, pos_of(t, i));
    inodes_are_where_their_numbers_say(t, o, pos_of(t, i));
    lemma_entry_bytes_len(t, o.geometry, pos_of(t, i));
}

/// The inode of a readable entry reads back.
proof fn lemma_inode_reads_back(t: Seq<NodeView>, o: ImageOptions, i: int)
    requires
        o.wf(),
        tree_wf(t),
        image_fits(t, o.geometry),
        image(t, o).len() <= u64::MAX,
        0 <= i < t.len(),
        readable(t, o.geometry, i),
        flat_size(t, i, o.geometry.bs()) <= u64::MAX,
    ensures
        inode_in(
            image(t, o),
            superblock_for(t, o.geometry),
            nid_of(t, o.geometry, i) as u64,
        ) == Ok::<InodeView, Error>(inode_for(t, o.geometry, i)),
{
    lemma_entry_inode_means(t, o, i);
    lemma_inode_where_read(t, o, i);
    lemma_inode_found(
        image(t, o),
        superblock_for(t, o.geometry),
        nid_of(t, o.geometry, i) as u64,
        inode_at(t, o.geometry, pos_of(t, i)),
    );
}

/// The data of a readable entry is where its inode says.
proof fn lemma_data_reads_back(t: Seq<NodeView>, o: ImageOptions, i: int)
    requires
        o.wf(),
        tree_wf(t),
        image_fits(t, o.geometry),
        image(t, o).len() <= u64::MAX,
        0 <= i < t.len(),
        readable(t, o.geometry, i),
        payload_len(t, i, o.geometry.bs()) > 0,
    ensures
        read_at(
            image(t, o),
            data_off(superblock_for(t, o.geometry), inode_for(t, o.geometry, i)),
            payload(t, o.geometry, i).len() as int,
        ) == Some(payload(t, o.geometry, i)),
{
    let g = o.geometry;
    let k = pos_of(t, i);
    let img = image(t, o);
    lemma_within_limits(t, o, i);
    lemma_entry_bytes_len(t, g, k);
    if place_at(t, g, k).inline {
        let base = meta_blk(t, g) * g.bs() + place_at(t, g, k).start;
        let front = inode_at(t, g, k) + xattr_bytes(t[i].meta.xattrs);
        xattr_bytes_have_xattr_size(t[i].meta.xattrs);
        lemma_holds_concat(front, payload(t, g, i), Seq::empty());
        lemma_entry_in_image(t, o, k);
        lemma_holds_within(
            img,
            base,
            entry_bytes(t, g, k),
            front.len() as int,
            payload(t, g, i),
        );
        assert(header_size(t, i, g) == inode_size(t, i, g));
        lemma_read_held(img, base + front.len(), payload(t, g, i));
    } else {
        data_is_where_its_inode_says(t, o, k);
        lemma_read_held(img, blk_at(t, g, k) * g.bs(), payload(t, g, i));
    }
}

/// A finished image reads back. The superblock leads to the metadata, and the
/// inode number of every readable entry gives its kind, mode and size; of a
/// regular file the content, of a symlink the target, and of a directory the
/// listing, as far as it is listable.
pub proof fn image_reads_back(t: Seq<NodeView>, o: ImageOptions, i: int)
    requires
        o.wf(),
        tree_wf(t),
        image_fits(t, o.geometry),
        image(t, o).len() <= u64::MAX,
        0 <= i < t.len(),
        readable(t, o.geometry, i),
    ensures
        ({
            let g = o.geometry;
            let img = image(t, o);
            let sb = superblock_for(t, g);
            let nid = nid_of(t, g, i) as u64;
            &&& superblock_in(img) == Ok::<Superblock, Error>(sb)
            &&& nid == nid_of(t, g, i)
            &&& inode_off(sb, nid) <= u64::MAX
            &&& stat_in(img, sb, nid) == Ok::<Stat, Error>(
                Stat {
                    kind: t[i].kind,
                    mode: t[i].meta.mode,
                    size: flat_size(t, i, g.bs()) as u64,
                },
            )
            &&& t[i].kind == FileType::RegFile ==> content_in(img, sb, nid) == Ok::<Seq<u8>, Error>(
                t[i].data,
            )
            &&& t[i].kind == FileType::Symlink ==> content_in(img, sb, nid) == Ok::<Seq<u8>, Error>(
                t[i].link,
            )
            &&& t[i].kind == FileType::Dir && listable_dir(t, g, i) ==> dirents_in(img, sb, nid)
                == Ok::<Seq<DirentView>, Error>(listing(sorted_entries(t, nids(t, g), i)))
        }),
{
    let g = o.geometry;
    lemma_within_limits(t, o, i);
    superblock_reads_back(t, o);
    lemma_payload_has_len(t, g, i);
    lemma_payload_len(t, i, g.bs());
    if payload_len(t, i, g.bs()) > 0 {
        lemma_data_reads_back(t, o, i);
    } else {
        assert(payload(t, g, i) =~= Seq::<u8>::empty());
    }
    assert(entry_fits(t, i, g));
    lemma_inode_reads_back(t, o, i);
    if t[i].kind == FileType::Dir && listable_dir(t, g, i) {
        dirents_round_trip(sorted_entries(t, nids(t, g), i), g.bs());
    }
}

/// The position of the entry that is shown as number `j` of those from `a` on.
spec fn source(es: Seq<EntryView>, a: int, b: int, j: int) -> int
    decreases b - a,
{
    if a >= b {
        b
    } else if is_dot_name(es[a].name) {
        source(es, a + 1, b, j)
    } else if j <= 0 {
        a
    } else {
        source(es, a + 1, b, j - 1)
    }
}

proof fn lemma_source(es: Seq<EntryView>, a: int, b: int, j: int)
    requires
        0 <= j < listing_of(es, a, b).len(),
    ensures
        a <= source(es, a, b, j) < b,
        !is_dot_name(es[source(es, a, b, j)].name),
        listing_of(es, a, b)[j] == shown(es[source(es, a, b, j)]),
    decreases b - a,
{
    if a < b {
        if is_dot_name(es[a].name) {
            lemma_source(es, a + 1, b, j);
        } else if j > 0 {
            lemma_source(es, a + 1, b, j - 1);
        }
    }
}

proof fn lemma_source_ordered(es: Seq<EntryView>, a: int, b: int, j: int, k: int)
    requires
        0 <= j < k < listing_of(es, a, b).len(),
    ensures
        source(es, a, b, j) < source(es, a, b, k),
    decreases b - a,
{
    if a < b {
        if is_dot_name(es[a].name) {
            lemma_source_ordered(es, a + 1, b, j, k);
        } else if j > 0 {
            lemma_source_ordered(es, a + 1, b, j - 1, k - 1);
        } else {
            lemma_source(es, a + 1, b, k - 1);
        }
    }
}

proof fn lemma_shown(es: Seq<EntryView>, a: int, b: int, k: int) -> (j: int)
    requires
        a <= k < b,
        !is_dot_name(es[k].name),
    ensures
        0 <= j < listing_of(es, a, b).len(),
        listing_of(es, a, b)[j] == shown(es[k]),
    decreases b - a,
{
    if is_dot_name(es[a].name) {
        lemma_shown(es, a + 1, b, k)
    } else if k == a {
        0
    } else {
        lemma_shown(es, a + 1, b, k) + 1
    }
}

/// Two of the entries are left out.
proof fn lemma_listing_len(es: Seq<EntryView>, a: int, b: int, p: int, q: int)
    requires
        a <= b,
        p != q,
        forall|k: int| a <= k < b ==> (is_dot_name((#[trigger] es[k]).name) <==> k == p || k == q),
    ensures
        listing_of(es, a, b).len() == b - a - (if a <= p < b {
            1int
        } else {
            0
        }) - (if a <= q < b {
            1int
        } else {
            0
        }),
    decreases b - a,
{
    if a < b {
        lemma_listing_len(es, a + 1, b, p, q);
    }
}

/// How the reader shows an entry of the tree.
pub open spec fn shown_entry(t: Seq<NodeView>, g: Geometry, c: int) -> DirentView {
    DirentView {
        name: decode_utf8(t[c].name),
        nid: nid_of(t, g, c) as u64,
        kind: t[c].kind,
    }
}

/// This shows an entry of directory `i`.
pub open spec fn shows_a_child(t: Seq<NodeView>, g: Geometry, i: int, d: DirentView) -> bool {
    exists|c: int| is_child(t, i, c) && d == #[trigger] shown_entry(t, g, c)
}

/// The names that a directory lists differ from one another.
pub proof fn lemma_dir_names_differ(t: Seq<NodeView>, i: int)
    requires
        tree_wf(t),
    ensures
        forall|p: int, q: int|
            0 <= p < q < dir_names(t, i).len() ==> dir_names(t, i)[p] != dir_names(t, i)[q],
        forall|p: int|
            0 <= p < dir_names(t, i).len() ==> (is_dot_name(#[trigger] dir_names(t, i)[p]) <==> p
                < 2),
{
    let names = dir_names(t, i);
    lemma_children(t, i);
    assert forall|p: int| 0 <= p < names.len() implies (is_dot_name(#[trigger] names[p]) <==> p
        < 2) by {
        if p >= 2 {
            let c = children(t, i)[p - 2];
            assert(is_child(t, i, c));
            assert(entry_wf(t, c));
        }
    }
    assert forall|p: int, q: int| 0 <= p < q < names.len() implies names[p] != names[q] by {
        assert(is_dot_name(names[p]) <==> p < 2);
        assert(is_dot_name(names[q]) <==> q < 2);
        if p >= 2 {
            let (c, d) = (children(t, i)[p - 2], children(t, i)[q - 2]);
            assert(is_child(t, i, c) && is_child(t, i, d) && c < d);
            assert(apart(t, c, d));
        } else if q < 2 {
            assert(names[0].len() == 1 && names[1].len() == 2);
        }
    }
}

/// A listing shows the entries of the directory, each once, in the byte order
/// of their names, and nothing else.
pub proof fn listing_is_the_directory(t: Seq<NodeView>, g: Geometry, i: int)
    requires
        tree_wf(t),
        0 <= i < t.len(),
    ensures
        ({
            let l = listing(sorted_entries(t, nids(t, g), i));
            &&& l.len() == children(t, i).len()
            &&& forall|c: int| is_child(t, i, c) ==> l.contains(#[trigger] shown_entry(t, g, c))
            &&& forall|j: int| 0 <= j < l.len() ==> shows_a_child(t, g, i, #[trigger] l[j])
            &&& forall|j: int, k: int|
                0 <= j < k < l.len() ==> less(
                    encode_utf8((#[trigger] l[j]).name),
                    encode_utf8((#[trigger] l[k]).name),
                )
        }),
{
    let ns = nids(t, g);
    let names = dir_names(t, i);
    let des = dir_entries(t, ns, i);
    let es = sorted_entries(t, ns, i);
    let n = es.len() as int;
    let l = listing(es);
    let ord = order(names);
    order_is_defined(names);
    lemma_sorted_entries(t, ns, i);
    lemma_dir_names_differ(t, i);
    lemma_children(t, i);
    assert forall|k: int| 0 <= k < n implies 0 <= ord[k] && ord[k] < n && (#[trigger] es[k])
        == des[ord[k]] && es[k].name == names[ord[k]] by {
        assert(0 <= ord[k] < names.len());
    }
    let p = ord.index_of(0);
    let q = ord.index_of(1);
    assert(ord.contains(0) && ord.contains(1));
    assert forall|k: int| 0 <= k < n implies (is_dot_name((#[trigger] es[k]).name) <==> k == p || k
        == q) by {
        assert(is_dot_name(names[ord[k]]) <==> ord[k] < 2);
        lemma_order_injective(names, k, p);
        lemma_order_injective(names, k, q);
    }
    lemma_listing_len(es, 0, n, p, q);
    assert forall|c: int| is_child(t, i, c) implies l.contains(#[trigger] shown_entry(t, g, c)) by {
        assert(children(t, i).contains(c));
        let m = children(t, i).index_of(c);
        assert(ord.contains(m + 2));
        let k = ord.index_of(m + 2);
        assert(es[k] == des[m + 2]);
        assert(is_dot_name(names[m + 2]) <==> m + 2 < 2);
        let j = lemma_shown(es, 0, n, k);
        assert(l[j] == shown_entry(t, g, c));
    }
    assert forall|j: int| 0 <= j < l.len() implies shows_a_child(t, g, i, #[trigger] l[j]) by {
        lemma_source(es, 0, n, j);
        let k = source(es, 0, n, j);
        assert(es[k] == des[ord[k]]);
        assert(is_dot_name(names[ord[k]]) <==> ord[k] < 2);
        let c = children(t, i)[ord[k] - 2];
        assert(is_child(t, i, c));
        assert(l[j] == shown_entry(t, g, c));
    }
    assert forall|j: int, k: int| 0 <= j < k < l.len() implies less(
        encode_utf8((#[trigger] l[j]).name),
        encode_utf8((#[trigger] l[k]).name),
    ) by {
        lemma_source(es, 0, n, j);
        lemma_source(es, 0, n, k);
        lemma_source_ordered(es, 0, n, j, k);
        let (x, y) = (source(es, 0, n, j), source(es, 0, n, k));
        sorted_names_ascend(names, x, y);
        assert(names_of(es)[x] == sorted(names)[x] && names_of(es)[y] == sorted(names)[y]);
        assert(es[x].name == sorted(names)[x] && es[y].name == sorted(names)[y]);
        lemma_listed_name_valid(t, i, ord[x]);
        lemma_listed_name_valid(t, i, ord[y]);
        decode_utf8_encode_utf8(es[x].name);
        decode_utf8_encode_utf8(es[y].name);
    }
}

proof fn lemma_order_injective(names: Seq<Seq<u8>>, a: int, b: int)
    requires
        0 <= a < names.len(),
        0 <= b < names.len(),
        forall|p: int, q: int| 0 <= p < q < names.len() ==> names[p] != names[q],
    ensures
        order(names)[a] == order(names)[b] ==> a == b,
{
    if a < b {
        sorted_names_ascend(names, a, b);
    } else if b < a {
        sorted_names_ascend(names, b, a);
    }
    if order(names)[a] == order(names)[b] {
        byte_order_is_total(sorted(names)[a], sorted(names)[b], sorted(names)[a]);
    }
}

proof fn lemma_listed_name_valid(t: Seq<NodeView>, i: int, p: int)
    requires
        tree_wf(t),
        2 <= p < dir_names(t, i).len(),
    ensures
        vstd::utf8::valid_utf8(dir_names(t, i)[p]),
{
    lemma_children(t, i);
    let c = children(t, i)[p - 2];
    assert(is_child(t, i, c));
    assert(entry_wf(t, c));
}

/// Record `j` of a listing has a name.
pub open spec fn is_listed(ds: Seq<DirentView>, name: Seq<u8>, j: int) -> bool {
    0 <= j < ds.len() && encode_utf8(ds[j].name) == name
}

/// The inode number that a path leads to in an image, from the directory with
/// number `nid` on.
pub open spec fn resolve(img: Seq<u8>, sb: Superblock, nid: u64, path: Seq<Seq<u8>>) -> Option<u64>
    decreases path.len(),
{
    if path.len() == 0 {
        Some(nid)
    } else {
        match dirents_in(img, sb, nid) {
            Err(_) => None,
            Ok(ds) => if exists|j: int| is_listed(ds, path[0], j) {
                let j = choose|j: int| is_listed(ds, path[0], j);
                resolve(img, sb, ds[j].nid, path.skip(1))
            } else {
                None
            },
        }
    }
}

/// Every directory of a tree can be read and listed.
pub open spec fn dirs_read_back(t: Seq<NodeView>, g: Geometry) -> bool {
    forall|i: int|
        0 <= i < t.len() && (#[trigger] t[i]).kind == FileType::Dir ==> readable(t, g, i)
            && listable_dir(t, g, i)
}

/// A path leads to the same entry in the tree and in the image. Where it leads
/// nowhere in the tree, it leads nowhere in the image either, as far as the
/// entries on its way can be read.
pub proof fn paths_read_back(t: Seq<NodeView>, o: ImageOptions, i: int, path: Seq<Seq<u8>>)
    requires
        o.wf(),
        tree_wf(t),
        image_fits(t, o.geometry),
        image(t, o).len() <= u64::MAX,
        dirs_read_back(t, o.geometry),
        0 <= i < t.len(),
    ensures
        ({
            let g = o.geometry;
            let found = resolve(
                image(t, o),
                superblock_for(t, g),
                nid_of(t, g, i) as u64,
                path,
            );
            match lookup(t, i, path) {
                Some(j) => 0 <= j < t.len() && found == Some(nid_of(t, g, j) as u64),
                None => (forall|k: int| 0 <= k < t.len() ==> #[trigger] readable(t, g, k))
                    ==> found is None,
            }
        }),
    decreases path.len(),
{
    if path.len() > 0 {
        let g = o.geometry;
        let img = image(t, o);
        let sb = superblock_for(t, g);
        let nid = nid_of(t, g, i) as u64;
        let name = path[0];
        if t[i].kind == FileType::Dir {
            let ds = listing(sorted_entries(t, nids(t, g), i));
            image_reads_back(t, o, i);
            listing_is_the_directory(t, g, i);
            if exists|j: int| is_listed(ds, name, j) {
                let j = choose|j: int| is_listed(ds, name, j);
                let c = lemma_listed_child(t, g, i, name, j);
                paths_read_back(t, o, c, path.skip(1));
            } else if find(t, i, name) is Some {
                lemma_child_listed(t, g, i, name);
            }
        } else {
            lemma_nothing_below(t, i, name);
            if readable(t, g, i) {
                image_reads_back(t, o, i);
            }
        }
    }
}

/// A record of a listing stands for the entry with its name.
proof fn lemma_listed_child(t: Seq<NodeView>, g: Geometry, i: int, name: Seq<u8>, j: int) -> (c:
    int)
    requires
        tree_wf(t),
        0 <= i < t.len(),
        is_listed(listing(sorted_entries(t, nids(t, g), i)), name, j),
    ensures
        0 <= c < t.len(),
        find(t, i, name) == Some(c),
        listing(sorted_entries(t, nids(t, g), i))[j].nid == nid_of(t, g, c) as u64,
{
    let ds = listing(sorted_entries(t, nids(t, g), i));
    listing_is_the_directory(t, g, i);
    assert(shows_a_child(t, g, i, ds[j]));
    let c = choose|c: int| is_child(t, i, c) && ds[j] == #[trigger] shown_entry(t, g, c);
    assert(entry_wf(t, c));
    decode_utf8_encode_utf8(t[c].name);
    assert(is_named(t, i, name, c));
    lemma_find(t, i, name, c);
    c
}

/// An entry has a record in the listing of its directory.
proof fn lemma_child_listed(t: Seq<NodeView>, g: Geometry, i: int, name: Seq<u8>)
    requires
        tree_wf(t),
        0 <= i < t.len(),
        find(t, i, name) is Some,
    ensures
        exists|j: int| is_listed(listing(sorted_entries(t, nids(t, g), i)), name, j),
{
    let ds = listing(sorted_entries(t, nids(t, g), i));
    listing_is_the_directory(t, g, i);
    assert(exists|c: int| is_named(t, i, name, c));
    let c = choose|c: int| is_named(t, i, name, c);
    assert(is_child(t, i, c));
    assert(entry_wf(t, c));
    assert(ds.contains(shown_entry(t, g, c)));
    decode_utf8_encode_utf8(t[c].name);
    assert(is_listed(ds, name, ds.index_of(shown_entry(t, g, c))));
}

} // verus!
