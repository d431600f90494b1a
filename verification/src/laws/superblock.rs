//! What stands at which offset at the front of an image.

use vstd::arithmetic::power2::pow2;
use vstd::prelude::*;

use super::bytes::{checksum_is_a_shift_register, fed_bytes, num2, num4, num8,
    numbers_stand_for_themselves};
use crate::bytes::{le16, le32, le64, lemma_rounded, units, zeros};
use crate::image::{area_bytes, area_crc, image, lemma_super_bytes_len, lemma_valid_block_size,
    super_bytes, super_view, ImageOptions, SuperView};
use crate::plan::{image_fits, lemma_blk_ordered, lemma_off_ordered, lemma_place_at, meta_blk,
    meta_len, off_at, super_blocks, total_blocks, Geometry};
use crate::read_back::{area_of, image_takes_whole_blocks, lemma_area_len, lemma_super_in_image,
    super_of, superblock_matches_the_image, without_checksum};
use crate::tree::{tree_wf, NodeView};

verus! {

broadcast use crate::bytes::group_le_len;

/// Bytes `a..b` of `s` are zero.
pub open spec fn zero_between(s: Seq<u8>, a: int, b: int) -> bool {
    forall|i: int| a <= i < b ==> #[trigger] s[i] == 0
}

/// Where the data of an image starts: behind the superblock, at the next
/// multiple of the block size.
pub open spec fn front_end(bs: int) -> int {
    if bs <= 512 {
        1536
    } else if bs <= 1024 {
        2048
    } else {
        bs
    }
}

/// The last byte that the checksum covers, and one more.
pub open spec fn covered_end(bs: int) -> int {
    if bs < 1024 {
        1024 + bs
    } else {
        bs
    }
}

/// `img` with the four bytes at offset 1028 zeroed.
pub open spec fn blanked(img: Seq<u8>) -> Seq<u8> {
    img.update(1028, 0u8).update(1029, 0u8).update(1030, 0u8).update(1031, 0u8)
}

/// The superblock of a finished image, field by field: from byte 1024 on, the
/// magic number, the checksum and the features, the exponent of the block
/// size, the number of entries, the build time, the number of blocks, the
/// UUID and the volume name. Everything else up to the data is zero.
#[verifier::rlimit(40)]
pub proof fn superblock_by_offset(t: Seq<NodeView>, o: ImageOptions)
    requires
        o.wf(),
        tree_wf(t),
        image_fits(t, o.geometry),
    ensures
        ({
            let img = image(t, o);
            let g = o.geometry;
            let bs = g.block_size as int;
            let name = o.volume_name;
            &&& img.len() >= front_end(bs)
            &&& zero_between(img, 0, 1024)
            &&& num4(img, 1024) == 0xE0F5_E1E2
            &&& num4(img, 1032) == if o.checksum {
                1int
            } else {
                0
            }
            &&& !o.checksum ==> num4(img, 1028) == 0
            &&& o.checksum ==> num4(img, 1028) == fed_bytes(
                blanked(img).subrange(1024, covered_end(bs)),
            )
            &&& pow2(img[1036] as nat) == bs
            &&& img[1037] == 0
            &&& num2(img, 1038) == 0
            &&& num8(img, 1040) == t.len()
            &&& num8(img, 1048) == g.build_time
            &&& num4(img, 1056) == g.build_time_nsec
            &&& num4(img, 1060) == (img.len() / (g.block_size as nat)) % 0x1_0000_0000
            &&& num4(img, 1064) == meta_blk(t, g)
            &&& num4(img, 1068) == 0
            &&& img.subrange(1072, 1088) == o.uuid
            &&& img.subrange(1088, 1088 + name.len() as int) == name
            &&& zero_between(img, 1088 + name.len() as int, 1114)
            &&& img[1114] == img[1036]
            &&& zero_between(img, 1115, front_end(bs))
        }),
{
    let img = image(t, o);
    let g = o.geometry;
    let bs = g.bs();
    let sb = super_of(t, o);
    let p = super_view(t, o);
    let area = area_of(t, o);
    lemma_super_in_image(t, o);
    lemma_area_len(t, o);
    lemma_front_end(g);
    assert forall|i: int| 0 <= i < area.len() implies img[i] == #[trigger] area[i] by {
        assert(img.subrange(0, area.len() as int)[i] == area[i]);
    }
    let crc = if o.checksum {
        area_crc(p, super_blocks(g) * bs)
    } else {
        0u32
    };
    let features = if o.checksum {
        1u32
    } else {
        0u32
    };
    assert(sb == super_bytes(p, crc, features));
    assert(area == area_bytes(p, crc, features, super_blocks(g) * bs));
    lemma_super_bytes_len(p, crc, features);
    assert forall|i: int| 0 <= i < 128 implies area[1024 + i] == #[trigger] sb[i] by {
    }
    assert forall|i: int| 0 <= i < 128 implies img[1024 + i] == #[trigger] sb[i] by {
        assert(area[1024 + i] == sb[i]);
    }
    assert forall|i: int| 0 <= i < 1024 || 1152 <= i < front_end(bs) implies img[i] == 0 by {
        assert(area[i] == 0);
    }
    lemma_entries_below_limit(t, g);
    lemma_blk_ordered(t, g, 0, t.len() as int);
    lemma_off_ordered(t, g, 0, t.len() as int);
    lemma_rounded(meta_len(t, g), bs);
    image_takes_whole_blocks(t, o);
    vstd::arithmetic::div_mod::lemma_div_multiples_vanish(total_blocks(t, g), bs);
    vstd::arithmetic::mul::lemma_mul_is_commutative(total_blocks(t, g), bs);
    lemma_valid_block_size(bs);
    lemma_super_raw(p, crc, features);
    lemma_shifted(img, sb);
    lemma_names_and_ids(img, sb, o.uuid, o.volume_name);
    if o.checksum {
        lemma_checksum_raw(t, o);
    }
}

#[verifier::rlimit(40)]
proof fn lemma_checksum_raw(t: Seq<NodeView>, o: ImageOptions)
    requires
        o.wf(),
        tree_wf(t),
        image_fits(t, o.geometry),
        o.checksum,
        image(t, o).len() >= front_end(o.geometry.bs()),
    ensures
        num4(image(t, o), 1028) == fed_bytes(
            blanked(image(t, o)).subrange(1024, covered_end(o.geometry.bs())),
        ),
{
    let img = image(t, o);
    let g = o.geometry;
    superblock_matches_the_image(t, o);
    lemma_valid_block_size(g.bs());
    assert(blanked(img) =~= without_checksum(img));
    checksum_is_a_shift_register(blanked(img).subrange(1024, covered_end(g.bs())));
}

pub proof fn lemma_front_end(g: Geometry)
    requires
        g.wf(),
        crate::image::valid_block_size(g.bs()),
    ensures
        super_blocks(g) * g.bs() == front_end(g.bs()),
        front_end(g.bs()) >= 1152,
{
    lemma_valid_block_size(g.bs());
    let bs = g.bs();
    lemma_rounded(1152, bs);
    if bs > 1152 {
        vstd::arithmetic::div_mod::lemma_fundamental_div_mod_converse(1152 + bs - 1, bs, 1, 1151);
    } else if bs == 512 {
        assert(units(1152, 512) == 3);
    } else {
        assert(units(1152, 1024) == 2);
    }
}

/// Every entry takes an inode slot at least, so their number can be counted.
proof fn lemma_entries_below_limit(t: Seq<NodeView>, g: Geometry)
    requires
        g.wf(),
        tree_wf(t),
        image_fits(t, g),
    ensures
        t.len() < 0x1_0000_0000_0000_0000,
{
    lemma_slots(t, g, t.len() as int);
    lemma_off_ordered(t, g, 0, t.len() as int);
    lemma_rounded(meta_len(t, g), g.bs());
}

proof fn lemma_slots(t: Seq<NodeView>, g: Geometry, k: int)
    requires
        g.wf(),
        tree_wf(t),
        0 <= k <= t.len(),
    ensures
        off_at(t, g, k) >= 32 * k,
    decreases k,
{
    if k > 0 {
        lemma_slots(t, g, k - 1);
        lemma_place_at(t, g, k - 1);
    }
}

/// The first quarter of a superblock and what follows it.
#[verifier::rlimit(40)]
proof fn lemma_super_parts(p: SuperView, crc: u32, features: u32)
    requires
        p.uuid.len() == 16,
        p.volume_name.len() <= 16,
    ensures
        super_bytes(p, crc, features) == front_part(p, crc, features) + times_part(p) + ids_part(p)
            + back_part(p),
        front_part(p, crc, features).len() == 16,
        times_part(p).len() == 32,
        ids_part(p).len() == 32,
        back_part(p).len() == 48,
{
    let front = front_part(p, crc, features);
    let name = p.volume_name + zeros(16 - p.volume_name.len());
    let a = front + le64(p.inodes) + le64(p.epoch as int) + le32(p.fixed_nsec as int) + le32(
        p.blocks,
    ) + le32(p.meta_blkaddr) + le32(0);
    assert(a =~= front + times_part(p));
    let b = a + p.uuid + name;
    assert(b =~= a + ids_part(p));
    assert(b + zeros(10) + seq![p.bits] + zeros(37) =~= b + back_part(p));
}

spec fn front_part(p: SuperView, crc: u32, features: u32) -> Seq<u8> {
    le32(0xE0F5_E1E2) + le32(crc as int) + le32(features as int) + seq![p.bits, 0u8] + le16(0)
}

spec fn times_part(p: SuperView) -> Seq<u8> {
    le64(p.inodes) + le64(p.epoch as int) + le32(p.fixed_nsec as int) + le32(p.blocks) + le32(
        p.meta_blkaddr,
    ) + le32(0)
}

spec fn ids_part(p: SuperView) -> Seq<u8> {
    p.uuid + (p.volume_name + zeros(16 - p.volume_name.len()))
}

spec fn back_part(p: SuperView) -> Seq<u8> {
    zeros(10) + seq![p.bits] + zeros(37)
}

proof fn lemma_front_part(p: SuperView, crc: u32, features: u32)
    ensures
        ({
            let b = front_part(p, crc, features);
            &&& num4(b, 0) == 0xE0F5_E1E2
            &&& num4(b, 4) == crc
            &&& num4(b, 8) == features
            &&& b[12] == p.bits && b[13] == 0
            &&& num2(b, 14) == 0
        }),
{
    let b = front_part(p, crc, features);
    lemma_four(b, 0, 0xE0F5_E1E2);
    lemma_four(b, 4, crc as int);
    lemma_four(b, 8, features as int);
    lemma_two(b, 14, 0);
}

#[verifier::rlimit(40)]
proof fn lemma_times_part(p: SuperView)
    requires
        0 <= p.inodes < 0x1_0000_0000_0000_0000,
        0 <= p.blocks,
        0 <= p.meta_blkaddr <= 0xFFFF_FFFF,
    ensures
        ({
            let b = times_part(p);
            &&& num8(b, 0) == p.inodes
            &&& num8(b, 8) == p.epoch
            &&& num4(b, 16) == p.fixed_nsec
            &&& num4(b, 20) == p.blocks % 0x1_0000_0000
            &&& num4(b, 24) == p.meta_blkaddr
            &&& num4(b, 28) == 0
        }),
{
    let b = times_part(p);
    lemma_eight(b, 0, p.inodes);
    lemma_eight(b, 8, p.epoch as int);
    lemma_four(b, 16, p.fixed_nsec as int);
    lemma_four(b, 20, p.blocks);
    lemma_four(b, 24, p.meta_blkaddr);
    lemma_four(b, 28, 0);
}

/// The numbers of a superblock.
proof fn lemma_super_raw(p: SuperView, crc: u32, features: u32)
    requires
        p.uuid.len() == 16,
        p.volume_name.len() <= 16,
        0 <= p.inodes < 0x1_0000_0000_0000_0000,
        0 <= p.blocks,
        0 <= p.meta_blkaddr <= 0xFFFF_FFFF,
    ensures
        ({
            let b = super_bytes(p, crc, features);
            &&& num4(b, 0) == 0xE0F5_E1E2
            &&& num4(b, 4) == crc
            &&& num4(b, 8) == features
            &&& b[12] == p.bits && b[13] == 0
            &&& num2(b, 14) == 0
            &&& num8(b, 16) == p.inodes
            &&& num8(b, 24) == p.epoch
            &&& num4(b, 32) == p.fixed_nsec
            &&& num4(b, 36) == p.blocks % 0x1_0000_0000
            &&& num4(b, 40) == p.meta_blkaddr
            &&& num4(b, 44) == 0
            &&& b.subrange(48, 64) == p.uuid
            &&& b.subrange(64, 64 + p.volume_name.len() as int) == p.volume_name
            &&& zero_between(b, 64 + p.volume_name.len() as int, 90)
            &&& b[90] == p.bits
            &&& zero_between(b, 91, 128)
        }),
{
    lemma_super_parts(p, crc, features);
    lemma_front_part(p, crc, features);
    lemma_times_part(p);
    lemma_parts_together(
        p,
        front_part(p, crc, features),
        times_part(p),
        super_bytes(p, crc, features),
    );
}

#[verifier::rlimit(40)]
proof fn lemma_parts_together(p: SuperView, front: Seq<u8>, times: Seq<u8>, b: Seq<u8>)
    requires
        p.uuid.len() == 16,
        p.volume_name.len() <= 16,
        b == front + times + ids_part(p) + back_part(p),
        front.len() == 16,
        times.len() == 32,
    ensures
        b.len() == 128,
        num4(b, 0) == num4(front, 0),
        num4(b, 4) == num4(front, 4),
        num4(b, 8) == num4(front, 8),
        b[12] == front[12],
        b[13] == front[13],
        num2(b, 14) == num2(front, 14),
        num8(b, 16) == num8(times, 0),
        num8(b, 24) == num8(times, 8),
        num4(b, 32) == num4(times, 16),
        num4(b, 36) == num4(times, 20),
        num4(b, 40) == num4(times, 24),
        num4(b, 44) == num4(times, 28),
        b.subrange(48, 64) == p.uuid,
        b.subrange(64, 64 + p.volume_name.len() as int) == p.volume_name,
        zero_between(b, 64 + p.volume_name.len() as int, 90),
        b[90] == p.bits,
        zero_between(b, 91, 128),
{
    assert(b.subrange(48, 64) =~= p.uuid);
    assert(b.subrange(64, 64 + p.volume_name.len() as int) =~= p.volume_name);
}

/// Two bytes of a number give it back where they stand.
pub proof fn lemma_two(b: Seq<u8>, o: int, v: int)
    requires
        0 <= v,
        forall|j: int| 0 <= j < 2 ==> b[o + j] == #[trigger] le16(v)[j],
    ensures
        num2(b, o) == v % 0x1_0000,
{
    let part = le16(v);
    numbers_stand_for_themselves(v);
    assert(b[o + 0] == part[0] && b[o + 1] == part[1]);
}

/// Four bytes of a number give it back where they stand.
pub proof fn lemma_four(b: Seq<u8>, o: int, v: int)
    requires
        0 <= v,
        forall|j: int| 0 <= j < 4 ==> b[o + j] == #[trigger] le32(v)[j],
    ensures
        num4(b, o) == v % 0x1_0000_0000,
{
    let part = le32(v);
    numbers_stand_for_themselves(v);
    assert(b[o + 0] == part[0] && b[o + 1] == part[1] && b[o + 2] == part[2] && b[o + 3]
        == part[3]);
}

/// Eight bytes of a number give it back where they stand.
pub proof fn lemma_eight(b: Seq<u8>, o: int, v: int)
    requires
        0 <= v < 0x1_0000_0000_0000_0000,
        forall|j: int| 0 <= j < 8 ==> b[o + j] == #[trigger] le64(v)[j],
    ensures
        num8(b, o) == v,
{
    let part = le64(v);
    numbers_stand_for_themselves(v);
    assert(b[o + 0] == part[0] && b[o + 1] == part[1] && b[o + 2] == part[2] && b[o + 3]
        == part[3]);
    assert(b[o + 4] == part[4] && b[o + 5] == part[5] && b[o + 6] == part[6] && b[o + 7]
        == part[7]);
}

/// Numbers keep their value where the superblock stands in the image.
proof fn lemma_shifted(img: Seq<u8>, sb: Seq<u8>)
    requires
        forall|i: int| 0 <= i < 128 ==> img[1024 + i] == #[trigger] sb[i],
    ensures
        num4(img, 1024) == num4(sb, 0),
        num4(img, 1028) == num4(sb, 4),
        num4(img, 1032) == num4(sb, 8),
        img[1036] == sb[12],
        img[1037] == sb[13],
        num2(img, 1038) == num2(sb, 14),
        num8(img, 1040) == num8(sb, 16),
        num8(img, 1048) == num8(sb, 24),
        num4(img, 1056) == num4(sb, 32),
        num4(img, 1060) == num4(sb, 36),
        num4(img, 1064) == num4(sb, 40),
        num4(img, 1068) == num4(sb, 44),
        img[1114] == sb[90],
{
    assert(forall|i: int| 0 <= i < 48 ==> img[1024 + i] == #[trigger] sb[i]);
    lemma_moved(img, sb, 0);
    lemma_moved(img, sb, 4);
    lemma_moved(img, sb, 8);
    assert(img[1036] == sb[12] && img[1037] == sb[13] && img[1038] == sb[14]
        && img[1039] == sb[15] && img[1114] == sb[90]);
    lemma_moved(img, sb, 16);
    lemma_moved(img, sb, 20);
    lemma_moved(img, sb, 24);
    lemma_moved(img, sb, 28);
    lemma_moved(img, sb, 32);
    lemma_moved(img, sb, 36);
    lemma_moved(img, sb, 40);
    lemma_moved(img, sb, 44);
}

proof fn lemma_moved(img: Seq<u8>, sb: Seq<u8>, k: int)
    requires
        forall|i: int| 0 <= i < 128 ==> img[1024 + i] == #[trigger] sb[i],
        0 <= k,
        k + 4 <= 128,
    ensures
        num4(img, 1024 + k) == num4(sb, k),
{
    assert(img[1024 + k] == sb[k] && img[1024 + (k + 1)] == sb[k + 1] && img[1024 + (k + 2)]
        == sb[k + 2] && img[1024 + (k + 3)] == sb[k + 3]);
}

proof fn lemma_names_and_ids(img: Seq<u8>, sb: Seq<u8>, uuid: Seq<u8>, name: Seq<u8>)
    requires
        img.len() >= 1152,
        sb.len() == 128,
        forall|i: int| 0 <= i < 128 ==> img[1024 + i] == #[trigger] sb[i],
        sb.subrange(48, 64) == uuid,
        name.len() <= 16,
        sb.subrange(64, 64 + name.len() as int) == name,
        zero_between(sb, 64 + name.len() as int, 90),
        zero_between(sb, 91, 128),
    ensures
        img.subrange(1072, 1088) == uuid,
        img.subrange(1088, 1088 + name.len() as int) == name,
        zero_between(img, 1088 + name.len() as int, 1114),
        zero_between(img, 1115, 1152),
{
    assert forall|i: int| 1024 <= i < 1152 implies #[trigger] img[i] == sb[i - 1024] by {
        assert(img[1024 + (i - 1024)] == sb[i - 1024]);
    }
    assert(img.subrange(1072, 1088) =~= sb.subrange(48, 64));
    assert(img.subrange(1088, 1088 + name.len() as int) =~= sb.subrange(
        64,
        64 + name.len() as int,
    ));
}

} // verus!
