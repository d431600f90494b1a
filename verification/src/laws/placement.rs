//! Where the inodes and the data of an image go, and what is between them.

use vstd::prelude::*;

use super::directory::next_block;
use super::emission::every_entry_is_emitted_once;
use super::bytes::{num2, num4};
use super::inode::{content, fits_short_form, inode_start, lemma_layout_by_offset,
    links_are_counted, size};
use super::superblock::{front_end, lemma_front_end, zero_between};
use super::xattr::attributes_are_counted;
use crate::bytes::{holds, lemma_holds_concat, lemma_holds_within, lemma_rounded, padded, rounded,
    zeros};
use crate::image::{data_regions, entry_bytes, image, lemma_entry_bytes_len, lemma_meta_at_len,
    lemma_payload_has_len, meta_at, payload, valid_block_size, ImageOptions};
use crate::meta::xattr_bytes;
use crate::plan::{blk_at, flat_size, has_blocks, header_size, image_fits, is_compact,
    lemma_off_ordered, lemma_payload_len, lemma_place_at, meta_blk, nid_of, off_at, payload_len,
    place_at, super_blocks, Geometry};
use crate::read_back::{data_of, lemma_area_len, lemma_concat_push, lemma_data_len,
    lemma_image_areas, meta_of};
use crate::tree::{preorder, tree_wf, NodeView};

verus! {

/// The entry that is emitted as number `k`.
pub open spec fn emitted(t: Seq<NodeView>, k: int) -> int {
    preorder(t, 0)[k]
}

/// The length of the inode of entry `i` and of its attributes.
pub open spec fn head_len(t: Seq<NodeView>, g: Geometry, i: int) -> int {
    (if fits_short_form(t, g, i) {
        32int
    } else {
        64
    }) + xattr_bytes(t[i].meta.xattrs).len()
}

/// Where in the metadata the inode of entry `i` starts.
pub open spec fn start(t: Seq<NodeView>, g: Geometry, i: int) -> int {
    32 * nid_of(t, g, i)
}

/// Whether the content of entry `i` has room behind its attributes, where its
/// inode starts at `at` and `off` was free: there is some, it does not cross a
/// block boundary, reckoned from `off`, and, but for the root, it ends in the
/// block in which the inode starts.
pub open spec fn has_room(t: Seq<NodeView>, g: Geometry, i: int, off: int, at: int) -> bool {
    let bs = g.block_size as int;
    let len = content(t, g, i).len() as int;
    &&& len > 0
    &&& (off + head_len(t, g, i)) % bs + len <= bs
    &&& i == 0 || at % bs + head_len(t, g, i) + len <= bs
}

/// The offset in the metadata behind entry `i` and what goes with it, where
/// `off` was free for it.
pub open spec fn behind(t: Seq<NodeView>, g: Geometry, i: int, off: int) -> int {
    start(t, g, i) + head_len(t, g, i) + if has_room(t, g, i, off, start(t, g, i)) {
        content(t, g, i).len() as int
    } else {
        0
    }
}

proof fn lemma_lens(t: Seq<NodeView>, g: Geometry, i: int)
    requires
        g.wf(),
        tree_wf(t),
        0 <= i < t.len(),
    ensures
        is_compact(t, i, g) == fits_short_form(t, g, i),
        header_size(t, i, g) == head_len(t, g, i),
        payload_len(t, i, g.bs()) == content(t, g, i).len(),
        0 <= payload_len(t, i, g.bs()),
{
    links_are_counted(t, i);
    attributes_are_counted(t[i].meta.xattrs);
    lemma_payload_has_len(t, g, i);
    lemma_payload_len(t, i, g.bs());
}

/// Inodes follow one another: the first starts the metadata, and each other
/// one starts at the next multiple of 32 behind what is before it, or, where
/// it would cross a block boundary there, at the next block.
#[verifier::rlimit(40)]
pub proof fn inodes_follow_one_another(t: Seq<NodeView>, g: Geometry, k: int)
    requires
        g.wf(),
        tree_wf(t),
        0 <= k < t.len(),
    ensures
        ({
            let i = emitted(t, k);
            let bs = g.block_size as int;
            let off = off_at(t, g, k);
            let len = if fits_short_form(t, g, i) {
                32int
            } else {
                64
            };
            &&& k == 0 ==> off == 0
            &&& start(t, g, i) == if off % bs + len > bs {
                next_block(off, bs)
            } else {
                off
            }
            &&& off_at(t, g, k + 1) == next_block(behind(t, g, i, off), 32)
            &&& place_at(t, g, k).inline == has_room(t, g, i, off, start(t, g, i))
        }),
{
    let i = emitted(t, k);
    every_entry_is_emitted_once(t, k);
    lemma_place_at(t, g, k);
    lemma_lens(t, g, i);
    let p = place_at(t, g, k);
    assert(start(t, g, i) == p.start);
    let h = header_size(t, i, g) + p.trailing;
    assert(rounded(p.start + h, 32) == p.start + rounded(h, 32));
}

/// Content that has no room behind its inode goes to blocks, one content
/// behind another in the order of emission, from the first block behind the
/// superblock on; the metadata starts behind the last.
pub proof fn contents_follow_one_another(t: Seq<NodeView>, g: Geometry, k: int)
    requires
        g.wf(),
        valid_block_size(g.bs()),
        tree_wf(t),
        0 <= k < t.len(),
    ensures
        ({
            let i = emitted(t, k);
            let bs = g.block_size as int;
            let stays = has_room(t, g, i, off_at(t, g, k), start(t, g, i));
            let len = content(t, g, i).len() as int;
            &&& blk_at(t, g, 0) * bs == front_end(bs)
            &&& blk_at(t, g, k + 1) * bs == blk_at(t, g, k) * bs + if stays || len == 0 {
                0
            } else {
                next_block(len, bs)
            }
            &&& has_blocks(t, g, k) == (!stays && len > 0)
            &&& meta_blk(t, g) == blk_at(t, g, t.len() as int)
        }),
{
    let i = emitted(t, k);
    inodes_follow_one_another(t, g, k);
    every_entry_is_emitted_once(t, k);
    lemma_lens(t, g, i);
    lemma_payload_len(t, i, g.bs());
    lemma_front_end(g);
    let u = crate::bytes::units(flat_size(t, i, g.bs()), g.bs());
    vstd::arithmetic::mul::lemma_mul_is_distributive_add_other_way(
        g.bs(),
        blk_at(t, g, k),
        u,
    );
}

/// The inode of an entry says that its content follows it exactly where it has
/// room there, and otherwise gives the block where the content starts.
#[verifier::rlimit(40)]
pub proof fn inodes_say_where_content_goes(t: Seq<NodeView>, o: ImageOptions, k: int)
    requires
        o.wf(),
        tree_wf(t),
        image_fits(t, o.geometry),
        0 <= k < t.len(),
        size(t, o.geometry, emitted(t, k)) < 0x1_0000_0000_0000_0000,
    ensures
        ({
            let g = o.geometry;
            let img = image(t, o);
            let i = emitted(t, k);
            let bs = g.block_size as int;
            let at = inode_start(img, bs, nid_of(t, g, i));
            let stays = has_room(t, g, i, off_at(t, g, k), start(t, g, i));
            &&& num2(img, at) / 2 == if stays {
                2int
            } else {
                0
            }
            &&& !stays && content(t, g, i).len() > 0 ==> num4(img, at + 16) * bs == blk_at(t, g, k)
                * bs
            &&& num4(img, 1064) * bs == blk_at(t, g, t.len() as int) * bs
        }),
{
    every_entry_is_emitted_once(t, k);
    inodes_follow_one_another(t, o.geometry, k);
    contents_follow_one_another(t, o.geometry, k);
    lemma_layout_by_offset(t, o, emitted(t, k));
}

/// What is between the entries of the metadata is zero.
#[verifier::rlimit(40)]
proof fn lemma_gaps(t: Seq<NodeView>, g: Geometry, m: int, k: int)
    requires
        g.wf(),
        tree_wf(t),
        0 <= k < m <= t.len(),
    ensures
        zero_between(meta_at(t, g, m), off_at(t, g, k), place_at(t, g, k).start),
        zero_between(
            meta_at(t, g, m),
            place_at(t, g, k).start + entry_bytes(t, g, k).len(),
            off_at(t, g, k + 1),
        ),
        off_at(t, g, k + 1) <= meta_at(t, g, m).len(),
    decreases m,
{
    let p = place_at(t, g, m - 1);
    let e = entry_bytes(t, g, m - 1);
    let front = meta_at(t, g, m - 1);
    let gap = zeros(p.start - off_at(t, g, m - 1));
    let fill = zeros(p.next - p.start - e.len());
    let all = meta_at(t, g, m);
    lemma_place_at(t, g, m - 1);
    lemma_meta_at_len(t, g, m - 1);
    lemma_meta_at_len(t, g, m);
    lemma_entry_bytes_len(t, g, m - 1);
    assert(all == front + gap + e + fill);
    if k < m - 1 {
        lemma_gaps(t, g, m - 1, k);
        lemma_place_at(t, g, k);
        lemma_entry_bytes_len(t, g, k);
        lemma_off_ordered(t, g, 0, k);
        lemma_off_ordered(t, g, k + 1, m - 1);
        assert forall|j: int| 0 <= j < front.len() implies #[trigger] all[j] == front[j] by {
        }
    } else {
        lemma_off_ordered(t, g, 0, k);
    }
}

/// A content in blocks of its own is filled with zeros.
proof fn lemma_content_filled(t: Seq<NodeView>, g: Geometry, m: int, k: int)
    requires
        g.wf(),
        0 <= k < m <= t.len(),
        has_blocks(t, g, k),
    ensures
        holds(
            data_of(t, g, m),
            blk_at(t, g, k) * g.bs() - super_blocks(g) * g.bs(),
            padded(payload(t, g, preorder(t, 0)[k]), g.bs()),
        ),
    decreases m,
{
    let front = data_of(t, g, m - 1);
    let here = blk_at(t, g, k) * g.bs() - super_blocks(g) * g.bs();
    let p = padded(payload(t, g, preorder(t, 0)[k]), g.bs());
    lemma_data_len(t, g, k);
    if k == m - 1 {
        lemma_concat_push(data_regions(t, g, m - 1), p);
        lemma_holds_concat(front, p, Seq::empty());
    } else {
        lemma_content_filled(t, g, m - 1, k);
        if has_blocks(t, g, m - 1) {
            let r = padded(payload(t, g, preorder(t, 0)[m - 1]), g.bs());
            lemma_concat_push(data_regions(t, g, m - 1), r);
            lemma_holds_concat(front, r, Seq::empty());
            lemma_holds_within(data_of(t, g, m), 0, front, here, p);
        }
    }
}

proof fn lemma_zeros_inside(b: Seq<u8>, o: int, part: Seq<u8>, x: int, y: int)
    requires
        holds(b, o, part),
        0 <= x,
        y <= part.len(),
        zero_between(part, x, y),
    ensures
        zero_between(b, o + x, o + y),
{
    let s = b.subrange(o, o + part.len());
    assert forall|j: int| o + x <= j < o + y implies #[trigger] b[j] == 0 by {
        assert(s[j - o] == b[j]);
        assert(part[j - o] == 0);
    }
}

/// What is between the entries of the metadata, and behind the last of them,
/// is zero, and so is what is behind a content in its last block.
#[verifier::rlimit(40)]
pub proof fn what_is_between_is_zero(t: Seq<NodeView>, o: ImageOptions, k: int)
    requires
        o.wf(),
        tree_wf(t),
        image_fits(t, o.geometry),
        0 <= k < t.len(),
    ensures
        ({
            let g = o.geometry;
            let img = image(t, o);
            let i = emitted(t, k);
            let bs = g.block_size as int;
            let base = blk_at(t, g, t.len() as int) * bs;
            let off = off_at(t, g, k);
            let stays = has_room(t, g, i, off, start(t, g, i));
            let here = blk_at(t, g, k) * bs;
            let len = content(t, g, i).len() as int;
            &&& zero_between(img, base + off, base + start(t, g, i))
            &&& zero_between(img, base + behind(t, g, i, off), base + off_at(t, g, k + 1))
            &&& zero_between(img, base + off_at(t, g, t.len() as int), img.len() as int)
            &&& !stays && len > 0 ==> zero_between(img, here + len, here + next_block(len, bs))
        }),
{
    let g = o.geometry;
    let img = image(t, o);
    let i = emitted(t, k);
    let n = t.len() as int;
    let base = blk_at(t, g, n) * g.bs();
    let meta = meta_at(t, g, n);
    let area = crate::read_back::area_of(t, o);
    let data = data_of(t, g, n);
    every_entry_is_emitted_once(t, k);
    inodes_follow_one_another(t, g, k);
    contents_follow_one_another(t, g, k);
    lemma_lens(t, g, i);
    lemma_image_areas(t, o);
    lemma_area_len(t, o);
    lemma_data_len(t, g, n);
    lemma_meta_at_len(t, g, n);
    lemma_place_at(t, g, k);
    lemma_entry_bytes_len(t, g, k);
    lemma_off_ordered(t, g, 0, k);
    lemma_off_ordered(t, g, 0, n);
    lemma_gaps(t, g, n, k);
    let whole = meta_of(t, g);
    lemma_rounded(meta.len() as int, g.bs());
    lemma_holds_concat(area + data, whole, Seq::empty());
    assert(area + data + whole + Seq::<u8>::empty() =~= area + data + whole);
    assert(holds(img, base, whole));
    assert forall|j: int| 0 <= j < meta.len() implies #[trigger] whole[j] == meta[j] by {
    }
    lemma_zeros_inside(img, base, whole, off_at(t, g, k), place_at(t, g, k).start);
    lemma_zeros_inside(
        img,
        base,
        whole,
        place_at(t, g, k).start + entry_bytes(t, g, k).len(),
        off_at(t, g, k + 1),
    );
    lemma_zeros_inside(img, base, whole, meta.len() as int, whole.len() as int);
    if has_blocks(t, g, k) {
        let p = padded(payload(t, g, i), g.bs());
        let at = blk_at(t, g, k) * g.bs() - super_blocks(g) * g.bs();
        lemma_content_filled(t, g, n, k);
        lemma_holds_concat(area, data, whole);
        lemma_holds_within(img, area.len() as int, data, at, p);
        lemma_payload_has_len(t, g, i);
        lemma_payload_len(t, i, g.bs());
        lemma_rounded(payload(t, g, i).len() as int, g.bs());
        lemma_zeros_inside(
            img,
            blk_at(t, g, k) * g.bs(),
            p,
            payload(t, g, i).len() as int,
            p.len() as int,
        );
    }
}

} // verus!
