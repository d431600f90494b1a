//! What stands at which offset of an inode, and what it says of its entry.

use vstd::prelude::*;

use super::bytes::{num2, num4, num8};
use super::superblock::{lemma_eight, lemma_four, lemma_two, superblock_by_offset, zero_between};
use super::xattr::attributes_are_counted;
use crate::bytes::{holds, le16, le32, le64, lemma_holds_concat, lemma_holds_within, zeros};
use crate::image::{image, inode_at, inode_bytes, inode_union, lemma_payload_has_len, payload,
    ImageOptions};
use crate::layout::FileType;
use crate::meta::{xattr_bytes, xattr_count_of, xattr_size};
use crate::plan::{blk_at, entry_fits, flat_size, has_blocks, image_fits, is_compact,
    lemma_blk_ordered, lemma_payload_len, lemma_place_at, lemma_pos_of, meta_blk, nid_of, place_at, pos_of,
    Geometry};
use crate::read_back::{data_is_where_its_inode_says, lemma_entry_in_image};
use crate::tree::{children, is_child, lemma_children, nlink_of, preorder, subdirs_upto, tree_wf,
    NodeView};

verus! {

broadcast use crate::bytes::group_le_len;

/// Where inode number `nid` of an image starts: 32 bytes for each number,
/// behind the block that the superblock gives.
pub open spec fn inode_start(img: Seq<u8>, bs: int, nid: int) -> int {
    num4(img, 1064) * bs + 32 * nid
}

/// The inode at `at` has the long form of 64 bytes; else it has 32.
pub open spec fn is_long(img: Seq<u8>, at: int) -> bool {
    num2(img, at) % 2 == 1
}

/// The length of the inode at `at`.
pub open spec fn inode_len(img: Seq<u8>, at: int) -> int {
    if is_long(img, at) {
        64
    } else {
        32
    }
}

/// What the inode at `at` says of owner, group, links, size and time. The
/// short form leaves the time to the superblock.
pub open spec fn owner_at(img: Seq<u8>, at: int) -> int {
    if is_long(img, at) {
        num4(img, at + 24)
    } else {
        num2(img, at + 24)
    }
}

pub open spec fn group_at(img: Seq<u8>, at: int) -> int {
    if is_long(img, at) {
        num4(img, at + 28)
    } else {
        num2(img, at + 26)
    }
}

pub open spec fn links_at(img: Seq<u8>, at: int) -> int {
    if is_long(img, at) {
        num4(img, at + 44)
    } else {
        num2(img, at + 6)
    }
}

pub open spec fn size_at(img: Seq<u8>, at: int) -> int {
    if is_long(img, at) {
        num8(img, at + 8)
    } else {
        num4(img, at + 8)
    }
}

pub open spec fn seconds_at(img: Seq<u8>, at: int) -> int {
    if is_long(img, at) {
        num8(img, at + 32)
    } else {
        num8(img, 1048)
    }
}

pub open spec fn nanoseconds_at(img: Seq<u8>, at: int) -> int {
    if is_long(img, at) {
        num4(img, at + 40)
    } else {
        num4(img, 1056)
    }
}

/// The length of the attributes behind the inode at `at`.
pub open spec fn attributes_len(img: Seq<u8>, at: int) -> int {
    if num2(img, at + 2) == 0 {
        0
    } else {
        12 + 4 * (num2(img, at + 2) - 1)
    }
}

/// Where the data of the inode at `at` starts: behind its attributes, or at
/// the block that it gives.
pub open spec fn data_start(img: Seq<u8>, bs: int, at: int) -> int {
    if num2(img, at) / 2 == 2 {
        at + inode_len(img, at) + attributes_len(img, at)
    } else {
        num4(img, at + 16) * bs
    }
}

/// The directories that lie directly in directory `i`.
pub open spec fn subdirectories(t: Seq<NodeView>, i: int) -> Set<int> {
    Set::new(|j: int| 0 < j < t.len() && t[j].parent == i && t[j].kind == FileType::Dir)
}

/// The links to an entry: what it was given, else one, and for a directory
/// one from its parent, one from itself, and one from each directory in it.
pub open spec fn links(t: Seq<NodeView>, i: int) -> int {
    match t[i].meta.nlink {
        Some(n) => n as int,
        None => if t[i].kind == FileType::Dir {
            2 + subdirectories(t, i).len() as int
        } else {
            1
        },
    }
}

/// The size of an entry: of a file its content's, of a symlink its target's,
/// of a directory its listing's.
pub open spec fn size(t: Seq<NodeView>, g: Geometry, i: int) -> int {
    if t[i].kind == FileType::Dir {
        payload(t, g, i).len() as int
    } else if t[i].kind == FileType::Symlink {
        t[i].link.len() as int
    } else if t[i].kind == FileType::RegFile || t[i].kind == FileType::Unknown {
        t[i].data.len() as int
    } else {
        0
    }
}

/// The link count is the number of links.
pub proof fn links_are_counted(t: Seq<NodeView>, i: int)
    requires
        tree_wf(t),
        0 <= i < t.len(),
    ensures
        nlink_of(t, i) == links(t, i),
        subdirectories(t, i).finite(),
{
    let cs = children(t, i);
    lemma_children(t, i);
    lemma_subdirs(t, i, cs.len() as int);
    assert(subdirectories(t, i) =~= Set::new(|j: int| subdir_upto(t, i, cs.len() as int, j))) by {
        assert forall|j: int| #[trigger] subdirectories(t, i).contains(j) implies subdir_upto(
            t,
            i,
            cs.len() as int,
            j,
        ) by {
            assert(is_child(t, i, j));
            let k = cs.index_of(j);
            assert(cs[k] == j);
        }
        assert forall|j: int| subdir_upto(t, i, cs.len() as int, j) implies #[trigger] subdirectories(
            t,
            i,
        ).contains(j) by {
            let k = choose|k: int| 0 <= k < cs.len() && #[trigger] cs[k] == j;
            assert(is_child(t, i, cs[k]));
        }
    }
}

spec fn subdir_upto(t: Seq<NodeView>, i: int, k: int, j: int) -> bool {
    &&& t[j].kind == FileType::Dir
    &&& exists|l: int| 0 <= l < k && #[trigger] children(t, i)[l] == j
}

proof fn lemma_subdirs(t: Seq<NodeView>, i: int, k: int)
    requires
        0 <= k <= children(t, i).len(),
    ensures
        ({
            let s = Set::new(|j: int| subdir_upto(t, i, k, j));
            s.finite() && s.len() == subdirs_upto(t, i, k)
        }),
    decreases k,
{
    let s = Set::new(|j: int| subdir_upto(t, i, k, j));
    if k == 0 {
        assert(s =~= Set::empty());
    } else {
        lemma_subdirs(t, i, k - 1);
        lemma_children(t, i);
        let before = Set::new(|j: int| subdir_upto(t, i, k - 1, j));
        let c = children(t, i)[k - 1];
        assert(!before.contains(c));
        assert forall|j: int| s.contains(j) == (before.contains(j) || (j == c && t[c].kind
            == FileType::Dir)) by {
            if s.contains(j) {
                let l = choose|l: int| 0 <= l < k && #[trigger] children(t, i)[l] == j;
                if l < k - 1 {
                    assert(subdir_upto(t, i, k - 1, j));
                }
            }
            if before.contains(j) {
                let l = choose|l: int| 0 <= l < k - 1 && #[trigger] children(t, i)[l] == j;
                assert(children(t, i)[l] == j);
                assert(subdir_upto(t, i, k, j));
            }
            if j == c && t[c].kind == FileType::Dir {
                assert(children(t, i)[k - 1] == j);
            }
        }
        if t[c].kind == FileType::Dir {
            assert(s =~= before.insert(c));
        } else {
            assert(s =~= before);
        }
    }
}

/// The fields of the short form of an inode.
spec fn short_fields(
    b: Seq<u8>,
    n: NodeView,
    inline: bool,
    nlink: int,
    size: int,
    union: int,
) -> bool {
    &&& b.len() == 32
    &&& num2(b, 0) == if inline {
        4int
    } else {
        0
    }
    &&& num2(b, 2) == xattr_count_of(xattr_size(n.meta.xattrs)) % 65536
    &&& num2(b, 4) == n.meta.mode
    &&& num2(b, 6) == nlink
    &&& num4(b, 8) == size % 0x1_0000_0000
    &&& zero_between(b, 12, 16)
    &&& num4(b, 16) == union
    &&& zero_between(b, 20, 24)
    &&& num2(b, 24) == n.meta.uid
    &&& num2(b, 26) == n.meta.gid
    &&& zero_between(b, 28, 32)
}

/// The fields of the long form of an inode.
spec fn long_fields(
    b: Seq<u8>,
    n: NodeView,
    inline: bool,
    nlink: int,
    size: int,
    union: int,
) -> bool {
    &&& b.len() == 64
    &&& num2(b, 0) == if inline {
        5int
    } else {
        1
    }
    &&& num2(b, 2) == xattr_count_of(xattr_size(n.meta.xattrs)) % 65536
    &&& num2(b, 4) == n.meta.mode
    &&& zero_between(b, 6, 8)
    &&& num8(b, 8) == size
    &&& num4(b, 16) == union
    &&& zero_between(b, 20, 24)
    &&& num4(b, 24) == n.meta.uid
    &&& num4(b, 28) == n.meta.gid
    &&& num8(b, 32) == n.meta.mtime
    &&& num4(b, 40) == n.meta.mtime_nsec
    &&& num4(b, 44) == nlink
    &&& zero_between(b, 48, 64)
}

spec fn layout_code(inline: bool) -> int {
    if inline {
        2
    } else {
        0
    }
}

spec fn short_head(n: NodeView, inline: bool, nlink: int) -> Seq<u8> {
    le16(2 * layout_code(inline)) + le16(xattr_count_of(xattr_size(n.meta.xattrs))) + le16(
        n.meta.mode as int,
    ) + le16(nlink)
}

spec fn short_middle(size: int, union: int) -> Seq<u8> {
    le32(size) + zeros(4) + le32(union) + zeros(4)
}

spec fn short_tail(n: NodeView) -> Seq<u8> {
    le16(n.meta.uid as int) + le16(n.meta.gid as int) + zeros(4)
}

spec fn long_head(n: NodeView, inline: bool, size: int) -> Seq<u8> {
    le16(2 * layout_code(inline) + 1) + le16(xattr_count_of(xattr_size(n.meta.xattrs))) + le16(
        n.meta.mode as int,
    ) + zeros(2) + le64(size)
}

spec fn long_middle(n: NodeView, union: int) -> Seq<u8> {
    le32(union) + zeros(4) + le32(n.meta.uid as int) + le32(n.meta.gid as int)
}

spec fn long_tail(n: NodeView, nlink: int) -> Seq<u8> {
    le64(n.meta.mtime as int) + le32(n.meta.mtime_nsec as int) + le32(nlink) + zeros(16)
}

proof fn lemma_holds_whole(b: Seq<u8>)
    ensures
        holds(b, 0, b),
{
    assert(b.subrange(0, b.len() as int) =~= b);
}

proof fn lemma_short_parts(n: NodeView, inline: bool, nlink: int, size: int, blk: Option<int>)
    ensures
        inode_bytes(n, true, inline, nlink, size, blk) == short_head(n, inline, nlink)
            + short_middle(size, inode_union(n, blk)) + short_tail(n),
{
    let x = short_head(n, inline, nlink);
    let y = short_middle(size, inode_union(n, blk));
    let u = le32(inode_union(n, blk));
    assert(x + le32(size) + zeros(4) + u + zeros(4) =~= x + y);
    assert((x + y) + le16(n.meta.uid as int) + le16(n.meta.gid as int) + zeros(4) =~= x + y
        + short_tail(n));
}

proof fn lemma_long_parts(n: NodeView, inline: bool, nlink: int, size: int, blk: Option<int>)
    ensures
        inode_bytes(n, false, inline, nlink, size, blk) == long_head(n, inline, size) + long_middle(
            n,
            inode_union(n, blk),
        ) + long_tail(n, nlink),
{
    let x = long_head(n, inline, size);
    let y = long_middle(n, inode_union(n, blk));
    let u = le32(inode_union(n, blk));
    assert(x + u + zeros(4) + le32(n.meta.uid as int) + le32(n.meta.gid as int) =~= x + y);
    assert((x + y) + le64(n.meta.mtime as int) + le32(n.meta.mtime_nsec as int) + le32(nlink)
        + zeros(16) =~= x + y + long_tail(n, nlink));
}

#[verifier::rlimit(40)]
proof fn lemma_short_head(n: NodeView, inline: bool, nlink: int)
    requires
        0 <= nlink <= 0xFFFF,
    ensures
        ({
            let b = short_head(n, inline, nlink);
            &&& b.len() == 8
            &&& num2(b, 0) == if inline {
                4int
            } else {
                0
            }
            &&& num2(b, 2) == xattr_count_of(xattr_size(n.meta.xattrs)) % 65536
            &&& num2(b, 4) == n.meta.mode
            &&& num2(b, 6) == nlink
        }),
{
    let b = short_head(n, inline, nlink);
    attributes_are_counted(n.meta.xattrs);
    lemma_two(b, 0, 2 * layout_code(inline));
    lemma_two(b, 2, xattr_count_of(xattr_size(n.meta.xattrs)));
    lemma_two(b, 4, n.meta.mode as int);
    lemma_two(b, 6, nlink);
}

proof fn lemma_short_middle(size: int, union: int)
    requires
        0 <= size,
        0 <= union <= 0xFFFF_FFFF,
    ensures
        ({
            let b = short_middle(size, union);
            &&& b.len() == 16
            &&& num4(b, 0) == size % 0x1_0000_0000
            &&& zero_between(b, 4, 8)
            &&& num4(b, 8) == union
            &&& zero_between(b, 12, 16)
        }),
{
    let b = short_middle(size, union);
    lemma_four(b, 0, size);
    lemma_four(b, 8, union);
}

proof fn lemma_short_tail(n: NodeView)
    requires
        n.meta.uid <= 0xFFFF,
        n.meta.gid <= 0xFFFF,
    ensures
        ({
            let b = short_tail(n);
            &&& b.len() == 8
            &&& num2(b, 0) == n.meta.uid
            &&& num2(b, 2) == n.meta.gid
            &&& zero_between(b, 4, 8)
        }),
{
    let b = short_tail(n);
    lemma_two(b, 0, n.meta.uid as int);
    lemma_two(b, 2, n.meta.gid as int);
}

#[verifier::rlimit(40)]
proof fn lemma_long_head(n: NodeView, inline: bool, size: int)
    requires
        0 <= size < 0x1_0000_0000_0000_0000,
    ensures
        ({
            let b = long_head(n, inline, size);
            &&& b.len() == 16
            &&& num2(b, 0) == if inline {
                5int
            } else {
                1
            }
            &&& num2(b, 2) == xattr_count_of(xattr_size(n.meta.xattrs)) % 65536
            &&& num2(b, 4) == n.meta.mode
            &&& zero_between(b, 6, 8)
            &&& num8(b, 8) == size
        }),
{
    let b = long_head(n, inline, size);
    attributes_are_counted(n.meta.xattrs);
    lemma_two(b, 0, 2 * layout_code(inline) + 1);
    lemma_two(b, 2, xattr_count_of(xattr_size(n.meta.xattrs)));
    lemma_two(b, 4, n.meta.mode as int);
    lemma_eight(b, 8, size);
}

proof fn lemma_long_middle(n: NodeView, union: int)
    requires
        0 <= union <= 0xFFFF_FFFF,
    ensures
        ({
            let b = long_middle(n, union);
            &&& b.len() == 16
            &&& num4(b, 0) == union
            &&& zero_between(b, 4, 8)
            &&& num4(b, 8) == n.meta.uid
            &&& num4(b, 12) == n.meta.gid
        }),
{
    let b = long_middle(n, union);
    lemma_four(b, 0, union);
    lemma_four(b, 8, n.meta.uid as int);
    lemma_four(b, 12, n.meta.gid as int);
}

proof fn lemma_long_tail(n: NodeView, nlink: int)
    requires
        0 <= nlink <= 0xFFFF_FFFF,
    ensures
        ({
            let b = long_tail(n, nlink);
            &&& b.len() == 32
            &&& num8(b, 0) == n.meta.mtime
            &&& num4(b, 8) == n.meta.mtime_nsec
            &&& num4(b, 12) == nlink
            &&& zero_between(b, 16, 32)
        }),
{
    let b = long_tail(n, nlink);
    lemma_eight(b, 0, n.meta.mtime as int);
    lemma_four(b, 8, n.meta.mtime_nsec as int);
    lemma_four(b, 12, nlink);
}

proof fn lemma_short_joined(b: Seq<u8>, x: Seq<u8>, y: Seq<u8>, z: Seq<u8>)
    requires
        b.len() == 32,
        x.len() == 8,
        y.len() == 16,
        z.len() == 8,
        holds(b, 0, x),
        holds(b, 8, y),
        holds(b, 24, z),
        zero_between(y, 4, 8),
        zero_between(y, 12, 16),
        zero_between(z, 4, 8),
    ensures
        num2(b, 0) == num2(x, 0),
        num2(b, 2) == num2(x, 2),
        num2(b, 4) == num2(x, 4),
        num2(b, 6) == num2(x, 6),
        num4(b, 8) == num4(y, 0),
        zero_between(b, 12, 16),
        num4(b, 16) == num4(y, 8),
        zero_between(b, 20, 24),
        num2(b, 24) == num2(z, 0),
        num2(b, 26) == num2(z, 2),
        zero_between(b, 28, 32),
{
    lemma_placed(b, 0, x, 0);
    lemma_placed(b, 0, x, 2);
    lemma_placed(b, 0, x, 4);
    lemma_placed(b, 0, x, 6);
    lemma_placed(b, 8, y, 0);
    lemma_placed(b, 8, y, 8);
    lemma_placed(b, 24, z, 0);
    lemma_placed(b, 24, z, 2);
    lemma_zeros_placed(b, 8, y, 4, 8);
    lemma_zeros_placed(b, 8, y, 12, 16);
    lemma_zeros_placed(b, 24, z, 4, 8);
}

proof fn lemma_long_joined(b: Seq<u8>, x: Seq<u8>, y: Seq<u8>, z: Seq<u8>)
    requires
        b.len() == 64,
        x.len() == 16,
        y.len() == 16,
        z.len() == 32,
        holds(b, 0, x),
        holds(b, 16, y),
        holds(b, 32, z),
        zero_between(x, 6, 8),
        zero_between(y, 4, 8),
        zero_between(z, 16, 32),
    ensures
        num2(b, 0) == num2(x, 0),
        num2(b, 2) == num2(x, 2),
        num2(b, 4) == num2(x, 4),
        zero_between(b, 6, 8),
        num8(b, 8) == num8(x, 8),
        num4(b, 16) == num4(y, 0),
        zero_between(b, 20, 24),
        num4(b, 24) == num4(y, 8),
        num4(b, 28) == num4(y, 12),
        num8(b, 32) == num8(z, 0),
        num4(b, 40) == num4(z, 8),
        num4(b, 44) == num4(z, 12),
        zero_between(b, 48, 64),
{
    lemma_placed(b, 0, x, 0);
    lemma_placed(b, 0, x, 2);
    lemma_placed(b, 0, x, 4);
    lemma_placed(b, 0, x, 8);
    lemma_placed(b, 16, y, 0);
    lemma_placed(b, 16, y, 8);
    lemma_placed(b, 16, y, 12);
    lemma_placed(b, 32, z, 0);
    lemma_placed(b, 32, z, 8);
    lemma_placed(b, 32, z, 12);
    lemma_zeros_placed(b, 0, x, 6, 8);
    lemma_zeros_placed(b, 16, y, 4, 8);
    lemma_zeros_placed(b, 32, z, 16, 32);
}

/// The short form of an inode, field by field.
proof fn lemma_short_form(n: NodeView, inline: bool, nlink: int, size: int, blk: Option<int>)
    requires
        0 <= nlink,
        0 <= size,
        0 <= inode_union(n, blk) <= 0xFFFF_FFFF,
        n.meta.uid <= 0xFFFF,
        n.meta.gid <= 0xFFFF,
        nlink <= 0xFFFF,
    ensures
        short_fields(
            inode_bytes(n, true, inline, nlink, size, blk),
            n,
            inline,
            nlink,
            size,
            inode_union(n, blk),
        ),
{
    let b = inode_bytes(n, true, inline, nlink, size, blk);
    let union = inode_union(n, blk);
    let (x, y, z) = (short_head(n, inline, nlink), short_middle(size, union), short_tail(n));
    lemma_short_head(n, inline, nlink);
    lemma_short_middle(size, union);
    lemma_short_tail(n);
    lemma_short_parts(n, inline, nlink, size, blk);
    lemma_holds_whole(b);
    lemma_three_held(b, 0, x, y, z);
    lemma_short_joined(b, x, y, z);
}

/// The long form of an inode, field by field.
proof fn lemma_long_form(n: NodeView, inline: bool, nlink: int, size: int, blk: Option<int>)
    requires
        0 <= nlink <= 0xFFFF_FFFF,
        0 <= size < 0x1_0000_0000_0000_0000,
        0 <= inode_union(n, blk) <= 0xFFFF_FFFF,
    ensures
        long_fields(
            inode_bytes(n, false, inline, nlink, size, blk),
            n,
            inline,
            nlink,
            size,
            inode_union(n, blk),
        ),
{
    let b = inode_bytes(n, false, inline, nlink, size, blk);
    let union = inode_union(n, blk);
    let (x, y, z) = (long_head(n, inline, size), long_middle(n, union), long_tail(n, nlink));
    lemma_long_head(n, inline, size);
    lemma_long_middle(n, union);
    lemma_long_tail(n, nlink);
    lemma_long_parts(n, inline, nlink, size, blk);
    lemma_holds_whole(b);
    lemma_three_held(b, 0, x, y, z);
    lemma_long_joined(b, x, y, z);
}

/// Numbers keep their value where the bytes stand in a larger whole.
proof fn lemma_placed(img: Seq<u8>, at: int, b: Seq<u8>, p: int)
    requires
        holds(img, at, b),
        0 <= p < b.len(),
    ensures
        img[at + p] == b[p],
        p + 2 <= b.len() ==> num2(img, at + p) == num2(b, p),
        p + 4 <= b.len() ==> num4(img, at + p) == num4(b, p),
        p + 8 <= b.len() ==> num8(img, at + p) == num8(b, p),
{
    let s = img.subrange(at, at + b.len());
    assert(img[at + p] == s[p]);
    if p + 2 <= b.len() {
        assert(img[at + p + 1] == s[p + 1]);
    }
    if p + 4 <= b.len() {
        assert(img[at + p + 2] == s[p + 2] && img[at + p + 3] == s[p + 3]);
    }
    if p + 8 <= b.len() {
        assert(img[at + p + 4] == s[p + 4] && img[at + p + 5] == s[p + 5] && img[at + p + 6] == s[p
            + 6] && img[at + p + 7] == s[p + 7]);
    }
}

proof fn lemma_zeros_placed(img: Seq<u8>, at: int, b: Seq<u8>, x: int, y: int)
    requires
        holds(img, at, b),
        0 <= x <= y <= b.len(),
        zero_between(b, x, y),
    ensures
        zero_between(img, at + x, at + y),
{
    let s = img.subrange(at, at + b.len());
    assert forall|j: int| at + x <= j < at + y implies #[trigger] img[j] == 0 by {
        assert(s[j - at] == img[j]);
        assert(b[j - at] == 0);
    }
}

proof fn lemma_super_numbers(t: Seq<NodeView>, o: ImageOptions)
    requires
        o.wf(),
        tree_wf(t),
        image_fits(t, o.geometry),
    ensures
        num4(image(t, o), 1064) == meta_blk(t, o.geometry),
        num8(image(t, o), 1048) == o.geometry.build_time,
        num4(image(t, o), 1056) == o.geometry.build_time_nsec,
{
    superblock_by_offset(t, o);
}

/// The entry stands where its number says: the inode, its attributes, and
/// behind them data, if it is there.
#[verifier::rlimit(40)]
proof fn lemma_entry_parts(t: Seq<NodeView>, o: ImageOptions, i: int)
    requires
        o.wf(),
        tree_wf(t),
        image_fits(t, o.geometry),
        0 <= i < t.len(),
    ensures
        ({
            let g = o.geometry;
            let img = bytes_of(t, o);
            let k = pos_of(t, i);
            let at = inode_start(img, g.bs(), nid_of(t, g, i));
            let n = inode_of_entry(t, g, i);
            let x = xattr_bytes(t[i].meta.xattrs);
            &&& 0 <= k < t.len()
            &&& preorder(t, 0)[k] == i
            &&& holds(img, at, n)
            &&& holds(img, at + n.len(), x)
            &&& place_at(t, g, k).inline ==> holds(img, at + n.len() + x.len(), payload(t, g, i))
            &&& num8(img, 1048) == g.build_time
            &&& num4(img, 1056) == g.build_time_nsec
        }),
{
    let g = o.geometry;
    let img = image(t, o);
    let k = pos_of(t, i);
    lemma_super_numbers(t, o);
    lemma_pos_of(t, i);
    lemma_place_at(t, g, k);
    lemma_entry_in_image(t, o, k);
    let at = inode_start(img, g.bs(), nid_of(t, g, i));
    let n = inode_at(t, g, k);
    reveal(inode_of_entry);
    reveal(bytes_of);
    let x = xattr_bytes(t[i].meta.xattrs);
    let d = if place_at(t, g, k).inline {
        payload(t, g, i)
    } else {
        Seq::empty()
    };
    lemma_three_held(img, at, n, x, d);
}

proof fn lemma_three_held(b: Seq<u8>, o: int, x: Seq<u8>, y: Seq<u8>, z: Seq<u8>)
    requires
        holds(b, o, x + y + z),
    ensures
        holds(b, o, x),
        holds(b, o + x.len(), y),
        holds(b, o + x.len() + y.len(), z),
{
    lemma_holds_concat(x, y, z);
    lemma_holds_within(b, o, x + y + z, x.len() as int, y);
    lemma_holds_concat(x + y, z, Seq::empty());
    assert(x + y + z + Seq::<u8>::empty() =~= x + y + z);
    lemma_holds_within(b, o, x + y + z, (x + y).len() as int, z);
    lemma_holds_concat(x, y + z, Seq::empty());
    assert(x + (y + z) =~= x + y + z);
    lemma_holds_within(b, o, x + y + z, 0, x);
}

/// What an inode is made of is within the limits of its fields.
proof fn lemma_inode_limits(t: Seq<NodeView>, o: ImageOptions, i: int)
    requires
        o.wf(),
        tree_wf(t),
        image_fits(t, o.geometry),
        0 <= i < t.len(),
    ensures
        ({
            let g = o.geometry;
            let k = pos_of(t, i);
            let blk = if has_blocks(t, g, k) {
                Some(blk_at(t, g, k))
            } else {
                None
            };
            &&& 0 <= links(t, i) <= 0xFFFF_FFFF
            &&& nlink_of(t, i) == links(t, i)
            &&& 0 <= inode_union(t[i], blk) <= 0xFFFF_FFFF
            &&& flat_size(t, i, g.bs()) == size(t, g, i)
        }),
{
    let g = o.geometry;
    links_are_counted(t, i);
    assert(entry_fits(t, i, g));
    lemma_pos_of(t, i);
    lemma_blk_ordered(t, g, 0, pos_of(t, i));
    lemma_blk_ordered(t, g, pos_of(t, i), t.len() as int);
    lemma_payload_has_len(t, g, i);
}

/// The form of an entry's inode: short where owner, group and links fit into
/// two bytes, the size into four, and the time is the build time.
pub open spec fn fits_short_form(t: Seq<NodeView>, g: Geometry, i: int) -> bool {
    &&& t[i].meta.uid < 65536
    &&& t[i].meta.gid < 65536
    &&& links(t, i) < 65536
    &&& t[i].kind == FileType::Dir || size(t, g, i) < 0x1_0000_0000
    &&& t[i].meta.mtime == g.build_time
    &&& t[i].meta.mtime_nsec == g.build_time_nsec
}

/// The bytes of the inode of entry `i`.
#[verifier::opaque]
spec fn inode_of_entry(t: Seq<NodeView>, g: Geometry, i: int) -> Seq<u8> {
    inode_at(t, g, pos_of(t, i))
}

/// The bytes of an image.
#[verifier::opaque]
spec fn bytes_of(t: Seq<NodeView>, o: ImageOptions) -> Seq<u8> {
    image(t, o)
}

/// What can be read from an inode that an image holds, in the short form.
#[verifier::rlimit(40)]
proof fn lemma_short_read(
    img: Seq<u8>,
    at: int,
    b: Seq<u8>,
    n: NodeView,
    inline: bool,
    nlink: int,
    size: int,
    union: int,
)
    requires
        holds(img, at, b),
        short_fields(b, n, inline, nlink, size, union),
    ensures
        !is_long(img, at),
        num2(img, at) / 2 == if inline {
            2int
        } else {
            0
        },
        num2(img, at + 2) == xattr_count_of(xattr_size(n.meta.xattrs)) % 65536,
        num2(img, at + 4) == n.meta.mode,
        owner_at(img, at) == n.meta.uid,
        group_at(img, at) == n.meta.gid,
        links_at(img, at) == nlink,
        size_at(img, at) == size % 0x1_0000_0000,
        num4(img, at + 16) == union,
        zero_between(img, at + 12, at + 16),
        zero_between(img, at + 20, at + 24),
        zero_between(img, at + 28, at + 32),
{
    lemma_placed(img, at, b, 0);
    lemma_placed(img, at, b, 2);
    lemma_placed(img, at, b, 4);
    lemma_placed(img, at, b, 6);
    lemma_placed(img, at, b, 8);
    lemma_placed(img, at, b, 16);
    lemma_placed(img, at, b, 24);
    lemma_placed(img, at, b, 26);
    lemma_zeros_placed(img, at, b, 12, 16);
    lemma_zeros_placed(img, at, b, 20, 24);
    lemma_zeros_placed(img, at, b, 28, 32);
}

/// What can be read from an inode that an image holds, in the long form.
#[verifier::rlimit(40)]
proof fn lemma_long_read(
    img: Seq<u8>,
    at: int,
    b: Seq<u8>,
    n: NodeView,
    inline: bool,
    nlink: int,
    size: int,
    union: int,
)
    requires
        holds(img, at, b),
        long_fields(b, n, inline, nlink, size, union),
    ensures
        is_long(img, at),
        num2(img, at) / 2 == if inline {
            2int
        } else {
            0
        },
        num2(img, at + 2) == xattr_count_of(xattr_size(n.meta.xattrs)) % 65536,
        num2(img, at + 4) == n.meta.mode,
        owner_at(img, at) == n.meta.uid,
        group_at(img, at) == n.meta.gid,
        links_at(img, at) == nlink,
        size_at(img, at) == size,
        seconds_at(img, at) == n.meta.mtime,
        nanoseconds_at(img, at) == n.meta.mtime_nsec,
        num4(img, at + 16) == union,
        zero_between(img, at + 6, at + 8),
        zero_between(img, at + 20, at + 24),
        zero_between(img, at + 48, at + 64),
{
    lemma_placed(img, at, b, 0);
    lemma_placed(img, at, b, 2);
    lemma_placed(img, at, b, 4);
    lemma_placed(img, at, b, 8);
    lemma_placed(img, at, b, 16);
    lemma_placed(img, at, b, 24);
    lemma_placed(img, at, b, 28);
    lemma_placed(img, at, b, 32);
    lemma_placed(img, at, b, 40);
    lemma_placed(img, at, b, 44);
    lemma_zeros_placed(img, at, b, 6, 8);
    lemma_zeros_placed(img, at, b, 20, 24);
    lemma_zeros_placed(img, at, b, 48, 64);
}

/// The bytes of an entry's inode have the fields of its form.
proof fn lemma_inode_fields(t: Seq<NodeView>, o: ImageOptions, i: int) -> (union: int)
    requires
        o.wf(),
        tree_wf(t),
        image_fits(t, o.geometry),
        0 <= i < t.len(),
        size(t, o.geometry, i) < 0x1_0000_0000_0000_0000,
    ensures
        ({
            let g = o.geometry;
            let k = pos_of(t, i);
            let b = inode_of_entry(t, g, i);
            let inline = place_at(t, g, k).inline;
            &&& union == inode_union(
                t[i],
                if has_blocks(t, g, k) {
                    Some(blk_at(t, g, k))
                } else {
                    None
                },
            )
            &&& if fits_short_form(t, g, i) {
                short_fields(b, t[i], inline, links(t, i), size(t, g, i), union)
            } else {
                long_fields(b, t[i], inline, links(t, i), size(t, g, i), union)
            }
        }),
{
    let g = o.geometry;
    let k = pos_of(t, i);
    let inline = place_at(t, g, k).inline;
    let blk = if has_blocks(t, g, k) {
        Some(blk_at(t, g, k))
    } else {
        None
    };
    reveal(inode_of_entry);
    lemma_pos_of(t, i);
    lemma_inode_limits(t, o, i);
    if is_compact(t, i, g) {
        lemma_short_form(t[i], inline, links(t, i), size(t, g, i), blk);
    } else {
        lemma_long_form(t[i], inline, links(t, i), size(t, g, i), blk);
    }
    inode_union(t[i], blk)
}

/// What can be read from the inode of entry `i`.
#[verifier::rlimit(40)]
proof fn lemma_entry_read(t: Seq<NodeView>, o: ImageOptions, i: int) -> (union: int)
    requires
        o.wf(),
        tree_wf(t),
        image_fits(t, o.geometry),
        0 <= i < t.len(),
        size(t, o.geometry, i) < 0x1_0000_0000_0000_0000,
    ensures
        ({
            let g = o.geometry;
            let img = bytes_of(t, o);
            let k = pos_of(t, i);
            let at = inode_start(img, g.bs(), nid_of(t, g, i));
            let x = xattr_bytes(t[i].meta.xattrs);
            let m = t[i].meta;
            &&& union == inode_union(
                t[i],
                if has_blocks(t, g, k) {
                    Some(blk_at(t, g, k))
                } else {
                    None
                },
            )
            &&& 0 <= at && at + inode_len(img, at) <= img.len()
            &&& holds(img, at + inode_len(img, at), x)
            &&& place_at(t, g, k).inline ==> holds(
                img,
                at + inode_len(img, at) + x.len(),
                payload(t, g, i),
            )
            &&& is_long(img, at) == !fits_short_form(t, g, i)
            &&& num2(img, at) / 2 == if place_at(t, g, k).inline {
                2int
            } else {
                0
            }
            &&& num2(img, at + 2) == xattr_count_of(xattr_size(m.xattrs)) % 65536
            &&& num2(img, at + 4) == m.mode
            &&& owner_at(img, at) == m.uid
            &&& group_at(img, at) == m.gid
            &&& links_at(img, at) == links(t, i)
            &&& seconds_at(img, at) == m.mtime
            &&& nanoseconds_at(img, at) == m.mtime_nsec
            &&& size_at(img, at) == if is_long(img, at) {
                size(t, g, i)
            } else {
                size(t, g, i) % 0x1_0000_0000
            }
            &&& num4(img, at + 16) == union
            &&& is_long(img, at) ==> zero_between(img, at + 6, at + 8) && zero_between(
                img,
                at + 20,
                at + 24,
            ) && zero_between(img, at + 48, at + 64)
            &&& !is_long(img, at) ==> zero_between(img, at + 12, at + 16) && zero_between(
                img,
                at + 20,
                at + 24,
            ) && zero_between(img, at + 28, at + 32)
        }),
{
    let g = o.geometry;
    let img = bytes_of(t, o);
    let k = pos_of(t, i);
    let at = inode_start(img, g.bs(), nid_of(t, g, i));
    let b = inode_of_entry(t, g, i);
    let inline = place_at(t, g, k).inline;
    lemma_entry_parts(t, o, i);
    let union = lemma_inode_fields(t, o, i);
    if fits_short_form(t, g, i) {
        lemma_short_read(img, at, b, t[i], inline, links(t, i), size(t, g, i), union);
    } else {
        lemma_long_read(img, at, b, t[i], inline, links(t, i), size(t, g, i), union);
    }
    union
}

/// The inode of every entry stands where its number says and gives back the
/// entry's mode, owner, group, links, size and time: the time is that of the
/// superblock where the inode has the short form. Its attributes stand behind
/// it and are counted in it.
#[verifier::rlimit(40)]
pub proof fn inode_by_offset(t: Seq<NodeView>, o: ImageOptions, i: int)
    requires
        o.wf(),
        tree_wf(t),
        image_fits(t, o.geometry),
        0 <= i < t.len(),
        size(t, o.geometry, i) < 0x1_0000_0000_0000_0000,
    ensures
        ({
            let g = o.geometry;
            let img = image(t, o);
            let at = inode_start(img, g.block_size as int, nid_of(t, g, i));
            let m = t[i].meta;
            let x = xattr_bytes(m.xattrs);
            &&& 0 <= at && at + inode_len(img, at) <= img.len()
            &&& is_long(img, at) == !fits_short_form(t, g, i)
            &&& num2(img, at + 4) == m.mode
            &&& owner_at(img, at) == m.uid
            &&& group_at(img, at) == m.gid
            &&& links_at(img, at) == links(t, i)
            &&& seconds_at(img, at) == m.mtime
            &&& nanoseconds_at(img, at) == m.mtime_nsec
            &&& size_at(img, at) == if is_long(img, at) {
                size(t, g, i)
            } else {
                size(t, g, i) % 0x1_0000_0000
            }
            &&& num2(img, at + 2) == if x.len() == 0 {
                0
            } else {
                ((x.len() - 12) / 4 + 1) % 65536
            }
            &&& at + inode_len(img, at) + x.len() <= img.len()
            &&& img.subrange(
                at + inode_len(img, at),
                at + inode_len(img, at) + x.len(),
            ) == x
            &&& is_long(img, at) ==> zero_between(img, at + 6, at + 8) && zero_between(
                img,
                at + 20,
                at + 24,
            ) && zero_between(img, at + 48, at + 64)
            &&& !is_long(img, at) ==> zero_between(img, at + 12, at + 16) && zero_between(
                img,
                at + 20,
                at + 24,
            ) && zero_between(img, at + 28, at + 32)
        }),
{
    lemma_inode_read(t, o, i);
    reveal(bytes_of);
}

#[verifier::rlimit(40)]
proof fn lemma_inode_read(t: Seq<NodeView>, o: ImageOptions, i: int)
    requires
        o.wf(),
        tree_wf(t),
        image_fits(t, o.geometry),
        0 <= i < t.len(),
        size(t, o.geometry, i) < 0x1_0000_0000_0000_0000,
    ensures
        ({
            let g = o.geometry;
            let img = bytes_of(t, o);
            let at = inode_start(img, g.block_size as int, nid_of(t, g, i));
            let m = t[i].meta;
            let x = xattr_bytes(m.xattrs);
            &&& 0 <= at && at + inode_len(img, at) <= img.len()
            &&& is_long(img, at) == !fits_short_form(t, g, i)
            &&& num2(img, at + 4) == m.mode
            &&& owner_at(img, at) == m.uid
            &&& group_at(img, at) == m.gid
            &&& links_at(img, at) == links(t, i)
            &&& seconds_at(img, at) == m.mtime
            &&& nanoseconds_at(img, at) == m.mtime_nsec
            &&& size_at(img, at) == if is_long(img, at) {
                size(t, g, i)
            } else {
                size(t, g, i) % 0x1_0000_0000
            }
            &&& num2(img, at + 2) == if x.len() == 0 {
                0
            } else {
                ((x.len() - 12) / 4 + 1) % 65536
            }
            &&& at + inode_len(img, at) + x.len() <= img.len()
            &&& img.subrange(
                at + inode_len(img, at),
                at + inode_len(img, at) + x.len(),
            ) == x
            &&& is_long(img, at) ==> zero_between(img, at + 6, at + 8) && zero_between(
                img,
                at + 20,
                at + 24,
            ) && zero_between(img, at + 48, at + 64)
            &&& !is_long(img, at) ==> zero_between(img, at + 12, at + 16) && zero_between(
                img,
                at + 20,
                at + 24,
            ) && zero_between(img, at + 28, at + 32)
        }),
{
    let union = lemma_entry_read(t, o, i);
    attributes_are_counted(t[i].meta.xattrs);
}

/// The layout that the inode of entry `i` gives, and its block where it gives
/// one.
#[verifier::rlimit(40)]
pub proof fn lemma_layout_by_offset(t: Seq<NodeView>, o: ImageOptions, i: int)
    requires
        o.wf(),
        tree_wf(t),
        image_fits(t, o.geometry),
        0 <= i < t.len(),
        size(t, o.geometry, i) < 0x1_0000_0000_0000_0000,
    ensures
        ({
            let g = o.geometry;
            let img = image(t, o);
            let at = inode_start(img, g.bs(), nid_of(t, g, i));
            let k = pos_of(t, i);
            &&& num2(img, at) / 2 == if place_at(t, g, k).inline {
                2int
            } else {
                0
            }
            &&& has_blocks(t, g, k) ==> num4(img, at + 16) == blk_at(t, g, k)
            &&& num4(img, 1064) == meta_blk(t, g)
        }),
{
    lemma_layout_read(t, o, i);
    reveal(bytes_of);
    lemma_super_numbers(t, o);
}

proof fn lemma_layout_read(t: Seq<NodeView>, o: ImageOptions, i: int)
    requires
        o.wf(),
        tree_wf(t),
        image_fits(t, o.geometry),
        0 <= i < t.len(),
        size(t, o.geometry, i) < 0x1_0000_0000_0000_0000,
    ensures
        ({
            let g = o.geometry;
            let img = bytes_of(t, o);
            let at = inode_start(img, g.bs(), nid_of(t, g, i));
            let k = pos_of(t, i);
            &&& num2(img, at) / 2 == if place_at(t, g, k).inline {
                2int
            } else {
                0
            }
            &&& has_blocks(t, g, k) ==> num4(img, at + 16) == blk_at(t, g, k)
        }),
{
    let union = lemma_entry_read(t, o, i);
    lemma_pos_of(t, i);
    lemma_payload_len(t, i, o.geometry.bs());
}

/// The content that an image holds for an entry: of a file what it was given,
/// of a symlink its target, of a directory its listing.
pub open spec fn content(t: Seq<NodeView>, g: Geometry, i: int) -> Seq<u8> {
    if t[i].kind == FileType::RegFile {
        t[i].data
    } else if t[i].kind == FileType::Symlink {
        t[i].link
    } else if t[i].kind == FileType::Dir {
        payload(t, g, i)
    } else {
        Seq::empty()
    }
}

/// Data with blocks of its own stands where they start.
proof fn lemma_blocks_held(t: Seq<NodeView>, o: ImageOptions, i: int)
    requires
        o.wf(),
        tree_wf(t),
        0 <= i < t.len(),
        has_blocks(t, o.geometry, pos_of(t, i)),
    ensures
        holds(
            bytes_of(t, o),
            blk_at(t, o.geometry, pos_of(t, i)) * o.geometry.bs(),
            payload(t, o.geometry, i),
        ),
{
    reveal(bytes_of);
    lemma_pos_of(t, i);
    data_is_where_its_inode_says(t, o, pos_of(t, i));
}

/// The attributes of every entry stand behind its inode, and its content where
/// the inode says: behind the attributes, or from the block on that it gives.
/// The inode of a device gives the device instead.
#[verifier::rlimit(40)]
pub proof fn content_by_offset(t: Seq<NodeView>, o: ImageOptions, i: int)
    requires
        o.wf(),
        tree_wf(t),
        image_fits(t, o.geometry),
        0 <= i < t.len(),
        size(t, o.geometry, i) < 0x1_0000_0000_0000_0000,
        xattr_bytes(t[i].meta.xattrs).len() <= 12 + 4 * 65534,
    ensures
        ({
            let g = o.geometry;
            let img = image(t, o);
            let bs = g.block_size as int;
            let at = inode_start(img, bs, nid_of(t, g, i));
            let x = at + inode_len(img, at);
            let d = data_start(img, bs, at);
            &&& num2(img, at) / 2 == 0 || num2(img, at) / 2 == 2
            &&& attributes_len(img, at) == xattr_bytes(t[i].meta.xattrs).len()
            &&& 0 <= x && x + attributes_len(img, at) <= img.len()
            &&& img.subrange(x, x + attributes_len(img, at)) == xattr_bytes(t[i].meta.xattrs)
            &&& match t[i].kind {
                FileType::RegFile | FileType::Symlink | FileType::Dir => {
                    &&& 0 <= d && d + content(t, g, i).len() <= img.len()
                    &&& img.subrange(d, d + content(t, g, i).len()) == content(t, g, i)
                    &&& (content(t, g, i).len() == 0 || num2(img, at) / 2 == 2) ==> num4(
                        img,
                        at + 16,
                    ) == 0
                },
                FileType::Unknown => num4(img, at + 16) == 0,
                _ => num4(img, at + 16) == t[i].meta.rdev,
            }
        }),
{
    reveal(bytes_of);
    lemma_content_read(t, o, i);
}

#[verifier::rlimit(40)]
proof fn lemma_content_read(t: Seq<NodeView>, o: ImageOptions, i: int)
    requires
        o.wf(),
        tree_wf(t),
        image_fits(t, o.geometry),
        0 <= i < t.len(),
        size(t, o.geometry, i) < 0x1_0000_0000_0000_0000,
        xattr_bytes(t[i].meta.xattrs).len() <= 12 + 4 * 65534,
    ensures
        ({
            let g = o.geometry;
            let img = bytes_of(t, o);
            let bs = g.block_size as int;
            let at = inode_start(img, bs, nid_of(t, g, i));
            let x = at + inode_len(img, at);
            let d = data_start(img, bs, at);
            &&& num2(img, at) / 2 == 0 || num2(img, at) / 2 == 2
            &&& attributes_len(img, at) == xattr_bytes(t[i].meta.xattrs).len()
            &&& 0 <= x && x + attributes_len(img, at) <= img.len()
            &&& img.subrange(x, x + attributes_len(img, at)) == xattr_bytes(t[i].meta.xattrs)
            &&& match t[i].kind {
                FileType::RegFile | FileType::Symlink | FileType::Dir => {
                    &&& 0 <= d && d + content(t, g, i).len() <= img.len()
                    &&& img.subrange(d, d + content(t, g, i).len()) == content(t, g, i)
                    &&& (content(t, g, i).len() == 0 || num2(img, at) / 2 == 2) ==> num4(
                        img,
                        at + 16,
                    ) == 0
                },
                FileType::Unknown => num4(img, at + 16) == 0,
                _ => num4(img, at + 16) == t[i].meta.rdev,
            }
        }),
{
    let g = o.geometry;
    let img = bytes_of(t, o);
    let k = pos_of(t, i);
    let at = inode_start(img, g.bs(), nid_of(t, g, i));
    let union = lemma_entry_read(t, o, i);
    attributes_are_counted(t[i].meta.xattrs);
    lemma_pos_of(t, i);
    lemma_payload_has_len(t, g, i);
    lemma_payload_len(t, i, g.bs());
    if has_blocks(t, g, k) {
        lemma_blocks_held(t, o, i);
    } else {
        assert(img.subrange(0, 0) =~= Seq::<u8>::empty());
    }
}

} // verus!
