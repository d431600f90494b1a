//! What is read from any bytes that are taken for an image.

use vstd::arithmetic::power2::lemma2_to64;
use vstd::prelude::*;
use vstd::utf8::{decode_utf8, valid_utf8};

use super::bytes::{num2, num4, num8};
use super::directory::kind_code;
use super::inode::{inode_len, is_long, size_at};
use super::tree::{codes_by_number, kind_of, kinds_follow_type_bits};
use crate::error::Error;
use crate::layout::{DataLayout, FileType};
use crate::reader::{chunk_of, content_in, cut_content_in, dirents_in, dirents_of, inode_in,
    inode_of, inode_off, record_of, records_of, says_extended, stat_in, superblock_in,
    without_trailing_zeros, DirentView, Superblock};

verus! {

/// The block sizes that a superblock can give, by their exponents.
pub open spec fn block_size_of(bits: u8) -> int {
    if bits == 9 {
        512
    } else if bits == 10 {
        1024
    } else if bits == 11 {
        2048
    } else if bits == 12 {
        4096
    } else if bits == 13 {
        8192
    } else if bits == 14 {
        16384
    } else if bits == 15 {
        32768
    } else {
        65536
    }
}

/// Opening an image: it must reach to the end of the superblock and have the
/// magic number and a block size within bounds there. The superblock gives
/// the block size, the block where the metadata starts, and the root.
pub proof fn superblocks_are_read(img: Seq<u8>)
    ensures
        ({
            let bits = img[1036];
            match superblock_in(img) {
                Ok(sb) => {
                    &&& img.len() >= 1152
                    &&& num4(img, 1024) == 0xE0F5_E1E2
                    &&& 9 <= bits <= 16
                    &&& sb.block_size == block_size_of(bits)
                    &&& sb.meta_off == num4(img, 1064) * block_size_of(bits)
                    &&& sb.root_nid == num2(img, 1038)
                },
                Err(e) => if img.len() < 1152 {
                    e == Error::UnexpectedEof
                } else if num4(img, 1024) != 0xE0F5_E1E2 {
                    e == Error::BadMagic
                } else {
                    !(9 <= bits <= 16) && e == Error::InvalidBlockBits { bits }
                },
            }
        }),
{
    lemma2_to64();
    if img.len() >= 1152 {
        let sb = img.subrange(1024, 1152);
        lemma_front_numbers(img, sb);
        let m = num4(img, 1064);
        let bs = block_size_of(img[1036]);
        assert(0 <= m * bs <= 0xFFFF_FFFF * 65536) by (nonlinear_arith)
            requires
                0 <= m <= 0xFFFF_FFFF,
                0 < bs <= 65536,
        ;
    }
}

proof fn lemma_front_numbers(img: Seq<u8>, sb: Seq<u8>)
    requires
        img.len() >= 1152,
        sb == img.subrange(1024, 1152),
    ensures
        num4(sb, 0) == num4(img, 1024),
        sb[12] == img[1036],
        num2(sb, 14) == num2(img, 1038),
        num4(sb, 40) == num4(img, 1064),
{
    assert(sb[0] == img[1024] && sb[1] == img[1025] && sb[2] == img[1026] && sb[3] == img[1027]);
    assert(sb[14] == img[1038] && sb[15] == img[1039]);
    assert(sb[40] == img[1064] && sb[41] == img[1065] && sb[42] == img[1066] && sb[43]
        == img[1067]);
}

/// Where inode number `nid` starts, as the superblock has it.
pub open spec fn inode_at_number(sb: Superblock, nid: u64) -> int {
    sb.meta_off + 32 * nid
}

/// The layout that an inode says its data has.
pub open spec fn layout_at(img: Seq<u8>, at: int) -> int {
    num2(img, at) / 2 % 8
}

/// Reading an inode: it must be there whole, have no attributes, one of the
/// two flat layouts, and be a regular file, a directory or a symlink. Every
/// field is that of the bytes at its offset.
#[verifier::rlimit(40)]
pub proof fn inodes_are_read(img: Seq<u8>, sb: Superblock, nid: u64)
    ensures
        ({
            let at = inode_at_number(sb, nid);
            let mode = num2(img, at + 4);
            let kind = kind_of(mode as u16);
            let whole = at + 32 <= img.len() && at + inode_len(img, at) <= img.len();
            let plain = num2(img, at + 2) == 0;
            let flat = layout_at(img, at) == 0 || layout_at(img, at) == 2;
            match inode_in(img, sb, nid) {
                Ok(v) => {
                    &&& whole && plain && flat
                    &&& kind == FileType::RegFile || kind == FileType::Dir || kind
                        == FileType::Symlink
                    &&& v.mode == mode
                    &&& v.kind == kind
                    &&& v.size == size_at(img, at)
                    &&& v.layout == if layout_at(img, at) == 2 {
                        DataLayout::FlatInline
                    } else {
                        DataLayout::FlatPlain
                    }
                    &&& v.blkaddr == num4(img, at + 16)
                    &&& at + inode_len(img, at) <= u64::MAX ==> v.trailing_off == at + inode_len(
                        img,
                        at,
                    )
                },
                Err(e) => if !whole {
                    e == Error::UnexpectedEof
                } else if !plain {
                    e == Error::XattrsUnsupported { nid }
                } else if layout_at(img, at) > 4 {
                    e == Error::UnknownDataLayout { nid }
                } else if !flat {
                    e matches Error::UnsupportedDataLayout { nid: n, layout } && n == nid
                        && layout.code() == layout_at(img, at)
                } else {
                    &&& kind != FileType::RegFile && kind != FileType::Dir && kind
                        != FileType::Symlink
                    &&& e == Error::UnsupportedFileType { nid }
                },
            }
        }),
{
    let at = inode_at_number(sb, nid);
    assert(inode_off(sb, nid) == at);
    if at + 32 <= img.len() {
        let head = img.subrange(at, at + 32);
        assert(head[0] == img[at] && head[1] == img[at + 1]);
        assert(says_extended(head) == is_long(img, at));
        if !is_long(img, at) {
            lemma_inode_bytes(img, at, head, nid);
        } else if at + 64 <= img.len() {
            let buf = img.subrange(at, at + 64);
            assert(buf[0] == img[at] && buf[1] == img[at + 1]);
            lemma_inode_bytes(img, at, buf, nid);
        }
    }
}

#[verifier::rlimit(40)]
proof fn lemma_inode_bytes(img: Seq<u8>, at: int, buf: Seq<u8>, nid: u64)
    requires
        0 <= at,
        at + buf.len() <= img.len(),
        buf == img.subrange(at, at + buf.len()),
        buf.len() == inode_len(img, at),
    ensures
        ({
            let mode = num2(img, at + 4);
            let kind = kind_of(mode as u16);
            let plain = num2(img, at + 2) == 0;
            let flat = layout_at(img, at) == 0 || layout_at(img, at) == 2;
            match inode_of(nid, at, buf) {
                Ok(v) => {
                    &&& plain && flat
                    &&& kind == FileType::RegFile || kind == FileType::Dir || kind
                        == FileType::Symlink
                    &&& v.mode == mode
                    &&& v.kind == kind
                    &&& v.size == size_at(img, at)
                    &&& v.layout == if layout_at(img, at) == 2 {
                        DataLayout::FlatInline
                    } else {
                        DataLayout::FlatPlain
                    }
                    &&& v.blkaddr == num4(img, at + 16)
                    &&& at + inode_len(img, at) <= u64::MAX ==> v.trailing_off == at + inode_len(
                        img,
                        at,
                    )
                },
                Err(e) => if !plain {
                    e == Error::XattrsUnsupported { nid }
                } else if layout_at(img, at) > 4 {
                    e == Error::UnknownDataLayout { nid }
                } else if !flat {
                    e matches Error::UnsupportedDataLayout { nid: n, layout } && n == nid
                        && layout.code() == layout_at(img, at)
                } else {
                    &&& kind != FileType::RegFile && kind != FileType::Dir && kind
                        != FileType::Symlink
                    &&& e == Error::UnsupportedFileType { nid }
                },
            }
        }),
{
    lemma_inode_numbers(img, at, buf);
    kinds_follow_type_bits(num2(img, at + 4) as u16);
    let code = layout_at(img, at) as u8;
    codes_by_number(FileType::Dir, DataLayout::FlatPlain, code);
    codes_by_number(FileType::Dir, DataLayout::FlatInline, code);
    codes_by_number(FileType::Dir, DataLayout::CompressedFull, code);
    codes_by_number(FileType::Dir, DataLayout::CompressedCompact, code);
    codes_by_number(FileType::Dir, DataLayout::ChunkBased, code);
}

proof fn lemma_inode_numbers(img: Seq<u8>, at: int, buf: Seq<u8>)
    requires
        0 <= at,
        at + buf.len() <= img.len(),
        buf == img.subrange(at, at + buf.len()),
        buf.len() >= 32,
    ensures
        num2(buf, 0) == num2(img, at),
        num2(buf, 2) == num2(img, at + 2),
        num2(buf, 4) == num2(img, at + 4),
        num4(buf, 8) == num4(img, at + 8),
        num8(buf, 8) == num8(img, at + 8),
        num4(buf, 16) == num4(img, at + 16),
{
    assert(buf[0] == img[at] && buf[1] == img[at + 1] && buf[2] == img[at + 2] && buf[3] == img[at
        + 3] && buf[4] == img[at + 4] && buf[5] == img[at + 5]);
    assert(buf[8] == img[at + 8] && buf[9] == img[at + 9] && buf[10] == img[at + 10] && buf[11]
        == img[at + 11]);
    assert(buf[12] == img[at + 12] && buf[13] == img[at + 13] && buf[14] == img[at + 14] && buf[15]
        == img[at + 15]);
    assert(buf[16] == img[at + 16] && buf[17] == img[at + 17] && buf[18] == img[at + 18] && buf[19]
        == img[at + 19]);
}

/// Where the data of inode number `nid` starts: behind the inode, or at the
/// block that it gives.
pub open spec fn data_at_number(img: Seq<u8>, sb: Superblock, nid: u64) -> int {
    let at = inode_at_number(sb, nid);
    if layout_at(img, at) == 2 {
        at + inode_len(img, at)
    } else {
        num4(img, at + 16) * sb.block_size
    }
}

/// The status of an inode is what was read of it.
pub proof fn statuses_are_read(img: Seq<u8>, sb: Superblock, nid: u64)
    ensures
        match (stat_in(img, sb, nid), inode_in(img, sb, nid)) {
            (Ok(s), Ok(v)) => s.kind == v.kind && s.mode == v.mode && s.size == v.size,
            (Err(e), Err(f)) => e == f,
            _ => false,
        },
{
}

/// Reading a content: of a regular file or symlink, so many bytes as the
/// inode says, from where it says; it must be there whole.
pub proof fn contents_are_read(img: Seq<u8>, sb: Superblock, nid: u64)
    requires
        inode_at_number(sb, nid) + 64 <= u64::MAX,
    ensures
        ({
            let d = data_at_number(img, sb, nid);
            let n = size_at(img, inode_at_number(sb, nid));
            match (content_in(img, sb, nid), inode_in(img, sb, nid)) {
                (Ok(bytes), Ok(v)) => {
                    &&& v.kind != FileType::Dir
                    &&& bytes.len() == n
                    &&& n > 0 ==> d + n <= img.len() && bytes == img.subrange(d, d + n)
                },
                (Err(e), Ok(v)) => if v.kind == FileType::Dir {
                    e == Error::NotAFileOrSymlink { nid }
                } else {
                    n > 0 && d + n > img.len() && e == Error::UnexpectedEof
                },
                (Err(e), Err(f)) => e == f,
                (Ok(_), Err(_)) => false,
            }
        }),
{
    inodes_are_read(img, sb, nid);
}

/// What is handed out of a content that is not there whole: as many times
/// 65536 bytes as are there.
pub proof fn cut_contents_are_read(img: Seq<u8>, sb: Superblock, nid: u64)
    requires
        inode_at_number(sb, nid) + 64 <= u64::MAX,
    ensures
        ({
            let d = data_at_number(img, sb, nid);
            let n = size_at(img, inode_at_number(sb, nid));
            let c = cut_content_in(img, sb, nid);
            let cut = match inode_in(img, sb, nid) {
                Ok(v) => v.kind != FileType::Dir && n > 0 && d + n > img.len(),
                Err(_) => false,
            };
            &&& !cut || d > img.len() ==> c.len() == 0
            &&& cut && d <= img.len() ==> {
                &&& c.len() % 65536 == 0
                &&& d + c.len() <= img.len()
                &&& img.len() < d + c.len() + 65536
                &&& c == img.subrange(d, d + c.len())
            }
        }),
{
    inodes_are_read(img, sb, nid);
    contents_are_read(img, sb, nid);
}

/// Reading a directory: its data is there whole and is read piece by piece.
pub proof fn directories_are_read(img: Seq<u8>, sb: Superblock, nid: u64)
    requires
        inode_at_number(sb, nid) + 64 <= u64::MAX,
    ensures
        ({
            let d = data_at_number(img, sb, nid);
            let n = size_at(img, inode_at_number(sb, nid));
            match inode_in(img, sb, nid) {
                Err(f) => dirents_in(img, sb, nid) == Err::<Seq<DirentView>, Error>(f),
                Ok(v) => if v.kind != FileType::Dir {
                    dirents_in(img, sb, nid) == Err::<Seq<DirentView>, Error>(
                        Error::NotADirectory { nid },
                    )
                } else if n == 0 {
                    dirents_in(img, sb, nid) == Ok::<Seq<DirentView>, Error>(Seq::empty())
                } else if d + n > img.len() {
                    dirents_in(img, sb, nid) == Err::<Seq<DirentView>, Error>(Error::UnexpectedEof)
                } else {
                    dirents_in(img, sb, nid) == dirents_of(
                        img.subrange(d, d + n),
                        sb.block_size as int,
                    )
                },
            }
        }),
{
    inodes_are_read(img, sb, nid);
}

/// The data of a directory is read in pieces of a block each, the last of
/// which may be shorter, and what they give is joined; the first piece that
/// cannot be read decides.
pub proof fn pieces_are_joined(piece: Seq<u8>, rest: Seq<u8>, bs: int)
    requires
        0 < piece.len() <= bs,
        rest.len() > 0 ==> piece.len() == bs,
    ensures
        dirents_of(Seq::<u8>::empty(), bs) == Ok::<Seq<DirentView>, Error>(Seq::empty()),
        dirents_of(piece + rest, bs) == match (chunk_of(piece).1, dirents_of(rest, bs)) {
            (Some(e), _) => Err::<Seq<DirentView>, Error>(e),
            (None, Err(e)) => Err(e),
            (None, Ok(later)) => Ok(chunk_of(piece).0 + later),
        },
{
    let blob = piece + rest;
    assert(blob.subrange(0, piece.len() as int) =~= piece);
    assert(blob.skip(piece.len() as int) =~= rest);
}

/// `name` is `s` without the zeros at its end.
pub open spec fn is_trimmed(name: Seq<u8>, s: Seq<u8>) -> bool {
    &&& name.len() <= s.len()
    &&& forall|i: int| 0 <= i < name.len() ==> #[trigger] name[i] == s[i]
    &&& forall|i: int| name.len() <= i < s.len() ==> #[trigger] s[i] == 0
    &&& name.len() > 0 ==> name[name.len() - 1] != 0
}

/// The zeros at the end of a name are dropped, and nothing else.
pub proof fn trailing_zeros_are_dropped(s: Seq<u8>, name: Seq<u8>)
    ensures
        is_trimmed(without_trailing_zeros(s), s),
        is_trimmed(name, s) <==> name == without_trailing_zeros(s),
    decreases s.len(),
{
    if s.len() > 0 && s.last() == 0 {
        let r = s.drop_last();
        trailing_zeros_are_dropped(r, name);
        let w = without_trailing_zeros(r);
        assert forall|i: int| w.len() <= i < s.len() implies #[trigger] s[i] == 0 by {
            if i < r.len() {
                assert(r[i] == 0);
            }
        }
        if is_trimmed(name, s) {
            assert(name.len() <= r.len()) by {
                if name.len() == s.len() {
                    assert(name[name.len() - 1] == s[name.len() - 1]);
                }
            }
            assert forall|i: int| name.len() <= i < r.len() implies #[trigger] r[i] == 0 by {
                assert(s[i] == 0);
            }
            assert(is_trimmed(name, r));
        }
    } else if is_trimmed(name, s) {
        if name.len() < s.len() {
            assert(s[s.len() - 1] == 0);
        }
        assert(name =~= s);
    }
}

/// Reading a record: its name reaches to that of the next record, or, without
/// zeros at its end, to the end of the piece. Names must lie behind the
/// records and be UTF-8, and the kind must be known; `.` and `..` are left
/// out.
#[verifier::rlimit(40)]
pub proof fn records_are_read(chunk: Seq<u8>, count: int, k: int, name: Seq<u8>)
    requires
        0 <= k < count,
        12 * count <= chunk.len(),
    ensures
        ({
            let r = 12 * k;
            let from = num2(chunk, r + 8);
            let to = if k + 1 < count {
                num2(chunk, r + 20)
            } else {
                chunk.len() as int
            };
            let code = chunk[r + 10];
            let bad = from < 12 * count || to > chunk.len() || from > to;
            let named = if k + 1 < count {
                name == chunk.subrange(from, to)
            } else {
                is_trimmed(name, chunk.subrange(from, to))
            };
            &&& bad ==> record_of(chunk, count, k) == Err::<Option<DirentView>, Error>(
                Error::DirentBadNameOffsets,
            )
            &&& !bad && named ==> match record_of(chunk, count, k) {
                Err(e) => if !valid_utf8(name) {
                    e == Error::DirentNonUtf8Name
                } else {
                    &&& name != seq![46u8] && name != seq![46u8, 46u8]
                    &&& code > 7 && e == Error::DirentUnknownFileType
                },
                Ok(None) => valid_utf8(name) && (name == seq![46u8] || name == seq![46u8, 46u8]),
                Ok(Some(d)) => {
                    &&& valid_utf8(name) && name != seq![46u8] && name != seq![46u8, 46u8]
                    &&& d.name == decode_utf8(name)
                    &&& d.nid == num8(chunk, r)
                    &&& kind_code(d.kind) == code
                },
            }
        }),
{
    let r = 12 * k;
    let from = num2(chunk, r + 8);
    let to = if k + 1 < count {
        num2(chunk, r + 20)
    } else {
        chunk.len() as int
    };
    trailing_zeros_are_dropped(chunk.subrange(from, to), name);
    if let Some(kind) = FileType::of_code(chunk[r + 10]) {
        codes_by_number(kind, DataLayout::FlatPlain, chunk[r + 10]);
    }
    codes_by_number(FileType::Dir, DataLayout::FlatPlain, chunk[r + 10]);
}

/// Record `k` gives an entry.
pub open spec fn gives(chunk: Seq<u8>, count: int, k: int) -> bool {
    record_of(chunk, count, k) matches Ok(Some(_))
}

/// How many of the records `a..b` give an entry.
pub open spec fn given(chunk: Seq<u8>, count: int, a: int, b: int) -> int
    decreases b - a,
{
    if a >= b {
        0
    } else {
        (if gives(chunk, count, a) {
            1int
        } else {
            0
        }) + given(chunk, count, a + 1, b)
    }
}

proof fn lemma_given_bounds(chunk: Seq<u8>, count: int, a: int, b: int)
    ensures
        0 <= given(chunk, count, a, b),
    decreases b - a,
{
    if a < b {
        lemma_given_bounds(chunk, count, a + 1, b);
    }
}

proof fn lemma_given_below(chunk: Seq<u8>, count: int, a: int, k: int, b: int)
    requires
        a <= k < b,
        gives(chunk, count, k),
    ensures
        given(chunk, count, a, k) < given(chunk, count, a, b),
    decreases k - a,
{
    if a < k {
        lemma_given_below(chunk, count, a + 1, k, b);
    } else {
        lemma_given_bounds(chunk, count, a + 1, b);
    }
}

proof fn lemma_records_read(chunk: Seq<u8>, count: int, a: int) -> (stop: int)
    requires
        a <= count,
    ensures
        ({
            let (ds, err) = records_of(chunk, count, a);
            &&& a <= stop <= count
            &&& forall|k: int| a <= k < stop ==> (#[trigger] record_of(chunk, count, k)) is Ok
            &&& if stop < count {
                record_of(chunk, count, stop) matches Err(e) && err == Some(e)
            } else {
                err is None
            }
            &&& ds.len() == given(chunk, count, a, stop)
            &&& forall|k: int|
                a <= k < stop ==> (#[trigger] record_of(chunk, count, k) matches Ok(Some(d)) ==> ds[given(
                    chunk,
                    count,
                    a,
                    k,
                )] == d)
        }),
    decreases count - a,
{
    if a >= count {
        a
    } else {
        match record_of(chunk, count, a) {
            Err(_) => a,
            Ok(first) => {
                let stop = lemma_records_read(chunk, count, a + 1);
                let (ds, err) = records_of(chunk, count, a);
                let rest = records_of(chunk, count, a + 1);
                assert forall|k: int| a <= k < stop implies (#[trigger] record_of(chunk, count, k)
                    matches Ok(Some(d)) ==> ds[given(chunk, count, a, k)] == d) by {
                    if let Ok(Some(d)) = record_of(chunk, count, k) {
                        if k > a {
                            lemma_given_below(chunk, count, a + 1, k, stop);
                            lemma_given_bounds(chunk, count, a + 1, k);
                            assert(rest.0[given(chunk, count, a + 1, k)] == d);
                        }
                    }
                }
                stop
            },
        }
    }
}

/// Reading a piece of a directory: the first record gives how many there are,
/// and they give their entries in order, up to the first that cannot be read,
/// which decides what is wrong.
pub proof fn pieces_are_read(chunk: Seq<u8>) -> (stop: int)
    ensures
        ({
            let count = num2(chunk, 8) / 12;
            let (ds, err) = chunk_of(chunk);
            if chunk.len() < 12 {
                ds.len() == 0 && err == Some(Error::DirentChunkTooSmall)
            } else if count == 0 || 12 * count > chunk.len() {
                ds.len() == 0 && err == Some(Error::DirentBadNameoff)
            } else {
                &&& 0 <= stop <= count
                &&& forall|k: int| 0 <= k < stop ==> (#[trigger] record_of(chunk, count, k)) is Ok
                &&& if stop < count {
                    record_of(chunk, count, stop) matches Err(e) && err == Some(e)
                } else {
                    err is None
                }
                &&& ds.len() == given(chunk, count, 0, stop)
                &&& forall|k: int|
                    0 <= k < stop ==> (#[trigger] record_of(chunk, count, k) matches Ok(Some(d))
                        ==> ds[given(chunk, count, 0, k)] == d)
            }
        }),
{
    let count = num2(chunk, 8) / 12;
    if count >= 0 {
        lemma_records_read(chunk, count, 0)
    } else {
        0
    }
}

} // verus!
