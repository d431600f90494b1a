//! Reader for images that this crate's writer produces.
//!
//! Only the feature subset the writer emits is supported: uncompressed
//! flat/inline data layouts, no xattrs, no chunked or compressed files.
//!
//! Each operation consists of steps that say which bytes of the image are
//! wanted next and what those bytes mean, so that it can run over any source
//! of bytes. [`Reader`] runs the steps over an image in memory.

use vstd::arithmetic::power2::{lemma2_to64, pow2};
use vstd::prelude::*;
use vstd::slice::slice_subrange;
use vstd::utf8::{decode_utf8, valid_utf8};

use crate::bytes::{le16_get, le32_get, le64_get, push_slice, u16_at, u32_at, u64_at};
use crate::error::Error;
use crate::layout::{DataLayout, FileType, EROFS_SUPER_MAGIC_V1, EROFS_SUPER_OFFSET, SIZE_DIRENT,
    SIZE_INODE_COMPACT, SIZE_INODE_EXTENDED, SIZE_SUPER_BLOCK};

verus! {

/// The most bytes of a file's content that are handed out at once.
pub const CONTENT_CHUNK: usize = 65536;

#[derive(Clone, Copy, PartialEq, Eq, Debug, Structural)]
pub struct Stat {
    pub kind: FileType,
    /// Full mode, with the type bits.
    pub mode: u16,
    pub size: u64,
}

#[derive(Debug)]
pub struct Dirent {
    pub name: String,
    pub nid: u64,
    pub kind: FileType,
}

/// The mathematical value of a [`Dirent`].
#[verifier::ext_equal]
pub struct DirentView {
    pub name: Seq<char>,
    pub nid: u64,
    pub kind: FileType,
}

impl View for Dirent {
    type V = DirentView;

    open spec fn view(&self) -> DirentView {
        DirentView { name: self.name@, nid: self.nid, kind: self.kind }
    }
}

/// The mathematical value of a list of [`Dirent`]s.
pub open spec fn dirent_views(ds: Seq<Dirent>) -> Seq<DirentView> {
    Seq::new(ds.len(), |i: int| ds[i]@)
}

/// What the reader needs of an inode.
#[derive(Clone, Copy, PartialEq, Eq, Debug, Structural)]
pub struct InodeView {
    pub kind: FileType,
    pub mode: u16,
    pub size: u64,
    pub layout: DataLayout,
    /// FlatPlain: first block of the out-of-line data.
    pub blkaddr: u32,
    /// Absolute image offset of the inline trailing data.
    pub trailing_off: u64,
}

/// What the reader needs of the superblock.
#[derive(Clone, Copy, PartialEq, Eq, Debug, Structural)]
pub struct Superblock {
    pub block_size: usize,
    /// Absolute image offset of the metadata area.
    pub meta_off: u64,
    pub root_nid: u64,
}

/// `len` bytes at offset `off` of an image, if it has them.
pub open spec fn read_at(image: Seq<u8>, off: int, len: int) -> Option<Seq<u8>> {
    if off + len <= image.len() {
        Some(image.subrange(off, off + len))
    } else {
        None
    }
}

/// What the bytes of a superblock say.
pub open spec fn superblock_of(sb: Seq<u8>) -> Result<Superblock, Error> {
    let bits = sb[12];
    if u32_at(sb, 0) != EROFS_SUPER_MAGIC_V1 {
        Err(Error::BadMagic)
    } else if bits < 9 || bits > 16 {
        Err(Error::InvalidBlockBits { bits })
    } else {
        Ok(
            Superblock {
                block_size: pow2(bits as nat) as usize,
                meta_off: (u32_at(sb, 40) * pow2(bits as nat)) as u64,
                root_nid: u16_at(sb, 14) as u64,
            },
        )
    }
}

/// What the superblock of an image says.
pub open spec fn superblock_in(image: Seq<u8>) -> Result<Superblock, Error> {
    match read_at(image, EROFS_SUPER_OFFSET as int, SIZE_SUPER_BLOCK as int) {
        Some(sb) => superblock_of(sb),
        None => Err(Error::UnexpectedEof),
    }
}

/// Where the inode with number `nid` starts.
pub open spec fn inode_off(sb: Superblock, nid: u64) -> int {
    sb.meta_off + nid * SIZE_INODE_COMPACT
}

/// Whether the first bytes of an inode mark it as an extended one.
pub open spec fn says_extended(head: Seq<u8>) -> bool {
    u16_at(head, 0) % 2 == 1
}

/// What the bytes of the inode with number `nid` at offset `base` say. Only
/// the inode forms that the writer emits are read.
pub open spec fn inode_of(nid: u64, base: int, buf: Seq<u8>) -> Result<InodeView, Error> {
    let extended = says_extended(buf);
    let mode = u16_at(buf, 4) as u16;
    let kind = FileType::of_mode(mode);
    if u16_at(buf, 2) != 0 {
        Err(Error::XattrsUnsupported { nid })
    } else {
        match DataLayout::of_code((u16_at(buf, 0) / 2 % 8) as u8) {
            None => Err(Error::UnknownDataLayout { nid }),
            Some(layout) => if layout != DataLayout::FlatPlain && layout
                != DataLayout::FlatInline {
                Err(Error::UnsupportedDataLayout { nid, layout })
            } else if kind != FileType::RegFile && kind != FileType::Dir && kind
                != FileType::Symlink {
                Err(Error::UnsupportedFileType { nid })
            } else {
                Ok(
                    InodeView {
                        kind,
                        mode,
                        size: if extended {
                            u64_at(buf, 8) as u64
                        } else {
                            u32_at(buf, 8) as u64
                        },
                        layout,
                        blkaddr: u32_at(buf, 16) as u32,
                        trailing_off: (base + if extended {
                            SIZE_INODE_EXTENDED
                        } else {
                            SIZE_INODE_COMPACT
                        }) as u64,
                    },
                )
            },
        }
    }
}

/// What the inode with number `nid` of an image says.
pub open spec fn inode_in(image: Seq<u8>, sb: Superblock, nid: u64) -> Result<InodeView, Error> {
    let base = inode_off(sb, nid);
    match read_at(image, base, SIZE_INODE_COMPACT as int) {
        None => Err(Error::UnexpectedEof),
        Some(head) => if says_extended(head) {
            match read_at(image, base, SIZE_INODE_EXTENDED as int) {
                None => Err(Error::UnexpectedEof),
                Some(buf) => inode_of(nid, base, buf),
            }
        } else {
            inode_of(nid, base, head)
        },
    }
}

/// The status of the inode with number `nid` of an image.
pub open spec fn stat_in(image: Seq<u8>, sb: Superblock, nid: u64) -> Result<Stat, Error> {
    match inode_in(image, sb, nid) {
        Err(e) => Err(e),
        Ok(v) => Ok(Stat { kind: v.kind, mode: v.mode, size: v.size }),
    }
}

/// Where the data of an inode starts.
pub open spec fn data_off(sb: Superblock, v: InodeView) -> int {
    if v.layout == DataLayout::FlatInline {
        v.trailing_off as int
    } else {
        v.blkaddr * sb.block_size
    }
}

/// `s` without the zeros at its end.
pub open spec fn without_trailing_zeros(s: Seq<u8>) -> Seq<u8>
    decreases s.len(),
{
    if s.len() > 0 && s.last() == 0 {
        without_trailing_zeros(s.drop_last())
    } else {
        s
    }
}

/// Whether a name stands for a directory itself or for its parent.
pub open spec fn is_dot_name(name: Seq<u8>) -> bool {
    name == seq![46u8] || name == seq![46u8, 46u8]
}

/// What record `k` of the `count` records of a piece of a directory says;
/// nothing where it stands for the directory itself or for its parent.
pub open spec fn record_of(chunk: Seq<u8>, count: int, k: int) -> Result<
    Option<DirentView>,
    Error,
> {
    let rec = k * SIZE_DIRENT;
    let start = u16_at(chunk, rec + 8);
    let end = if k + 1 < count {
        u16_at(chunk, rec + SIZE_DIRENT + 8)
    } else {
        chunk.len() as int
    };
    if start < count * SIZE_DIRENT || end > chunk.len() || start > end {
        Err(Error::DirentBadNameOffsets)
    } else {
        let raw = chunk.subrange(start, end);
        let name = if k + 1 == count {
            without_trailing_zeros(raw)
        } else {
            raw
        };
        if !valid_utf8(name) {
            Err(Error::DirentNonUtf8Name)
        } else if is_dot_name(name) {
            Ok(None)
        } else {
            match FileType::of_code(chunk[rec + 10]) {
                None => Err(Error::DirentUnknownFileType),
                Some(kind) => Ok(
                    Some(
                        DirentView {
                            name: decode_utf8(name),
                            nid: u64_at(chunk, rec) as u64,
                            kind,
                        },
                    ),
                ),
            }
        }
    }
}

/// The entries that the records from `k` on give before the first of them
/// that cannot be read, and what is wrong with that one.
pub open spec fn records_of(chunk: Seq<u8>, count: int, k: int) -> (
    Seq<DirentView>,
    Option<Error>,
)
    decreases count - k,
{
    if k >= count {
        (Seq::empty(), None)
    } else {
        let rest = records_of(chunk, count, k + 1);
        match record_of(chunk, count, k) {
            Err(e) => (Seq::empty(), Some(e)),
            Ok(None) => rest,
            Ok(Some(d)) => (seq![d] + rest.0, rest.1),
        }
    }
}

/// The entries of a piece of a directory before the first that cannot be
/// read, and what is wrong with that one.
pub open spec fn chunk_of(chunk: Seq<u8>) -> (Seq<DirentView>, Option<Error>) {
    let count = u16_at(chunk, 8) / (SIZE_DIRENT as int);
    if chunk.len() < SIZE_DIRENT {
        (Seq::empty(), Some(Error::DirentChunkTooSmall))
    } else if count == 0 || count * SIZE_DIRENT > chunk.len() {
        (Seq::empty(), Some(Error::DirentBadNameoff))
    } else {
        records_of(chunk, count, 0)
    }
}

/// The entries that the data of a directory gives, piece by piece.
pub open spec fn dirents_of(blob: Seq<u8>, bs: int) -> Result<Seq<DirentView>, Error>
    decreases blob.len(),
{
    if blob.len() == 0 || bs <= 0 {
        Ok(Seq::empty())
    } else {
        let end = if bs < blob.len() {
            bs
        } else {
            blob.len() as int
        };
        let (head, err) = chunk_of(blob.subrange(0, end));
        match err {
            Some(e) => Err(e),
            None => match dirents_of(blob.skip(end), bs) {
                Err(e) => Err(e),
                Ok(rest) => Ok(head + rest),
            },
        }
    }
}

/// The entries of the directory with number `nid` of an image.
pub open spec fn dirents_in(image: Seq<u8>, sb: Superblock, nid: u64) -> Result<
    Seq<DirentView>,
    Error,
> {
    match inode_in(image, sb, nid) {
        Err(e) => Err(e),
        Ok(v) => if v.kind != FileType::Dir {
            Err(Error::NotADirectory { nid })
        } else if v.size == 0 {
            Ok(Seq::empty())
        } else {
            match read_at(image, data_off(sb, v), v.size as int) {
                None => Err(Error::UnexpectedEof),
                Some(blob) => dirents_of(blob, sb.block_size as int),
            }
        },
    }
}

/// The content of the regular file, or the target of the symlink, with number
/// `nid` of an image.
pub open spec fn content_in(image: Seq<u8>, sb: Superblock, nid: u64) -> Result<Seq<u8>, Error> {
    match inode_in(image, sb, nid) {
        Err(e) => Err(e),
        Ok(v) => if v.kind != FileType::RegFile && v.kind != FileType::Symlink {
            Err(Error::NotAFileOrSymlink { nid })
        } else if v.size == 0 {
            Ok(Seq::empty())
        } else {
            match read_at(image, data_off(sb, v), v.size as int) {
                None => Err(Error::UnexpectedEof),
                Some(bytes) => Ok(bytes),
            }
        },
    }
}

/// The whole chunks that an image holds from offset `start` on.
pub open spec fn whole_chunks(image: Seq<u8>, start: int) -> Seq<u8> {
    if start <= image.len() {
        image.subrange(
            start,
            start + CONTENT_CHUNK * ((image.len() - start) / (CONTENT_CHUNK as int)),
        )
    } else {
        Seq::empty()
    }
}

/// What is handed out of a content that the image cuts short: the whole
/// chunks that it still holds.
pub open spec fn cut_content_in(image: Seq<u8>, sb: Superblock, nid: u64) -> Seq<u8> {
    match (inode_in(image, sb, nid), content_in(image, sb, nid)) {
        (Ok(v), Err(Error::UnexpectedEof)) => whole_chunks(image, data_off(sb, v)),
        _ => Seq::empty(),
    }
}

/// `str::from_utf8` takes exactly the byte strings that are valid UTF-8, and
/// gives the characters that they encode.
#[verifier::external_body]
fn utf8_str(bytes: &[u8]) -> (r: Option<&str>)
    ensures
        r is Some <==> valid_utf8(bytes@),
        r matches Some(s) ==> s@ == decode_utf8(bytes@),
{
    std::str::from_utf8(bytes).ok()
}

/// The block size with this many bits, for those that the format knows.
fn block_size_from_bits(bits: u8) -> (r: Option<usize>)
    ensures
        r is Some <==> 9 <= bits <= 16,
        r matches Some(bs) ==> bs == pow2(bits as nat) && 512 <= bs <= 65536,
{
    proof {
        lemma2_to64();
    }
    match bits {
        9 => Some(512),
        10 => Some(1024),
        11 => Some(2048),
        12 => Some(4096),
        13 => Some(8192),
        14 => Some(16384),
        15 => Some(32768),
        16 => Some(65536),
        _ => None,
    }
}

impl Superblock {
    /// The values that [`Superblock::parse`] gives.
    pub open spec fn wf(self) -> bool {
        &&& 512 <= self.block_size <= 65536
        &&& self.meta_off <= 0xFFFF_FFFF * 65536
        &&& self.root_nid <= 0xFFFF
    }

    /// Where in an image the superblock stands, and how long it is.
    pub fn location() -> (r: (u64, usize))
        ensures
            r.0 == EROFS_SUPER_OFFSET,
            r.1 == SIZE_SUPER_BLOCK,
    {
        (EROFS_SUPER_OFFSET as u64, SIZE_SUPER_BLOCK)
    }

    /// Reads the bytes of a superblock.
    pub fn parse(sb: &[u8]) -> (r: Result<Superblock, Error>)
        requires
            sb@.len() == SIZE_SUPER_BLOCK,
        ensures
            r == superblock_of(sb@),
            r matches Ok(s) ==> s.wf(),
    {
        if le32_get(sb, 0) != EROFS_SUPER_MAGIC_V1 {
            return Err(Error::BadMagic);
        }
        let bits: u8 = sb[12];
        let block_size: usize = match block_size_from_bits(bits) {
            Some(bs) => bs,
            None => {
                return Err(Error::InvalidBlockBits { bits });
            },
        };
        let meta_blkaddr: u64 = le32_get(sb, 40) as u64;
        assert(meta_blkaddr * block_size <= 0xFFFF_FFFF * 65536) by (nonlinear_arith)
            requires
                meta_blkaddr <= 0xFFFF_FFFF,
                block_size <= 65536,
        ;
        Ok(
            Superblock {
                block_size,
                meta_off: meta_blkaddr * (block_size as u64),
                root_nid: le16_get(sb, 14) as u64,
            },
        )
    }

    /// Where the inode with number `nid` starts.
    pub fn inode_offset(&self, nid: u64) -> (off: u64)
        requires
            inode_off(*self, nid) <= u64::MAX,
        ensures
            off == inode_off(*self, nid),
    {
        self.meta_off + nid * (SIZE_INODE_COMPACT as u64)
    }

    /// Where the data of an inode starts.
    pub fn data_offset(&self, v: &InodeView) -> (off: u64)
        requires
            self.wf(),
        ensures
            off == data_off(*self, *v),
    {
        if v.layout == DataLayout::FlatInline {
            v.trailing_off
        } else {
            assert(v.blkaddr * self.block_size <= 0xFFFF_FFFF * 65536) by (nonlinear_arith)
                requires
                    v.blkaddr <= 0xFFFF_FFFF,
                    self.block_size <= 65536,
            ;
            (v.blkaddr as u64) * (self.block_size as u64)
        }
    }
}

impl InodeView {
    /// How long the inode is that starts with these bytes.
    pub fn length(head: &[u8]) -> (n: usize)
        requires
            head@.len() >= SIZE_INODE_COMPACT,
        ensures
            n == if says_extended(head@) {
                SIZE_INODE_EXTENDED
            } else {
                SIZE_INODE_COMPACT
            },
    {
        if le16_get(head, 0) % 2 == 1 {
            SIZE_INODE_EXTENDED
        } else {
            SIZE_INODE_COMPACT
        }
    }

    /// Reads the bytes of the inode with number `nid`, which starts at `base`.
    pub fn parse(nid: u64, base: u64, buf: &[u8]) -> (r: Result<InodeView, Error>)
        requires
            buf@.len() == if says_extended(buf@) {
                SIZE_INODE_EXTENDED
            } else {
                SIZE_INODE_COMPACT
            },
            base + buf@.len() <= u64::MAX,
        ensures
            r == inode_of(nid, base as int, buf@),
    {
        let format: u16 = le16_get(buf, 0);
        let extended: bool = format % 2 == 1;
        if le16_get(buf, 2) != 0 {
            return Err(Error::XattrsUnsupported { nid });
        }
        let layout: DataLayout = match DataLayout::from_u8((format / 2 % 8) as u8) {
            Some(l) => l,
            None => {
                return Err(Error::UnknownDataLayout { nid });
            },
        };
        if layout != DataLayout::FlatPlain && layout != DataLayout::FlatInline {
            return Err(Error::UnsupportedDataLayout { nid, layout });
        }
        let mode: u16 = le16_get(buf, 4);
        let kind: FileType = FileType::from_mode(mode);
        if kind != FileType::RegFile && kind != FileType::Dir && kind != FileType::Symlink {
            return Err(Error::UnsupportedFileType { nid });
        }
        let size: u64 = if extended {
            le64_get(buf, 8)
        } else {
            le32_get(buf, 8) as u64
        };
        Ok(
            InodeView {
                kind,
                mode,
                size,
                layout,
                blkaddr: le32_get(buf, 16),
                trailing_off: base + (buf.len() as u64),
            },
        )
    }
}

/// What is left to hand out of a content.
#[derive(Clone, Copy, PartialEq, Eq, Debug, Structural)]
pub struct ContentCursor {
    /// Absolute image offset of the next byte.
    pub off: u64,
    pub remaining: u64,
}

impl ContentCursor {
    /// The length of the next chunk; zero at the end.
    pub fn next_len(&self) -> (n: usize)
        ensures
            n == if self.remaining < CONTENT_CHUNK {
                self.remaining as int
            } else {
                CONTENT_CHUNK as int
            },
    {
        if self.remaining < CONTENT_CHUNK as u64 {
            self.remaining as usize
        } else {
            CONTENT_CHUNK
        }
    }

    /// Moves past a chunk that has been handed out.
    pub fn advance(&mut self, n: usize)
        requires
            n <= old(self).remaining,
            old(self).off + n <= u64::MAX,
        ensures
            final(self).off == old(self).off + n,
            final(self).remaining == old(self).remaining - n,
    {
        self.off = self.off + n as u64;
        self.remaining = self.remaining - n as u64;
    }
}

/// Reads one record of a piece of a directory.
fn parse_record(chunk: &[u8], count: usize, k: usize) -> (r: Result<Option<Dirent>, Error>)
    requires
        k < count,
        count * SIZE_DIRENT <= chunk@.len(),
    ensures
        match record_of(chunk@, count as int, k as int) {
            Err(e) => r == Err::<Option<Dirent>, Error>(e),
            Ok(None) => r == Ok::<Option<Dirent>, Error>(None),
            Ok(Some(d)) => r matches Ok(Some(x)) && x@ == d,
        },
{
    assert(chunk@.len() == chunk.len());
    let rec: usize = k * SIZE_DIRENT;
    let start: usize = le16_get(chunk, rec + 8) as usize;
    let end: usize = if k + 1 < count {
        le16_get(chunk, rec + SIZE_DIRENT + 8) as usize
    } else {
        chunk.len()
    };
    if start < count * SIZE_DIRENT || end > chunk.len() || start > end {
        return Err(Error::DirentBadNameOffsets);
    }
    let mut stop: usize = end;
    if k + 1 == count {
        while stop > start && chunk[stop - 1] == 0
            invariant
                start <= stop <= end <= chunk@.len(),
                without_trailing_zeros(chunk@.subrange(start as int, stop as int))
                    == without_trailing_zeros(chunk@.subrange(start as int, end as int)),
            decreases stop,
        {
            assert(chunk@.subrange(start as int, stop as int).drop_last() =~= chunk@.subrange(
                start as int,
                stop - 1,
            ));
            stop = stop - 1;
        }
    }
    let name: &[u8] = slice_subrange(chunk, start, stop);
    let text: String = match utf8_str(name) {
        Some(s) => s.to_owned(),
        None => {
            return Err(Error::DirentNonUtf8Name);
        },
    };
    let dot: bool = (name.len() == 1 && name[0] == 46) || (name.len() == 2 && name[0] == 46
        && name[1] == 46);
    proof {
        if dot {
            assert(name@ =~= seq![46u8] || name@ =~= seq![46u8, 46u8]);
        }
    }
    if dot {
        return Ok(None);
    }
    match FileType::from_u8(chunk[rec + 10]) {
        None => Err(Error::DirentUnknownFileType),
        Some(kind) => Ok(Some(Dirent { name: text, nid: le64_get(chunk, rec), kind })),
    }
}

/// Reads one block-sized piece of the data of a directory. It holds a run of
/// 12-byte records (nid, nameoff, file type, pad) followed by the names packed
/// back to back; the first record's nameoff gives the run length. The entries
/// that precede an unreadable one are still appended.
pub fn parse_dirent_chunk(chunk: &[u8], out: &mut Vec<Dirent>) -> (r: Result<(), Error>)
    ensures
        dirent_views(final(out)@) == dirent_views(old(out)@) + chunk_of(chunk@).0,
        match chunk_of(chunk@).1 {
            Some(e) => r == Err::<(), Error>(e),
            None => r == Ok::<(), Error>(()),
        },
{
    let ghost before = dirent_views(out@);
    if chunk.len() < SIZE_DIRENT {
        assert(dirent_views(out@) =~= before + chunk_of(chunk@).0);
        return Err(Error::DirentChunkTooSmall);
    }
    let count: usize = le16_get(chunk, 8) as usize / SIZE_DIRENT;
    if count == 0 || count * SIZE_DIRENT > chunk.len() {
        assert(dirent_views(out@) =~= before + chunk_of(chunk@).0);
        return Err(Error::DirentBadNameoff);
    }
    let mut k: usize = 0;
    while k < count
        invariant
            k <= count,
            count * SIZE_DIRENT <= chunk@.len(),
            dirent_views(out@) + records_of(chunk@, count as int, k as int).0 =~= before
                + records_of(chunk@, count as int, 0).0,
            records_of(chunk@, count as int, k as int).1 == records_of(chunk@, count as int, 0).1,
            before == dirent_views(old(out)@),
            chunk_of(chunk@) == records_of(chunk@, count as int, 0),
        decreases count - k,
    {
        let ghost sofar = dirent_views(out@);
        let ghost rest = records_of(chunk@, count as int, k + 1);
        match parse_record(chunk, count, k) {
            Err(e) => {
                assert(dirent_views(out@) =~= sofar + records_of(chunk@, count as int, k as int).0);
                return Err(e);
            },
            Ok(None) => {},
            Ok(Some(d)) => {
                out.push(d);
                assert(dirent_views(out@) =~= sofar.push(d@));
                assert(sofar + (seq![d@] + rest.0) =~= sofar.push(d@) + rest.0);
            },
        }
        k = k + 1;
    }
    assert(dirent_views(out@) =~= before + records_of(chunk@, count as int, 0).0);
    Ok(())
}

/// Reads the data of a directory.
pub fn parse_dirents(blob: &[u8], block_size: usize) -> (r: Result<Vec<Dirent>, Error>)
    requires
        block_size > 0,
    ensures
        match dirents_of(blob@, block_size as int) {
            Ok(ds) => r matches Ok(v) && dirent_views(v@) == ds,
            Err(e) => r matches Err(x) && x == e,
        },
{
    let ghost bs = block_size as int;
    let mut out: Vec<Dirent> = Vec::new();
    let mut off: usize = 0;
    assert(dirent_views(out@) =~= Seq::empty());
    assert(blob@.skip(0) =~= blob@);
    while off < blob.len()
        invariant
            off <= blob@.len(),
            block_size > 0,
            bs == block_size,
            match (dirents_of(blob@.skip(off as int), bs), dirents_of(blob@, bs)) {
                (Ok(rest), Ok(all)) => dirent_views(out@) + rest =~= all,
                (Err(e), Err(f)) => e == f,
                _ => false,
            },
        decreases blob@.len() - off,
    {
        let end: usize = if block_size < blob.len() - off {
            off + block_size
        } else {
            blob.len()
        };
        let chunk: &[u8] = slice_subrange(blob, off, end);
        let ghost rest = blob@.skip(off as int);
        let ghost before = dirent_views(out@);
        proof {
            assert(rest.subrange(0, end - off) =~= chunk@);
            assert(rest.skip(end - off) =~= blob@.skip(end as int));
        }
        match parse_dirent_chunk(chunk, &mut out) {
            Err(e) => {
                return Err(e);
            },
            Ok(_) => {},
        }
        proof {
            if let Ok(tail) = dirents_of(blob@.skip(end as int), bs) {
                assert(before + (chunk_of(chunk@).0 + tail) =~= dirent_views(out@) + tail);
            }
        }
        off = end;
    }
    Ok(out)
}

/// An image in memory, opened for reading.
pub struct Reader {
    image: Vec<u8>,
    sb: Superblock,
}

impl Reader {
    /// The bytes of the image.
    pub closed spec fn image(&self) -> Seq<u8> {
        self.image@
    }

    /// What its superblock says.
    pub closed spec fn superblock(&self) -> Superblock {
        self.sb
    }

    /// The reader has what the superblock of its image says.
    pub open spec fn wf(&self) -> bool {
        &&& superblock_in(self.image()) == Ok::<Superblock, Error>(self.superblock())
        &&& self.superblock().wf()
    }

    /// Opens an image.
    pub fn open(image: Vec<u8>) -> (r: Result<Reader, Error>)
        ensures
            match superblock_in(image@) {
                Ok(sb) => r matches Ok(reader) && reader.wf() && reader.image() == image@
                    && reader.superblock() == sb,
                Err(e) => r matches Err(x) && x == e,
            },
    {
        let (off, len): (u64, usize) = Superblock::location();
        let sb: &[u8] = match Self::slice_at(&image, off, len as u64) {
            Some(b) => b,
            None => {
                return Err(Error::UnexpectedEof);
            },
        };
        match Superblock::parse(sb) {
            Ok(sb) => Ok(Reader { image, sb }),
            Err(e) => Err(e),
        }
    }

    /// The number of the root directory.
    pub fn root_nid(&self) -> (nid: u64)
        ensures
            nid == self.superblock().root_nid,
    {
        self.sb.root_nid
    }

    fn slice_at(image: &Vec<u8>, off: u64, len: u64) -> (r: Option<&[u8]>)
        ensures
            match read_at(image@, off as int, len as int) {
                Some(b) => r matches Some(s) && s@ == b,
                None => r is None,
            },
    {
        let total: u64 = image.len() as u64;
        if off > total || len > total - off {
            None
        } else {
            Some(slice_subrange(image.as_slice(), off as usize, (off + len) as usize))
        }
    }

    /// Reads the inode with number `nid`.
    pub fn inode(&self, nid: u64) -> (r: Result<InodeView, Error>)
        requires
            self.wf(),
            inode_off(self.superblock(), nid) <= u64::MAX,
        ensures
            r == inode_in(self.image(), self.superblock(), nid),
    {
        let base: u64 = self.sb.inode_offset(nid);
        let head: &[u8] = match Self::slice_at(&self.image, base, SIZE_INODE_COMPACT as u64) {
            Some(b) => b,
            None => {
                return Err(Error::UnexpectedEof);
            },
        };
        let length: usize = InodeView::length(head);
        let buf: &[u8] = match Self::slice_at(&self.image, base, length as u64) {
            Some(b) => b,
            None => {
                return Err(Error::UnexpectedEof);
            },
        };
        proof {
            assert(u16_at(buf@, 0) == u16_at(head@, 0));
            assert(self.image@.len() == self.image.len());
            if !says_extended(head@) {
                assert(buf@ =~= head@);
            }
        }
        InodeView::parse(nid, base, buf)
    }

    /// The status of the inode with number `nid`.
    pub fn stat(&self, nid: u64) -> (r: Result<Stat, Error>)
        requires
            self.wf(),
            inode_off(self.superblock(), nid) <= u64::MAX,
        ensures
            r == stat_in(self.image(), self.superblock(), nid),
    {
        match self.inode(nid) {
            Err(e) => Err(e),
            Ok(v) => Ok(Stat { kind: v.kind, mode: v.mode, size: v.size }),
        }
    }

    /// Lists a directory's entries as stored, `.`/`..` omitted. The writer
    /// emits them name-sorted; callers needing a specific order must sort.
    pub fn dirents(&self, nid: u64) -> (r: Result<Vec<Dirent>, Error>)
        requires
            self.wf(),
            inode_off(self.superblock(), nid) <= u64::MAX,
        ensures
            match dirents_in(self.image(), self.superblock(), nid) {
                Ok(ds) => r matches Ok(v) && dirent_views(v@) == ds,
                Err(e) => r matches Err(x) && x == e,
            },
    {
        let v: InodeView = match self.inode(nid) {
            Ok(v) => v,
            Err(e) => {
                return Err(e);
            },
        };
        if v.kind != FileType::Dir {
            return Err(Error::NotADirectory { nid });
        }
        if v.size == 0 {
            let none: Vec<Dirent> = Vec::new();
            assert(dirent_views(none@) =~= Seq::empty());
            return Ok(none);
        }
        match Self::slice_at(&self.image, self.sb.data_offset(&v), v.size) {
            None => Err(Error::UnexpectedEof),
            Some(blob) => parse_dirents(blob, self.sb.block_size),
        }
    }

    /// Appends `size` bytes at offset `start` to `out`, chunk by chunk, until
    /// one is cut short.
    fn copy_chunks(image: &Vec<u8>, start: u64, size: u64, out: &mut Vec<u8>) -> (complete: bool)
        ensures
            match read_at(image@, start as int, size as int) {
                Some(bytes) => complete && final(out)@ == old(out)@ + bytes,
                None => !complete && final(out)@ == old(out)@ + whole_chunks(image@, start as int),
            },
    {
        let ghost img = image@;
        if start > image.len() as u64 {
            assert(out@ =~= old(out)@ + Seq::<u8>::empty());
            return false;
        }
        let mut cursor: ContentCursor = ContentCursor { off: start, remaining: size };
        let ghost mut passed: int = 0;
        assert(out@ =~= old(out)@ + img.subrange(start as int, start as int));
        while cursor.remaining > 0
            invariant
                img == image@,
                0 <= passed,
                cursor.off == start + passed,
                cursor.remaining == size - passed,
                cursor.remaining > 0 ==> passed % (CONTENT_CHUNK as int) == 0,
                start + passed <= img.len(),
                out@ == old(out)@ + img.subrange(start as int, start + passed),
            decreases cursor.remaining,
        {
            let n: usize = cursor.next_len();
            let chunk: &[u8] = match Self::slice_at(image, cursor.off, n as u64) {
                Some(b) => b,
                None => {
                    assert(passed == CONTENT_CHUNK * ((img.len() - start) / (CONTENT_CHUNK as int)));
                    return false;
                },
            };
            push_slice(out, chunk);
            assert(image@.len() == image.len());
            cursor.advance(n);
            proof {
                assert(img.subrange(start as int, start + passed) + chunk@ =~= img.subrange(
                    start as int,
                    start + passed + n,
                ));
                assert(out@ =~= old(out)@ + img.subrange(start as int, start + passed + n));
                passed = passed + n;
            }
        }
        true
    }

    /// Appends the content of a regular file or the target of a symlink to
    /// `out`, chunk by chunk. Returns the number of bytes passed. Where the
    /// image ends too early, the chunks before its end are still appended.
    pub fn read_content(&self, nid: u64, out: &mut Vec<u8>) -> (r: Result<u64, Error>)
        requires
            self.wf(),
            inode_off(self.superblock(), nid) <= u64::MAX,
        ensures
            match content_in(self.image(), self.superblock(), nid) {
                Ok(bytes) => r matches Ok(n) && n == bytes.len() && final(out)@ == old(out)@ + bytes,
                Err(e) => r matches Err(x) && x == e && final(out)@ == old(out)@ + cut_content_in(
                    self.image(),
                    self.superblock(),
                    nid,
                ),
            },
    {
        let ghost (img, sb) = (self.image(), self.superblock());
        let v: InodeView = match self.inode(nid) {
            Ok(v) => v,
            Err(e) => {
                assert(out@ =~= old(out)@ + cut_content_in(img, sb, nid));
                return Err(e);
            },
        };
        if v.kind != FileType::RegFile && v.kind != FileType::Symlink {
            assert(out@ =~= old(out)@ + cut_content_in(img, sb, nid));
            return Err(Error::NotAFileOrSymlink { nid });
        }
        if v.size == 0 {
            assert(out@ =~= old(out)@ + Seq::<u8>::empty());
            return Ok(0);
        }
        let start: u64 = self.sb.data_offset(&v);
        if Self::copy_chunks(&self.image, start, v.size, out) {
            Ok(v.size)
        } else {
            Err(Error::UnexpectedEof)
        }
    }
}

} // verus!
