//! What the sample program packs: a fixed set of entries, or what it finds in
//! a directory of the host.

use vstd::prelude::*;
use vstd::slice::{slice_subrange, slice_to_vec};
use vstd::string::{StrSliceExecFns, StringExecFns};
use vstd::utf8::encode_utf8;

use crate::error::Error;
use crate::image::concat;
use crate::layout::mode;
use crate::meta::{plain_meta, typed_mode, with_xattr, InodeMeta, MetaView, Xattrs};
use crate::names::views;
use crate::path::cleaned;
use crate::streaming::is_pending;
use crate::tree::{lookup, loose};
use crate::writer::{with_dir, with_entry, Builder, BuilderView};

verus! {

/// The first sixteen bytes that `rand`'s `StdRng` gives when it is seeded with
/// a number.
pub uninterp spec fn std_rng_bytes(seed: u64) -> Seq<u8>;

/// `StdRng::seed_from_u64` and `RngCore::fill_bytes`, as the linked version of
/// `rand` has them: the seed is expanded by a fixed recurrence, the generator
/// is a block cipher over it, and its words are written low byte first. None of
/// that draws on anything else, so the first bytes depend on the seed alone.
/// Which bytes they are is not stated.
#[verifier::external_body]
fn seeded_bytes(seed: u64) -> (bytes: [u8; 16])
    ensures
        bytes@ == std_rng_bytes(seed),
{
    let mut rng = <rand::rngs::StdRng as rand::SeedableRng>::seed_from_u64(seed);
    let mut bytes = [0u8; 16];
    rand::RngCore::fill_bytes(&mut rng, &mut bytes);
    bytes
}

/// A UUID that is the same for the same seed.
pub fn uuid_from_seed(seed: u64) -> (uuid: [u8; 16])
    ensures
        uuid@ == std_rng_bytes(seed),
{
    seeded_bytes(seed)
}

/// The modification time of the entries of the fixture.
pub const FIXTURE_TIME: u64 = 1_700_000_000;

/// Metadata with the fixture's modification time.
pub open spec fn at_fixture_time(m: MetaView) -> MetaView {
    MetaView { mtime: FIXTURE_TIME, ..m }
}

/// The content of the fixture's large file.
pub open spec fn fixture_bytes() -> Seq<u8> {
    Seq::new(100_000, |i: int| (i % 251) as u8)
}

/// The content of the fixture's large file.
pub fn fixture_content() -> (v: Vec<u8>)
    ensures
        v@ == fixture_bytes(),
{
    let mut v: Vec<u8> = Vec::new();
    let mut i: u32 = 0;
    while i < 100_000
        invariant
            i <= 100_000,
            v@.len() == i,
            forall|j: int| 0 <= j < i ==> #[trigger] v@[j] == (j % 251) as u8,
        decreases 100_000 - i,
    {
        v.push((i % 251) as u8);
        i = i + 1;
    }
    assert(v@ =~= fixture_bytes());
    v
}

/// Some bytes in pieces of `n` bytes, the last of which may be shorter.
pub fn chunks(data: &[u8], n: usize) -> (out: Vec<Vec<u8>>)
    requires
        n > 0,
    ensures
        concat(views(out@)) == data@,
        forall|i: int| 0 <= i < out@.len() ==> 0 < #[trigger] out@[i]@.len() <= n,
        forall|i: int| 0 <= i < out@.len() - 1 ==> #[trigger] out@[i]@.len() == n,
{
    let mut out: Vec<Vec<u8>> = Vec::new();
    let mut pos: usize = 0;
    assert(data@.len() == data.len());
    assert(views(out@) =~= Seq::empty());
    assert(data@.take(0) =~= Seq::empty());
    while pos < data.len()
        invariant
            n > 0,
            pos <= data@.len() == data.len(),
            concat(views(out@)) == data@.take(pos as int),
            forall|i: int| 0 <= i < out@.len() ==> 0 < #[trigger] out@[i]@.len() <= n,
            forall|i: int| 0 <= i < out@.len() - 1 ==> #[trigger] out@[i]@.len() == n,
            pos < data@.len() && out@.len() > 0 ==> out@.last()@.len() == n,
        decreases data@.len() - pos,
    {
        let end: usize = if data.len() - pos < n {
            data.len()
        } else {
            pos + n
        };
        let piece: Vec<u8> = slice_to_vec(slice_subrange(data, pos, end));
        let ghost before = views(out@);
        out.push(piece);
        proof {
            assert(views(out@).drop_last() =~= before);
            assert(views(out@).last() == piece@);
            assert(data@.take(pos as int) + piece@ =~= data@.take(end as int));
        }
        pos = end;
    }
    assert(data@.take(pos as int) =~= data@);
    out
}

/// The metadata of the fixture's message of the day.
pub open spec fn motd_meta() -> MetaView {
    MetaView {
        xattrs: with_xattr(Seq::empty(), encode_utf8("trusted.origin"@), encode_utf8("erofs-rs"@)),
        ..at_fixture_time(plain_meta(typed_mode(mode::S_IFREG, 0o644)))
    }
}

/// The metadata of the fixture's character device 1:5.
pub open spec fn zero_meta() -> MetaView {
    MetaView { rdev: 0x0105, ..at_fixture_time(plain_meta(0o020666)) }
}

/// The fixture's step number `k`.
pub open spec fn fixture_step(b: BuilderView, k: int) -> Result<BuilderView, Error> {
    let dir = at_fixture_time(plain_meta(typed_mode(mode::S_IFDIR, 0o755)));
    let none = Seq::<u8>::empty();
    if k == 0 {
        with_dir(b, encode_utf8("/etc"@), dir)
    } else if k == 1 {
        with_entry(
            b,
            encode_utf8("/etc/motd"@),
            loose(motd_meta(), encode_utf8("hello from erofs-rs\n"@), false, none),
        )
    } else if k == 2 {
        with_entry(
            b,
            encode_utf8("/big.bin"@),
            loose(
                at_fixture_time(plain_meta(typed_mode(mode::S_IFREG, 0o600))),
                none,
                true,
                none,
            ),
        )
    } else if k == 3 {
        with_entry(
            b,
            encode_utf8("/link"@),
            loose(
                at_fixture_time(plain_meta(mode::S_IFLNK | 0o777)),
                none,
                false,
                encode_utf8("etc/motd"@),
            ),
        )
    } else if k == 4 {
        with_entry(b, encode_utf8("/zero"@), loose(zero_meta(), none, false, none))
    } else if k == 5 {
        with_dir(b, encode_utf8("/empty"@), dir)
    } else {
        with_entry(
            b,
            encode_utf8("/empty-file"@),
            loose(
                at_fixture_time(plain_meta(typed_mode(mode::S_IFREG, 0o644))),
                none,
                false,
                none,
            ),
        )
    }
}

/// The builder after the fixture's first `k` steps, or after those before the
/// first that fails, and why that one fails.
pub open spec fn after_fixture(b: BuilderView, k: int) -> (BuilderView, Option<Error>)
    decreases k,
{
    if k <= 0 {
        (b, None)
    } else {
        let (c, failed) = after_fixture(b, k - 1);
        if failed is Some {
            (c, failed)
        } else {
            match fixture_step(c, k - 1) {
                Ok(d) => (d, None),
                Err(e) => (c, Some(e)),
            }
        }
    }
}

proof fn lemma_fixture_stops(b: BuilderView, j: int, k: int)
    requires
        after_fixture(b, j).1 is Some,
        j <= k,
    ensures
        after_fixture(b, k) == after_fixture(b, j),
    decreases k - j,
{
    if j < k {
        lemma_fixture_stops(b, j, k - 1);
    }
}

/// The ticket of the fixture's large file.
pub open spec fn fixture_ticket(b: BuilderView) -> Option<int> {
    match lookup(after_fixture(b, 2).0.entries, 0, cleaned(encode_utf8("/big.bin"@))) {
        Some(_) => None,
        None => Some(after_fixture(b, 3).0.entries.len() - 1),
    }
}

/// Adds the fixture's entries. Returns the ticket under which the content of
/// the large file is to be supplied.
pub fn build_fixture(builder: &mut Builder) -> (r: Result<Option<usize>, Error>)
    requires
        old(builder).wf(),
    ensures
        final(builder).wf(),
        final(builder)@ == after_fixture(old(builder)@, 7).0,
        match after_fixture(old(builder)@, 7).1 {
            Some(e) => r == Err::<Option<usize>, Error>(e),
            None => match fixture_ticket(old(builder)@) {
                Some(i) => r matches Ok(Some(t)) && t == i,
                None => r == Ok::<Option<usize>, Error>(None),
            },
        },
{
    let ghost b = builder@;
    assert(after_fixture(b, 0) == (builder@, None::<Error>));

    let mut meta: InodeMeta = InodeMeta::dir(0o755);
    meta.mtime = FIXTURE_TIME;
    if let Err(e) = builder.mkdir("/etc", meta) {
        proof {
            lemma_fixture_stops(b, 1, 7);
        }
        return Err(e);
    }
    assert(after_fixture(b, 1) == (builder@, None::<Error>));

    let mut meta: InodeMeta = InodeMeta::reg(0o644);
    meta.mtime = FIXTURE_TIME;
    let _ = meta.xattrs.insert(
        "trusted.origin".to_string(),
        slice_to_vec("erofs-rs".as_bytes()),
    );
    assert(meta@ =~= motd_meta());
    if let Err(e) = builder.add_bytes(
        "/etc/motd",
        meta,
        slice_to_vec("hello from erofs-rs\n".as_bytes()),
    ) {
        proof {
            lemma_fixture_stops(b, 2, 7);
        }
        return Err(e);
    }
    assert(after_fixture(b, 2) == (builder@, None::<Error>));

    // A larger streamed file spanning multiple blocks.
    let mut meta: InodeMeta = InodeMeta::reg(0o600);
    meta.mtime = FIXTURE_TIME;
    let ticket: Option<usize> = match builder.add_file("/big.bin", meta) {
        Ok(t) => t,
        Err(e) => {
            proof {
                lemma_fixture_stops(b, 3, 7);
            }
            return Err(e);
        },
    };
    assert(after_fixture(b, 3) == (builder@, None::<Error>));

    let mut meta: InodeMeta = InodeMeta::symlink();
    meta.mtime = FIXTURE_TIME;
    if let Err(e) = builder.symlink("/link", "etc/motd".as_bytes(), meta) {
        proof {
            lemma_fixture_stops(b, 4, 7);
        }
        return Err(e);
    }
    assert(after_fixture(b, 4) == (builder@, None::<Error>));

    let mut meta: InodeMeta = InodeMeta::default();
    meta.mtime = FIXTURE_TIME;
    meta.mode = 0o020666;
    meta.rdev = 0x0105;
    if let Err(e) = builder.mknod("/zero", meta) {
        proof {
            lemma_fixture_stops(b, 5, 7);
        }
        return Err(e);
    }
    assert(after_fixture(b, 5) == (builder@, None::<Error>));

    let mut meta: InodeMeta = InodeMeta::dir(0o755);
    meta.mtime = FIXTURE_TIME;
    if let Err(e) = builder.mkdir("/empty", meta) {
        proof {
            lemma_fixture_stops(b, 6, 7);
        }
        return Err(e);
    }
    assert(after_fixture(b, 6) == (builder@, None::<Error>));

    let mut meta: InodeMeta = InodeMeta::reg(0o644);
    meta.mtime = FIXTURE_TIME;
    match builder.add_bytes("/empty-file", meta, Vec::new()) {
        Ok(_) => Ok(ticket),
        Err(e) => Err(e),
    }
}

/// What the host says of a file.
#[derive(Clone, Copy, Debug)]
pub struct HostStat {
    pub mode: u32,
    pub uid: u32,
    pub gid: u32,
    pub mtime: i64,
    pub mtime_nsec: i64,
    pub nlink: u64,
    pub rdev: u64,
}

/// The metadata of an entry for a file of the host: fields that are wider
/// there are cut to what an entry holds, and a time before the epoch counts
/// as the epoch.
pub open spec fn host_meta(st: HostStat) -> MetaView {
    MetaView {
        mode: st.mode as u16,
        uid: st.uid,
        gid: st.gid,
        mtime: if st.mtime < 0 {
            0
        } else {
            st.mtime as u64
        },
        mtime_nsec: if st.mtime_nsec < 0 {
            0
        } else {
            st.mtime_nsec as u32
        },
        nlink: Some(st.nlink as u32),
        rdev: st.rdev as u32,
        xattrs: Seq::empty(),
    }
}

pub fn meta_from(st: &HostStat) -> (m: InodeMeta)
    ensures
        m@ == host_meta(*st),
        m.xattrs.wf(),
{
    let mode: u32 = st.mode;
    assert((mode & 0xFFFF) as u16 == mode as u16) by (bit_vector);
    InodeMeta {
        mode: (mode & 0xFFFF) as u16,
        uid: st.uid,
        gid: st.gid,
        mtime: if st.mtime < 0 {
            0
        } else {
            st.mtime as u64
        },
        mtime_nsec: if st.mtime_nsec < 0 {
            0
        } else {
            st.mtime_nsec as u32
        },
        nlink: Some(st.nlink as u32),
        rdev: st.rdev as u32,
        xattrs: Xattrs::new(),
    }
}

/// Whether a file of the host is packed: names of more than 255 bytes are left
/// out.
pub fn is_packed(name: &str) -> (r: bool)
    ensures
        r == (encode_utf8(name@).len() <= 255),
{
    name.as_bytes().len() <= 255
}

/// `s` without the slashes at its end.
pub open spec fn without_trailing_slashes(s: Seq<char>) -> Seq<char>
    decreases s.len(),
{
    if s.len() > 0 && s.last() == '/' {
        without_trailing_slashes(s.drop_last())
    } else {
        s
    }
}

/// The path of the entry called `name` in the directory at a path.
pub fn child_path(dir: &str, name: &str) -> (path: String)
    ensures
        path@ == without_trailing_slashes(dir@) + seq!['/'] + name@,
{
    let mut n: usize = dir.unicode_len();
    assert(dir@.take(n as int) =~= dir@);
    while n > 0 && dir.get_char(n - 1) == '/'
        invariant
            n <= dir@.len(),
            without_trailing_slashes(dir@.take(n as int)) == without_trailing_slashes(dir@),
        decreases n,
    {
        assert(dir@.take(n as int).drop_last() =~= dir@.take(n - 1));
        n = n - 1;
    }
    let mut path: String = dir.substring_char(0, n).to_string();
    proof {
        reveal_strlit("/");
        assert("/"@ =~= seq!['/']);
        assert(dir@.subrange(0, n as int) =~= dir@.take(n as int));
        if n > 0 {
            assert(dir@.take(n as int).last() == dir@[n - 1]);
        }
    }
    path.append("/");
    path.append(name);
    path
}

/// What a file of the host is.
pub enum HostFile {
    Dir,
    /// With its target.
    Symlink(Vec<u8>),
    Regular,
    /// A device, a FIFO or a socket.
    Special,
}

/// The builder after a file of the host has been packed, or why it is not.
pub open spec fn with_host_file(
    b: BuilderView,
    path: Seq<u8>,
    file: HostFile,
    meta: MetaView,
) -> Result<BuilderView, Error> {
    let none = Seq::<u8>::empty();
    match file {
        HostFile::Dir => with_dir(b, path, meta),
        HostFile::Symlink(target) => with_entry(b, path, loose(meta, none, false, target@)),
        HostFile::Regular => with_entry(b, path, loose(meta, none, true, none)),
        HostFile::Special => with_entry(b, path, loose(meta, none, false, none)),
    }
}

/// Packs a file of the host. Returns the ticket under which the content of a
/// regular file is to be supplied, unless there is an entry at its path.
pub fn pack_file(builder: &mut Builder, path: &str, file: HostFile, st: &HostStat) -> (r: Result<
    Option<usize>,
    Error,
>)
    requires
        old(builder).wf(),
    ensures
        final(builder).wf(),
        match with_host_file(old(builder)@, encode_utf8(path@), file, host_meta(*st)) {
            Ok(b) => {
                &&& final(builder)@ == b
                &&& if file is Regular && lookup(
                    old(builder)@.entries,
                    0,
                    cleaned(encode_utf8(path@)),
                ) is None {
                    r matches Ok(Some(i)) && i == b.entries.len() - 1 && is_pending(
                        b.entries,
                        i as int,
                    )
                } else {
                    r == Ok::<Option<usize>, Error>(None)
                }
            },
            Err(e) => r == Err::<Option<usize>, Error>(e) && final(builder)@ == old(builder)@,
        },
{
    let meta: InodeMeta = meta_from(st);
    let done: Result<(), Error> = match file {
        HostFile::Regular => {
            return builder.add_file(path, meta);
        },
        HostFile::Dir => builder.mkdir(path, meta),
        HostFile::Symlink(target) => builder.symlink(path, target.as_slice(), meta),
        HostFile::Special => builder.mknod(path, meta),
    };
    match done {
        Ok(_) => Ok(None),
        Err(e) => Err(e),
    }
}

} // verus!
