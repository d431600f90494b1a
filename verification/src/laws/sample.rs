//! What the sample program makes of files of the host.

use vstd::prelude::*;
use vstd::utf8::{encode_utf8, is_ascii_chars_encode_utf8};

use super::path::{names_an_entry, paths_are_followed_by_segments};
use super::tree::{adding_directories, adding_entries, is_blocked, is_free, keeps, kind_of, leads};
use crate::error::Error;
use crate::meta::{plain_meta, rank, typed_mode, with_xattr, MetaView, XattrView};
use crate::path::cleaned;
use crate::sample::{after_fixture, at_fixture_time, fixture_bytes, fixture_step, host_meta,
    motd_meta, with_host_file, without_trailing_slashes, zero_meta, HostFile, HostStat};
use crate::tree::tree_wf;
use crate::writer::{with_dir, BuilderView};

verus! {

/// The metadata of an entry is that of the file: the mode, links and device
/// keep their low bits, and times before the epoch count as the epoch.
pub proof fn host_metadata(st: HostStat)
    ensures
        host_meta(st).mode == st.mode % 65536,
        host_meta(st).uid == st.uid,
        host_meta(st).gid == st.gid,
        st.mtime >= 0 ==> host_meta(st).mtime == st.mtime,
        st.mtime < 0 ==> host_meta(st).mtime == 0,
        st.mtime_nsec >= 0 ==> host_meta(st).mtime_nsec == st.mtime_nsec % 0x1_0000_0000,
        st.mtime_nsec < 0 ==> host_meta(st).mtime_nsec == 0,
        host_meta(st).nlink matches Some(n) && n == st.nlink % 0x1_0000_0000,
        host_meta(st).rdev == st.rdev % 0x1_0000_0000,
        host_meta(st).xattrs.len() == 0,
{
    let (mode, nlink, rdev, nsec) = (st.mode, st.nlink, st.rdev, st.mtime_nsec);
    assert(nsec >= 0 ==> nsec as u32 == nsec % 0x1_0000_0000) by (bit_vector);
    assert(mode as u16 == mode % 65536) by (bit_vector);
    assert(nlink as u32 == nlink % 0x1_0000_0000) by (bit_vector);
    assert(rdev as u32 == rdev % 0x1_0000_0000) by (bit_vector);
}

/// Slashes are dropped from the end, and nothing else.
pub proof fn trailing_slashes_are_dropped(s: Seq<char>)
    ensures
        ({
            let w = without_trailing_slashes(s);
            &&& w.len() <= s.len()
            &&& s.take(w.len() as int) == w
            &&& forall|i: int| w.len() <= i < s.len() ==> #[trigger] s[i] == '/'
            &&& w.len() > 0 ==> w.last() != '/'
        }),
    decreases s.len(),
{
    if s.len() > 0 && s.last() == '/' {
        let r = s.drop_last();
        trailing_slashes_are_dropped(r);
        let w = without_trailing_slashes(r);
        assert(s.take(w.len() as int) =~= r.take(w.len() as int));
        assert forall|i: int| w.len() <= i < s.len() implies #[trigger] s[i] == '/' by {
            if i < r.len() {
                assert(r[i] == '/');
            }
        }
    } else {
        assert(s.take(s.len() as int) =~= s);
    }
}

proof fn lemma_encode_concat(a: Seq<char>, b: Seq<char>)
    ensures
        encode_utf8(a + b) == encode_utf8(a) + encode_utf8(b),
    decreases a.len(),
{
    if a.len() == 0 {
        assert(a + b =~= b);
        assert(encode_utf8(a) + encode_utf8(b) =~= encode_utf8(b));
    } else {
        assert((a + b).drop_first() =~= a.drop_first() + b);
        lemma_encode_concat(a.drop_first(), b);
        assert(encode_utf8(a + b) =~= encode_utf8(a) + encode_utf8(b));
    }
}

proof fn lemma_encode_slash()
    ensures
        encode_utf8(seq!['/']) == seq![47u8],
{
    is_ascii_chars_encode_utf8(seq!['/']);
    assert(encode_utf8(seq!['/']) =~= seq![47u8]);
}

/// Slashes at the end of a path lead nowhere.
proof fn lemma_slashes_stay(s: Seq<char>)
    ensures
        cleaned(encode_utf8(without_trailing_slashes(s))) == cleaned(encode_utf8(s)),
    decreases s.len(),
{
    if s.len() > 0 && s.last() == '/' {
        let r = s.drop_last();
        lemma_slashes_stay(r);
        assert(s =~= r + seq!['/']);
        lemma_encode_concat(r, seq!['/']);
        lemma_encode_slash();
        let none = Seq::<u8>::empty();
        paths_are_followed_by_segments(encode_utf8(r), none);
        assert(encode_utf8(r) + seq![47u8] + none =~= encode_utf8(s));
    }
}

/// The path of an entry leads through the directory that it lies in to the
/// entry's name.
pub proof fn child_paths_lead_one_name_further(dir: Seq<char>, name: Seq<char>)
    requires
        names_an_entry(encode_utf8(name)),
    ensures
        cleaned(encode_utf8(without_trailing_slashes(dir) + seq!['/'] + name)) == cleaned(
            encode_utf8(dir),
        ).push(encode_utf8(name)),
{
    let w = without_trailing_slashes(dir);
    lemma_slashes_stay(dir);
    lemma_encode_slash();
    lemma_encode_concat(w, seq!['/']);
    lemma_encode_concat(w + seq!['/'], name);
    paths_are_followed_by_segments(encode_utf8(w), encode_utf8(name));
}

/// A file of the host becomes an entry with its metadata: a symlink with its
/// target, a regular file with its content to come, anything else with
/// neither.
pub proof fn host_files_are_added(
    b: BuilderView,
    path: Seq<char>,
    file: HostFile,
    meta: MetaView,
)
    requires
        tree_wf(b.entries),
        cleaned(encode_utf8(path)).len() > 0,
        is_free(b.entries, cleaned(encode_utf8(path))),
    ensures
        match with_host_file(b, encode_utf8(path), file, meta) {
            Ok(c) => {
                let n = c.entries.len() - 1;
                let names = cleaned(encode_utf8(path));
                &&& c.options == b.options
                &&& keeps(c.entries, b.entries)
                &&& leads(c.entries, names, n)
                &&& c.entries[n].meta == meta
                &&& c.entries[n].kind == kind_of(meta.mode)
                &&& c.entries[n].data.len() == 0
                &&& c.entries[n].pending == (file is Regular)
                &&& match file {
                    HostFile::Symlink(target) => c.entries[n].link == target@,
                    _ => c.entries[n].link.len() == 0,
                }
            },
            Err(e) => e == Error::MissingParent && is_blocked(
                b.entries,
                cleaned(encode_utf8(path)),
            ),
        },
{
    let none = Seq::<u8>::empty();
    adding_directories(b, path, meta);
    adding_entries(b, path, meta, none, false, none);
    adding_entries(b, path, meta, none, true, none);
    if let HostFile::Symlink(target) = file {
        adding_entries(b, path, meta, none, false, target@);
    }
}

/// The content of the fixture's large file counts up and starts again, 251
/// values at a time, over 100000 bytes.
pub proof fn fixture_content_counts_up(i: int)
    ensures
        fixture_bytes().len() == 100000,
        0 <= i < 100000 ==> fixture_bytes()[i] == i % 251,
{
}

/// The fixture's time changes nothing but the time.
pub proof fn fixture_time(m: MetaView)
    ensures
        at_fixture_time(m).mtime == 1700000000,
        at_fixture_time(m).mtime_nsec == m.mtime_nsec,
        at_fixture_time(m).mode == m.mode,
        at_fixture_time(m).uid == m.uid,
        at_fixture_time(m).gid == m.gid,
        at_fixture_time(m).nlink == m.nlink,
        at_fixture_time(m).rdev == m.rdev,
        at_fixture_time(m).xattrs == m.xattrs,
{
}

/// The paths of the fixture, in order.
pub open spec fn fixture_path(k: int) -> Seq<char> {
    if k == 0 {
        "/etc"@
    } else if k == 1 {
        "/etc/motd"@
    } else if k == 2 {
        "/big.bin"@
    } else if k == 3 {
        "/link"@
    } else if k == 4 {
        "/zero"@
    } else if k == 5 {
        "/empty"@
    } else {
        "/empty-file"@
    }
}

/// The modes of the fixture's entries, in order.
pub open spec fn fixture_mode(k: int) -> u16 {
    if k == 0 || k == 5 {
        0o040755
    } else if k == 1 || k == 6 {
        0o100644
    } else if k == 2 {
        0o100600
    } else if k == 3 {
        0o120777
    } else {
        0o020666
    }
}

/// A step of the fixture, on whatever there is, adds the entry with its mode,
/// the fixture's time and, as the case may be, a message and its origin, a
/// content to come, a target or a device.
#[verifier::rlimit(40)]
pub proof fn fixture_steps(b: BuilderView, k: int)
    requires
        tree_wf(b.entries),
        0 <= k < 7,
        is_free(b.entries, cleaned(encode_utf8(fixture_path(k)))),
        cleaned(encode_utf8(fixture_path(k))).len() > 0,
    ensures
        fixture_step(b, k) matches Ok(c) ==> {
            let n = c.entries.last();
            let m = n.meta;
            &&& leads(c.entries, cleaned(encode_utf8(fixture_path(k))), c.entries.len() - 1)
            &&& keeps(c.entries, b.entries)
            &&& c.options == b.options
            &&& m.mode == fixture_mode(k)
            &&& m.mtime == 1700000000
            &&& m.mtime_nsec == 0 && m.uid == 0 && m.gid == 0 && m.nlink is None
            &&& m.rdev == if k == 4 {
                0x0105u32
            } else {
                0
            }
            &&& m.xattrs == if k == 1 {
                seq![
                    XattrView {
                        name: encode_utf8("trusted.origin"@),
                        value: encode_utf8("erofs-rs"@),
                    },
                ]
            } else {
                Seq::empty()
            }
            &&& n.data == if k == 1 {
                encode_utf8("hello from erofs-rs\n"@)
            } else {
                Seq::empty()
            }
            &&& n.pending == (k == 2)
            &&& n.link == if k == 3 {
                encode_utf8("etc/motd"@)
            } else {
                Seq::empty()
            }
        },
        fixture_step(b, k) matches Err(e) ==> e == Error::MissingParent && is_blocked(
            b.entries,
            cleaned(encode_utf8(fixture_path(k))),
        ),
{
    let none = Seq::<u8>::empty();
    lemma_fixture_modes();
    lemma_first_attribute(encode_utf8("trusted.origin"@), encode_utf8("erofs-rs"@));
    if k == 0 || k == 5 {
        let dir = at_fixture_time(plain_meta(typed_mode(0o040000, 0o755)));
        adding_directories(b, fixture_path(k), dir);
        if let Ok(c) = with_dir(b, encode_utf8(fixture_path(k)), dir) {
            assert(c.entries.last().data =~= none && c.entries.last().link =~= none);
        }
    } else if k == 1 {
        adding_entries(
            b,
            fixture_path(k),
            motd_meta(),
            encode_utf8("hello from erofs-rs\n"@),
            false,
            none,
        );
    } else if k == 2 {
        let m = at_fixture_time(plain_meta(typed_mode(0o100000, 0o600)));
        adding_entries(b, fixture_path(k), m, none, true, none);
    } else if k == 3 {
        let m = at_fixture_time(plain_meta(0o120000u16 | 0o777u16));
        adding_entries(b, fixture_path(k), m, none, false, encode_utf8("etc/motd"@));
    } else if k == 4 {
        adding_entries(b, fixture_path(k), zero_meta(), none, false, none);
    } else {
        let m = at_fixture_time(plain_meta(typed_mode(0o100000, 0o644)));
        adding_entries(b, fixture_path(k), m, none, false, none);
    }
}

proof fn lemma_fixture_modes()
    ensures
        typed_mode(0o040000, 0o755) == 0o040755,
        typed_mode(0o100000, 0o644) == 0o100644,
        typed_mode(0o100000, 0o600) == 0o100600,
        0o120000u16 | 0o777u16 == 0o120777,
{
    assert(0o040000u16 | (0o755u16 & !0o170000u16) == 0o040755u16 && 0o100000u16 | (0o644u16
        & !0o170000u16) == 0o100644u16 && 0o100000u16 | (0o600u16 & !0o170000u16) == 0o100600u16
        && 0o120000u16 | 0o777u16 == 0o120777u16) by (bit_vector);
}

proof fn lemma_first_attribute(name: Seq<u8>, value: Seq<u8>)
    ensures
        with_xattr(Seq::empty(), name, value) == seq![XattrView { name, value }],
{
    let none = Seq::<XattrView>::empty();
    assert(rank(none, name) == 0);
    assert(none.insert(0, XattrView { name, value }) =~= seq![XattrView { name, value }]);
}

/// The fixture's steps are taken in order, up to the first that fails.
pub proof fn fixture_goes_step_by_step(b: BuilderView, k: int)
    requires
        0 <= k,
    ensures
        after_fixture(b, 0).0 == b,
        after_fixture(b, 0).1 is None,
        after_fixture(b, k).1 is Some ==> after_fixture(b, k + 1) == after_fixture(b, k),
        after_fixture(b, k).1 is None ==> match fixture_step(after_fixture(b, k).0, k) {
            Ok(c) => after_fixture(b, k + 1).0 == c && after_fixture(b, k + 1).1 is None,
            Err(e) => after_fixture(b, k + 1).0 == after_fixture(b, k).0 && after_fixture(
                b,
                k + 1,
            ).1 == Some(e),
        },
{
}

} // verus!
