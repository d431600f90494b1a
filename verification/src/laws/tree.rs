//! What adding entries does, and where paths lead.

use vstd::prelude::*;
use vstd::utf8::{encode_utf8, encode_utf8_valid_utf8};

use super::bytes::num2;
use super::inode::{content, content_by_offset, data_start, group_at, inode_by_offset, inode_start,
    links, links_at, nanoseconds_at, owner_at, seconds_at};
use crate::error::Error;
use crate::image::{image, lemma_payload_has_len};
use crate::layout::{DataLayout, FileType};
use crate::meta::{plain_meta, typed_mode, xattr_bytes, InodeMeta, MetaView};
use crate::path::{all_names, cleaned, cleaned_names_are_names, is_name};
use crate::plan::{entry_fits, image_fits, inode_numbers_differ, nid_of};
use crate::read_back::{dirs_read_back, image_reads_back, paths_read_back, readable, resolve};
use crate::reader::{stat_in, superblock_in};
use crate::streaming::filled;
use crate::tree::{added, adding_an_entry, find, implied_dir, is_named, lemma_added_below_last,
    lemma_find, lemma_implied_dir_kind, lemma_nothing_in_last, lemma_push_wf, lookup, loose,
    placed, tree_wf, NodeView};
use crate::writer::{with_dir, with_entry, BuilderView, CreateOptions};

verus! {

/// The kind of entry that the top four bits of a mode stand for.
pub open spec fn kind_of(mode: u16) -> FileType {
    let bits = mode / 4096;
    if bits == 8 {
        FileType::RegFile
    } else if bits == 4 {
        FileType::Dir
    } else if bits == 2 {
        FileType::Chrdev
    } else if bits == 6 {
        FileType::Blkdev
    } else if bits == 1 {
        FileType::Fifo
    } else if bits == 12 {
        FileType::Sock
    } else if bits == 10 {
        FileType::Symlink
    } else {
        FileType::Unknown
    }
}

/// The kind of an entry follows the type bits of its mode, whatever the
/// permission bits are.
pub proof fn kinds_follow_type_bits(mode: u16)
    ensures
        FileType::of_mode(mode) == kind_of(mode),
{
    assert(mode & 0o170000u16 == mode / 4096 * 4096) by (bit_vector);
}

/// The codes under which the format knows the kinds and the layouts.
pub proof fn codes_by_number(kind: FileType, layout: DataLayout, v: u8)
    ensures
        kind.code() == match kind {
            FileType::Unknown => 0u8,
            FileType::RegFile => 1,
            FileType::Dir => 2,
            FileType::Chrdev => 3,
            FileType::Blkdev => 4,
            FileType::Fifo => 5,
            FileType::Sock => 6,
            FileType::Symlink => 7,
        },
        layout.code() == match layout {
            DataLayout::FlatPlain => 0u8,
            DataLayout::CompressedFull => 1,
            DataLayout::FlatInline => 2,
            DataLayout::CompressedCompact => 3,
            DataLayout::ChunkBased => 4,
        },
        FileType::of_code(v) is Some == (v < 8),
        FileType::of_code(v) == Some(kind) <==> kind.code() == v,
        DataLayout::of_code(v) is Some == (v < 5),
        DataLayout::of_code(v) == Some(layout) <==> layout.code() == v,
{
}

/// A mode that is put together keeps the permission bits of the one and has
/// the type bits of the other.
pub proof fn modes_are_put_together(bits: u16, mode: u16)
    requires
        bits % 4096 == 0,
    ensures
        typed_mode(bits, mode) % 4096 == mode % 4096,
        typed_mode(bits, mode) / 4096 == bits / 4096,
{
    assert((bits | (mode & !0o170000u16)) % 4096 == mode % 4096) by (bit_vector)
        requires
            bits % 4096 == 0,
    ;
    assert((bits | (mode & !0o170000u16)) / 4096 == bits / 4096) by (bit_vector)
        requires
            bits % 4096 == 0,
    ;
}

/// Metadata that only has a mode.
pub open spec fn only_has_mode(m: MetaView, mode: u16) -> bool {
    &&& m.mode == mode
    &&& m.uid == 0
    &&& m.gid == 0
    &&& m.mtime == 0
    &&& m.mtime_nsec == 0
    &&& m.nlink is None
    &&& m.rdev == 0
    &&& m.xattrs.len() == 0
}

/// Plain metadata has its mode and nothing else.
pub proof fn plain_metadata(mode: u16)
    ensures
        only_has_mode(plain_meta(mode), mode),
{
}

/// Metadata stands for its fields.
pub proof fn metadata_by_field(m: InodeMeta)
    ensures
        m@.mode == m.mode,
        m@.uid == m.uid,
        m@.gid == m.gid,
        m@.mtime == m.mtime,
        m@.mtime_nsec == m.mtime_nsec,
        m@.nlink == m.nlink,
        m@.rdev == m.rdev,
        m@.xattrs == m.xattrs@,
{
}

/// Options stand for their fields.
pub proof fn options_by_field(c: CreateOptions)
    ensures
        c@.geometry.block_size == c.block_size,
        c@.geometry.build_time == c.build_time,
        c@.geometry.build_time_nsec == c.build_time_nsec,
        c@.uuid == c.uuid@,
        c@.volume_name == encode_utf8(c.volume_name@),
        c@.checksum == c.checksum,
{
}

/// An entry is made from what it was given; its kind follows its mode.
pub proof fn entries_are_as_given(meta: MetaView, data: Seq<u8>, pending: bool, link: Seq<u8>)
    ensures
        loose(meta, data, pending, link).meta == meta,
        loose(meta, data, pending, link).data == data,
        loose(meta, data, pending, link).pending == pending,
        loose(meta, data, pending, link).link == link,
        loose(meta, data, pending, link).kind == kind_of(meta.mode),
{
    kinds_follow_type_bits(meta.mode);
}

/// Content that comes later is the content of its entry, and changes nothing
/// else.
pub proof fn supplied_content_is_kept(t: Seq<NodeView>, i: int, data: Seq<u8>, j: int)
    requires
        0 <= i < t.len(),
        0 <= j < t.len(),
    ensures
        filled(t, i, data).len() == t.len(),
        j != i ==> filled(t, i, data)[j] == t[j],
        filled(t, i, data)[i].data == data,
        !filled(t, i, data)[i].pending,
        filled(t, i, data)[i].name == t[i].name,
        filled(t, i, data)[i].parent == t[i].parent,
        filled(t, i, data)[i].meta == t[i].meta,
        filled(t, i, data)[i].kind == t[i].kind,
        filled(t, i, data)[i].link == t[i].link,
{
}

/// The names of a path lead to entry `j`: no name leads to the root, and one
/// more name to the entry that has it in the directory so far.
pub open spec fn leads(t: Seq<NodeView>, names: Seq<Seq<u8>>, j: int) -> bool
    decreases names.len(),
{
    if names.len() == 0 {
        j == 0
    } else {
        0 < j < t.len() && t[j].name == names.last() && leads(t, names.drop_last(), t[j].parent)
    }
}

/// A path is looked up name by name.
pub proof fn paths_lead_by_names(t: Seq<NodeView>, names: Seq<Seq<u8>>, j: int)
    requires
        tree_wf(t),
    ensures
        lookup(t, 0, names) == Some(j) <==> leads(t, names, j),
    decreases names.len(),
{
    if names.len() > 0 {
        let front = names.drop_last();
        assert(front.push(names.last()) =~= names);
        lemma_lookup_last(t, 0, front, names.last());
        match lookup(t, 0, front) {
            Some(p) => {
                paths_lead_by_names(t, front, p);
                if find(t, p, names.last()) == Some(j) {
                    assert(exists|k: int| is_named(t, p, names.last(), k));
                    let k = choose|k: int| is_named(t, p, names.last(), k);
                    lemma_find(t, p, names.last(), k);
                }
                if leads(t, names, j) {
                    paths_lead_by_names(t, front, t[j].parent);
                    assert(is_named(t, p, names.last(), j));
                    lemma_find(t, p, names.last(), j);
                }
            },
            None => {
                if leads(t, names, j) {
                    paths_lead_by_names(t, front, t[j].parent);
                }
            },
        }
    }
}

proof fn lemma_lookup_last(t: Seq<NodeView>, i: int, front: Seq<Seq<u8>>, name: Seq<u8>)
    ensures
        lookup(t, i, front.push(name)) == match lookup(t, i, front) {
            Some(p) => find(t, p, name),
            None => None,
        },
    decreases front.len(),
{
    let all = front.push(name);
    if front.len() > 0 {
        assert(all.skip(1) =~= front.skip(1).push(name));
        if let Some(j) = find(t, i, front[0]) {
            lemma_lookup_last(t, j, front.skip(1), name);
        }
    } else {
        assert(all.skip(1) =~= Seq::<Seq<u8>>::empty());
        if let Some(j) = find(t, i, name) {
            assert(lookup(t, j, all.skip(1)) == Some(j));
        }
    }
}

/// The path leads through an entry that is no directory.
pub open spec fn is_blocked(t: Seq<NodeView>, names: Seq<Seq<u8>>) -> bool {
    exists|m: int, j: int|
        0 < m < names.len() && #[trigger] leads(t, names.take(m), j) && t[j].kind != FileType::Dir
}

spec fn blocked_below(t: Seq<NodeView>, i: int, names: Seq<Seq<u8>>) -> bool {
    exists|m: int| blocks(t, i, names, m)
}

spec fn blocks(t: Seq<NodeView>, i: int, names: Seq<Seq<u8>>, m: int) -> bool {
    &&& 0 < m < names.len()
    &&& lookup(t, i, names.take(m)) matches Some(j) && t[j].kind != FileType::Dir
}

/// An entry is refused exactly where its path is blocked.
#[verifier::rlimit(40)]
proof fn lemma_refused(t: Seq<NodeView>, i: int, names: Seq<Seq<u8>>, node: NodeView)
    requires
        tree_wf(t),
        0 <= i < t.len(),
        t[i].kind == FileType::Dir,
        all_names(names),
        node.kind == FileType::of_mode(node.meta.mode),
    ensures
        added(t, i, names, node) is None <==> blocked_below(t, i, names),
    decreases names.len(),
{
    if names.len() > 1 {
        let rest = names.skip(1);
        assert forall|k: int| 0 <= k < rest.len() implies is_name(#[trigger] rest[k]) by {
            assert(rest[k] == names[k + 1]);
        }
        assert(is_name(names[0]));
        assert forall|m: int| 0 < m < names.len() implies #[trigger] lookup(t, i, names.take(m))
            == match find(t, i, names[0]) {
            Some(j) => lookup(t, j, rest.take(m - 1)),
            None => None,
        } by {
            assert(names.take(m).skip(1) =~= rest.take(m - 1));
            assert(names.take(m)[0] == names[0]);
        }
        match find(t, i, names[0]) {
            Some(j) => {
                assert(exists|k: int| is_named(t, i, names[0], k));
                assert(lookup(t, j, rest.take(0)) == Some(j));
                if t[j].kind == FileType::Dir {
                    lemma_refused(t, j, rest, node);
                    if blocked_below(t, j, rest) {
                        let m = choose|m: int| blocks(t, j, rest, m);
                        assert(lookup(t, i, names.take(m + 1)) == lookup(t, j, rest.take(m)));
                        assert(blocks(t, i, names, m + 1));
                    }
                    if blocked_below(t, i, names) {
                        let m = choose|m: int| blocks(t, i, names, m);
                        assert(m > 1);
                        assert(blocks(t, j, rest, m - 1));
                    }
                } else {
                    assert(lookup(t, i, names.take(1)) == Some(j));
                    assert(blocks(t, i, names, 1));
                }
            },
            None => {
                let n = placed(implied_dir(), i, names[0]);
                lemma_implied_dir_kind();
                lemma_push_wf(t, n);
                assert(t.push(n).last() == n);
                lemma_added_below_last(t.push(n), rest, node);
            },
        }
    }
}

proof fn lemma_blocked(t: Seq<NodeView>, names: Seq<Seq<u8>>)
    requires
        tree_wf(t),
    ensures
        is_blocked(t, names) <==> blocked_below(t, 0, names),
{
    if blocked_below(t, 0, names) {
        let m = choose|m: int| blocks(t, 0, names, m);
        let j = lookup(t, 0, names.take(m))->Some_0;
        paths_lead_by_names(t, names.take(m), j);
        assert(leads(t, names.take(m), j));
    }
    if is_blocked(t, names) {
        let (m, j) = choose|m: int, j: int|
            0 < m < names.len() && #[trigger] leads(t, names.take(m), j) && t[j].kind
                != FileType::Dir;
        paths_lead_by_names(t, names.take(m), j);
        assert(blocks(t, 0, names, m));
    }
}

/// A directory that is made because a path leads through it.
pub open spec fn is_made_dir(n: NodeView) -> bool {
    &&& only_has_mode(n.meta, 0o040755)
    &&& n.kind == FileType::Dir
    &&& n.data.len() == 0
    &&& !n.pending
    &&& n.link.len() == 0
}

/// The directory that a path calls for is a plain one.
pub proof fn made_directories()
    ensures
        is_made_dir(implied_dir()),
        implied_dir().parent == 0,
        implied_dir().name.len() == 0,
{
    lemma_implied_dir_kind();
    assert(0o040000u16 | (0o755u16 & !0o170000u16) == 0o040755u16) by (bit_vector);
}

/// New entries follow one another down the path; all but the last are
/// directories that the path calls for.
proof fn lemma_new_entries(t: Seq<NodeView>, i: int, names: Seq<Seq<u8>>, node: NodeView)
    requires
        tree_wf(t),
        0 <= i < t.len(),
        t[i].kind == FileType::Dir,
        all_names(names),
        names.len() > 0,
        node.kind == FileType::of_mode(node.meta.mode),
    ensures
        added(t, i, names, node) matches Some(u) ==> {
            &&& t.len() <= u.len()
            &&& forall|k: int| t.len() <= k < u.len() - 1 ==> is_made_dir(#[trigger] u[k])
            &&& forall|k: int| t.len() < k < u.len() ==> (#[trigger] u[k]).parent == k - 1
            &&& find(t, i, names[0]) is None ==> u.len() > t.len() && u[t.len() as int].parent == i
        },
    decreases names.len(),
{
    made_directories();
    adding_an_entry(t, i, names, node);
    if names.len() > 1 {
        let rest = names.skip(1);
        assert forall|k: int| 0 <= k < rest.len() implies is_name(#[trigger] rest[k]) by {
            assert(rest[k] == names[k + 1]);
        }
        assert(is_name(names[0]));
        match find(t, i, names[0]) {
            Some(j) => {
                assert(exists|k: int| is_named(t, i, names[0], k));
                if t[j].kind == FileType::Dir {
                    lemma_new_entries(t, j, rest, node);
                }
            },
            None => {
                let n = placed(implied_dir(), i, names[0]);
                let v = t.push(n);
                lemma_implied_dir_kind();
                lemma_push_wf(t, n);
                assert(v[t.len() as int] == n);
                lemma_nothing_in_last(v, rest[0]);
                lemma_new_entries(v, t.len() as int, rest, node);
                adding_an_entry(v, t.len() as int, rest, node);
                if let Some(u) = added(v, t.len() as int, rest, node) {
                    assert(u[t.len() as int] == n) by {
                        assert(u.subrange(0, v.len() as int)[t.len() as int] == u[t.len() as int]);
                    }
                }
            },
        }
    }
}

/// The first names of a path lead to the entry so many steps above the one
/// that the whole path leads to.
proof fn lemma_leads_above(u: Seq<NodeView>, names: Seq<Seq<u8>>, first: int, k: int)
    requires
        leads(u, names, u.len() - 1),
        first <= k < u.len(),
        0 < first,
        forall|l: int| first < l < u.len() ==> (#[trigger] u[l]).parent == l - 1,
    ensures
        u.len() - 1 - k < names.len(),
        leads(u, names.take(names.len() - (u.len() - 1 - k)), k),
    decreases u.len() - k,
{
    if k == u.len() - 1 {
        assert(names.take(names.len() as int) =~= names);
    } else {
        lemma_leads_above(u, names, first, k + 1);
        let some = names.take(names.len() - (u.len() - 2 - k));
        assert(u[k + 1].parent == k);
        assert(some.drop_last() =~= names.take(names.len() - (u.len() - 1 - k)));
        if some.len() == 1 {
            assert(leads(u, some.drop_last(), k));
        }
    }
}

/// No entry is where the path leads.
pub open spec fn is_free(t: Seq<NodeView>, names: Seq<Seq<u8>>) -> bool {
    forall|j: int| !leads(t, names, j)
}

/// The entries of `t` are still there, each as it was and where it was.
pub open spec fn keeps(u: Seq<NodeView>, t: Seq<NodeView>) -> bool {
    &&& t.len() <= u.len()
    &&& forall|k: int| 0 <= k < t.len() ==> #[trigger] u[k] == t[k]
}

/// Adding an entry. Where the path is free it leads afterwards to an entry
/// that has exactly what the call was given; directories are made on the way
/// as far as they are missing; and everything that was there stays as it is.
/// Where the path is taken nothing changes. A path that names the root is
/// refused, and so is one that leads through an entry that is no directory.
#[verifier::rlimit(40)]
pub proof fn adding_entries(
    b: BuilderView,
    path: Seq<char>,
    meta: MetaView,
    data: Seq<u8>,
    pending: bool,
    link: Seq<u8>,
)
    requires
        tree_wf(b.entries),
    ensures
        ({
            let names = cleaned(encode_utf8(path));
            let t = b.entries;
            match with_entry(b, encode_utf8(path), loose(meta, data, pending, link)) {
                Ok(c) => {
                    let u = c.entries;
                    let n = u.len() - 1;
                    &&& names.len() > 0 && !is_blocked(t, names)
                    &&& c.options == b.options
                    &&& tree_wf(u)
                    &&& keeps(u, t)
                    &&& !is_free(t, names) ==> u.len() == t.len()
                    &&& is_free(t, names) ==> {
                        &&& t.len() <= n
                        &&& leads(u, names, n)
                        &&& u[n].name == names.last()
                        &&& u[n].meta == meta
                        &&& u[n].data == data
                        &&& u[n].pending == pending
                        &&& u[n].link == link
                        &&& u[n].kind == kind_of(meta.mode)
                        &&& forall|k: int| t.len() <= k < n ==> is_made_dir(#[trigger] u[k])
                        &&& forall|k: int|
                            #![trigger u[k]]
                            t.len() <= k <= n ==> n - k < names.len() && leads(
                                u,
                                names.take(names.len() - (n - k)),
                                k,
                            )
                    }
                },
                Err(e) => if names.len() == 0 {
                    e == Error::InvalidPath
                } else {
                    is_blocked(t, names) && e == Error::MissingParent
                },
            }
        }),
{
    let names = cleaned(encode_utf8(path));
    let t = b.entries;
    let node = loose(meta, data, pending, link);
    entries_are_as_given(meta, data, pending, link);
    if names.len() > 0 {
        encode_utf8_valid_utf8(path);
        cleaned_names_are_names(encode_utf8(path));
        adding_an_entry(t, 0, names, node);
        lemma_refused(t, 0, names, node);
        lemma_blocked(t, names);
        lemma_new_entries(t, 0, names, node);
        if let Some(u) = added(t, 0, names, node) {
            let n = u.len() - 1;
            assert forall|k: int| 0 <= k < t.len() implies #[trigger] u[k] == t[k] by {
                assert(u.subrange(0, t.len() as int)[k] == u[k]);
            }
            if let Some(j) = lookup(t, 0, names) {
                paths_lead_by_names(t, names, j);
            } else {
                assert forall|j: int| !leads(t, names, j) by {
                    paths_lead_by_names(t, names, j);
                }
                paths_lead_by_names(u, names, n);
                assert(u.last() == u[n]);
                assert forall|k: int|
                    #![trigger u[k]]
                    t.len() <= k <= n implies n - k < names.len() && leads(
                    u,
                    names.take(names.len() - (n - k)),
                    k,
                ) by {
                    lemma_leads_above(u, names, t.len() as int, k);
                }
            }
        }
    }
}

/// Adding a directory is adding an entry without content, but for the root,
/// which is there already and only gets the metadata.
pub proof fn adding_directories(b: BuilderView, path: Seq<char>, meta: MetaView)
    requires
        tree_wf(b.entries),
    ensures
        ({
            let names = cleaned(encode_utf8(path));
            let t = b.entries;
            match with_dir(b, encode_utf8(path), meta) {
                Ok(c) => {
                    let u = c.entries;
                    &&& !is_blocked(t, names)
                    &&& c.options == b.options
                    &&& names.len() == 0 ==> {
                        &&& u.len() == t.len()
                        &&& u[0].meta == meta
                        &&& u[0].kind == t[0].kind
                        &&& u[0].parent == t[0].parent
                        &&& u[0].name == t[0].name
                        &&& u[0].data == t[0].data
                        &&& u[0].pending == t[0].pending
                        &&& u[0].link == t[0].link
                        &&& forall|k: int| 0 < k < t.len() ==> #[trigger] u[k] == t[k]
                    }
                    &&& names.len() > 0 ==> keeps(u, t)
                    &&& names.len() > 0 && !is_free(t, names) ==> u.len() == t.len()
                    &&& names.len() > 0 && is_free(t, names) ==> {
                        &&& leads(u, names, u.len() - 1)
                        &&& u.last().meta == meta
                        &&& u.last().kind == kind_of(meta.mode)
                        &&& u.last().data.len() == 0
                        &&& !u.last().pending
                        &&& u.last().link.len() == 0
                    }
                },
                Err(e) => is_blocked(t, names) && e == Error::MissingParent,
            }
        }),
{
    let names = cleaned(encode_utf8(path));
    adding_entries(b, path, meta, Seq::empty(), false, Seq::empty());
    if names.len() == 0 {
        assert(!is_blocked(b.entries, names));
    }
}

/// What was added is in the finished image: where the path was free, the inode
/// of the entry that it leads to gives the mode, owner, group and time that the
/// call was given, and the links, unless it is a directory, whose links are
/// counted; and for a file or symlink it leads to the content or target.
#[verifier::rlimit(40)]
pub proof fn added_entries_are_in_the_image(
    b: BuilderView,
    path: Seq<char>,
    meta: MetaView,
    data: Seq<u8>,
    link: Seq<u8>,
)
    requires
        tree_wf(b.entries),
        b.options.wf(),
        is_free(b.entries, cleaned(encode_utf8(path))),
        data.len() < 0x1_0000_0000_0000_0000,
        link.len() < 0x1_0000_0000_0000_0000,
        xattr_bytes(meta.xattrs).len() <= 12 + 4 * 65534,
    ensures
        with_entry(b, encode_utf8(path), loose(meta, data, false, link)) matches Ok(c)
            ==> image_fits(c.entries, c.options.geometry) ==> {
            let u = c.entries;
            let g = c.options.geometry;
            let n = u.len() - 1;
            let img = image(u, c.options);
            let at = inode_start(img, g.block_size as int, nid_of(u, g, n));
            let held = if meta.mode / 4096 == 8 {
                data
            } else {
                link
            };
            let d = data_start(img, g.block_size as int, at);
            &&& leads(u, cleaned(encode_utf8(path)), n)
            &&& num2(img, at + 4) == meta.mode
            &&& owner_at(img, at) == meta.uid
            &&& group_at(img, at) == meta.gid
            &&& seconds_at(img, at) == meta.mtime
            &&& nanoseconds_at(img, at) == meta.mtime_nsec
            &&& meta.nlink matches Some(l) ==> links_at(img, at) == l
            &&& meta.nlink is None && meta.mode / 4096 != 4 ==> links_at(img, at) == 1
            &&& meta.mode / 4096 == 8 || meta.mode / 4096 == 10 ==> 0 <= d && d + held.len()
                <= img.len() && img.subrange(d, d + held.len()) == held
        },
{
    adding_entries(b, path, meta, data, false, link);
    if let Ok(c) = with_entry(b, encode_utf8(path), loose(meta, data, false, link)) {
        if image_fits(c.entries, c.options.geometry) {
            let n = c.entries.len() - 1;
            assert(entry_fits(c.entries, n, c.options.geometry));
            lemma_payload_has_len(c.entries, c.options.geometry, n);
            inode_by_offset(c.entries, c.options, n);
            content_by_offset(c.entries, c.options, n);
        }
    }
}

/// The path leads in an image to an inode whose status has the mode and the
/// kind that goes with it.
pub open spec fn found_with_mode(img: Seq<u8>, names: Seq<Seq<u8>>, mode: u16) -> bool {
    match superblock_in(img) {
        Err(_) => false,
        Ok(sb) => match resolve(img, sb, sb.root_nid, names) {
            None => false,
            Some(nid) => match stat_in(img, sb, nid) {
                Err(_) => false,
                Ok(s) => s.mode == mode && s.kind == kind_of(mode),
            },
        },
    }
}

/// What was added can be asked for: as far as the directories of the finished
/// image can be read, the path leads there to an inode number, and the status
/// of that inode has the mode that the call was given.
#[verifier::rlimit(40)]
pub proof fn added_entries_are_found_in_the_image(
    b: BuilderView,
    path: Seq<char>,
    meta: MetaView,
    data: Seq<u8>,
    link: Seq<u8>,
)
    requires
        tree_wf(b.entries),
        b.options.wf(),
        is_free(b.entries, cleaned(encode_utf8(path))),
    ensures
        with_entry(b, encode_utf8(path), loose(meta, data, false, link)) matches Ok(c) ==> {
            let u = c.entries;
            let g = c.options.geometry;
            let n = u.len() - 1;
            let img = image(u, c.options);
            image_fits(u, g) && img.len() <= u64::MAX && dirs_read_back(u, g) && readable(u, g, n)
                ==> found_with_mode(img, cleaned(encode_utf8(path)), meta.mode)
        },
{
    adding_entries(b, path, meta, data, false, link);
    if let Ok(c) = with_entry(b, encode_utf8(path), loose(meta, data, false, link)) {
        let u = c.entries;
        let g = c.options.geometry;
        let n = u.len() - 1;
        let img = image(u, c.options);
        if image_fits(u, g) && img.len() <= u64::MAX && dirs_read_back(u, g) && readable(u, g, n) {
            paths_lead_by_names(u, cleaned(encode_utf8(path)), n);
            image_reads_back(u, c.options, n);
            paths_read_back(u, c.options, 0, cleaned(encode_utf8(path)));
            inode_numbers_differ(u, g, 0, n);
        }
    }
}

} // verus!
