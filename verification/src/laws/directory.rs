//! What stands at which offset in the data of a directory.

use vstd::prelude::*;

use super::bytes::{num2, num8};
use super::names::{before, names_compare_by_bytes};
use super::superblock::{lemma_eight, lemma_two, zero_between};
use super::tree::codes_by_number;
use crate::bytes::{holds, le16, le64, lemma_holds_concat, lemma_holds_within, lemma_rounded,
    rounded, zeros};
use crate::dirent::{dir_bytes, dir_bytes_from, lemma_name_bytes_ordered, lemma_packed_names_len,
    lemma_records_len, lemma_run_bytes_len, lemma_run_end, lemma_run_end_from, name_bytes,
    name_offset, names_of, packed_names, record, records, run_bytes, run_end, run_end_from, used,
    EntryView};
use crate::image::payload;
use crate::layout::{DataLayout, FileType};
use crate::order::{a_directory_stores_its_entries_in_order, record_for};
use crate::plan::{dir_entries, image_fits, lemma_off_ordered, lemma_place_at, lemma_pos_of,
    meta_len, nid_of, nids, pos_of, sorted_entries, Geometry};
use crate::round_trip::{lemma_name_held, lemma_record_held};
use crate::tree::{children, is_child, lemma_children, tree_wf, NodeView};

verus! {

broadcast use crate::bytes::group_le_len;

/// The length of the names of the entries `a..b`.
pub open spec fn names_len(es: Seq<EntryView>, a: int, b: int) -> int
    decreases b - a,
{
    if a >= b {
        0
    } else {
        es[a].name.len() + names_len(es, a + 1, b)
    }
}

/// The length of a run of the entries `a..b`: twelve bytes for each, and the
/// names.
pub open spec fn run_len(es: Seq<EntryView>, a: int, b: int) -> int {
    12 * (b - a) + names_len(es, a, b)
}

/// The code of a kind of entry.
pub open spec fn kind_code(kind: FileType) -> int {
    match kind {
        FileType::Unknown => 0,
        FileType::RegFile => 1,
        FileType::Dir => 2,
        FileType::Chrdev => 3,
        FileType::Blkdev => 4,
        FileType::Fifo => 5,
        FileType::Sock => 6,
        FileType::Symlink => 7,
    }
}

/// Entry `k` of the run `a..e` that starts at offset `o`: its record gives the
/// inode number, where in the run its name starts, and its kind; and its name
/// is there, behind all records and the names before it.
pub open spec fn entry_at(b: Seq<u8>, o: int, es: Seq<EntryView>, a: int, e: int, k: int) -> bool {
    let r = o + 12 * (k - a);
    let n = 12 * (e - a) + names_len(es, a, k);
    &&& num8(b, r) == es[k].nid
    &&& num2(b, r + 8) == n
    &&& b[r + 10] == kind_code(es[k].kind)
    &&& b[r + 11] == 0
    &&& b.subrange(o + n, o + n + es[k].name.len()) == es[k].name
}

/// The run `a..e` starts at offset `o`.
pub open spec fn run_at(b: Seq<u8>, o: int, es: Seq<EntryView>, a: int, e: int) -> bool {
    &&& o + run_len(es, a, e) <= b.len()
    &&& forall|k: int| a <= k < e ==> #[trigger] entry_at(b, o, es, a, e, k)
}

/// The first multiple of `bs` that is not below `v`.
pub open spec fn next_block(v: int, bs: int) -> int {
    (v + bs - 1) / bs * bs
}

/// The entries from `a` on stand in runs from offset `o` on, each run at the
/// start of a block. A run takes as many entries as have room in a block, and
/// one that has none stands alone; all but the last run are filled with zeros
/// up to the next block, and the last ends with the data.
pub open spec fn runs_at(b: Seq<u8>, o: int, es: Seq<EntryView>, a: int, bs: int) -> bool
    decreases es.len() - a,
{
    if a >= es.len() {
        o == b.len()
    } else {
        exists|e: int|
            a < e <= es.len() && #[trigger] run_at(b, o, es, a, e) && (e == a + 1 || run_len(es, a, e)
                <= bs) && (if e == es.len() {
                b.len() == o + run_len(es, a, e)
            } else {
                let next = o + next_block(run_len(es, a, e), bs);
                &&& run_len(es, a, e + 1) > bs
                &&& next <= b.len()
                &&& zero_between(b, o + run_len(es, a, e), next)
                &&& runs_at(b, next, es, e, bs)
            })
    }
}

proof fn lemma_names_len(es: Seq<EntryView>, a: int, b: int)
    requires
        0 <= a <= b <= es.len(),
    ensures
        names_len(es, a, b) == name_bytes(names_of(es), a, b),
        a < b ==> names_len(es, a, b) == names_len(es, a, b - 1) + es[b - 1].name.len(),
    decreases b - a,
{
    if a < b {
        lemma_names_len(es, a, b - 1);
        lemma_names_split(es, a, b);
    }
}

proof fn lemma_names_split(es: Seq<EntryView>, a: int, b: int)
    requires
        0 <= a < b <= es.len(),
    ensures
        names_len(es, a, b) == names_len(es, a, b - 1) + es[b - 1].name.len(),
    decreases b - a,
{
    if a < b - 1 {
        lemma_names_split(es, a + 1, b);
    } else {
        assert(names_len(es, a + 1, b) == 0);
        assert(names_len(es, a, b - 1) == 0);
    }
}

/// A run takes no more entries than have room, and one more would not have.
proof fn lemma_run_is_full(names: Seq<Seq<u8>>, a: int, b: int, bs: int)
    requires
        0 <= a <= b <= names.len(),
    ensures
        ({
            let e = run_end_from(names, a, b, bs);
            e < names.len() ==> used(names, a, e + 1) > bs
        }),
    decreases names.len() - b,
{
    if b < names.len() && used(names, a, b + 1) <= bs {
        lemma_run_is_full(names, a, b + 1, bs);
    }
}

/// The entries of a run stand where they belong, wherever the run starts.
#[verifier::rlimit(40)]
proof fn lemma_run_at(b: Seq<u8>, o: int, es: Seq<EntryView>, a: int, e: int)
    requires
        0 <= a < e <= es.len(),
        holds(b, o, run_bytes(es, a, e)),
        run_len(es, a, e) <= 0x1_0000 || e == a + 1,
        forall|k: int| a <= k < e ==> (#[trigger] es[k]).name.len() > 0,
    ensures
        run_at(b, o, es, a, e),
{
    let heads = records(es, a, e, e);
    let tail = packed_names(es, a, e);
    lemma_run_bytes_len(es, a, e);
    lemma_names_len(es, a, e);
    lemma_records_len(es, a, e, e);
    lemma_packed_names_len(es, a, e);
    lemma_holds_concat(heads, tail, Seq::empty());
    lemma_holds_within(b, o, heads + tail, 0, heads);
    lemma_holds_within(b, o, heads + tail, heads.len() as int, tail);
    assert forall|k: int| a <= k < e implies #[trigger] entry_at(b, o, es, a, e, k) by {
        let n = name_offset(names_of(es), a, e, k);
        lemma_record_held(es, a, e, e, k);
        lemma_name_held(es, a, e, k);
        lemma_names_len(es, a, k);
        lemma_holds_within(b, o, heads, 12 * (k - a), record(es[k], n));
        lemma_holds_within(
            b,
            o + heads.len(),
            tail,
            name_bytes(names_of(es), a, k),
            es[k].name,
        );
        lemma_name_bytes_ordered(names_of(es), a, k, k + 1);
        lemma_name_bytes_ordered(names_of(es), a, k + 1, e);
        assert(names_of(es)[k] == es[k].name);
        lemma_record_at(b, o + 12 * (k - a), es[k], n);
    }
}

proof fn lemma_record_at(b: Seq<u8>, o: int, e: EntryView, n: int)
    requires
        holds(b, o, record(e, n)),
        0 <= n < 0x1_0000,
    ensures
        num8(b, o) == e.nid,
        num2(b, o + 8) == n,
        b[o + 10] == kind_code(e.kind),
        b[o + 11] == 0,
{
    let r = record(e, n);
    let s = b.subrange(o, o + 12);
    assert(r.len() == 12);
    assert forall|j: int| 0 <= j < 12 implies b[o + j] == #[trigger] r[j] by {
        assert(s[j] == b[o + j]);
    }
    codes_by_number(e.kind, DataLayout::FlatPlain, 0);
    assert forall|j: int| 0 <= j < 8 implies b[o + j] == #[trigger] le64(e.nid as int)[j] by {
        assert(r[j] == le64(e.nid as int)[j]);
    }
    assert forall|j: int| 0 <= j < 2 implies b[o + 8 + j] == #[trigger] le16(n)[j] by {
        assert(r[8 + j] == le16(n)[j]);
        assert(b[o + (8 + j)] == r[8 + j]);
    }
    lemma_eight(b, o, e.nid as int);
    lemma_two(b, o + 8, n);
    assert(r[10] == e.kind.code() && r[11] == 0);
}

#[verifier::rlimit(40)]
proof fn lemma_runs_at(b: Seq<u8>, o: int, es: Seq<EntryView>, a: int, bs: int)
    requires
        0 <= a <= es.len(),
        0 < bs <= 0x1_0000,
        0 <= o <= b.len(),
        b.skip(o) == dir_bytes_from(es, a, bs),
        forall|k: int| 0 <= k < es.len() ==> (#[trigger] es[k]).name.len() > 0,
    ensures
        runs_at(b, o, es, a, bs),
    decreases es.len() - a,
{
    assert(b.skip(o).len() == b.len() - o);
    if a < es.len() {
        let names = names_of(es);
        let e = run_end(names, a, bs);
        let n = used(names, a, e);
        let run = run_bytes(es, a, e);
        lemma_run_end(names, a, bs);
        lemma_run_bytes_len(es, a, e);
        lemma_names_len(es, a, e);
        lemma_run_is_full(names, a, a, bs);
        lemma_run_end_from(names, a, a, bs);
        let rest = b.skip(o);
        if e < es.len() {
            let next = o + next_block(n, bs);
            lemma_names_len(es, a, e + 1);
            lemma_rounded(n, bs);
            assert(next == o + rounded(n, bs));
            lemma_name_bytes_ordered(names, a, e, e + 1);
            let fill = zeros(rounded(n, bs) - n);
            let later = dir_bytes_from(es, e, bs);
            assert(rest =~= run + fill + later);
            assert forall|j: int| o + n <= j < next implies #[trigger] b[j] == 0 by {
                assert(rest[j - o] == b[j]);
            }
            assert(b.skip(next) =~= later) by {
                assert forall|j: int| 0 <= j < later.len() implies b.skip(next)[j]
                    == #[trigger] later[j] by {
                    assert(rest[next - o + j] == later[j]);
                }
            }
            lemma_runs_at(b, next, es, e, bs);
        } else {
            assert(rest == run);
        }
        assert(b.subrange(o, o + run.len()) =~= run) by {
            assert forall|j: int| 0 <= j < run.len() implies b.subrange(o, o + run.len())[j]
                == #[trigger] run[j] by {
                assert(rest[j] == run[j]);
            }
        }
        lemma_run_at(b, o, es, a, e);
    }
}

/// The data of a directory: its entries in order, in runs.
pub proof fn directory_by_offset(es: Seq<EntryView>, bs: int)
    requires
        0 < bs <= 0x1_0000,
        forall|k: int| 0 <= k < es.len() ==> (#[trigger] es[k]).name.len() > 0,
    ensures
        runs_at(dir_bytes(es, bs), 0, es, 0, bs),
{
    let b = dir_bytes(es, bs);
    assert(b.skip(0) =~= b);
    lemma_runs_at(b, 0, es, 0, bs);
}

/// Inode numbers have room in eight bytes.
proof fn lemma_nid_fits(t: Seq<NodeView>, g: Geometry, i: int)
    requires
        g.wf(),
        tree_wf(t),
        image_fits(t, g),
        0 <= i < t.len(),
    ensures
        0 <= nid_of(t, g, i) <= u64::MAX,
        nids(t, g)[i] == nid_of(t, g, i),
{
    let k = pos_of(t, i);
    lemma_pos_of(t, i);
    lemma_place_at(t, g, k);
    lemma_off_ordered(t, g, k + 1, t.len() as int);
    lemma_rounded(meta_len(t, g), g.bs());
}

/// `e` says of entry `j` of the tree what a directory says of it.
pub open spec fn says(t: Seq<NodeView>, g: Geometry, e: EntryView, j: int) -> bool {
    e.name == t[j].name && e.nid == nid_of(t, g, j) && e.kind == t[j].kind
}

/// `e` stands for the directory `j` under the name `.` or `..`.
pub open spec fn points(
    t: Seq<NodeView>,
    g: Geometry,
    e: EntryView,
    name: Seq<u8>,
    j: int,
) -> bool {
    e.name == name && e.nid == nid_of(t, g, j) && e.kind == FileType::Dir
}

/// `e` is one of the things that directory `i` lists: itself as `.`, the
/// directory that it lies in as `..`, and every entry that lies in it.
pub open spec fn is_listed_in(t: Seq<NodeView>, g: Geometry, i: int, e: EntryView) -> bool {
    ||| points(t, g, e, seq![46u8], i)
    ||| points(t, g, e, seq![46u8, 46u8], t[i].parent)
    ||| exists|j: int| 0 < j < t.len() && t[j].parent == i && #[trigger] says(t, g, e, j)
}

/// A directory lists itself, its parent and its entries, by name, inode number
/// and kind, each once and nothing else, in the order of the names.
#[verifier::rlimit(40)]
pub proof fn directories_list_their_entries(t: Seq<NodeView>, g: Geometry, i: int)
    requires
        g.wf(),
        tree_wf(t),
        image_fits(t, g),
        0 <= i < t.len(),
        t[i].kind == FileType::Dir,
    ensures
        ({
            let es = sorted_entries(t, nids(t, g), i);
            &&& runs_at(payload(t, g, i), 0, es, 0, g.block_size as int)
            &&& forall|a: int, b: int|
                0 <= a < b < es.len() ==> before((#[trigger] es[a]).name, (#[trigger] es[b]).name)
            &&& forall|k: int| 0 <= k < es.len() ==> is_listed_in(t, g, i, #[trigger] es[k])
            &&& forall|e: EntryView| is_listed_in(t, g, i, e) ==> #[trigger] es.contains(e)
        }),
{
    let ns = nids(t, g);
    let es = sorted_entries(t, ns, i);
    let ds = dir_entries(t, ns, i);
    let cs = children(t, i);
    lemma_children(t, i);
    a_directory_stores_its_entries_in_order(t, ns, i);
    lemma_nid_fits(t, g, i);
    if i > 0 {
        assert(crate::tree::entry_wf(t, i));
    }
    lemma_nid_fits(t, g, t[i].parent);
    assert forall|k: int| 0 <= k < es.len() implies is_listed_in(t, g, i, #[trigger] es[k])
        && es[k].name.len() > 0 by {
        assert(es.contains(es[k]));
        assert(ds.contains(es[k]));
        let l = ds.index_of(es[k]);
        assert(ds[l] == es[k]);
        if l >= 2 {
            let j = cs[l - 2];
            assert(is_child(t, i, cs[l - 2]));
            assert(crate::tree::entry_wf(t, j));
            lemma_nid_fits(t, g, j);
            assert(says(t, g, es[k], j));
        }
    }
    assert forall|e: EntryView| is_listed_in(t, g, i, e) implies #[trigger] es.contains(e) by {
        if points(t, g, e, seq![46u8], i) {
            assert(e == (EntryView { name: seq![46u8], nid: ns[i], kind: FileType::Dir }));
        } else if points(t, g, e, seq![46u8, 46u8], t[i].parent) {
            assert(e == (EntryView {
                name: seq![46u8, 46u8],
                nid: ns[t[i].parent],
                kind: FileType::Dir,
            }));
        } else {
            let j = choose|j: int|
                0 < j < t.len() && t[j].parent == i && #[trigger] says(t, g, e, j);
            lemma_nid_fits(t, g, j);
            assert(is_child(t, i, j));
            assert(e == record_for(t, ns, j));
        }
    }
    assert forall|a: int, b: int| 0 <= a < b < es.len() implies before(
        (#[trigger] es[a]).name,
        (#[trigger] es[b]).name,
    ) by {
        names_compare_by_bytes(es[a].name, es[b].name);
    }
    directory_by_offset(es, g.bs());
}

} // verus!
