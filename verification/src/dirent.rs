//! The data of a directory: runs of fixed-size records, each run followed by
//! the names of its entries packed back to back and, unless it is the last
//! run, by zeros up to the end of the block.

use vstd::prelude::*;

use crate::bytes::{div_ceil, le16, le64, lemma_rounded, push_le16, push_le64, push_slice,
    push_zeros, round_up, rounded, zeros};
use crate::layout::{FileType, SIZE_DIRENT};

verus! {

broadcast use crate::bytes::group_le_len;

/// What a directory says of one of its entries.
#[verifier::ext_equal]
pub struct EntryView {
    pub name: Seq<u8>,
    pub nid: u64,
    pub kind: FileType,
}

/// An entry of a directory, as the image stores it.
pub struct DirEntry {
    pub name: Vec<u8>,
    pub nid: u64,
    pub kind: FileType,
}

impl View for DirEntry {
    type V = EntryView;

    open spec fn view(&self) -> EntryView {
        EntryView { name: self.name@, nid: self.nid, kind: self.kind }
    }
}

/// The mathematical value of a list of entries.
pub open spec fn entry_views(es: Seq<DirEntry>) -> Seq<EntryView> {
    Seq::new(es.len(), |i: int| es[i]@)
}

/// The names of a list of entries.
pub open spec fn names_of(es: Seq<EntryView>) -> Seq<Seq<u8>> {
    Seq::new(es.len(), |i: int| es[i].name)
}

/// The length of the names `a..b` taken together.
pub open spec fn name_bytes(names: Seq<Seq<u8>>, a: int, b: int) -> int
    decreases b - a,
{
    if b <= a {
        0
    } else {
        name_bytes(names, a, b - 1) + names[b - 1].len()
    }
}

/// The length of one run that holds the entries `a..b`.
pub open spec fn used(names: Seq<Seq<u8>>, a: int, b: int) -> int {
    SIZE_DIRENT * (b - a) + name_bytes(names, a, b)
}

/// The furthest that a run which starts at `a` and reaches to `b` can be
/// extended within one block.
pub open spec fn run_end_from(names: Seq<Seq<u8>>, a: int, b: int, bs: int) -> int
    decreases names.len() - b,
{
    if b < names.len() && used(names, a, b + 1) <= bs {
        run_end_from(names, a, b + 1, bs)
    } else {
        b
    }
}

/// Where the run that starts at `a` ends: it takes as many entries as fit in
/// a block, and one that fits in none gets a run of its own.
pub open spec fn run_end(names: Seq<Seq<u8>>, a: int, bs: int) -> int {
    let e = run_end_from(names, a, a, bs);
    if e == a {
        a + 1
    } else {
        e
    }
}

/// The length of the data of a directory from entry `a` on.
pub open spec fn dir_size_from(names: Seq<Seq<u8>>, a: int, bs: int) -> int
    decreases names.len() - a,
{
    if a < 0 || a >= names.len() {
        0
    } else {
        let e = run_end(names, a, bs);
        if a < e < names.len() {
            rounded(used(names, a, e), bs) + dir_size_from(names, e, bs)
        } else {
            used(names, a, e)
        }
    }
}

/// The length of the data of a directory with these names.
pub open spec fn dir_size(names: Seq<Seq<u8>>, bs: int) -> int {
    dir_size_from(names, 0, bs)
}

/// The record of an entry whose name stands at `nameoff` within its run.
pub open spec fn record(e: EntryView, nameoff: int) -> Seq<u8> {
    le64(e.nid as int) + le16(nameoff) + seq![e.kind.code(), 0u8]
}

/// Where the name of entry `k` stands within the run `a..e`.
pub open spec fn name_offset(names: Seq<Seq<u8>>, a: int, e: int, k: int) -> int {
    SIZE_DIRENT * (e - a) + name_bytes(names, a, k)
}

/// The records of the entries `a..k` of the run `a..e`.
pub open spec fn records(es: Seq<EntryView>, a: int, e: int, k: int) -> Seq<u8>
    decreases k - a,
{
    if k <= a {
        Seq::empty()
    } else {
        records(es, a, e, k - 1) + record(es[k - 1], name_offset(names_of(es), a, e, k - 1))
    }
}

/// The names of the entries `a..k`, packed.
pub open spec fn packed_names(es: Seq<EntryView>, a: int, k: int) -> Seq<u8>
    decreases k - a,
{
    if k <= a {
        Seq::empty()
    } else {
        packed_names(es, a, k - 1) + es[k - 1].name
    }
}

/// The run that holds the entries `a..e`.
pub open spec fn run_bytes(es: Seq<EntryView>, a: int, e: int) -> Seq<u8> {
    records(es, a, e, e) + packed_names(es, a, e)
}

/// The data of a directory from entry `a` on.
pub open spec fn dir_bytes_from(es: Seq<EntryView>, a: int, bs: int) -> Seq<u8>
    decreases es.len() - a,
{
    if a < 0 || a >= es.len() {
        Seq::empty()
    } else {
        let names = names_of(es);
        let e = run_end(names, a, bs);
        if a < e < es.len() {
            run_bytes(es, a, e) + zeros(rounded(used(names, a, e), bs) - used(names, a, e))
                + dir_bytes_from(es, e, bs)
        } else {
            run_bytes(es, a, e)
        }
    }
}

/// The data of a directory with these entries.
pub open spec fn dir_bytes(es: Seq<EntryView>, bs: int) -> Seq<u8> {
    dir_bytes_from(es, 0, bs)
}

pub proof fn lemma_name_bytes_ordered(names: Seq<Seq<u8>>, a: int, b: int, c: int)
    requires
        a <= b <= c,
    ensures
        0 <= name_bytes(names, a, b) <= name_bytes(names, a, c),
    decreases c - a,
{
    if b < c {
        lemma_name_bytes_ordered(names, a, b, c - 1);
    } else if a < b {
        lemma_name_bytes_ordered(names, a, b - 1, b - 1);
    }
}

pub proof fn lemma_run_end_from(names: Seq<Seq<u8>>, a: int, b: int, bs: int)
    requires
        0 <= a <= b <= names.len(),
        a == b || used(names, a, b) <= bs,
    ensures
        b <= run_end_from(names, a, b, bs) <= names.len(),
        run_end_from(names, a, b, bs) == a || used(names, a, run_end_from(names, a, b, bs)) <= bs,
    decreases names.len() - b,
{
    if b < names.len() && used(names, a, b + 1) <= bs {
        lemma_run_end_from(names, a, b + 1, bs);
    }
}

/// A run takes at least one entry, and more than one only if they fit in a
/// block together.
pub proof fn lemma_run_end(names: Seq<Seq<u8>>, a: int, bs: int)
    requires
        0 <= a < names.len(),
    ensures
        a < run_end(names, a, bs) <= names.len(),
        used(names, a, run_end(names, a, bs)) <= bs || run_end(names, a, bs) == a + 1,
        used(names, a, run_end(names, a, bs)) >= SIZE_DIRENT,
{
    lemma_run_end_from(names, a, a, bs);
    lemma_name_bytes_ordered(names, a, a, run_end(names, a, bs));
}

pub proof fn lemma_dir_size_from_nonnegative(names: Seq<Seq<u8>>, a: int, bs: int)
    requires
        bs > 0,
    ensures
        0 <= dir_size_from(names, a, bs),
        0 <= a < names.len() ==> dir_size_from(names, a, bs) > 0,
    decreases names.len() - a,
{
    if 0 <= a < names.len() {
        let e = run_end(names, a, bs);
        lemma_run_end(names, a, bs);
        if a < e < names.len() {
            lemma_rounded(used(names, a, e), bs);
            lemma_dir_size_from_nonnegative(names, e, bs);
        }
    }
}

pub proof fn lemma_records_len(es: Seq<EntryView>, a: int, e: int, k: int)
    requires
        a <= k,
    ensures
        records(es, a, e, k).len() == SIZE_DIRENT * (k - a),
    decreases k - a,
{
    if k > a {
        lemma_records_len(es, a, e, k - 1);
    }
}

pub proof fn lemma_packed_names_len(es: Seq<EntryView>, a: int, k: int)
    requires
        0 <= a <= k <= es.len(),
    ensures
        packed_names(es, a, k).len() == name_bytes(names_of(es), a, k),
    decreases k - a,
{
    if k > a {
        lemma_packed_names_len(es, a, k - 1);
    }
}

pub proof fn lemma_run_bytes_len(es: Seq<EntryView>, a: int, e: int)
    requires
        0 <= a <= e <= es.len(),
    ensures
        run_bytes(es, a, e).len() == used(names_of(es), a, e),
{
    lemma_records_len(es, a, e, e);
    lemma_packed_names_len(es, a, e);
}

proof fn lemma_dir_bytes_from_len(es: Seq<EntryView>, a: int, bs: int)
    requires
        bs > 0,
    ensures
        dir_bytes_from(es, a, bs).len() == dir_size_from(names_of(es), a, bs),
    decreases es.len() - a,
{
    if 0 <= a < es.len() {
        let names = names_of(es);
        let e = run_end(names, a, bs);
        lemma_run_end(names, a, bs);
        lemma_run_bytes_len(es, a, e);
        if a < e < es.len() {
            lemma_rounded(used(names, a, e), bs);
            lemma_dir_bytes_from_len(es, e, bs);
        }
    }
}

/// The size that the names call for is the length of the data.
pub proof fn dir_bytes_have_dir_size(es: Seq<EntryView>, bs: int)
    requires
        bs > 0,
    ensures
        dir_bytes(es, bs).len() == dir_size(names_of(es), bs),
{
    lemma_dir_bytes_from_len(es, 0, bs);
}

/// Where the run that starts at `start` ends.
fn find_run_end(es: &Vec<DirEntry>, start: usize, block_size: usize) -> (end: usize)
    requires
        start < es@.len(),
    ensures
        end == run_end(names_of(entry_views(es@)), start as int, block_size as int),
{
    let ghost names = names_of(entry_views(es@));
    let mut room: usize = block_size;
    let mut i: usize = start;
    while i < es.len() && room >= SIZE_DIRENT && es[i].name.len() <= room - SIZE_DIRENT
        invariant
            names == names_of(entry_views(es@)),
            start <= i <= es@.len(),
            room == block_size - used(names, start as int, i as int),
            run_end_from(names, start as int, i as int, block_size as int) == run_end_from(
                names,
                start as int,
                start as int,
                block_size as int,
            ),
        decreases es@.len() - i,
    {
        assert(names[i as int] == es@[i as int].name@);
        assert(used(names, start as int, i + 1) == used(names, start as int, i as int) + SIZE_DIRENT
            + names[i as int].len());
        room = room - SIZE_DIRENT - es[i].name.len();
        i = i + 1;
    }
    proof {
        if i < es@.len() {
            assert(names[i as int] == es@[i as int].name@);
            assert(used(names, start as int, i + 1) == used(names, start as int, i as int)
                + SIZE_DIRENT + names[i as int].len());
        }
    }
    if i == start {
        start + 1
    } else {
        i
    }
}

/// The length of the names of the entries `a..b` and their records.
fn run_length(es: &Vec<DirEntry>, a: usize, b: usize) -> (r: Option<usize>)
    requires
        a <= b <= es@.len(),
    ensures
        r is Some <==> used(names_of(entry_views(es@)), a as int, b as int) <= usize::MAX,
        r matches Some(n) ==> n == used(names_of(entry_views(es@)), a as int, b as int),
{
    let ghost names = names_of(entry_views(es@));
    let mut total: usize = 0;
    let mut k: usize = a;
    while k < b
        invariant
            a <= k <= b <= es@.len(),
            names == names_of(entry_views(es@)),
            total == used(names, a as int, k as int),
        decreases b - k,
    {
        proof {
            assert(names[k as int] == es@[k as int].name@);
            assert(used(names, a as int, k + 1) == total + SIZE_DIRENT + names[k as int].len());
            lemma_name_bytes_ordered(names, a as int, k + 1, b as int);
        }
        match total.checked_add(SIZE_DIRENT) {
            Some(t) => match t.checked_add(es[k].name.len()) {
                Some(t2) => {
                    total = t2;
                },
                None => {
                    return None;
                },
            },
            None => {
                return None;
            },
        }
        k = k + 1;
    }
    Some(total)
}

/// `rounded`, where it can be represented.
pub fn checked_round_up(v: usize, align: usize) -> (r: Option<usize>)
    requires
        align > 0,
    ensures
        r is Some <==> rounded(v as int, align as int) <= usize::MAX,
        r matches Some(n) ==> n == rounded(v as int, align as int),
{
    div_ceil(v, align).checked_mul(align)
}

/// The length of the data of a directory with these entries, where it can be
/// represented.
pub fn dirent_data_size(es: &Vec<DirEntry>, block_size: usize) -> (r: Option<usize>)
    requires
        block_size > 0,
    ensures
        r is Some <==> dir_size(names_of(entry_views(es@)), block_size as int) <= usize::MAX,
        r matches Some(n) ==> n == dir_size(names_of(entry_views(es@)), block_size as int),
{
    let ghost names = names_of(entry_views(es@));
    let ghost bs = block_size as int;
    let mut total: usize = 0;
    let mut i: usize = 0;
    while i < es.len()
        invariant
            names == names_of(entry_views(es@)),
            bs == block_size,
            block_size > 0,
            i <= es@.len(),
            total + dir_size_from(names, i as int, bs) == dir_size(names, bs),
        decreases es@.len() - i,
    {
        let end: usize = find_run_end(es, i, block_size);
        proof {
            lemma_run_end(names, i as int, bs);
            lemma_dir_size_from_nonnegative(names, end as int, bs);
            lemma_rounded(used(names, i as int, end as int), bs);
        }
        let mut length: usize = match run_length(es, i, end) {
            Some(n) => n,
            None => {
                return None;
            },
        };
        if end < es.len() {
            length = match checked_round_up(length, block_size) {
                Some(n) => n,
                None => {
                    return None;
                },
            };
        }
        total = match total.checked_add(length) {
            Some(n) => n,
            None => {
                return None;
            },
        };
        i = end;
    }
    Some(total)
}

/// Appends the run that holds the entries `start..end`.
fn push_run(out: &mut Vec<u8>, es: &Vec<DirEntry>, start: usize, end: usize)
    requires
        start < end <= es@.len(),
        used(names_of(entry_views(es@)), start as int, end as int) <= usize::MAX,
        forall|k: int|
            start <= k < end ==> name_offset(
                names_of(entry_views(es@)),
                start as int,
                end as int,
                k,
            ) <= u16::MAX,
    ensures
        final(out)@ == old(out)@ + run_bytes(entry_views(es@), start as int, end as int),
{
    let ghost v = entry_views(es@);
    let ghost names = names_of(v);
    let ghost (a, e) = (start as int, end as int);
    proof {
        lemma_name_bytes_ordered(names, a, a, e);
    }
    let mut nameoff: usize = (end - start) * SIZE_DIRENT;
    let mut k: usize = start;
    while k < end
        invariant
            start <= k <= end <= es@.len(),
            v == entry_views(es@),
            names == names_of(v),
            a == start,
            e == end,
            used(names, a, e) <= usize::MAX,
            nameoff == name_offset(names, a, e, k as int),
            forall|j: int| a <= j < e ==> #[trigger] name_offset(names, a, e, j) <= u16::MAX,
            out@ == old(out)@ + records(v, a, e, k as int),
        decreases end - k,
    {
        assert(v[k as int] == es@[k as int]@);
        assert(name_offset(names, a, e, k as int) <= u16::MAX);
        push_le64(out, es[k].nid);
        push_le16(out, nameoff as u16);
        out.push(es[k].kind.to_u8());
        out.push(0);
        proof {
            assert(out@ =~= old(out)@ + records(v, a, e, k as int) + record(
                v[k as int],
                nameoff as int,
            ));
            assert(records(v, a, e, k + 1) == records(v, a, e, k as int) + record(
                v[k as int],
                nameoff as int,
            ));
            assert(out@ =~= old(out)@ + records(v, a, e, k + 1));
            lemma_name_bytes_ordered(names, a, k + 1, e);
            assert(names[k as int] == es@[k as int].name@);
        }
        nameoff = nameoff + es[k].name.len();
        k = k + 1;
    }
    let ghost heads = out@;
    k = start;
    assert(out@ =~= heads + packed_names(v, a, a));
    while k < end
        invariant
            start <= k <= end <= es@.len(),
            v == entry_views(es@),
            a == start,
            out@ == heads + packed_names(v, a, k as int),
        decreases end - k,
    {
        push_slice(out, es[k].name.as_slice());
        assert(v[k as int].name == es@[k as int].name@);
        assert(out@ =~= heads + packed_names(v, a, k + 1));
        k = k + 1;
    }
    assert(out@ =~= old(out)@ + run_bytes(v, a, e));
}

proof fn lemma_name_offsets_fit(names: Seq<Seq<u8>>, a: int, bs: int, k: int)
    requires
        0 <= a < names.len(),
        0 < bs <= 0x1_0000,
        forall|i: int| 0 <= i < names.len() ==> #[trigger] names[i].len() > 0,
        a <= k < run_end(names, a, bs),
    ensures
        name_offset(names, a, run_end(names, a, bs), k) <= u16::MAX,
{
    let e = run_end(names, a, bs);
    lemma_run_end(names, a, bs);
    lemma_name_bytes_ordered(names, a, k, e - 1);
    assert(name_bytes(names, a, e) == name_bytes(names, a, e - 1) + names[e - 1].len());
}

/// The data of a directory with these entries.
pub fn build_dirents(es: &Vec<DirEntry>, block_size: usize) -> (out: Vec<u8>)
    requires
        0 < block_size <= 0x1_0000,
        forall|i: int| 0 <= i < es@.len() ==> #[trigger] es@[i].name@.len() > 0,
        dir_size(names_of(entry_views(es@)), block_size as int) <= usize::MAX,
    ensures
        out@ == dir_bytes(entry_views(es@), block_size as int),
{
    let ghost v = entry_views(es@);
    let ghost names = names_of(v);
    let ghost bs = block_size as int;
    let mut out: Vec<u8> = Vec::new();
    let mut i: usize = 0;
    assert(out@ + dir_bytes_from(v, 0, bs) =~= dir_bytes(v, bs));
    while i < es.len()
        invariant
            v == entry_views(es@),
            names == names_of(v),
            bs == block_size,
            0 < block_size <= 0x1_0000,
            forall|k: int| 0 <= k < es@.len() ==> #[trigger] es@[k].name@.len() > 0,
            i <= es@.len(),
            dir_size_from(names, i as int, bs) <= usize::MAX,
            out@ + dir_bytes_from(v, i as int, bs) == dir_bytes(v, bs),
        decreases es@.len() - i,
    {
        let start: usize = i;
        let end: usize = find_run_end(es, start, block_size);
        proof {
            lemma_run_end(names, start as int, bs);
            lemma_rounded(used(names, start as int, end as int), bs);
            lemma_dir_size_from_nonnegative(names, end as int, bs);
            assert forall|k: int| start <= k < end implies name_offset(
                names,
                start as int,
                end as int,
                k,
            ) <= u16::MAX by {
                assert forall|m: int| 0 <= m < names.len() implies #[trigger] names[m].len()
                    > 0 by {
                    assert(es@[m].name@.len() > 0);
                }
                lemma_name_offsets_fit(names, start as int, bs, k);
            }
        }
        let ghost before = out@;
        push_run(&mut out, es, start, end);
        i = end;
        if i < es.len() {
            let length: usize = match run_length(es, start, end) {
                Some(n) => n,
                None => 0,
            };
            push_zeros(&mut out, round_up(length, block_size) - length);
        }
        proof {
            assert(dir_bytes_from(v, v.len() as int, bs) =~= Seq::empty());
            assert(out@ + dir_bytes_from(v, i as int, bs) =~= before + dir_bytes_from(
                v,
                start as int,
                bs,
            ));
        }
    }
    assert(out@ =~= out@ + dir_bytes_from(v, i as int, bs));
    out
}

} // verus!
