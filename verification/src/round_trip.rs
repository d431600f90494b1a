//! What is written reads back.

use vstd::prelude::*;
use vstd::utf8::{decode_utf8, valid_utf8};

use crate::bytes::{holds, le16, le16_round_trip, le64, le64_round_trip, lemma_holds_concat,
    lemma_holds_within, lemma_rounded, lemma_rounded_multiple, lemma_rounded_ordered, rounded,
    u16_at, u64_at, zeros};
use crate::dirent::{dir_bytes, dir_bytes_from, lemma_name_bytes_ordered, lemma_packed_names_len,
    lemma_records_len, lemma_run_bytes_len, lemma_run_end, name_bytes, name_offset, names_of,
    packed_names, record, records, run_bytes, run_end, used, EntryView};
use crate::error::Error;
use crate::layout::{FileType, SIZE_DIRENT};
use crate::reader::{chunk_of, dirents_of, is_dot_name, record_of, records_of,
    without_trailing_zeros, DirentView};

verus! {

broadcast use crate::bytes::group_le_len;

/// How the reader shows an entry.
pub open spec fn shown(e: EntryView) -> DirentView {
    DirentView { name: decode_utf8(e.name), nid: e.nid, kind: e.kind }
}

/// How the reader shows the entries `a..b`: `.` and `..` are left out.
pub open spec fn listing_of(es: Seq<EntryView>, a: int, b: int) -> Seq<DirentView>
    decreases b - a,
{
    if a >= b {
        Seq::empty()
    } else if is_dot_name(es[a].name) {
        listing_of(es, a + 1, b)
    } else {
        seq![shown(es[a])] + listing_of(es, a + 1, b)
    }
}

/// How the reader shows the entries of a directory.
pub open spec fn listing(es: Seq<EntryView>) -> Seq<DirentView> {
    listing_of(es, 0, es.len() as int)
}

/// From entry `a` on, no name that stands last in its run ends in a zero byte.
pub open spec fn run_ends_clear(es: Seq<EntryView>, a: int, bs: int) -> bool
    decreases es.len() - a,
{
    if a < 0 || a >= es.len() {
        true
    } else {
        let e = run_end(names_of(es), a, bs);
        &&& es[e - 1].name.last() != 0
        &&& a < e < es.len() ==> run_ends_clear(es, e, bs)
    }
}

/// Names that a directory can give back: each is non-empty UTF-8 that fits in
/// a block beside its record, and none that stands last in its run ends in a
/// zero byte.
pub open spec fn listable(es: Seq<EntryView>, bs: int) -> bool {
    &&& forall|i: int| 0 <= i < es.len() ==> #[trigger] es[i].name.len() > 0
    &&& forall|i: int| 0 <= i < es.len() ==> valid_utf8(#[trigger] es[i].name)
    &&& forall|i: int| 0 <= i < es.len() ==> SIZE_DIRENT + #[trigger] es[i].name.len() <= bs
    &&& run_ends_clear(es, 0, bs)
}

pub proof fn lemma_record_held(es: Seq<EntryView>, a: int, e: int, m: int, k: int)
    requires
        0 <= a <= k < m <= e,
    ensures
        holds(
            records(es, a, e, m),
            SIZE_DIRENT * (k - a),
            record(es[k], name_offset(names_of(es), a, e, k)),
        ),
    decreases m,
{
    let r = record(es[m - 1], name_offset(names_of(es), a, e, m - 1));
    let front = records(es, a, e, m - 1);
    lemma_records_len(es, a, e, m - 1);
    lemma_holds_concat(front, r, Seq::empty());
    if k < m - 1 {
        lemma_record_held(es, a, e, m - 1, k);
        lemma_holds_within(
            front + r,
            0,
            front,
            SIZE_DIRENT * (k - a),
            record(es[k], name_offset(names_of(es), a, e, k)),
        );
    }
}

pub proof fn lemma_name_held(es: Seq<EntryView>, a: int, m: int, k: int)
    requires
        0 <= a <= k < m <= es.len(),
    ensures
        holds(packed_names(es, a, m), name_bytes(names_of(es), a, k), es[k].name),
    decreases m,
{
    let front = packed_names(es, a, m - 1);
    lemma_packed_names_len(es, a, m - 1);
    lemma_holds_concat(front, es[m - 1].name, Seq::empty());
    if k < m - 1 {
        lemma_name_held(es, a, m - 1, k);
        lemma_holds_within(
            front + es[m - 1].name,
            0,
            front,
            name_bytes(names_of(es), a, k),
            es[k].name,
        );
    }
}

proof fn lemma_trailing_zeros_dropped(s: Seq<u8>, n: nat)
    requires
        s.len() > 0,
        s.last() != 0,
    ensures
        without_trailing_zeros(s + zeros(n as int)) == s,
    decreases n,
{
    if n == 0 {
        assert(s + zeros(0) =~= s);
    } else {
        let t = s + zeros(n as int);
        assert(t.last() == 0);
        assert(t.drop_last() =~= s + zeros(n - 1));
        lemma_trailing_zeros_dropped(s, (n - 1) as nat);
    }
}

proof fn lemma_record_fields(b: Seq<u8>, o: int, e: EntryView, nameoff: int)
    requires
        holds(b, o, record(e, nameoff)),
        0 <= nameoff <= u16::MAX,
    ensures
        u64_at(b, o) == e.nid,
        u16_at(b, o + 8) == nameoff,
        b[o + 10] == e.kind.code(),
{
    let r = record(e, nameoff);
    let nid = le64(e.nid as int);
    let off = le16(nameoff);
    assert(nid.len() == 8 && off.len() == 2);
    assert(r.subrange(0, 8) =~= nid);
    assert(r.subrange(8, 10) =~= off);
    lemma_holds_within(b, o, r, 0, nid);
    lemma_holds_within(b, o, r, 8, off);
    le64_round_trip(b, o, e.nid as int);
    le16_round_trip(b, o + 8, nameoff);
    assert(b[o + 10] == b.subrange(o, o + 12)[10]);
}

/// A piece of a directory that holds the run `a..e`, filled with zeros.
spec fn is_piece(es: Seq<EntryView>, a: int, e: int, chunk: Seq<u8>) -> bool {
    &&& 0 <= a < e <= es.len()
    &&& chunk == run_bytes(es, a, e) + zeros(chunk.len() - used(names_of(es), a, e))
    &&& used(names_of(es), a, e) <= chunk.len() <= 0x1_0000
    &&& forall|i: int| 0 <= i < es.len() ==> #[trigger] es[i].name.len() > 0
    &&& forall|i: int| 0 <= i < es.len() ==> valid_utf8(#[trigger] es[i].name)
    &&& es[e - 1].name.last() != 0
}

proof fn lemma_piece_record(es: Seq<EntryView>, a: int, e: int, chunk: Seq<u8>, k: int)
    requires
        is_piece(es, a, e, chunk),
        a <= k < e,
    ensures
        u16_at(chunk, SIZE_DIRENT * (k - a) + 8) == name_offset(names_of(es), a, e, k),
        u64_at(chunk, SIZE_DIRENT * (k - a)) == es[k].nid,
        chunk[SIZE_DIRENT * (k - a) + 10] == es[k].kind.code(),
        holds(chunk, name_offset(names_of(es), a, e, k), es[k].name),
        SIZE_DIRENT * (e - a) <= name_offset(names_of(es), a, e, k),
        name_offset(names_of(es), a, e, k) + es[k].name.len() <= used(names_of(es), a, e),
        name_offset(names_of(es), a, e, k + 1) == name_offset(names_of(es), a, e, k)
            + es[k].name.len(),
{
    let names = names_of(es);
    let heads = records(es, a, e, e);
    let tail = packed_names(es, a, e);
    let fill = zeros(chunk.len() - used(names, a, e));
    let off = name_offset(names, a, e, k);
    lemma_records_len(es, a, e, e);
    lemma_packed_names_len(es, a, e);
    lemma_record_held(es, a, e, e, k);
    lemma_name_held(es, a, e, k);
    assert(chunk =~= heads + tail + fill);
    lemma_holds_concat(heads, tail + fill, Seq::empty());
    assert(heads + (tail + fill) =~= chunk);
    lemma_holds_within(chunk, 0, heads, SIZE_DIRENT * (k - a), record(es[k], off));
    lemma_holds_concat(heads, tail, fill);
    lemma_holds_within(
        chunk,
        heads.len() as int,
        tail,
        name_bytes(names, a, k),
        es[k].name,
    );
    lemma_name_bytes_ordered(names, a, k, k + 1);
    lemma_name_bytes_ordered(names, a, k + 1, e);
    assert(names[k] == es[k].name);
    assert(off < chunk.len());
    lemma_record_fields(chunk, SIZE_DIRENT * (k - a), es[k], off);
}

proof fn lemma_record_of(
    chunk: Seq<u8>,
    count: int,
    k: int,
    start: int,
    end: int,
    e: EntryView,
)
    requires
        0 <= k < count,
        u16_at(chunk, SIZE_DIRENT * k + 8) == start,
        k + 1 < count ==> u16_at(chunk, SIZE_DIRENT * (k + 1) + 8) == end,
        k + 1 == count ==> end == chunk.len(),
        SIZE_DIRENT * count <= start <= end <= chunk.len(),
        k + 1 < count ==> chunk.subrange(start, end) == e.name,
        k + 1 == count ==> without_trailing_zeros(chunk.subrange(start, end)) == e.name,
        valid_utf8(e.name),
        chunk[SIZE_DIRENT * k + 10] == e.kind.code(),
        u64_at(chunk, SIZE_DIRENT * k) == e.nid,
    ensures
        record_of(chunk, count, k) == if is_dot_name(e.name) {
            Ok::<Option<DirentView>, Error>(None)
        } else {
            Ok(Some(shown(e)))
        },
{
    assert(FileType::of_code(e.kind.code()) == Some(e.kind));
    assert(k * SIZE_DIRENT == SIZE_DIRENT * k);
    assert(k * SIZE_DIRENT + SIZE_DIRENT + 8 == SIZE_DIRENT * (k + 1) + 8);
}

proof fn lemma_last_name(es: Seq<EntryView>, a: int, e: int, chunk: Seq<u8>)
    requires
        is_piece(es, a, e, chunk),
    ensures
        without_trailing_zeros(
            chunk.subrange(name_offset(names_of(es), a, e, e - 1), chunk.len() as int),
        ) == es[e - 1].name,
{
    let names = names_of(es);
    let off = name_offset(names, a, e, e - 1);
    let name = es[e - 1].name;
    let n = chunk.len() - used(names, a, e);
    lemma_piece_record(es, a, e, chunk, e - 1);
    lemma_run_bytes_len(es, a, e);
    let t = chunk.subrange(off, chunk.len() as int);
    assert forall|i: int| 0 <= i < name.len() + n implies t[i] == (name + zeros(n))[i] by {
        if i < name.len() {
            assert(chunk.subrange(off, off + name.len())[i] == chunk[off + i]);
        }
    }
    assert(t =~= name + zeros(n));
    lemma_trailing_zeros_dropped(name, n as nat);
}

proof fn lemma_piece_reads(es: Seq<EntryView>, a: int, e: int, chunk: Seq<u8>, k: int)
    requires
        is_piece(es, a, e, chunk),
        a <= k < e,
    ensures
        record_of(chunk, e - a, k - a) == if is_dot_name(es[k].name) {
            Ok::<Option<DirentView>, Error>(None)
        } else {
            Ok(Some(shown(es[k])))
        },
{
    let off = name_offset(names_of(es), a, e, k);
    lemma_piece_record(es, a, e, chunk, k);
    if k + 1 < e {
        lemma_piece_record(es, a, e, chunk, k + 1);
        lemma_record_of(chunk, e - a, k - a, off, off + es[k].name.len(), es[k]);
    } else {
        lemma_last_name(es, a, e, chunk);
        lemma_record_of(chunk, e - a, k - a, off, chunk.len() as int, es[k]);
    }
}

proof fn lemma_piece_records(es: Seq<EntryView>, a: int, e: int, chunk: Seq<u8>, k: int)
    requires
        is_piece(es, a, e, chunk),
        a <= k <= e,
    ensures
        records_of(chunk, e - a, k - a) == (listing_of(es, k, e), None::<Error>),
    decreases e - k,
{
    if k < e {
        lemma_piece_reads(es, a, e, chunk, k);
        lemma_piece_records(es, a, e, chunk, k + 1);
    }
}

proof fn lemma_listing_splits(es: Seq<EntryView>, a: int, b: int, c: int)
    requires
        a <= b <= c,
    ensures
        listing_of(es, a, c) == listing_of(es, a, b) + listing_of(es, b, c),
    decreases b - a,
{
    if a < b {
        lemma_listing_splits(es, a + 1, b, c);
        assert(listing_of(es, a, c) =~= listing_of(es, a, b) + listing_of(es, b, c));
    } else {
        assert(listing_of(es, a, c) =~= listing_of(es, a, b) + listing_of(es, b, c));
    }
}

/// The first piece of the data of a directory.
spec fn first_piece(es: Seq<EntryView>, a: int, bs: int) -> Seq<u8> {
    let names = names_of(es);
    let e = run_end(names, a, bs);
    run_bytes(es, a, e) + zeros(
        if e < es.len() {
            bs - used(names, a, e)
        } else {
            0
        },
    )
}

/// What follows the first piece of the data of a directory.
spec fn later_pieces(es: Seq<EntryView>, a: int, bs: int) -> Seq<u8> {
    let e = run_end(names_of(es), a, bs);
    if e < es.len() {
        dir_bytes_from(es, e, bs)
    } else {
        Seq::empty()
    }
}

proof fn lemma_fills_one_block(n: int, bs: int)
    requires
        0 < n <= bs,
    ensures
        rounded(n, bs) == bs,
{
    lemma_rounded(n, bs);
    lemma_rounded_multiple(1, bs);
    lemma_rounded_ordered(n, bs, bs);
    if rounded(n, bs) < bs {
        vstd::arithmetic::div_mod::lemma_small_mod(rounded(n, bs) as nat, bs as nat);
    }
}

proof fn lemma_first_piece(es: Seq<EntryView>, a: int, bs: int)
    requires
        0 <= a < es.len(),
        0 < bs,
        SIZE_DIRENT + es[a].name.len() <= bs,
    ensures
        dir_bytes_from(es, a, bs) == first_piece(es, a, bs) + later_pieces(es, a, bs),
        a < run_end(names_of(es), a, bs) <= es.len(),
        0 < used(names_of(es), a, run_end(names_of(es), a, bs)) <= first_piece(es, a, bs).len() <= bs,
        run_end(names_of(es), a, bs) < es.len() ==> first_piece(es, a, bs).len() == bs,
        run_end(names_of(es), a, bs) == es.len() ==> later_pieces(es, a, bs).len() == 0,
{
    let names = names_of(es);
    let e = run_end(names, a, bs);
    lemma_run_end(names, a, bs);
    lemma_run_bytes_len(es, a, e);
    assert(used(names, a, a + 1) == SIZE_DIRENT + names[a].len()) by {
        assert(name_bytes(names, a, a) == 0);
    }
    assert(names[a] == es[a].name);
    let n = used(names, a, e);
    lemma_fills_one_block(n, bs);
    assert(dir_bytes_from(es, a, bs) =~= first_piece(es, a, bs) + later_pieces(es, a, bs));
}

proof fn lemma_first_piece_reads(es: Seq<EntryView>, a: int, bs: int)
    requires
        listable(es, bs),
        0 < bs <= 0x1_0000,
        0 <= a < es.len(),
        run_ends_clear(es, a, bs),
    ensures
        chunk_of(first_piece(es, a, bs)) == (
            listing_of(es, a, run_end(names_of(es), a, bs)),
            None::<Error>,
        ),
{
    let names = names_of(es);
    let e = run_end(names, a, bs);
    let chunk = first_piece(es, a, bs);
    assert(SIZE_DIRENT + es[a].name.len() <= bs);
    lemma_first_piece(es, a, bs);
    lemma_run_bytes_len(es, a, e);
    assert(chunk =~= run_bytes(es, a, e) + zeros(chunk.len() - used(names, a, e)));
    assert(is_piece(es, a, e, chunk));
    lemma_piece_record(es, a, e, chunk, a);
    assert(name_bytes(names, a, a) == 0);
    assert(u16_at(chunk, 8) == SIZE_DIRENT * (e - a));
    lemma_name_bytes_ordered(names, a, a, e);
    lemma_piece_records(es, a, e, chunk, a);
}

proof fn lemma_dirents_round_trip_from(es: Seq<EntryView>, a: int, bs: int)
    requires
        listable(es, bs),
        0 < bs <= 0x1_0000,
        0 <= a <= es.len(),
        run_ends_clear(es, a, bs),
    ensures
        dirents_of(dir_bytes_from(es, a, bs), bs) == Ok::<Seq<DirentView>, Error>(
            listing_of(es, a, es.len() as int),
        ),
    decreases es.len() - a,
{
    if a < es.len() {
        let blob = dir_bytes_from(es, a, bs);
        let e = run_end(names_of(es), a, bs);
        let chunk = first_piece(es, a, bs);
        let rest = later_pieces(es, a, bs);
        assert(SIZE_DIRENT + es[a].name.len() <= bs);
        lemma_first_piece(es, a, bs);
        lemma_first_piece_reads(es, a, bs);
        assert(blob.subrange(0, chunk.len() as int) =~= chunk);
        assert(blob.skip(chunk.len() as int) =~= rest);
        lemma_listing_splits(es, a, e, es.len() as int);
        if e < es.len() {
            lemma_dirents_round_trip_from(es, e, bs);
        }
        assert(dirents_of(rest, bs) == Ok::<Seq<DirentView>, Error>(
            listing_of(es, e, es.len() as int),
        ));
    }
}

/// The data of a directory reads back as its entries, `.` and `..` left out.
pub proof fn dirents_round_trip(es: Seq<EntryView>, bs: int)
    requires
        listable(es, bs),
        0 < bs <= 0x1_0000,
    ensures
        dirents_of(dir_bytes(es, bs), bs) == Ok::<Seq<DirentView>, Error>(listing(es)),
{
    lemma_dirents_round_trip_from(es, 0, bs);
}

} // verus!
