//! The order in which a directory stores its entries.

use vstd::prelude::*;

use crate::dirent::{dir_bytes, names_of, EntryView};
use crate::layout::FileType;
use crate::names::{byte_order_is_total, less, order, order_is_defined, sorted, sorted_names_ascend};
use crate::plan::{dir_entries, dir_names, lemma_sorted_entries, sorted_entries};
use crate::read_back::lemma_dir_names_differ;
use crate::tree::{children, is_child, lemma_children, tree_wf, NodeView};

verus! {

/// The names of entries ascend in byte order, so none occurs twice.
pub open spec fn names_ascend(es: Seq<EntryView>) -> bool {
    forall|a: int, b: int|
        0 <= a < b < es.len() ==> less((#[trigger] es[a]).name, (#[trigger] es[b]).name)
}

/// Two lists hold the same entries.
pub open spec fn same_entries(a: Seq<EntryView>, b: Seq<EntryView>) -> bool {
    forall|e: EntryView| #[trigger] a.contains(e) <==> b.contains(e)
}

/// The record of entry `c` of the tree in its directory.
pub open spec fn record_for(t: Seq<NodeView>, ns: Seq<u64>, c: int) -> EntryView {
    EntryView { name: t[c].name, nid: ns[c], kind: t[c].kind }
}

/// A directory stores `.` and `..`, which stand for itself and its parent, and
/// every entry that lies in it, each once, in the byte order of their names.
pub proof fn a_directory_stores_its_entries_in_order(t: Seq<NodeView>, ns: Seq<u64>, i: int)
    requires
        tree_wf(t),
        0 <= i < t.len(),
    ensures
        ({
            let es = sorted_entries(t, ns, i);
            &&& names_ascend(es)
            &&& es.len() == children(t, i).len() + 2
            &&& same_entries(es, dir_entries(t, ns, i))
            &&& es.contains(EntryView { name: seq![46u8], nid: ns[i], kind: FileType::Dir })
            &&& es.contains(
                EntryView {
                    name: seq![46u8, 46u8],
                    nid: ns[t[i].parent],
                    kind: FileType::Dir,
                },
            )
            &&& forall|c: int| is_child(t, i, c) ==> es.contains(#[trigger] record_for(t, ns, c))
        }),
{
    let names = dir_names(t, i);
    let des = dir_entries(t, ns, i);
    let es = sorted_entries(t, ns, i);
    let ord = order(names);
    order_is_defined(names);
    lemma_sorted_entries(t, ns, i);
    lemma_dir_names_differ(t, i);
    lemma_children(t, i);
    assert forall|a: int, b: int| 0 <= a < b < es.len() implies less(
        (#[trigger] es[a]).name,
        (#[trigger] es[b]).name,
    ) by {
        sorted_names_ascend(names, a, b);
        assert(names_of(es)[a] == sorted(names)[a] && names_of(es)[b] == sorted(names)[b]);
    }
    assert forall|k: int| 0 <= k < des.len() implies es.contains(#[trigger] des[k]) by {
        assert(ord.contains(k));
        assert(es[ord.index_of(k)] == des[k]);
    }
    assert forall|e: EntryView| #[trigger] es.contains(e) <==> des.contains(e) by {
        if es.contains(e) {
            let k = es.index_of(e);
            assert(0 <= ord[k] < names.len());
            assert(des[ord[k]] == e);
        }
        if des.contains(e) {
            assert(es.contains(des[des.index_of(e)]));
        }
    }
    assert(es.contains(des[0]) && es.contains(des[1]));
    assert forall|c: int| is_child(t, i, c) implies es.contains(
        #[trigger] record_for(t, ns, c),
    ) by {
        assert(children(t, i).contains(c));
        let k = children(t, i).index_of(c);
        assert(des[k + 2] == record_for(t, ns, c));
        assert(es.contains(des[k + 2]));
    }
}

/// Entries in the order of their names are determined by which they are.
proof fn lemma_ascending_unique(a: Seq<EntryView>, b: Seq<EntryView>)
    requires
        names_ascend(a),
        names_ascend(b),
        same_entries(a, b),
    ensures
        a == b,
    decreases a.len(),
{
    if a.len() == 0 {
        if b.len() > 0 {
            assert(b.contains(b[0]));
            assert(a.contains(b[0]));
        }
        assert(a =~= b);
    } else {
        let (x, y) = (a.last(), b.last());
        assert(a.contains(x));
        assert(b.contains(x));
        let q = b.index_of(x);
        assert(b.contains(y));
        assert(a.contains(y));
        let p = a.index_of(y);
        byte_order_is_total(x.name, y.name, x.name);
        if q < b.len() - 1 {
            assert(less(b[q].name, b[b.len() - 1].name));
            if p < a.len() - 1 {
                assert(less(a[p].name, a[a.len() - 1].name));
            }
        }
        assert(x == y);
        let (c, d) = (a.drop_last(), b.drop_last());
        assert forall|e: EntryView| #[trigger] c.contains(e) <==> d.contains(e) by {
            byte_order_is_total(e.name, x.name, e.name);
            if c.contains(e) {
                let k = c.index_of(e);
                assert(a[k] == e);
                assert(a.contains(e));
                assert(less(a[k].name, a[a.len() - 1].name));
                let l = b.index_of(e);
                assert(d[l] == e);
            }
            if d.contains(e) {
                let k = d.index_of(e);
                assert(b[k] == e);
                assert(b.contains(e));
                assert(less(b[k].name, b[b.len() - 1].name));
                assert(a.contains(e));
                let l = a.index_of(e);
                assert(c[l] == e);
            }
        }
        lemma_ascending_unique(c, d);
        assert(a =~= c.push(x));
        assert(b =~= d.push(y));
    }
}

/// The data of a directory does not depend on the order in which its entries
/// were added: directories that hold the same names, with the same numbers and
/// kinds, store the same bytes.
pub proof fn directory_data_does_not_depend_on_order(
    t: Seq<NodeView>,
    ns: Seq<u64>,
    i: int,
    u: Seq<NodeView>,
    ms: Seq<u64>,
    j: int,
    bs: int,
)
    requires
        tree_wf(t),
        tree_wf(u),
        0 <= i < t.len(),
        0 <= j < u.len(),
        same_entries(dir_entries(t, ns, i), dir_entries(u, ms, j)),
    ensures
        sorted_entries(t, ns, i) == sorted_entries(u, ms, j),
        dir_bytes(sorted_entries(t, ns, i), bs) == dir_bytes(sorted_entries(u, ms, j), bs),
{
    a_directory_stores_its_entries_in_order(t, ns, i);
    a_directory_stores_its_entries_in_order(u, ms, j);
    let (a, b) = (sorted_entries(t, ns, i), sorted_entries(u, ms, j));
    assert forall|e: EntryView| #[trigger] a.contains(e) <==> b.contains(e) by {
        assert(dir_entries(t, ns, i).contains(e) <==> dir_entries(u, ms, j).contains(e));
    }
    lemma_ascending_unique(a, b);
}

} // verus!
