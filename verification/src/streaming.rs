//! Contents that come later than their entries.

use vstd::prelude::*;

use crate::layout::FileType;
use crate::path::{all_names, is_name};
use crate::tree::{added, find, implied_dir, is_named, lemma_find, lemma_implied_dir_kind,
    lemma_nothing_in_last, lemma_push_wf, lemma_same_shape, lookup, placed, tree_wf, NodeView};

verus! {

/// The entries after the content of entry `i` has come.
pub open spec fn filled(t: Seq<NodeView>, i: int, data: Seq<u8>) -> Seq<NodeView> {
    t.update(i, NodeView { data, pending: false, ..t[i] })
}

/// The content of entry `i` is still to come.
pub open spec fn is_pending(t: Seq<NodeView>, i: int) -> bool {
    0 <= i < t.len() && t[i].pending
}

/// No content is still to come.
pub open spec fn all_filled(t: Seq<NodeView>) -> bool {
    forall|i: int| !is_pending(t, i)
}

/// What a name finds does not depend on contents.
proof fn lemma_find_filled(t: Seq<NodeView>, k: int, data: Seq<u8>, i: int, name: Seq<u8>)
    requires
        tree_wf(t),
        0 <= k < t.len(),
    ensures
        find(filled(t, k, data), i, name) == find(t, i, name),
        tree_wf(filled(t, k, data)),
{
    let u = filled(t, k, data);
    lemma_same_shape(t, u);
    if exists|j: int| is_named(t, i, name, j) {
        let j = choose|j: int| is_named(t, i, name, j);
        assert(is_named(u, i, name, j));
        lemma_find(t, i, name, j);
        lemma_find(u, i, name, j);
    } else if exists|j: int| is_named(u, i, name, j) {
        let j = choose|j: int| is_named(u, i, name, j);
        assert(is_named(t, i, name, j));
    }
}

/// A name that finds an entry.
proof fn lemma_found(t: Seq<NodeView>, i: int, name: Seq<u8>)
    requires
        find(t, i, name) is Some,
    ensures
        is_named(t, i, name, find(t, i, name)->Some_0),
{
    assert(exists|j: int| is_named(t, i, name, j));
}

proof fn lemma_rest_names(path: Seq<Seq<u8>>)
    requires
        all_names(path),
        path.len() > 0,
    ensures
        all_names(path.skip(1)),
        is_name(path[0]),
{
    assert forall|k: int| 0 <= k < path.skip(1).len() implies is_name(
        #[trigger] path.skip(1)[k],
    ) by {
        assert(path.skip(1)[k] == path[k + 1]);
    }
}

/// It makes no difference whether the content of an entry comes before or
/// after another entry is added.
pub proof fn content_can_come_later(
    t: Seq<NodeView>,
    i: int,
    path: Seq<Seq<u8>>,
    node: NodeView,
    k: int,
    data: Seq<u8>,
)
    requires
        tree_wf(t),
        0 <= i < t.len(),
        t[i].kind == FileType::Dir,
        all_names(path),
        0 <= k < t.len(),
    ensures
        added(filled(t, k, data), i, path, node) == match added(t, i, path, node) {
            Some(u) => Some(filled(u, k, data)),
            None => None,
        },
    decreases path.len(),
{
    if path.len() > 0 {
        let f = filled(t, k, data);
        let head = path[0];
        let rest = path.skip(1);
        lemma_rest_names(path);
        lemma_find_filled(t, k, data, i, head);
        if find(t, i, head) is Some {
            lemma_found(t, i, head);
            let j = find(t, i, head)->Some_0;
            if t[j].kind == FileType::Dir {
                content_can_come_later(t, j, rest, node, k, data);
            }
        } else if path.len() == 1 {
            let n = placed(node, i, head);
            assert(f.push(n) =~= filled(t.push(n), k, data));
        } else {
            let n = placed(implied_dir(), i, head);
            lemma_implied_dir_kind();
            lemma_push_wf(t, n);
            content_can_come_later(t.push(n), t.len() as int, rest, node, k, data);
            assert(f.push(n) =~= filled(t.push(n), k, data));
        }
    }
}

/// A file whose content comes out of a stream ends up as the same entry as one
/// that is added with its content.
pub proof fn streamed_equals_inline(
    t: Seq<NodeView>,
    i: int,
    path: Seq<Seq<u8>>,
    node: NodeView,
    data: Seq<u8>,
)
    requires
        tree_wf(t),
        0 <= i < t.len(),
        t[i].kind == FileType::Dir,
        all_names(path),
        path.len() > 0,
        lookup(t, i, path) is None,
    ensures
        added(t, i, path, NodeView { data, pending: false, ..node }) == match added(
            t,
            i,
            path,
            node,
        ) {
            Some(u) => Some(filled(u, u.len() - 1, data)),
            None => None,
        },
    decreases path.len(),
{
    let head = path[0];
    let rest = path.skip(1);
    let full = NodeView { data, pending: false, ..node };
    lemma_rest_names(path);
    if find(t, i, head) is Some {
        lemma_found(t, i, head);
        let j = find(t, i, head)->Some_0;
        if path.len() == 1 {
            assert(lookup(t, j, rest) is Some);
        } else if t[j].kind == FileType::Dir {
            streamed_equals_inline(t, j, rest, node, data);
        }
    } else if path.len() == 1 {
        let u = t.push(placed(node, i, head));
        assert(t.push(placed(full, i, head)) =~= filled(u, u.len() - 1, data));
    } else {
        let n = placed(implied_dir(), i, head);
        lemma_implied_dir_kind();
        lemma_push_wf(t, n);
        lemma_nothing_in_last(t.push(n), rest[0]);
        streamed_equals_inline(t.push(n), t.len() as int, rest, node, data);
    }
}

/// An entry that comes with its content leaves no other content to come.
pub proof fn lemma_adding_keeps_filled(
    t: Seq<NodeView>,
    i: int,
    path: Seq<Seq<u8>>,
    node: NodeView,
)
    requires
        all_filled(t),
        !node.pending,
    ensures
        added(t, i, path, node) matches Some(u) ==> all_filled(u),
    decreases path.len(),
{
    if path.len() > 0 {
        let head = path[0];
        let found = find(t, i, head);
        if path.len() == 1 {
            let u = t.push(placed(node, i, head));
            assert forall|j: int| !is_pending(u, j) by {
                assert(!is_pending(t, j));
            }
        } else if found is Some {
            lemma_adding_keeps_filled(t, found->Some_0, path.skip(1), node);
        } else {
            let u = t.push(placed(implied_dir(), i, head));
            assert forall|j: int| !is_pending(u, j) by {
                assert(!is_pending(t, j));
            }
            lemma_adding_keeps_filled(u, t.len() as int, path.skip(1), node);
        }
    }
}

} // verus!
