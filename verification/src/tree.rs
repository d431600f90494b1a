//! The entries of an image: a tree, kept as a list in which every entry comes
//! behind its parent directory.

use vstd::prelude::*;

use crate::error::Error;
use crate::layout::{mode, FileType};
use crate::meta::{plain_meta, typed_mode, InodeMeta, MetaView};
use crate::names::{ints, name_equal, views};
use crate::path::{all_names, is_name};

verus! {

/// The mathematical value of an entry.
#[verifier::ext_equal]
pub struct NodeView {
    pub name: Seq<u8>,
    /// The position of the parent directory; the root is its own parent.
    pub parent: int,
    pub meta: MetaView,
    pub kind: FileType,
    /// The content of a regular file, as far as it is there.
    pub data: Seq<u8>,
    /// The content is still to come.
    pub pending: bool,
    /// The target of a symlink.
    pub link: Seq<u8>,
}

/// Entry `j` lies directly in the directory at position `i`.
pub open spec fn is_child(t: Seq<NodeView>, i: int, j: int) -> bool {
    0 < j < t.len() && t[j].parent == i
}

/// The entries below position `n` that lie directly in directory `i`, in the
/// order in which they were added.
pub open spec fn children_upto(t: Seq<NodeView>, i: int, n: int) -> Seq<int>
    decreases n,
{
    if n <= 1 {
        Seq::empty()
    } else if t[n - 1].parent == i {
        children_upto(t, i, n - 1).push(n - 1)
    } else {
        children_upto(t, i, n - 1)
    }
}

/// The entries that lie directly in directory `i`, in the order in which they
/// were added.
pub open spec fn children(t: Seq<NodeView>, i: int) -> Seq<int> {
    children_upto(t, i, t.len() as int)
}

/// Entry `j` comes behind the directory that it lies in, has a name that an
/// entry can have, and the kind that its mode says.
pub open spec fn entry_wf(t: Seq<NodeView>, j: int) -> bool {
    let n = t[j];
    &&& 0 <= n.parent < j
    &&& t[n.parent].kind == FileType::Dir
    &&& is_name(n.name)
    &&& n.kind == FileType::of_mode(n.meta.mode)
}

/// Entries `j` and `k` do not share both directory and name.
pub open spec fn apart(t: Seq<NodeView>, j: int, k: int) -> bool {
    t[j].parent == t[k].parent ==> t[j].name != t[k].name
}

/// The list is a tree of entries: the root is a directory and comes first,
/// every other entry has its place in a directory before it, and no two
/// entries of one directory have the same name.
pub open spec fn tree_wf(t: Seq<NodeView>) -> bool {
    &&& t.len() > 0
    &&& t[0].kind == FileType::Dir
    &&& t[0].parent == 0
    &&& forall|j: int| 0 < j < t.len() ==> #[trigger] entry_wf(t, j)
    &&& forall|j: int, k: int| 0 < j < k < t.len() ==> #[trigger] apart(t, j, k)
}

/// Entry `j` is the one called `name` in directory `i`.
pub open spec fn is_named(t: Seq<NodeView>, i: int, name: Seq<u8>, j: int) -> bool {
    is_child(t, i, j) && t[j].name == name
}

/// The entry called `name` in directory `i`.
pub open spec fn find(t: Seq<NodeView>, i: int, name: Seq<u8>) -> Option<int> {
    if exists|j: int| is_named(t, i, name, j) {
        Some(choose|j: int| is_named(t, i, name, j))
    } else {
        None
    }
}

/// The entry that a path leads to from directory `i`.
pub open spec fn lookup(t: Seq<NodeView>, i: int, path: Seq<Seq<u8>>) -> Option<int>
    decreases path.len(),
{
    if path.len() == 0 {
        Some(i)
    } else {
        match find(t, i, path[0]) {
            Some(j) => lookup(t, j, path.skip(1)),
            None => None,
        }
    }
}

/// An entry that has no place yet.
pub open spec fn loose(meta: MetaView, data: Seq<u8>, pending: bool, link: Seq<u8>) -> NodeView {
    NodeView {
        name: Seq::empty(),
        parent: 0,
        meta,
        kind: FileType::of_mode(meta.mode),
        data,
        pending,
        link,
    }
}

/// A loose entry, put into directory `i` under a name.
pub open spec fn placed(node: NodeView, i: int, name: Seq<u8>) -> NodeView {
    NodeView { name, parent: i, ..node }
}

/// The metadata of a directory that a path calls for.
pub open spec fn implied_dir_meta() -> MetaView {
    plain_meta(typed_mode(mode::S_IFDIR, 0o755))
}

/// A directory that a path calls for.
pub open spec fn implied_dir() -> NodeView {
    loose(implied_dir_meta(), Seq::empty(), false, Seq::empty())
}

/// The tree after an entry has been added below directory `i`, at the end of
/// a path. Directories that the path leads through and that are not there are
/// made. An entry that is there already stays as it is. There is no such tree
/// where the path leads through an entry that is no directory.
pub open spec fn added(t: Seq<NodeView>, i: int, path: Seq<Seq<u8>>, node: NodeView) -> Option<
    Seq<NodeView>,
>
    decreases path.len(),
{
    if path.len() == 0 {
        Some(t)
    } else if path.len() == 1 {
        match find(t, i, path[0]) {
            Some(_) => Some(t),
            None => Some(t.push(placed(node, i, path[0]))),
        }
    } else {
        match find(t, i, path[0]) {
            Some(j) => if t[j].kind == FileType::Dir {
                added(t, j, path.skip(1), node)
            } else {
                None
            },
            None => added(
                t.push(placed(implied_dir(), i, path[0])),
                t.len() as int,
                path.skip(1),
                node,
            ),
        }
    }
}

/// The entries of the subtree at `i`, each directory before what it holds.
pub open spec fn preorder(t: Seq<NodeView>, i: int) -> Seq<int>
    decreases t.len() - i, children(t, i).len() + 1,
{
    seq![i] + subtrees(t, i, children(t, i).len() as int)
}

/// The subtrees of the first `k` entries of directory `i`, one after another.
pub open spec fn subtrees(t: Seq<NodeView>, i: int, k: int) -> Seq<int>
    decreases t.len() - i, k,
{
    if k <= 0 || k > children(t, i).len() {
        Seq::empty()
    } else {
        let c = children(t, i)[k - 1];
        if i < c < t.len() {
            subtrees(t, i, k - 1) + preorder(t, c)
        } else {
            subtrees(t, i, k - 1)
        }
    }
}

/// How many of the first `k` entries of directory `i` are directories.
pub open spec fn subdirs_upto(t: Seq<NodeView>, i: int, k: int) -> int
    decreases k,
{
    if k <= 0 {
        0
    } else {
        subdirs_upto(t, i, k - 1) + if t[children(t, i)[k - 1]].kind == FileType::Dir {
            1int
        } else {
            0
        }
    }
}

/// The link count of an entry: the given one, else two more than its
/// directories for a directory, else one.
pub open spec fn nlink_of(t: Seq<NodeView>, i: int) -> int {
    match t[i].meta.nlink {
        Some(n) => n as int,
        None => if t[i].kind == FileType::Dir {
            2 + subdirs_upto(t, i, children(t, i).len() as int)
        } else {
            1
        },
    }
}

/// The size of an entry as far as it does not depend on its directory data.
pub open spec fn own_size(n: NodeView) -> int {
    match n.kind {
        FileType::RegFile | FileType::Unknown => n.data.len() as int,
        FileType::Symlink => n.link.len() as int,
        _ => 0,
    }
}

pub proof fn lemma_children_upto(t: Seq<NodeView>, i: int, n: int)
    requires
        n <= t.len(),
    ensures
        forall|k: int|
            0 <= k < children_upto(t, i, n).len() ==> 0 < #[trigger] children_upto(t, i, n)[k]
                && children_upto(t, i, n)[k] < n && t[children_upto(t, i, n)[k]].parent == i,
        forall|j: int|
            0 < j < n && (#[trigger] t[j]).parent == i ==> children_upto(t, i, n).contains(j),
        forall|k: int, l: int|
            0 <= k < l < children_upto(t, i, n).len() ==> #[trigger] children_upto(t, i, n)[k]
                < #[trigger] children_upto(t, i, n)[l],
    decreases n,
{
    if n > 1 {
        lemma_children_upto(t, i, n - 1);
        let front = children_upto(t, i, n - 1);
        let all = children_upto(t, i, n);
        assert forall|j: int| 0 < j < n && (#[trigger] t[j]).parent == i implies all.contains(
            j,
        ) by {
            if j < n - 1 {
                assert(front.contains(j));
                let k = front.index_of(j);
                assert(all[k] == j);
            } else {
                assert(all[front.len() as int] == j);
            }
        }
    }
}

/// What the list of a directory's entries holds.
pub proof fn lemma_children(t: Seq<NodeView>, i: int)
    ensures
        forall|k: int|
            0 <= k < children(t, i).len() ==> is_child(t, i, #[trigger] children(t, i)[k]),
        forall|j: int| is_child(t, i, j) ==> children(t, i).contains(j),
        forall|k: int, l: int|
            0 <= k < l < children(t, i).len() ==> #[trigger] children(t, i)[k]
                < #[trigger] children(t, i)[l],
{
    lemma_children_upto(t, i, t.len() as int);
    assert forall|k: int| 0 <= k < children(t, i).len() implies is_child(
        t,
        i,
        #[trigger] children(t, i)[k],
    ) by {
        assert(children_upto(t, i, t.len() as int)[k] == children(t, i)[k]);
    }
    assert forall|j: int| is_child(t, i, j) implies children(t, i).contains(j) by {
        assert(t[j].parent == i);
    }
}

proof fn lemma_children_upto_push(t: Seq<NodeView>, n: NodeView, i: int, k: int)
    requires
        k <= t.len(),
    ensures
        children_upto(t.push(n), i, k) == children_upto(t, i, k),
    decreases k,
{
    if k > 1 {
        lemma_children_upto_push(t, n, i, k - 1);
    }
}

/// A new entry comes last in its directory and changes no other.
proof fn lemma_children_push(t: Seq<NodeView>, n: NodeView, i: int)
    requires
        t.len() > 0,
    ensures
        children(t.push(n), i) == if n.parent == i {
            children(t, i).push(t.len() as int)
        } else {
            children(t, i)
        },
{
    lemma_children_upto_push(t, n, i, t.len() as int);
}

/// The names of one directory differ, so a name finds one entry.
pub proof fn lemma_find(t: Seq<NodeView>, i: int, name: Seq<u8>, j: int)
    requires
        tree_wf(t),
        is_named(t, i, name, j),
    ensures
        find(t, i, name) == Some(j),
{
    let k = choose|k: int| is_named(t, i, name, k);
    assert(is_named(t, i, name, k));
    if j < k {
        assert(apart(t, j, k));
    } else if k < j {
        assert(apart(t, k, j));
    }
}

/// `a` is `j` or a directory that leads down to it.
pub open spec fn leads_to(t: Seq<NodeView>, a: int, j: int) -> bool
    decreases j,
{
    a == j || (0 < j < t.len() && 0 <= t[j].parent < j && leads_to(t, a, t[j].parent))
}

pub proof fn lemma_leads_down(t: Seq<NodeView>, a: int, j: int)
    requires
        leads_to(t, a, j),
    ensures
        a <= j,
    decreases j,
{
    if a != j {
        lemma_leads_down(t, a, t[j].parent);
    }
}

proof fn lemma_leads_transitive(t: Seq<NodeView>, a: int, b: int, j: int)
    requires
        leads_to(t, a, b),
        leads_to(t, b, j),
    ensures
        leads_to(t, a, j),
    decreases j,
{
    if b != j {
        lemma_leads_transitive(t, a, b, t[j].parent);
        lemma_leads_down(t, a, b);
        lemma_leads_down(t, b, t[j].parent);
    }
}

/// Of two entries that lead to a third, one leads to the other.
proof fn lemma_leads_chain(t: Seq<NodeView>, a: int, b: int, j: int)
    requires
        leads_to(t, a, j),
        leads_to(t, b, j),
        a < b,
    ensures
        leads_to(t, a, b),
    decreases j,
{
    if b != j {
        lemma_leads_down(t, b, j);
        lemma_leads_chain(t, a, b, t[j].parent);
    }
}

proof fn lemma_siblings_apart(t: Seq<NodeView>, i: int, a: int, b: int, j: int)
    requires
        tree_wf(t),
        is_child(t, i, a),
        is_child(t, i, b),
        a < b,
    ensures
        !(leads_to(t, a, j) && leads_to(t, b, j)),
{
    if leads_to(t, a, j) && leads_to(t, b, j) {
        lemma_leads_chain(t, a, b, j);
        assert(entry_wf(t, a));
        assert(leads_to(t, a, i));
        lemma_leads_down(t, a, i);
    }
}

/// An entry below directory `i` is below one of the entries of `i`.
pub proof fn lemma_leads_through_child(t: Seq<NodeView>, i: int, j: int) -> (c: int)
    requires
        tree_wf(t),
        leads_to(t, i, j),
        i != j,
        0 <= i,
    ensures
        is_child(t, i, c),
        leads_to(t, c, j),
    decreases j,
{
    let p = t[j].parent;
    assert(entry_wf(t, j));
    if p == i {
        j
    } else {
        let c = lemma_leads_through_child(t, i, p);
        lemma_leads_down(t, c, p);
        c
    }
}

/// Where the subtree of the first `k` entries holds entry `j`, one of those
/// entries leads to it, and where one does, it holds it.
pub proof fn lemma_subtrees(t: Seq<NodeView>, i: int, k: int)
    requires
        tree_wf(t),
        0 <= i < t.len(),
        0 <= k <= children(t, i).len(),
    ensures
        subtrees(t, i, k).no_duplicates(),
        forall|j: int|
            #![trigger subtrees(t, i, k).contains(j)]
            subtrees(t, i, k).contains(j) ==> exists|l: int|
                0 <= l < k && leads_to(t, #[trigger] children(t, i)[l], j) && j < t.len(),
        forall|j: int, l: int|
            0 <= l < k && j < t.len() && leads_to(t, #[trigger] children(t, i)[l], j)
                ==> #[trigger] subtrees(t, i, k).contains(j),
    decreases t.len() - i, k,
{
    lemma_children(t, i);
    if k > 0 {
        let c = children(t, i)[k - 1];
        assert(is_child(t, i, c));
        assert(entry_wf(t, c));
        assert(i < c < t.len());
        lemma_subtrees(t, i, k - 1);
        lemma_preorder(t, c);
        let a = subtrees(t, i, k - 1);
        let b = preorder(t, c);
        let all = a + b;
        assert(subtrees(t, i, k) == all);
        assert forall|p: int, q: int| 0 <= p < q < all.len() implies all[p] != all[q] by {
            if q < a.len() {
                assert(a[p] != a[q]);
            } else if p >= a.len() {
                assert(b[p - a.len()] != b[q - a.len()]);
            } else if all[p] == all[q] {
                let j = all[p];
                assert(a[p] == j && b[q - a.len()] == j);
                assert(a.contains(j) && b.contains(j));
                let l = choose|l: int|
                    0 <= l < k - 1 && leads_to(t, #[trigger] children(t, i)[l], j) && j < t.len();
                assert(is_child(t, i, children(t, i)[l]));
                assert(children(t, i)[l] < children(t, i)[k - 1]);
                lemma_siblings_apart(t, i, children(t, i)[l], c, j);
            }
        }
        assert forall|j: int| all.contains(j) implies exists|l: int|
            0 <= l < k && leads_to(t, #[trigger] children(t, i)[l], j) && j < t.len() by {
            let p = all.index_of(j);
            assert(all[p] == j);
            if p < a.len() {
                assert(a[p] == j);
                assert(a.contains(j));
                let l = choose|l: int|
                    0 <= l < k - 1 && leads_to(t, #[trigger] children(t, i)[l], j) && j < t.len();
                assert(leads_to(t, children(t, i)[l], j));
            } else {
                assert(b[p - a.len()] == j);
                assert(b.contains(j));
                assert(leads_to(t, children(t, i)[k - 1], j));
            }
        }
        assert forall|j: int, l: int|
            0 <= l < k && j < t.len() && leads_to(
                t,
                #[trigger] children(t, i)[l],
                j,
            ) implies #[trigger] all.contains(j) by {
            if l < k - 1 {
                assert(a.contains(j));
                let p = a.index_of(j);
                assert(all[p] == j);
            } else {
                assert(b.contains(j));
                let p = b.index_of(j);
                assert(all[p + a.len()] == j);
            }
        }
    } else {
        assert(subtrees(t, i, k) =~= Seq::empty());
    }
}

/// The subtree at `i` holds the entries that `i` leads to, each once.
pub proof fn lemma_preorder(t: Seq<NodeView>, i: int)
    requires
        tree_wf(t),
        0 <= i < t.len(),
    ensures
        preorder(t, i).no_duplicates(),
        forall|j: int|
            #[trigger] preorder(t, i).contains(j) <==> (j < t.len() && leads_to(t, i, j)),
    decreases t.len() - i, children(t, i).len() + 1,
{
    let n = children(t, i).len() as int;
    lemma_children(t, i);
    lemma_subtrees(t, i, n);
    let rest = subtrees(t, i, n);
    let all = preorder(t, i);
    assert(all =~= seq![i] + rest);
    assert forall|j: int| #[trigger] rest.contains(j) implies j > i && leads_to(t, i, j) by {
        let l = choose|l: int|
            0 <= l < n && leads_to(t, #[trigger] children(t, i)[l], j) && j < t.len();
        let c = children(t, i)[l];
        assert(is_child(t, i, c));
        assert(entry_wf(t, c));
        lemma_leads_down(t, c, j);
        assert(leads_to(t, i, c)) by {
            assert(leads_to(t, i, t[c].parent));
        }
        lemma_leads_transitive(t, i, c, j);
    }
    assert forall|p: int, q: int| 0 <= p < q < all.len() implies all[p] != all[q] by {
        assert(all[q] == rest[q - 1]);
        assert(rest.contains(rest[q - 1]));
        if p > 0 {
            assert(all[p] == rest[p - 1]);
        }
    }
    assert forall|j: int| #[trigger] all.contains(j) <==> (j < t.len() && leads_to(t, i, j)) by {
        if all.contains(j) {
            let p = all.index_of(j);
            assert(all[p] == j);
            if p > 0 {
                assert(rest[p - 1] == j);
                assert(rest.contains(j));
                let l = choose|l: int|
                    0 <= l < n && leads_to(t, #[trigger] children(t, i)[l], j) && j < t.len();
                assert(j < t.len());
            }
        }
        if j < t.len() && leads_to(t, i, j) {
            if j == i {
                assert(all[0] == i);
            } else {
                let c = lemma_leads_through_child(t, i, j);
                assert(children(t, i).contains(c));
                let l = children(t, i).index_of(c);
                assert(children(t, i)[l] == c);
                assert(rest.contains(j));
                let p = rest.index_of(j);
                assert(all[p + 1] == j);
            }
        }
    }
}

pub proof fn lemma_root_leads_everywhere(t: Seq<NodeView>, j: int)
    requires
        tree_wf(t),
        0 <= j < t.len(),
    ensures
        leads_to(t, 0, j),
    decreases j,
{
    if j > 0 {
        assert(entry_wf(t, j));
        lemma_root_leads_everywhere(t, t[j].parent);
    }
}

/// The order in which the entries are emitted holds every entry once, and the
/// root first.
pub proof fn emission_order_is_complete(t: Seq<NodeView>)
    requires
        tree_wf(t),
    ensures
        preorder(t, 0).no_duplicates(),
        preorder(t, 0).len() == t.len(),
        preorder(t, 0)[0] == 0,
        forall|j: int| #[trigger] preorder(t, 0).contains(j) <==> 0 <= j < t.len(),
{
    lemma_preorder(t, 0);
    let p = preorder(t, 0);
    assert forall|j: int| #[trigger] p.contains(j) <==> 0 <= j < t.len() by {
        if 0 <= j < t.len() {
            lemma_root_leads_everywhere(t, j);
        }
        if p.contains(j) {
            lemma_leads_down(t, 0, j);
        }
    }
    p.unique_seq_to_set();
    let all = vstd::set_lib::set_int_range(0, t.len() as int);
    vstd::set_lib::lemma_int_range(0, t.len() as int);
    assert(p.to_set() =~= all);
}

/// One tree goes on where the other ends.
pub open spec fn extends(u: Seq<NodeView>, t: Seq<NodeView>) -> bool {
    t.len() <= u.len() && u.subrange(0, t.len() as int) == t
}

/// A new entry with its place in a directory, under a name that is free there,
/// keeps the list a tree.
pub proof fn lemma_push_wf(t: Seq<NodeView>, n: NodeView)
    requires
        tree_wf(t),
        0 <= n.parent < t.len(),
        t[n.parent].kind == FileType::Dir,
        is_name(n.name),
        n.kind == FileType::of_mode(n.meta.mode),
        find(t, n.parent, n.name) is None,
    ensures
        tree_wf(t.push(n)),
{
    let u = t.push(n);
    assert forall|j: int| 0 < j < u.len() implies #[trigger] entry_wf(u, j) by {
        if j < t.len() {
            assert(entry_wf(t, j));
            assert(u[j] == t[j]);
            assert(u[t[j].parent] == t[t[j].parent]);
        } else {
            assert(u[j] == n);
            assert(u[n.parent] == t[n.parent]);
        }
    }
    assert forall|j: int, k: int| 0 < j < k < u.len() implies #[trigger] apart(u, j, k) by {
        assert(u[j] == t[j]);
        if k < t.len() {
            assert(u[k] == t[k]);
            assert(apart(t, j, k));
        } else if u[j].parent == n.parent && u[j].name == n.name {
            assert(is_named(t, n.parent, n.name, j));
        }
    }
}

/// What a name finds does not change when another entry is added.
proof fn lemma_find_push(t: Seq<NodeView>, n: NodeView, i: int, name: Seq<u8>)
    requires
        tree_wf(t),
        tree_wf(t.push(n)),
        t.len() > 0,
    ensures
        find(t.push(n), i, name) == if n.parent == i && n.name == name {
            Some(t.len() as int)
        } else {
            find(t, i, name)
        },
{
    let u = t.push(n);
    if n.parent == i && n.name == name {
        assert(u[t.len() as int] == n);
        assert(is_named(u, i, name, t.len() as int));
        lemma_find(u, i, name, t.len() as int);
    } else if exists|j: int| is_named(t, i, name, j) {
        let j = choose|j: int| is_named(t, i, name, j);
        assert(u[j] == t[j]);
        assert(is_named(u, i, name, j));
        lemma_find(u, i, name, j);
    } else if exists|j: int| is_named(u, i, name, j) {
        let j = choose|j: int| is_named(u, i, name, j);
        if j < t.len() {
            assert(u[j] == t[j]);
            assert(is_named(t, i, name, j));
        } else {
            assert(u[j] == n);
        }
    }
}

/// What a path finds, it still finds when another entry is added.
proof fn lemma_lookup_push(t: Seq<NodeView>, n: NodeView, i: int, path: Seq<Seq<u8>>)
    requires
        tree_wf(t),
        tree_wf(t.push(n)),
        find(t, n.parent, n.name) is None,
        lookup(t, i, path) is Some,
    ensures
        lookup(t.push(n), i, path) == lookup(t, i, path),
    decreases path.len(),
{
    if path.len() > 0 {
        lemma_find_push(t, n, i, path[0]);
        let j = find(t, i, path[0])->Some_0;
        lemma_lookup_push(t, n, j, path.skip(1));
    }
}

/// A new directory holds nothing.
pub proof fn lemma_nothing_in_last(t: Seq<NodeView>, name: Seq<u8>)
    requires
        tree_wf(t),
    ensures
        find(t, t.len() - 1, name) is None || t.len() == 1,
{
    let i = t.len() - 1;
    if exists|j: int| is_named(t, i, name, j) {
        let j = choose|j: int| is_named(t, i, name, j);
        assert(entry_wf(t, j));
    }
}

/// Only directories have entries in them.
pub proof fn lemma_nothing_below(t: Seq<NodeView>, i: int, name: Seq<u8>)
    requires
        tree_wf(t),
        0 <= i < t.len(),
        t[i].kind != FileType::Dir,
    ensures
        find(t, i, name) is None,
{
    if exists|j: int| is_named(t, i, name, j) {
        let j = choose|j: int| is_named(t, i, name, j);
        assert(entry_wf(t, j));
    }
}

/// Adding an entry keeps every entry as it is and where it is, and makes the
/// path lead to an entry: to the new one if it led nowhere, else to the one
/// that it led to.
pub proof fn adding_an_entry(t: Seq<NodeView>, i: int, path: Seq<Seq<u8>>, node: NodeView)
    requires
        tree_wf(t),
        0 <= i < t.len(),
        t[i].kind == FileType::Dir,
        all_names(path),
        path.len() > 0,
        node.kind == FileType::of_mode(node.meta.mode),
    ensures
        added(t, i, path, node) matches Some(u) ==> {
            &&& tree_wf(u)
            &&& extends(u, t)
            &&& match lookup(t, i, path) {
                Some(j) => u == t && lookup(u, i, path) == Some(j),
                None => {
                    &&& lookup(u, i, path) == Some(u.len() - 1)
                    &&& u.len() > t.len()
                    &&& u.last() == placed(node, u.last().parent, path.last())
                },
            }
        },
        added(t, i, path, node) is None ==> lookup(t, i, path) is None,
    decreases path.len(),
{
    let head = path[0];
    assert(is_name(head));
    let rest = path.skip(1);
    assert forall|k: int| 0 <= k < rest.len() implies is_name(#[trigger] rest[k]) by {
        assert(rest[k] == path[k + 1]);
    }
    let found = find(t, i, head);
    if found is Some {
        let j = found->Some_0;
        assert(exists|k: int| is_named(t, i, head, k));
        let k = choose|k: int| is_named(t, i, head, k);
        lemma_find(t, i, head, k);
        assert(is_named(t, i, head, j));
    }
    assert(lookup(t, i, path) == match found {
        Some(j) => lookup(t, j, rest),
        None => None,
    });
    if path.len() == 1 {
        assert(path.last() == head);
        match found {
            Some(j) => {
                assert(t.subrange(0, t.len() as int) =~= t);
                assert(lookup(t, j, rest) == Some(j));
            },
            None => {
                let n = placed(node, i, head);
                let u = t.push(n);
                lemma_push_wf(t, n);
                lemma_find_push(t, n, i, head);
                assert(u.subrange(0, t.len() as int) =~= t);
                assert(lookup(u, t.len() as int, rest) == Some(t.len() as int));
                assert(lookup(u, i, path) == lookup(u, t.len() as int, rest));
                assert(u.last() == n);
            },
        }
    } else {
        assert(rest.last() == path.last());
        match found {
            Some(j) => {
                if t[j].kind == FileType::Dir {
                    adding_an_entry(t, j, rest, node);
                    if let Some(u) = added(t, j, rest, node) {
                        assert(u[j] == t[j]) by {
                            assert(u.subrange(0, t.len() as int)[j] == u[j]);
                        }
                        assert(is_named(u, i, head, j));
                        lemma_find(u, i, head, j);
                    }
                } else {
                    // An entry that is no directory holds nothing.
                    if exists|k: int| is_named(t, j, rest[0], k) {
                        let k = choose|k: int| is_named(t, j, rest[0], k);
                        assert(entry_wf(t, k));
                    }
                    assert(lookup(t, j, rest) is None);
                }
            },
            None => {
                let n = placed(implied_dir(), i, head);
                let v = t.push(n);
                lemma_implied_dir_kind();
                lemma_push_wf(t, n);
                assert(v[t.len() as int] == n);
                adding_an_entry(v, t.len() as int, rest, node);
                lemma_nothing_in_last(v, rest[0]);
                assert(lookup(v, t.len() as int, rest) is None);
                lemma_added_below_last(v, rest, node);
                if let Some(u) = added(v, t.len() as int, rest, node) {
                    assert(u.subrange(0, t.len() as int) =~= u.subrange(
                        0,
                        v.len() as int,
                    ).subrange(0, t.len() as int));
                    assert(v.subrange(0, t.len() as int) =~= t);
                    assert(u[t.len() as int] == n) by {
                        assert(u.subrange(0, v.len() as int)[t.len() as int] == u[t.len() as int]);
                    }
                    assert(is_named(u, i, head, t.len() as int));
                    lemma_find(u, i, head, t.len() as int);
                }
            },
        }
    }
}

pub proof fn lemma_implied_dir_kind()
    ensures
        implied_dir().kind == FileType::Dir,
{
    let m = 0o755u16;
    assert((0o040000u16 | (m & !0o170000u16)) & 0o170000u16 == 0o040000u16) by (bit_vector);
}

/// Below a directory that holds nothing there is always a way.
pub proof fn lemma_added_below_last(t: Seq<NodeView>, path: Seq<Seq<u8>>, node: NodeView)
    requires
        tree_wf(t),
        t.len() > 1,
        t.last().kind == FileType::Dir,
        all_names(path),
        path.len() > 0,
        node.kind == FileType::of_mode(node.meta.mode),
    ensures
        added(t, t.len() - 1, path, node) is Some,
    decreases path.len(),
{
    let i = t.len() - 1;
    lemma_nothing_in_last(t, path[0]);
    if path.len() > 1 {
        let n = placed(implied_dir(), i, path[0]);
        let rest = path.skip(1);
        lemma_implied_dir_kind();
        assert(is_name(path[0]));
        lemma_push_wf(t, n);
        assert forall|k: int| 0 <= k < rest.len() implies is_name(#[trigger] rest[k]) by {
            assert(rest[k] == path[k + 1]);
        }
        lemma_added_below_last(t.push(n), rest, node);
    }
}

/// Where the bytes of a regular file come from.
pub enum Content {
    Empty,
    Inline(Vec<u8>),
    /// From a stream that is still to be drained.
    Stream,
    /// From a stream.
    Drained(Vec<u8>),
}

impl Content {
    /// The bytes, as far as they are there.
    pub open spec fn bytes(self) -> Seq<u8> {
        match self {
            Content::Inline(d) => d@,
            Content::Drained(d) => d@,
            _ => Seq::empty(),
        }
    }

    pub open spec fn is_pending(self) -> bool {
        self is Stream
    }

    /// The bytes, as far as they are there.
    pub fn as_slice(&self) -> (s: &[u8])
        ensures
            s@ == self.bytes(),
    {
        match self {
            Content::Inline(d) => d.as_slice(),
            Content::Drained(d) => d.as_slice(),
            _ => {
                let none: &[u8] = &[];
                assert(none@ =~= Seq::empty());
                none
            },
        }
    }
}

/// An entry.
pub struct Node {
    pub name: Vec<u8>,
    pub parent: usize,
    pub meta: InodeMeta,
    pub file_type: FileType,
    pub content: Content,
    pub link_target: Vec<u8>,
    /// The entries of a directory, in the order in which they were added.
    pub children: Vec<usize>,
}

impl View for Node {
    type V = NodeView;

    open spec fn view(&self) -> NodeView {
        NodeView {
            name: self.name@,
            parent: self.parent as int,
            meta: self.meta@,
            kind: self.file_type,
            data: self.content.bytes(),
            pending: self.content.is_pending(),
            link: self.link_target@,
        }
    }
}

impl Node {
    /// An entry that has no place yet. Its kind is what its mode says.
    pub fn new(meta: InodeMeta, content: Content, link_target: Vec<u8>) -> (n: Node)
        ensures
            n@ == loose(meta@, content.bytes(), content.is_pending(), link_target@),
            n.meta == meta,
            n.content == content,
            n.link_target == link_target,
            n.children@.len() == 0,
    {
        let file_type: FileType = FileType::from_mode(meta.mode);
        let n = Node {
            name: Vec::new(),
            parent: 0,
            meta,
            file_type,
            content,
            link_target,
            children: Vec::new(),
        };
        assert(n@ =~= loose(meta@, content.bytes(), content.is_pending(), link_target@));
        n
    }

    pub fn is_dir(&self) -> (r: bool)
        ensures
            r == (self@.kind == FileType::Dir),
    {
        self.file_type == FileType::Dir
    }

    /// The size of the entry as far as it does not depend on directory data.
    pub fn on_disk_size(&self) -> (n: usize)
        ensures
            n == own_size(self@),
    {
        match self.file_type {
            FileType::RegFile | FileType::Unknown => self.content.as_slice().len(),
            FileType::Symlink => self.link_target.len(),
            _ => 0,
        }
    }
}

/// The entries of an image.
pub struct Tree {
    nodes: Vec<Node>,
}

impl View for Tree {
    type V = Seq<NodeView>;

    closed spec fn view(&self) -> Seq<NodeView> {
        Seq::new(self.nodes@.len(), |i: int| self.nodes@[i]@)
    }
}

impl Tree {
    /// The list is a tree, and each directory knows its entries.
    pub closed spec fn wf(&self) -> bool {
        &&& tree_wf(self@)
        &&& forall|i: int|
            0 <= i < self.nodes@.len() ==> ints((#[trigger] self.nodes@[i]).children@) == children(
                self@,
                i,
            )
    }

    pub proof fn lemma_wf(&self)
        requires
            self.wf(),
        ensures
            tree_wf(self@),
    {
    }

    /// The tree of an empty image: a root directory.
    pub fn new() -> (t: Tree)
        ensures
            t.wf(),
            t@ == seq![implied_dir()],
    {
        let mut nodes: Vec<Node> = Vec::new();
        let root: Node = Node::new(InodeMeta::dir(0o755), Content::Empty, Vec::new());
        nodes.push(root);
        let t = Tree { nodes };
        proof {
            lemma_implied_dir_kind();
            assert(t@[0] =~= implied_dir());
            assert(t@ =~= seq![implied_dir()]);
            assert(ints(root.children@) =~= children(t@, 0));
        }
        t
    }

    pub fn len(&self) -> (n: usize)
        ensures
            n == self@.len(),
    {
        self.nodes.len()
    }

    /// The entry at position `i`.
    pub fn node(&self, i: usize) -> (n: &Node)
        requires
            self.wf(),
            i < self@.len(),
        ensures
            n@ == self@[i as int],
            ints(n.children@) == children(self@, i as int),
    {
        &self.nodes[i]
    }

    /// The entry called `name` in a directory.
    fn find_child(&self, dir: usize, name: &[u8]) -> (r: Option<usize>)
        requires
            self.wf(),
            dir < self@.len(),
        ensures
            match find(self@, dir as int, name@) {
                Some(j) => r matches Some(k) && k == j && is_named(self@, dir as int, name@, j),
                None => r is None,
            },
    {
        let ghost t = self@;
        proof {
            lemma_children(t, dir as int);
        }
        let cs: &Vec<usize> = &self.nodes[dir].children;
        let mut k: usize = 0;
        while k < cs.len()
            invariant
                self.wf(),
                t == self@,
                dir < t.len(),
                ints(cs@) == children(t, dir as int),
                k <= cs@.len(),
                forall|l: int|
                    0 <= l < cs@.len() ==> is_child(
                        t,
                        dir as int,
                        #[trigger] children(t, dir as int)[l],
                    ),
                forall|l: int|
                    0 <= l < k ==> t[#[trigger] children(t, dir as int)[l]].name != name@,
            decreases cs@.len() - k,
        {
            let c: usize = cs[k];
            assert(ints(cs@)[k as int] == c);
            assert(is_child(t, dir as int, children(t, dir as int)[k as int]));
            if name_equal(self.nodes[c].name.as_slice(), name) {
                proof {
                    assert(is_named(t, dir as int, name@, c as int));
                    lemma_find(t, dir as int, name@, c as int);
                }
                return Some(c);
            }
            k = k + 1;
        }
        proof {
            if exists|j: int| is_named(t, dir as int, name@, j) {
                let j = choose|j: int| is_named(t, dir as int, name@, j);
                assert(children(t, dir as int).contains(j));
                let l = children(t, dir as int).index_of(j);
                assert(children(t, dir as int)[l] == j);
            }
        }
        None
    }

    /// Puts a loose entry into a directory, under a name that is free there.
    fn place(&mut self, dir: usize, name: Vec<u8>, node: Node)
        requires
            old(self).wf(),
            dir < old(self)@.len(),
            old(self)@[dir as int].kind == FileType::Dir,
            is_name(name@),
            find(old(self)@, dir as int, name@) is None,
            node.children@.len() == 0,
            node@.kind == FileType::of_mode(node@.meta.mode),
        ensures
            final(self).wf(),
            final(self)@ == old(self)@.push(placed(node@, dir as int, name@)),
    {
        let ghost t = self@;
        let ghost n = placed(node@, dir as int, name@);
        let index: usize = self.nodes.len();
        let mut node: Node = node;
        node.name = name;
        node.parent = dir;
        self.nodes[dir].children.push(index);
        self.nodes.push(node);
        proof {
            assert(self@ =~= t.push(n));
            lemma_push_wf(t, n);
            assert forall|i: int| 0 <= i < self.nodes@.len() implies ints(
                (#[trigger] self.nodes@[i]).children@,
            ) == children(self@, i) by {
                lemma_children_push(t, n, i);
                if i == dir {
                    assert(ints(self.nodes@[i].children@) =~= ints(
                        old(self).nodes@[i].children@,
                    ).push(index as int));
                    assert(ints(old(self).nodes@[i].children@) == children(t, i));
                } else if i < t.len() {
                    assert(self.nodes@[i] == old(self).nodes@[i]);
                } else {
                    assert(children(t, i) =~= Seq::<int>::empty()) by {
                        lemma_children(t, i);
                        if children(t, i).len() > 0 {
                            let c = children(t, i)[0];
                            assert(is_child(t, i, c));
                            assert(entry_wf(t, c));
                        }
                    }
                    assert(ints(self.nodes@[i].children@) =~= Seq::<int>::empty());
                }
            }
        }
    }

    /// The directory that the last name of a path goes into. Directories that
    /// the path leads through and that are not there are made; where it leads
    /// through an entry that is no directory, nothing changes.
    fn ensure_dir(&mut self, path: &Vec<Vec<u8>>, Ghost(node): Ghost<NodeView>) -> (r: Result<
        usize,
        Error,
    >)
        requires
            old(self).wf(),
            path@.len() > 0,
            all_names(views(path@)),
        ensures
            final(self).wf(),
            match r {
                Ok(dir) => {
                    &&& dir < final(self)@.len()
                    &&& final(self)@[dir as int].kind == FileType::Dir
                    &&& added(old(self)@, 0, views(path@), node) == added(
                        final(self)@,
                        dir as int,
                        seq![views(path@).last()],
                        node,
                    )
                    &&& if final(self)@ == old(self)@ {
                        lookup(old(self)@, 0, views(path@)) == lookup(
                            final(self)@,
                            dir as int,
                            seq![views(path@).last()],
                        )
                    } else {
                        old(self)@.len() < final(self)@.len() && dir == final(self)@.len() - 1
                    }
                },
                Err(e) => {
                    &&& e == Error::MissingParent
                    &&& added(old(self)@, 0, views(path@), node) is None
                    &&& final(self)@ == old(self)@
                },
            },
    {
        let ghost t0 = self@;
        let ghost p = views(path@);
        let mut dir: usize = 0;
        let mut k: usize = 0;
        assert(p.skip(0) =~= p);
        while k < path.len() - 1
            invariant
                self.wf(),
                p == views(path@),
                t0 == old(self)@,
                all_names(p),
                k < path@.len(),
                dir < self@.len(),
                self@[dir as int].kind == FileType::Dir,
                added(t0, 0, p, node) == added(self@, dir as int, p.skip(k as int), node),
                t0.len() > 0,
                if self@ == t0 {
                    lookup(t0, 0, p) == lookup(self@, dir as int, p.skip(k as int))
                } else {
                    t0.len() < self@.len() && dir == self@.len() - 1
                },
            decreases path@.len() - k,
        {
            let ghost t = self@;
            let ghost i = dir as int;
            let ghost here = p.skip(k as int);
            proof {
                assert(here[0] == path@[k as int]@);
                assert(here.skip(1) =~= p.skip(k + 1));
                assert(is_name(p[k as int]));
            }
            match self.find_child(dir, path[k].as_slice()) {
                Some(j) => {
                    proof {
                        if t != t0 {
                            lemma_nothing_in_last(t, here[0]);
                        }
                    }
                    if !self.nodes[j].is_dir() {
                        return Err(Error::MissingParent);
                    }
                    dir = j;
                },
                None => {
                    let made: Node = Node::new(InodeMeta::dir(0o755), Content::Empty, Vec::new());
                    let name: Vec<u8> = copy_bytes(path[k].as_slice());
                    let index: usize = self.nodes.len();
                    proof {
                        lemma_implied_dir_kind();
                        assert(made@ =~= implied_dir());
                    }
                    self.place(dir, name, made);
                    dir = index;
                },
            }
            k = k + 1;
        }
        assert(p.skip(k as int) =~= seq![p.last()]);
        Ok(dir)
    }

    /// Adds an entry at the end of a path. Returns its position, or nothing
    /// where there was an entry at that path.
    pub fn add(&mut self, path: &Vec<Vec<u8>>, node: Node) -> (r: Result<Option<usize>, Error>)
        requires
            old(self).wf(),
            path@.len() > 0,
            all_names(views(path@)),
            node.children@.len() == 0,
            node@.kind == FileType::of_mode(node@.meta.mode),
        ensures
            final(self).wf(),
            match added(old(self)@, 0, views(path@), node@) {
                Some(t) => {
                    &&& final(self)@ == t
                    &&& match lookup(old(self)@, 0, views(path@)) {
                        Some(_) => r == Ok::<Option<usize>, Error>(None),
                        None => r matches Ok(Some(i)) && i == t.len() - 1,
                    }
                },
                None => final(self)@ == old(self)@ && r == Err::<Option<usize>, Error>(
                    Error::MissingParent,
                ),
            },
    {
        proof {
            adding_an_entry(self@, 0, views(path@), node@);
        }
        let ghost p = views(path@);
        let dir: usize = match self.ensure_dir(path, Ghost(node@)) {
            Ok(d) => d,
            Err(e) => {
                return Err(e);
            },
        };
        let last: &Vec<u8> = &path[path.len() - 1];
        assert(p.last() == last@);
        assert(is_name(p[p.len() - 1]));
        let ghost one = seq![p.last()];
        match self.find_child(dir, last.as_slice()) {
            Some(_) => {
                proof {
                    assert(one[0] == p.last());
                    if self@ != old(self)@ {
                        lemma_nothing_in_last(self@, p.last());
                    }
                    assert(lookup(self@, dir as int, one) is Some) by {
                        assert(lookup(
                            self@,
                            find(self@, dir as int, p.last())->Some_0,
                            one.skip(1),
                        ) is Some);
                    }
                }
                Ok(None)
            },
            None => {
                let index: usize = self.nodes.len();
                let name: Vec<u8> = copy_bytes(last.as_slice());
                proof {
                    assert(one[0] == p.last());
                    assert(lookup(self@, dir as int, one) is None);
                    adding_an_entry(self@, dir as int, one, node@);
                }
                self.place(dir, name, node);
                Ok(Some(index))
            },
        }
    }
}

impl Tree {
    /// Gives the root directory other metadata. It stays a directory.
    pub fn set_root_meta(&mut self, meta: InodeMeta)
        requires
            old(self).wf(),
        ensures
            final(self).wf(),
            final(self)@ == old(self)@.update(0, NodeView { meta: meta@, ..old(self)@[0] }),
    {
        let ghost t = self@;
        self.nodes[0].meta = meta;
        proof {
            assert(self@ =~= t.update(0, NodeView { meta: meta@, ..t[0] }));
            lemma_same_shape(t, self@);
            assert forall|i: int| 0 <= i < self.nodes@.len() implies ints(
                (#[trigger] self.nodes@[i]).children@,
            ) == children(self@, i) by {
                lemma_same_children(t, self@, i, t.len() as int);
                assert(ints(old(self).nodes@[i].children@) == children(t, i));
            }
        }
    }

    /// Gives an entry its drained content.
    pub fn set_drained(&mut self, i: usize, data: Vec<u8>)
        requires
            old(self).wf(),
            i < old(self)@.len(),
        ensures
            final(self).wf(),
            final(self)@ == old(self)@.update(
                i as int,
                NodeView { data: data@, pending: false, ..old(self)@[i as int] },
            ),
    {
        let ghost t = self@;
        self.nodes[i].content = Content::Drained(data);
        proof {
            let u = t.update(
                i as int,
                NodeView { data: data@, pending: false, ..t[i as int] },
            );
            assert(self@ =~= u);
            lemma_same_shape(t, self@);
            assert forall|j: int| 0 <= j < self.nodes@.len() implies ints(
                (#[trigger] self.nodes@[j]).children@,
            ) == children(self@, j) by {
                lemma_same_children(t, self@, j, t.len() as int);
                assert(ints(old(self).nodes@[j].children@) == children(t, j));
            }
        }
    }

    fn collect_subtree(&self, i: usize, out: &mut Vec<usize>)
        requires
            self.wf(),
            i < self@.len(),
        ensures
            ints(final(out)@) == ints(old(out)@) + preorder(self@, i as int),
        decreases self@.len() - i,
    {
        let ghost t = self@;
        let ghost before = ints(out@);
        proof {
            lemma_children(t, i as int);
        }
        out.push(i);
        let cs: &Vec<usize> = &self.nodes[i].children;
        let mut k: usize = 0;
        assert(ints(out@) =~= before + (seq![i as int] + subtrees(t, i as int, 0)));
        while k < cs.len()
            invariant
                self.wf(),
                t == self@,
                i < t.len(),
                ints(cs@) == children(t, i as int),
                forall|l: int|
                    0 <= l < children(t, i as int).len() ==> is_child(
                        t,
                        i as int,
                        #[trigger] children(t, i as int)[l],
                    ),
                k <= cs@.len(),
                ints(out@) == before + (seq![i as int] + subtrees(t, i as int, k as int)),
            decreases cs@.len() - k,
        {
            let c: usize = cs[k];
            proof {
                assert(ints(cs@)[k as int] == c);
                assert(is_child(t, i as int, children(t, i as int)[k as int]));
                assert(entry_wf(t, c as int));
            }
            self.collect_subtree(c, out);
            proof {
                assert(subtrees(t, i as int, k + 1) == subtrees(t, i as int, k as int) + preorder(
                    t,
                    c as int,
                ));
                assert(ints(out@) =~= before + (seq![i as int] + subtrees(t, i as int, k + 1)));
            }
            k = k + 1;
        }
    }

    /// The entries in the order in which they are emitted: each directory
    /// before what it holds.
    pub fn collect_entries(&self) -> (out: Vec<usize>)
        requires
            self.wf(),
        ensures
            ints(out@) == preorder(self@, 0),
    {
        let mut out: Vec<usize> = Vec::new();
        self.collect_subtree(0, &mut out);
        assert(ints(out@) =~= preorder(self@, 0));
        out
    }

    /// The link count of an entry, where it can be represented.
    pub fn effective_nlink(&self, i: usize) -> (r: Option<u32>)
        requires
            self.wf(),
            i < self@.len(),
        ensures
            r is Some <==> nlink_of(self@, i as int) <= u32::MAX,
            r matches Some(n) ==> n == nlink_of(self@, i as int),
    {
        let n: &Node = &self.nodes[i];
        if let Some(given) = n.meta.nlink {
            return Some(given);
        }
        if !n.is_dir() {
            return Some(1);
        }
        let ghost t = self@;
        proof {
            lemma_children(t, i as int);
        }
        let mut count: u32 = 2;
        let mut k: usize = 0;
        while k < n.children.len()
            invariant
                self.wf(),
                t == self@,
                i < t.len(),
                n == self.nodes@[i as int],
                ints(n.children@) == children(t, i as int),
                forall|l: int|
                    0 <= l < children(t, i as int).len() ==> is_child(
                        t,
                        i as int,
                        #[trigger] children(t, i as int)[l],
                    ),
                k <= n.children@.len(),
                count == 2 + subdirs_upto(t, i as int, k as int),
                nlink_of(t, i as int) == 2 + subdirs_upto(
                    t,
                    i as int,
                    children(t, i as int).len() as int,
                ),
            decreases n.children@.len() - k,
        {
            let c: usize = n.children[k];
            proof {
                assert(ints(n.children@)[k as int] == c);
                assert(is_child(t, i as int, children(t, i as int)[k as int]));
                lemma_subdirs_ordered(t, i as int, k + 1, children(t, i as int).len() as int);
            }
            if self.nodes[c].is_dir() {
                count = match count.checked_add(1) {
                    Some(m) => m,
                    None => {
                        return None;
                    },
                };
            }
            k = k + 1;
        }
        Some(count)
    }
}

proof fn lemma_subdirs_ordered(t: Seq<NodeView>, i: int, j: int, k: int)
    requires
        j <= k,
    ensures
        subdirs_upto(t, i, j) <= subdirs_upto(t, i, k),
    decreases k - j,
{
    if j < k {
        lemma_subdirs_ordered(t, i, j, k - 1);
    }
}

/// Two lists that differ only in content, and in the root's metadata.
pub open spec fn same_shape(t: Seq<NodeView>, u: Seq<NodeView>) -> bool {
    &&& t.len() == u.len()
    &&& forall|i: int|
        0 <= i < t.len() ==> (#[trigger] u[i]).name == t[i].name && u[i].parent == t[i].parent
            && u[i].kind == t[i].kind
    &&& forall|i: int| 0 < i < t.len() ==> (#[trigger] u[i]).meta == t[i].meta
}

pub proof fn lemma_same_shape(t: Seq<NodeView>, u: Seq<NodeView>)
    requires
        tree_wf(t),
        same_shape(t, u),
    ensures
        tree_wf(u),
{
    assert(u[0].kind == t[0].kind);
    assert forall|j: int| 0 < j < u.len() implies #[trigger] entry_wf(u, j) by {
        assert(entry_wf(t, j));
        assert(u[j].parent == t[j].parent);
        assert(u[t[j].parent].kind == t[t[j].parent].kind);
    }
    assert forall|j: int, k: int| 0 < j < k < u.len() implies #[trigger] apart(u, j, k) by {
        assert(apart(t, j, k));
        assert(u[j].parent == t[j].parent && u[k].parent == t[k].parent);
    }
}

proof fn lemma_same_children(t: Seq<NodeView>, u: Seq<NodeView>, i: int, n: int)
    requires
        same_shape(t, u),
        n <= t.len(),
    ensures
        children_upto(u, i, n) == children_upto(t, i, n),
    decreases n,
{
    if n > 1 {
        lemma_same_children(t, u, i, n - 1);
        assert(u[n - 1].parent == t[n - 1].parent);
    }
}

/// A copy of some bytes.
pub fn copy_bytes(s: &[u8]) -> (v: Vec<u8>)
    ensures
        v@ == s@,
{
    vstd::slice::slice_to_vec(s)
}

} // verus!
