//! The order in which the entries are emitted.

use vstd::prelude::*;

use crate::plan::{lemma_pos_of, pos_of};
use crate::tree::{children, emission_order_is_complete, entry_wf, is_child, leads_to,
    lemma_children, lemma_leads_down, lemma_leads_through_child, lemma_preorder,
    lemma_root_leads_everywhere, lemma_subtrees, preorder, subtrees, tree_wf, NodeView};

verus! {

/// `x` comes before `y` in `s`.
spec fn ahead(s: Seq<int>, x: int, y: int) -> bool {
    exists|p: int, q: int| 0 <= p < q < s.len() && #[trigger] s[p] == x && #[trigger] s[q] == y
}

proof fn lemma_ahead_concat(s: Seq<int>, u: Seq<int>, x: int, y: int)
    ensures
        ahead(s, x, y) ==> ahead(s + u, x, y),
        ahead(u, x, y) ==> ahead(s + u, x, y),
        s.contains(x) && u.contains(y) ==> ahead(s + u, x, y),
{
    let all = s + u;
    if ahead(s, x, y) {
        let (p, q) = choose|p: int, q: int|
            0 <= p < q < s.len() && #[trigger] s[p] == x && #[trigger] s[q] == y;
        assert(all[p] == x && all[q] == y);
    }
    if ahead(u, x, y) {
        let (p, q) = choose|p: int, q: int|
            0 <= p < q < u.len() && #[trigger] u[p] == x && #[trigger] u[q] == y;
        assert(all[s.len() + p] == x && all[s.len() + q] == y);
    }
    if s.contains(x) && u.contains(y) {
        let p = s.index_of(x);
        let q = u.index_of(y);
        assert(all[p] == x && all[s.len() + q] == y);
    }
}

/// What is in order in one subtree is in order in them all.
proof fn lemma_within_one(t: Seq<NodeView>, i: int, k: int, l: int, x: int, y: int)
    requires
        tree_wf(t),
        0 <= i < t.len(),
        0 <= l < k <= children(t, i).len(),
        ahead(preorder(t, children(t, i)[l]), x, y),
    ensures
        ahead(subtrees(t, i, k), x, y),
    decreases k,
{
    lemma_children(t, i);
    let c = children(t, i)[k - 1];
    assert(is_child(t, i, c));
    assert(entry_wf(t, c));
    lemma_ahead_concat(subtrees(t, i, k - 1), preorder(t, c), x, y);
    if l < k - 1 {
        lemma_within_one(t, i, k - 1, l, x, y);
    }
}

/// An earlier subtree comes before a later one.
proof fn lemma_across(t: Seq<NodeView>, i: int, k: int, l: int, m: int, x: int, y: int)
    requires
        tree_wf(t),
        0 <= i < t.len(),
        0 <= l < m < k <= children(t, i).len(),
        leads_to(t, children(t, i)[l], x),
        leads_to(t, children(t, i)[m], y),
        x < t.len(),
        y < t.len(),
    ensures
        ahead(subtrees(t, i, k), x, y),
    decreases k,
{
    lemma_children(t, i);
    let c = children(t, i)[k - 1];
    assert(is_child(t, i, c));
    assert(entry_wf(t, c));
    lemma_ahead_concat(subtrees(t, i, k - 1), preorder(t, c), x, y);
    if m < k - 1 {
        lemma_across(t, i, k - 1, l, m, x, y);
    } else {
        lemma_subtrees(t, i, k - 1);
        lemma_preorder(t, c);
        assert(subtrees(t, i, k - 1).contains(x));
        assert(preorder(t, c).contains(y));
    }
}

/// The place of a child among those of its directory.
proof fn lemma_rank(t: Seq<NodeView>, i: int, c: int) -> (l: int)
    requires
        is_child(t, i, c),
    ensures
        0 <= l < children(t, i).len(),
        children(t, i)[l] == c,
{
    lemma_children(t, i);
    children(t, i).index_of(c)
}

proof fn lemma_parent_ahead(t: Seq<NodeView>, i: int, j: int)
    requires
        tree_wf(t),
        0 <= i < t.len(),
        0 <= j < t.len(),
        leads_to(t, i, j),
        i != j,
    ensures
        ahead(preorder(t, i), t[j].parent, j),
    decreases t.len() - i,
{
    let n = children(t, i).len() as int;
    let rest = subtrees(t, i, n);
    assert(entry_wf(t, j));
    lemma_ahead_concat(seq![i], rest, t[j].parent, j);
    let c = lemma_leads_through_child(t, i, j);
    let l = lemma_rank(t, i, c);
    assert(entry_wf(t, c));
    lemma_subtrees(t, i, n);
    lemma_leads_down(t, c, j);
    if t[j].parent == i {
        assert(rest.contains(j));
        assert(seq![i].contains(i)) by {
            assert(seq![i][0] == i);
        }
    } else {
        if c == j {
            assert(t[j].parent == i);
        }
        lemma_parent_ahead(t, c, j);
        lemma_within_one(t, i, n, l, t[j].parent, j);
    }
}

proof fn lemma_siblings_ahead(t: Seq<NodeView>, i: int, d: int, a: int, b: int, x: int, y: int)
    requires
        tree_wf(t),
        0 <= i < t.len(),
        0 <= d < t.len(),
        leads_to(t, i, d),
        is_child(t, d, a),
        is_child(t, d, b),
        a < b,
        leads_to(t, a, x),
        leads_to(t, b, y),
        x < t.len(),
        y < t.len(),
    ensures
        ahead(preorder(t, i), x, y),
    decreases t.len() - i,
{
    let n = children(t, i).len() as int;
    let rest = subtrees(t, i, n);
    lemma_ahead_concat(seq![i], rest, x, y);
    if d == i {
        let l = lemma_rank(t, i, a);
        let m = lemma_rank(t, i, b);
        lemma_children(t, i);
        if m <= l {
            assert(m == l || children(t, i)[m] < children(t, i)[l]);
        }
        lemma_across(t, i, n, l, m, x, y);
    } else {
        let c = lemma_leads_through_child(t, i, d);
        let l = lemma_rank(t, i, c);
        assert(entry_wf(t, c));
        lemma_siblings_ahead(t, c, d, a, b, x, y);
        lemma_within_one(t, i, n, l, x, y);
    }
}

proof fn lemma_ahead_positions(t: Seq<NodeView>, x: int, y: int)
    requires
        tree_wf(t),
        0 <= x < t.len(),
        0 <= y < t.len(),
        ahead(preorder(t, 0), x, y),
    ensures
        pos_of(t, x) < pos_of(t, y),
{
    let s = preorder(t, 0);
    emission_order_is_complete(t);
    let (p, q) = choose|p: int, q: int|
        0 <= p < q < s.len() && #[trigger] s[p] == x && #[trigger] s[q] == y;
    lemma_pos_of(t, x);
    lemma_pos_of(t, y);
    assert(s[pos_of(t, x)] == s[p]);
    assert(s[pos_of(t, y)] == s[q]);
}

/// A directory is emitted before what lies in it.
pub proof fn directories_come_first(t: Seq<NodeView>, j: int)
    requires
        tree_wf(t),
        0 < j < t.len(),
    ensures
        pos_of(t, 0) == 0,
        0 <= pos_of(t, t[j].parent) < pos_of(t, j) < t.len(),
{
    assert(entry_wf(t, j));
    lemma_root_leads_everywhere(t, j);
    lemma_parent_ahead(t, 0, j);
    lemma_ahead_positions(t, t[j].parent, j);
    lemma_pos_of(t, j);
    lemma_pos_of(t, t[j].parent);
    lemma_pos_of(t, 0);
    emission_order_is_complete(t);
    assert(preorder(t, 0)[pos_of(t, 0)] == preorder(t, 0)[0]);
}

/// Entry `j` is `a` or lies somewhere below it.
pub open spec fn is_under(t: Seq<NodeView>, a: int, j: int) -> bool
    decreases j,
{
    j == a || (0 < j < t.len() && 0 <= t[j].parent < j && is_under(t, a, t[j].parent))
}

proof fn lemma_under(t: Seq<NodeView>, a: int, j: int)
    ensures
        is_under(t, a, j) == leads_to(t, a, j),
    decreases j,
{
    if 0 < j < t.len() && 0 <= t[j].parent < j {
        lemma_under(t, a, t[j].parent);
    }
}

/// Of two entries of one directory, the one that was added first is emitted
/// first, with all that lies below it.
pub proof fn entries_come_in_the_order_of_adding(
    t: Seq<NodeView>,
    a: int,
    b: int,
    x: int,
    y: int,
)
    requires
        tree_wf(t),
        0 < a < b < t.len(),
        t[a].parent == t[b].parent,
        0 <= x < t.len(),
        0 <= y < t.len(),
        is_under(t, a, x),
        is_under(t, b, y),
    ensures
        pos_of(t, x) < pos_of(t, y),
{
    let d = t[a].parent;
    assert(entry_wf(t, a));
    lemma_under(t, a, x);
    lemma_under(t, b, y);
    lemma_root_leads_everywhere(t, d);
    lemma_siblings_ahead(t, 0, d, a, b, x, y);
    lemma_ahead_positions(t, x, y);
}

/// Every number is given to one entry: the entry that is emitted as number `k`
/// has position `k`.
pub proof fn every_entry_is_emitted_once(t: Seq<NodeView>, k: int)
    requires
        tree_wf(t),
        0 <= k < t.len(),
    ensures
        preorder(t, 0).len() == t.len(),
        0 <= preorder(t, 0)[k] < t.len(),
        pos_of(t, preorder(t, 0)[k]) == k,
{
    let s = preorder(t, 0);
    emission_order_is_complete(t);
    assert(s.contains(s[k]));
    lemma_pos_of(t, s[k]);
    assert(s[pos_of(t, s[k])] == s[k]);
}

} // verus!
