//! The byte order of names, and the positions of a list of names in that
//! order.

use vstd::prelude::*;

verus! {

/// `a` comes before `b` in byte order, where both are read from byte `k` on.
pub open spec fn less_from(a: Seq<u8>, b: Seq<u8>, k: int) -> bool
    decreases b.len() - k,
{
    if k < 0 || k >= b.len() {
        false
    } else if k >= a.len() {
        true
    } else if a[k] != b[k] {
        a[k] < b[k]
    } else {
        less_from(a, b, k + 1)
    }
}

/// `a` comes before `b` in byte order.
pub open spec fn less(a: Seq<u8>, b: Seq<u8>) -> bool {
    less_from(a, b, 0)
}

/// The name at position `p` is listed before the one at `q`: by byte order,
/// and where two names are equal, by position.
pub open spec fn listed_before(names: Seq<Seq<u8>>, p: int, q: int) -> bool {
    less(names[p], names[q]) || (names[p] == names[q] && p < q)
}

/// `ord` holds the positions `lo..hi`, each once, as the names are listed.
pub open spec fn is_order_of(names: Seq<Seq<u8>>, lo: int, hi: int, ord: Seq<int>) -> bool {
    &&& ord.len() == hi - lo
    &&& forall|i: int| 0 <= i < ord.len() ==> lo <= #[trigger] ord[i] && ord[i] < hi
    &&& forall|p: int| lo <= p < hi ==> ord.contains(p)
    &&& forall|i: int, j: int|
        0 <= i < j < ord.len() ==> #[trigger] listed_before(names, ord[i], ord[j])
}

/// The positions of `names`, sorted by name.
pub open spec fn order(names: Seq<Seq<u8>>) -> Seq<int> {
    choose|ord: Seq<int>| is_order_of(names, 0, names.len() as int, ord)
}

/// `names` in byte order.
pub open spec fn sorted(names: Seq<Seq<u8>>) -> Seq<Seq<u8>> {
    Seq::new(names.len(), |i: int| names[order(names)[i]])
}

proof fn lemma_less_from_irreflexive(a: Seq<u8>, k: int)
    ensures
        !less_from(a, a, k),
    decreases a.len() - k,
{
    if 0 <= k < a.len() {
        lemma_less_from_irreflexive(a, k + 1);
    }
}

proof fn lemma_less_from_transitive(a: Seq<u8>, b: Seq<u8>, c: Seq<u8>, k: int)
    requires
        less_from(a, b, k),
        less_from(b, c, k),
    ensures
        less_from(a, c, k),
    decreases b.len() - k,
{
    if k < a.len() && k < b.len() && k < c.len() && a[k] == b[k] && b[k] == c[k] {
        lemma_less_from_transitive(a, b, c, k + 1);
    }
}

proof fn lemma_less_from_total(a: Seq<u8>, b: Seq<u8>, k: int)
    requires
        0 <= k <= a.len(),
        k <= b.len(),
        forall|i: int| 0 <= i < k ==> a[i] == b[i],
    ensures
        a == b || less_from(a, b, k) || less_from(b, a, k),
    decreases b.len() - k,
{
    if k < a.len() && k < b.len() {
        if a[k] == b[k] {
            lemma_less_from_total(a, b, k + 1);
        }
    } else if k == a.len() && k == b.len() {
        assert(a =~= b);
    }
}

/// Byte order is a strict total order.
pub proof fn byte_order_is_total(a: Seq<u8>, b: Seq<u8>, c: Seq<u8>)
    ensures
        !less(a, a),
        less(a, b) && less(b, c) ==> less(a, c),
        a == b || less(a, b) || less(b, a),
        !(less(a, b) && less(b, a)),
{
    lemma_less_from_irreflexive(a, 0);
    if less(a, b) && less(b, c) {
        lemma_less_from_transitive(a, b, c, 0);
    }
    if less(a, b) && less(b, a) {
        lemma_less_from_transitive(a, b, a, 0);
    }
    lemma_less_from_total(a, b, 0);
}

proof fn lemma_listed_before(names: Seq<Seq<u8>>, p: int, q: int, r: int)
    ensures
        !listed_before(names, p, p),
        listed_before(names, p, q) && listed_before(names, q, r) ==> listed_before(names, p, r),
        p == q || listed_before(names, p, q) || listed_before(names, q, p),
        !(listed_before(names, p, q) && listed_before(names, q, p)),
{
    byte_order_is_total(names[p], names[q], names[r]);
    byte_order_is_total(names[q], names[p], names[r]);
    byte_order_is_total(names[q], names[r], names[p]);
}

/// The number of entries at the front of `ord` that are listed before `p`.
spec fn slot(names: Seq<Seq<u8>>, ord: Seq<int>, p: int) -> int
    decreases ord.len(),
{
    if ord.len() == 0 {
        0
    } else if listed_before(names, ord.last(), p) {
        ord.len() as int
    } else {
        slot(names, ord.drop_last(), p)
    }
}

proof fn lemma_slot(names: Seq<Seq<u8>>, ord: Seq<int>, p: int)
    requires
        forall|i: int, j: int|
            0 <= i < j < ord.len() ==> #[trigger] listed_before(names, ord[i], ord[j]),
        !ord.contains(p),
    ensures
        0 <= slot(names, ord, p) <= ord.len(),
        forall|i: int| 0 <= i < slot(names, ord, p) ==> listed_before(names, #[trigger] ord[i], p),
        forall|i: int|
            slot(names, ord, p) <= i < ord.len() ==> listed_before(names, p, #[trigger] ord[i]),
    decreases ord.len(),
{
    if ord.len() > 0 {
        let last = ord.last();
        assert(ord[ord.len() - 1] == last);
        assert(last != p);
        lemma_listed_before(names, last, p, p);
        if listed_before(names, last, p) {
            assert forall|i: int| 0 <= i < ord.len() implies listed_before(
                names,
                #[trigger] ord[i],
                p,
            ) by {
                if i < ord.len() - 1 {
                    assert(listed_before(names, ord[i], ord[ord.len() - 1]));
                    lemma_listed_before(names, ord[i], last, p);
                }
            }
        } else {
            let front = ord.drop_last();
            assert forall|i: int, j: int| 0 <= i < j < front.len() implies #[trigger] listed_before(
                names,
                front[i],
                front[j],
            ) by {
                assert(listed_before(names, ord[i], ord[j]));
            }
            assert(!front.contains(p)) by {
                if front.contains(p) {
                    let i = front.index_of(p);
                    assert(ord[i] == p);
                }
            }
            lemma_slot(names, front, p);
            assert forall|i: int| 0 <= i < slot(names, ord, p) implies listed_before(
                names,
                #[trigger] ord[i],
                p,
            ) by {
                assert(front[i] == ord[i]);
            }
            assert forall|i: int| slot(names, ord, p) <= i < ord.len() implies listed_before(
                names,
                p,
                #[trigger] ord[i],
            ) by {
                if i < ord.len() - 1 {
                    assert(front[i] == ord[i]);
                }
            }
        }
    }
}

proof fn lemma_order_exists(names: Seq<Seq<u8>>, n: int) -> (ord: Seq<int>)
    requires
        0 <= n <= names.len(),
    ensures
        is_order_of(names, 0, n, ord),
    decreases n,
{
    if n == 0 {
        Seq::empty()
    } else {
        let front = lemma_order_exists(names, n - 1);
        let p = n - 1;
        assert(!front.contains(p));
        lemma_slot(names, front, p);
        let s = slot(names, front, p);
        let ord = front.insert(s, p);
        assert(ord.len() == n);
        assert forall|q: int| 0 <= q < n implies ord.contains(q) by {
            if q == p {
                assert(ord[s] == p);
            } else {
                assert(front.contains(q));
                let i = front.index_of(q);
                assert(front[i] == q);
                if i < s {
                    assert(ord[i] == q);
                } else {
                    assert(ord[i + 1] == q);
                }
            }
        }
        assert forall|i: int, j: int| 0 <= i < j < ord.len() implies #[trigger] listed_before(
            names,
            ord[i],
            ord[j],
        ) by {
            let a = if i < s {
                i
            } else {
                i - 1
            };
            let b = if j < s {
                j
            } else {
                j - 1
            };
            if i != s && j != s {
                assert(ord[i] == front[a] && ord[j] == front[b]);
                assert(listed_before(names, front[a], front[b]));
            } else if i == s {
                assert(ord[j] == front[b]);
            } else {
                assert(ord[i] == front[a]);
            }
        }
        ord
    }
}

proof fn lemma_order_unique(names: Seq<Seq<u8>>, lo: int, hi: int, a: Seq<int>, b: Seq<int>)
    requires
        is_order_of(names, lo, hi, a),
        is_order_of(names, lo, hi, b),
    ensures
        a == b,
{
    assert forall|i: int| 0 <= i < a.len() implies a[i] == b[i] by {
        lemma_order_unique_at(names, lo, hi, a, b, i);
    }
    assert(a =~= b);
}

proof fn lemma_order_unique_at(
    names: Seq<Seq<u8>>,
    lo: int,
    hi: int,
    a: Seq<int>,
    b: Seq<int>,
    i: int,
)
    requires
        is_order_of(names, lo, hi, a),
        is_order_of(names, lo, hi, b),
        0 <= i < a.len(),
    ensures
        a[i] == b[i],
    decreases i,
{
    assert forall|j: int| 0 <= j < i implies a[j] == b[j] by {
        lemma_order_unique_at(names, lo, hi, a, b, j);
    }
    if a[i] != b[i] {
        assert(b.contains(a[i]) && a.contains(b[i]));
        let j = b.index_of(a[i]);
        let k = a.index_of(b[i]);
        assert(b[j] == a[i] && a[k] == b[i]);
        lemma_listed_before(names, a[i], b[i], a[i]);
        if j < i {
            assert(listed_before(names, a[j], a[i]));
            assert(a[j] == a[i]);
            lemma_listed_before(names, a[i], a[i], a[i]);
        } else if k < i {
            assert(listed_before(names, b[k], b[i]));
            lemma_listed_before(names, b[i], b[i], b[i]);
        } else {
            assert(listed_before(names, b[i], b[j]));
            assert(listed_before(names, a[i], a[k]));
        }
    }
}

/// Every list of names has one sorted order.
pub proof fn order_is_defined(names: Seq<Seq<u8>>)
    ensures
        is_order_of(names, 0, names.len() as int, order(names)),
{
    let ord = lemma_order_exists(names, names.len() as int);
    assert(is_order_of(names, 0, names.len() as int, ord));
}

/// Whatever lists the positions in order is the sorted order.
pub proof fn order_is_unique(names: Seq<Seq<u8>>, ord: Seq<int>)
    requires
        is_order_of(names, 0, names.len() as int, ord),
    ensures
        ord == order(names),
{
    order_is_defined(names);
    lemma_order_unique(names, 0, names.len() as int, ord, order(names));
}

/// Sorted names stand in byte order, and where no two are equal, strictly.
pub proof fn sorted_names_ascend(names: Seq<Seq<u8>>, i: int, j: int)
    requires
        0 <= i < j < names.len(),
        forall|p: int, q: int| 0 <= p < q < names.len() ==> names[p] != names[q],
    ensures
        less(sorted(names)[i], sorted(names)[j]),
{
    order_is_defined(names);
    let ord = order(names);
    assert(listed_before(names, ord[i], ord[j]));
    assert(0 <= ord[i] < names.len() && 0 <= ord[j] < names.len());
    lemma_listed_before(names, ord[i], ord[j], ord[j]);
    if ord[i] < ord[j] {
        assert(names[ord[i]] != names[ord[j]]);
    } else {
        assert(names[ord[j]] != names[ord[i]] || ord[i] == ord[j]);
    }
}

/// The contents of a list of byte strings.
pub open spec fn views(v: Seq<Vec<u8>>) -> Seq<Seq<u8>> {
    Seq::new(v.len(), |i: int| v[i]@)
}

/// The mathematical value of a list of positions.
pub open spec fn ints(v: Seq<usize>) -> Seq<int> {
    Seq::new(v.len(), |i: int| v[i] as int)
}

/// Whether `a` comes before `b` in byte order.
pub fn name_less(a: &[u8], b: &[u8]) -> (r: bool)
    ensures
        r == less(a@, b@),
{
    let mut k: usize = 0;
    while k < a.len() && k < b.len() && a[k] == b[k]
        invariant
            k <= a@.len(),
            k <= b@.len(),
            less(a@, b@) == less_from(a@, b@, k as int),
        decreases a@.len() - k,
    {
        k = k + 1;
    }
    if k >= b.len() {
        false
    } else if k >= a.len() {
        true
    } else {
        a[k] < b[k]
    }
}

/// Whether two byte strings are equal.
pub fn name_equal(a: &[u8], b: &[u8]) -> (r: bool)
    ensures
        r == (a@ == b@),
{
    if a.len() != b.len() {
        return false;
    }
    let mut k: usize = 0;
    while k < a.len()
        invariant
            k <= a@.len(),
            a@.len() == b@.len(),
            forall|i: int| 0 <= i < k ==> a@[i] == b@[i],
        decreases a@.len() - k,
    {
        if a[k] != b[k] {
            return false;
        }
        k = k + 1;
    }
    assert(a@ =~= b@);
    true
}

fn merge(names: &Vec<Vec<u8>>, lo: usize, mid: usize, hi: usize, a: Vec<usize>, b: Vec<usize>) -> (r:
    Vec<usize>)
    requires
        lo <= mid <= hi <= names@.len(),
        is_order_of(views(names@), lo as int, mid as int, ints(a@)),
        is_order_of(views(names@), mid as int, hi as int, ints(b@)),
    ensures
        is_order_of(views(names@), lo as int, hi as int, ints(r@)),
{
    let ghost ns = views(names@);
    let ghost ai = ints(a@);
    let ghost bi = ints(b@);
    let mut r: Vec<usize> = Vec::new();
    let mut i: usize = 0;
    let mut j: usize = 0;
    while i < a.len() || j < b.len()
        invariant
            lo <= mid <= hi <= names@.len(),
            ns == views(names@),
            ai == ints(a@),
            bi == ints(b@),
            is_order_of(ns, lo as int, mid as int, ai),
            is_order_of(ns, mid as int, hi as int, bi),
            i <= a@.len(),
            j <= b@.len(),
            r@.len() == i + j,
            forall|k: int| 0 <= k < r@.len() ==> lo <= #[trigger] r@[k] && r@[k] < hi,
            forall|k: int| 0 <= k < i ==> ints(r@).contains(#[trigger] ai[k]),
            forall|k: int| 0 <= k < j ==> ints(r@).contains(#[trigger] bi[k]),
            forall|k: int, l: int|
                0 <= k < l < r@.len() ==> #[trigger] listed_before(ns, ints(r@)[k], ints(r@)[l]),
            forall|k: int, l: int|
                0 <= k < r@.len() && i <= l < a@.len() ==> #[trigger] listed_before(
                    ns,
                    ints(r@)[k],
                    ai[l],
                ),
            forall|k: int, l: int|
                0 <= k < r@.len() && j <= l < b@.len() ==> #[trigger] listed_before(
                    ns,
                    ints(r@)[k],
                    bi[l],
                ),
        decreases a@.len() - i + b@.len() - j,
    {
        let from_a: bool = if i >= a.len() {
            false
        } else if j >= b.len() {
            true
        } else {
            assert(lo <= ai[i as int] < mid);
            assert(mid <= bi[j as int] < hi);
            !name_less(names[b[j]].as_slice(), names[a[i]].as_slice())
        };
        let ghost before = r@;
        let ghost p: int = if from_a {
            ai[i as int]
        } else {
            bi[j as int]
        };
        proof {
            if from_a {
                assert(lo <= ai[i as int] < mid);
                assert forall|l: int| i < l < a@.len() implies #[trigger] listed_before(
                    ns,
                    p,
                    ai[l],
                ) by {
                    assert(listed_before(ns, ai[i as int], ai[l]));
                }
                assert forall|l: int| j <= l < b@.len() implies #[trigger] listed_before(
                    ns,
                    p,
                    bi[l],
                ) by {
                    assert(mid <= bi[j as int] < hi);
                    byte_order_is_total(ns[p], ns[bi[j as int]], ns[p]);
                    assert(listed_before(ns, p, bi[j as int]));
                    if l > j {
                        assert(listed_before(ns, bi[j as int], bi[l]));
                        lemma_listed_before(ns, p, bi[j as int], bi[l]);
                    }
                }
            } else {
                assert(mid <= bi[j as int] < hi);
                assert forall|l: int| j < l < b@.len() implies #[trigger] listed_before(
                    ns,
                    p,
                    bi[l],
                ) by {
                    assert(listed_before(ns, bi[j as int], bi[l]));
                }
                assert forall|l: int| i <= l < a@.len() implies #[trigger] listed_before(
                    ns,
                    p,
                    ai[l],
                ) by {
                    assert(listed_before(ns, p, ai[i as int]));
                    if l > i {
                        assert(listed_before(ns, ai[i as int], ai[l]));
                        lemma_listed_before(ns, p, ai[i as int], ai[l]);
                    }
                }
            }
        }
        if from_a {
            r.push(a[i]);
            i = i + 1;
        } else {
            r.push(b[j]);
            j = j + 1;
        }
        proof {
            assert(ints(r@) =~= ints(before).push(p));
            assert forall|k: int| 0 <= k < i implies ints(r@).contains(#[trigger] ai[k]) by {
                if from_a && k == i - 1 {
                    assert(ints(r@)[before.len() as int] == ai[k]);
                } else {
                    let m = ints(before).index_of(ai[k]);
                    assert(ints(r@)[m] == ai[k]);
                }
            }
            assert forall|k: int| 0 <= k < j implies ints(r@).contains(#[trigger] bi[k]) by {
                if !from_a && k == j - 1 {
                    assert(ints(r@)[before.len() as int] == bi[k]);
                } else {
                    let m = ints(before).index_of(bi[k]);
                    assert(ints(r@)[m] == bi[k]);
                }
            }
            assert forall|k: int, l: int| 0 <= k < l < r@.len() implies #[trigger] listed_before(
                ns,
                ints(r@)[k],
                ints(r@)[l],
            ) by {
                assert(ints(r@)[k] == ints(before)[k]);
                if l < before.len() {
                    assert(ints(r@)[l] == ints(before)[l]);
                } else if from_a {
                    assert(listed_before(ns, ints(before)[k], ai[i - 1]));
                } else {
                    assert(listed_before(ns, ints(before)[k], bi[j - 1]));
                }
            }
            assert forall|k: int, l: int|
                0 <= k < r@.len() && i <= l < a@.len() implies #[trigger] listed_before(
                ns,
                ints(r@)[k],
                ai[l],
            ) by {
                if k < before.len() {
                    assert(listed_before(ns, ints(before)[k], ai[l]));
                }
            }
            assert forall|k: int, l: int|
                0 <= k < r@.len() && j <= l < b@.len() implies #[trigger] listed_before(
                ns,
                ints(r@)[k],
                bi[l],
            ) by {
                if k < before.len() {
                    assert(listed_before(ns, ints(before)[k], bi[l]));
                }
            }
        }
    }
    proof {
        assert forall|p: int| lo <= p < hi implies ints(r@).contains(p) by {
            if p < mid {
                assert(ai.contains(p));
                assert(ai[ai.index_of(p)] == p);
            } else {
                assert(bi.contains(p));
                assert(bi[bi.index_of(p)] == p);
            }
        }
    }
    r
}

fn sort_range(names: &Vec<Vec<u8>>, lo: usize, hi: usize) -> (r: Vec<usize>)
    requires
        lo <= hi <= names@.len(),
    ensures
        is_order_of(views(names@), lo as int, hi as int, ints(r@)),
    decreases hi - lo,
{
    if hi - lo == 0 {
        Vec::new()
    } else if hi - lo == 1 {
        let mut r: Vec<usize> = Vec::new();
        r.push(lo);
        assert(ints(r@)[0] == lo);
        r
    } else {
        let mid: usize = lo + (hi - lo) / 2;
        let a: Vec<usize> = sort_range(names, lo, mid);
        let b: Vec<usize> = sort_range(names, mid, hi);
        merge(names, lo, mid, hi, a, b)
    }
}

/// The positions of `names`, sorted by name.
pub fn sort_positions(names: &Vec<Vec<u8>>) -> (r: Vec<usize>)
    ensures
        ints(r@) == order(views(names@)),
{
    let r: Vec<usize> = sort_range(names, 0, names.len());
    proof {
        order_is_unique(views(names@), ints(r@));
    }
    r
}

} // verus!
