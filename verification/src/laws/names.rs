//! The order of names.

use vstd::prelude::*;

use crate::names::{less, less_from, order, order_is_defined, sorted};

verus! {

/// `a` and `b` agree in the first `k` bytes.
pub open spec fn agree_below(a: Seq<u8>, b: Seq<u8>, k: int) -> bool {
    &&& k <= a.len()
    &&& k <= b.len()
    &&& forall|j: int| 0 <= j < k ==> #[trigger] a[j] == b[j]
}

/// `a` comes before `b` as dictionaries have it, with bytes as letters: it is
/// the beginning of `b` and shorter, or the first byte in which they differ is
/// the smaller number in `a`.
pub open spec fn before(a: Seq<u8>, b: Seq<u8>) -> bool {
    ||| a.len() < b.len() && agree_below(a, b, a.len() as int)
    ||| exists|k: int|
        0 <= k < a.len() && k < b.len() && #[trigger] agree_below(a, b, k) && (a[k] as int) < (
        b[k] as int)
}

/// Names are compared byte by byte, as numbers.
pub proof fn names_compare_by_bytes(a: Seq<u8>, b: Seq<u8>)
    ensures
        less(a, b) <==> before(a, b),
{
    lemma_less_from(a, b, 0);
}

proof fn lemma_less_from(a: Seq<u8>, b: Seq<u8>, k: int)
    requires
        0 <= k,
        agree_below(a, b, k),
    ensures
        less_from(a, b, k) <==> before(a, b),
    decreases b.len() - k,
{
    if k < a.len() && k < b.len() {
        if a[k] == b[k] {
            assert(agree_below(a, b, k + 1));
            lemma_less_from(a, b, k + 1);
        } else {
            if before(a, b) && a[k] > b[k] {
                if a.len() < b.len() && agree_below(a, b, a.len() as int) {
                    assert(a[k] == b[k]);
                } else {
                    let j = choose|j: int|
                        0 <= j < a.len() && j < b.len() && #[trigger] agree_below(a, b, j) && (
                        a[j] as int) < (b[j] as int);
                    if j < k {
                        assert(a[j] == b[j]);
                    } else if k < j {
                        assert(a[k] == b[k]);
                    }
                }
            }
        }
    } else if k >= b.len() && before(a, b) {
        if !(a.len() < b.len() && agree_below(a, b, a.len() as int)) {
            let j = choose|j: int|
                0 <= j < a.len() && j < b.len() && #[trigger] agree_below(a, b, j) && (a[j] as int)
                    < (b[j] as int);
            assert(a[j] == b[j]);
        }
    }
}

/// Sorting lists every position once, earlier names first, and positions of
/// equal names in their order.
pub proof fn sorting_puts_names_in_order(names: Seq<Seq<u8>>, i: int, j: int, p: int)
    requires
        0 <= i <= j < names.len(),
        0 <= p < names.len(),
    ensures
        order(names).len() == names.len(),
        0 <= order(names)[i] < names.len(),
        i < j ==> order(names)[i] != order(names)[j],
        order(names).contains(p),
        i < j ==> before(names[order(names)[i]], names[order(names)[j]]) || (names[order(names)[i]]
            == names[order(names)[j]] && order(names)[i] < order(names)[j]),
        sorted(names).len() == names.len(),
        sorted(names)[i] == names[order(names)[i]],
{
    order_is_defined(names);
    let ord = order(names);
    if i < j {
        assert(crate::names::listed_before(names, ord[i], ord[j]));
    }
    names_compare_by_bytes(names[ord[i]], names[ord[j]]);
    crate::names::byte_order_is_total(names[ord[i]], names[ord[i]], names[ord[i]]);
}

} // verus!
