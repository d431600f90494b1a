//! What stands behind an inode for its extended attributes.

use vstd::prelude::*;
use vstd::utf8::encode_utf8;

use super::bytes::{num2, numbers_stand_for_themselves};
use crate::bytes::{le16, le32, lemma_rounded, rounded, zeros};
use crate::meta::{after_prefix, ascending, split_name, value_of, with_xattr, xattr_bytes,
    xattr_bytes_have_xattr_size, xattr_count_of, xattr_entries, xattr_entries_size, xattr_entry,
    xattr_entry_len, xattr_size, XattrView};
use super::names::{before, names_compare_by_bytes};

verus! {

broadcast use crate::bytes::group_le_len;

/// The prefixes that attributes are stored without, by their numbers.
pub open spec fn prefix(index: int) -> Seq<u8> {
    if index == 1 {
        encode_utf8("user."@)
    } else if index == 2 {
        encode_utf8("system.posix_acl_access."@)
    } else if index == 3 {
        encode_utf8("system.posix_acl_default."@)
    } else if index == 4 {
        encode_utf8("trusted."@)
    } else if index == 5 {
        encode_utf8("lustre."@)
    } else if index == 6 {
        encode_utf8("security."@)
    } else {
        Seq::empty()
    }
}

/// `name` starts with prefix number `index`.
pub open spec fn has_prefix(name: Seq<u8>, index: int) -> bool {
    &&& prefix(index).len() <= name.len()
    &&& forall|i: int| 0 <= i < prefix(index).len() ==> #[trigger] name[i] == prefix(index)[i]
}

/// An attribute as it is stored: the number of its prefix, the rest of its
/// name, and its value.
pub struct Stored {
    pub index: int,
    pub rest: Seq<u8>,
    pub value: Seq<u8>,
}

/// The attributes that an area holds from offset `o` on, where each entry
/// gives the length of its name and value in its head, the next one starts at
/// the next multiple of four, and what is between them is zero. Nothing where
/// they do not end with the area.
pub open spec fn attributes_in(area: Seq<u8>, o: int) -> Option<Seq<Stored>>
    decreases area.len() - o,
{
    if o == area.len() {
        Some(Seq::empty())
    } else if o < 0 || o + 4 > area.len() {
        None
    } else {
        let n = area[o] as int;
        let m = num2(area, o + 2);
        let end = o + 4 + n + m;
        let next = o + 4 * ((4 + n + m + 3) / 4);
        if next > area.len() || !(forall|j: int| end <= j < next ==> #[trigger] area[j] == 0) {
            None
        } else {
            match attributes_in(area, next) {
                None => None,
                Some(later) => Some(
                    seq![
                        Stored {
                            index: area[o + 1] as int,
                            rest: area.subrange(o + 4, o + 4 + n),
                            value: area.subrange(o + 4 + n, end),
                        },
                    ] + later,
                ),
            }
        }
    }
}

/// What is stored stands for an attribute: with its prefix the name is whole,
/// a name that starts with a known prefix is stored without it, and the value
/// is the attribute's.
pub open spec fn stands_for(d: Stored, x: XattrView) -> bool {
    &&& prefix(d.index) + d.rest == x.name
    &&& d.value == x.value
    &&& 0 <= d.index <= 6
    &&& d.index == 0 ==> forall|i: int| 1 <= i <= 6 ==> !#[trigger] has_prefix(x.name, i)
}

/// The attributes can be read back from what stands behind the inode: twelve
/// bytes of header, of which the first four are set, and behind them every
/// attribute in order.
pub proof fn attributes_read_back(s: Seq<XattrView>)
    requires
        s.len() > 0,
        forall|i: int| 0 <= i < s.len() ==> (#[trigger] s[i]).name.len() < 256,
        forall|i: int| 0 <= i < s.len() ==> (#[trigger] s[i]).value.len() < 65536,
    ensures
        forall|i: int| 0 <= i < 4 ==> #[trigger] xattr_bytes(s)[i] == 0xFF,
        forall|i: int| 4 <= i < 12 ==> #[trigger] xattr_bytes(s)[i] == 0,
        attributes_in(xattr_bytes(s), 12) matches Some(ds) && ds.len() == s.len() && forall|i: int|
            0 <= i < s.len() ==> stands_for(#[trigger] ds[i], s[i]),
{
    let area = xattr_bytes(s);
    numbers_stand_for_themselves(0xFFFF_FFFF);
    let head = le32(0xFFFF_FFFF) + zeros(8);
    assert(area =~= head + xattr_entries(s, s.len() as int));
    assert forall|i: int| 0 <= i < 4 implies #[trigger] area[i] == 0xFF by {
        reveal(le32);
    }
    lemma_sizes(s, s.len() as int);
    xattr_bytes_have_xattr_size(s);
    lemma_entries_read(s, 0);
}

/// The bytes that attributes take, and how the inode counts them: the header
/// as one, and every four bytes behind it as one more.
pub proof fn attributes_are_counted(s: Seq<XattrView>)
    ensures
        s.len() == 0 ==> xattr_bytes(s).len() == 0 && xattr_count_of(xattr_size(s)) == 0,
        s.len() > 0 ==> xattr_bytes(s).len() >= 12 && xattr_count_of(xattr_size(s)) == ((
        xattr_bytes(s).len() - 12) / 4 + 1) % 65536,
        xattr_bytes(s).len() % 4 == 0,
        xattr_size(s) == xattr_bytes(s).len(),
{
    xattr_bytes_have_xattr_size(s);
    lemma_sizes(s, s.len() as int);
}

proof fn lemma_sizes(s: Seq<XattrView>, k: int)
    requires
        0 <= k <= s.len(),
    ensures
        xattr_entries(s, k).len() == xattr_entries_size(s, k),
        0 <= xattr_entries_size(s, k),
        xattr_entries_size(s, k) % 4 == 0,
    decreases k,
{
    if k > 0 {
        lemma_sizes(s, k - 1);
        lemma_rounded(xattr_entry_len(s[k - 1]), 4);
    }
}

/// The entries are cut where one of them starts.
proof fn lemma_entry_at(s: Seq<XattrView>, n: int, k: int)
    requires
        0 <= k < n <= s.len(),
    ensures
        xattr_entries_size(s, k) + rounded(xattr_entry_len(s[k]), 4) <= xattr_entries_size(s, n),
        xattr_entries(s, n).subrange(
            xattr_entries_size(s, k),
            xattr_entries_size(s, k) + rounded(xattr_entry_len(s[k]), 4),
        ) == xattr_entry(s[k]),
    decreases n,
{
    lemma_sizes(s, n);
    lemma_sizes(s, n - 1);
    lemma_sizes(s, k);
    lemma_rounded(xattr_entry_len(s[n - 1]), 4);
    lemma_rounded(xattr_entry_len(s[k]), 4);
    let a = xattr_entries_size(s, k);
    let b = a + rounded(xattr_entry_len(s[k]), 4);
    if k < n - 1 {
        lemma_entry_at(s, n - 1, k);
        assert(xattr_entries(s, n).subrange(a, b) =~= xattr_entries(s, n - 1).subrange(a, b));
    } else {
        assert(xattr_entries(s, n).subrange(a, b) =~= xattr_entry(s[k]));
    }
}

/// How a name is parted.
proof fn lemma_split(x: XattrView)
    ensures
        ({
            let (index, rest) = split_name(x.name);
            &&& stands_for(Stored { index: index as int, rest, value: x.value }, x)
            &&& rest.len() <= x.name.len()
        }),
{
    reveal(split_name);
    let name = x.name;
    assert forall|i: int| 1 <= i <= 6 implies #[trigger] has_prefix(name, i) == (prefix(i).len()
        <= name.len() && name.subrange(0, prefix(i).len() as int) == prefix(i)) by {
        let p = prefix(i);
        if has_prefix(name, i) {
            assert(name.subrange(0, p.len() as int) =~= p);
        }
        if p.len() <= name.len() && name.subrange(0, p.len() as int) == p {
            assert forall|j: int| 0 <= j < p.len() implies #[trigger] name[j] == p[j] by {
                assert(name.subrange(0, p.len() as int)[j] == p[j]);
            }
        }
    }
    let (index, rest) = split_name(name);
    assert(prefix(0) =~= Seq::<u8>::empty());
    assert(after_prefix(name, "user."@) is Some == has_prefix(name, 1));
    assert(after_prefix(name, "system.posix_acl_access."@) is Some == has_prefix(name, 2));
    assert(after_prefix(name, "system.posix_acl_default."@) is Some == has_prefix(name, 3));
    assert(after_prefix(name, "trusted."@) is Some == has_prefix(name, 4));
    assert(after_prefix(name, "lustre."@) is Some == has_prefix(name, 5));
    assert(after_prefix(name, "security."@) is Some == has_prefix(name, 6));
    if index == 0 {
        assert(prefix(0) + rest =~= name);
    } else {
        assert(has_prefix(name, index as int));
        let p = prefix(index as int);
        assert(name.subrange(0, p.len() as int) == p);
        assert(rest == name.skip(p.len() as int));
        assert(p + rest =~= name);
    }
}

/// The fields of an entry.
proof fn lemma_entry_fields(x: XattrView)
    ensures
        ({
            let e = xattr_entry(x);
            let (index, rest) = split_name(x.name);
            let n = rest.len() as int;
            let m = x.value.len() as int;
            &&& e.len() == 4 * ((4 + n + m + 3) / 4)
            &&& e[0] == n % 256
            &&& e[1] == index
            &&& num2(e, 2) == m % 65536
            &&& e.subrange(4, 4 + n) == rest
            &&& e.subrange(4 + n, 4 + n + m) == x.value
            &&& forall|j: int| 4 + n + m <= j < e.len() ==> #[trigger] e[j] == 0
        }),
{
    let e = xattr_entry(x);
    let (index, rest) = split_name(x.name);
    let n = rest.len() as int;
    let m = x.value.len() as int;
    lemma_split(x);
    lemma_rounded(xattr_entry_len(x), 4);
    numbers_stand_for_themselves(m);
    let size = le16(m);
    assert(e[2] == size[0] && e[3] == size[1]);
    assert(e.subrange(4, 4 + n) =~= rest);
    assert(e.subrange(4 + n, 4 + n + m) =~= x.value);
}

/// Reading from the start of entry `k` on gives the entries from `k` on.
#[verifier::rlimit(40)]
proof fn lemma_entries_read(s: Seq<XattrView>, k: int)
    requires
        s.len() > 0,
        0 <= k <= s.len(),
        forall|i: int| 0 <= i < s.len() ==> (#[trigger] s[i]).name.len() < 256,
        forall|i: int| 0 <= i < s.len() ==> (#[trigger] s[i]).value.len() < 65536,
    ensures
        attributes_in(xattr_bytes(s), 12 + xattr_entries_size(s, k)) matches Some(ds) && ds.len()
            == s.len() - k && forall|i: int|
            0 <= i < ds.len() ==> stands_for(#[trigger] ds[i], s[k + i]),
    decreases s.len() - k,
{
    let area = xattr_bytes(s);
    let all = xattr_entries(s, s.len() as int);
    let o = 12 + xattr_entries_size(s, k);
    lemma_sizes(s, s.len() as int);
    lemma_sizes(s, k);
    assert(area.len() == 12 + xattr_entries_size(s, s.len() as int));
    if k < s.len() {
        let x = s[k];
        let e = xattr_entry(x);
        let (index, rest) = split_name(x.name);
        let n = rest.len() as int;
        let m = x.value.len() as int;
        lemma_entry_at(s, s.len() as int, k);
        lemma_entry_fields(x);
        lemma_split(x);
        lemma_rounded(xattr_entry_len(x), 4);
        let a = xattr_entries_size(s, k);
        assert forall|j: int| 0 <= j < e.len() implies area[o + j] == #[trigger] e[j] by {
            assert(all.subrange(a, a + e.len())[j] == e[j]);
            assert(area[o + j] == all[a + j]);
        }
        assert(area[o] == e[0] && area[o + 1] == e[1] && area[o + 2] == e[2] && area[o + 3]
            == e[3]);
        assert(area.subrange(o + 4, o + 4 + n) =~= e.subrange(4, 4 + n));
        assert(area.subrange(o + 4 + n, o + 4 + n + m) =~= e.subrange(4 + n, 4 + n + m));
        assert forall|j: int| o + 4 + n + m <= j < o + e.len() implies #[trigger] area[j] == 0 by {
            assert(area[o + (j - o)] == e[j - o]);
        }
        lemma_entries_read(s, k + 1);
        assert(o + e.len() == 12 + xattr_entries_size(s, k + 1));
        let later = attributes_in(area, o + e.len())->Some_0;
        let ds = attributes_in(area, o)->Some_0;
        assert(attributes_in(area, o) is Some);
        assert forall|i: int| 0 <= i < ds.len() implies stands_for(#[trigger] ds[i], s[k + i]) by {
            if i > 0 {
                assert(ds[i] == later[i - 1]);
            }
        }
    }
}

/// Setting an attribute leaves the names in byte order, each once; the
/// attribute has its new value, every other attribute the one it had, and no
/// attribute goes or comes besides.
pub proof fn attributes_are_kept_by_name(
    s: Seq<XattrView>,
    name: Seq<u8>,
    value: Seq<u8>,
    x: XattrView,
)
    requires
        ascending(s),
    ensures
        ({
            let t = with_xattr(s, name, value);
            &&& forall|i: int, j: int|
                0 <= i < j < t.len() ==> before(
                    (#[trigger] t[i]).name,
                    (#[trigger] t[j]).name,
                )
            &&& t.contains(x) <==> if x.name == name {
                x.value == value
            } else {
                s.contains(x)
            }
        }),
{
    let t = with_xattr(s, name, value);
    crate::meta::setting_an_xattr(s, name, value, x.name);
    assert forall|i: int, j: int| 0 <= i < j < t.len() implies before(
        (#[trigger] t[i]).name,
        (#[trigger] t[j]).name,
    ) by {
        names_compare_by_bytes(t[i].name, t[j].name);
    }
    lemma_value_means(t, x);
    lemma_value_means(s, x);
}

/// An attribute is there with a value exactly if that is its value.
proof fn lemma_value_means(s: Seq<XattrView>, x: XattrView)
    requires
        ascending(s),
    ensures
        s.contains(x) <==> value_of(s, x.name) == Some(x.value),
{
    if s.contains(x) {
        let i = s.index_of(x);
        assert(crate::meta::has_at(s, x.name, i));
        let j = choose|j: int| crate::meta::has_at(s, x.name, j);
        crate::names::byte_order_is_total(x.name, x.name, x.name);
        if i < j {
            assert(crate::names::less(s[i].name, s[j].name));
        } else if j < i {
            assert(crate::names::less(s[j].name, s[i].name));
        }
    }
    if value_of(s, x.name) == Some(x.value) {
        let j = choose|j: int| crate::meta::has_at(s, x.name, j);
        assert(s[j] =~= x);
        assert(s.contains(s[j]));
    }
}

/// The value of an attribute is the one that stands with its name.
pub proof fn values_are_found_by_name(s: Seq<XattrView>, name: Seq<u8>, value: Seq<u8>)
    requires
        ascending(s),
    ensures
        value_of(s, name) == Some(value) <==> s.contains(XattrView { name, value }),
        value_of(s, name) is None <==> forall|i: int|
            0 <= i < s.len() ==> (#[trigger] s[i]).name != name,
{
    if value_of(s, name) is Some {
        let i = choose|i: int| crate::meta::has_at(s, name, i);
        assert(crate::meta::has_at(s, name, i));
        assert(s[i] == (XattrView { name, value: s[i].value }));
        assert(s.contains(s[i]));
        if s.contains(XattrView { name, value }) {
            let j = s.index_of(XattrView { name, value });
            crate::names::byte_order_is_total(name, name, name);
            if i < j {
                assert(crate::names::less(s[i].name, s[j].name));
            } else if j < i {
                assert(crate::names::less(s[j].name, s[i].name));
            }
        }
    } else {
        assert forall|i: int| 0 <= i < s.len() implies (#[trigger] s[i]).name != name by {
            assert(!crate::meta::has_at(s, name, i));
        }
    }
}

/// Where attribute `k` stands in the area.
pub open spec fn attribute_start(s: Seq<XattrView>, k: int) -> int {
    12 + xattr_entries_size(s, k)
}

/// `d` stands at offset `o`: the length of the rest of the name, as far as one
/// byte has room for it, the number of the prefix, the length of the value, as
/// far as two bytes have room, the rest of the name, the value, and zeros up to
/// the next multiple of four.
pub open spec fn stored_at(area: Seq<u8>, o: int, d: Stored) -> bool {
    let n = d.rest.len() as int;
    let m = d.value.len() as int;
    let end = o + 4 + n + m;
    let next = o + 4 * ((4 + n + m + 3) / 4);
    &&& 0 <= o && next <= area.len()
    &&& area[o] == n % 256
    &&& area[o + 1] == d.index
    &&& num2(area, o + 2) == m % 65536
    &&& area.subrange(o + 4, o + 4 + n) == d.rest
    &&& area.subrange(o + 4 + n, end) == d.value
    &&& forall|j: int| end <= j < next ==> #[trigger] area[j] == 0
}

/// The attributes stand one behind another, whatever their lengths, from byte
/// twelve to the end of the area.
#[verifier::rlimit(40)]
pub proof fn attributes_by_offset(s: Seq<XattrView>, k: int) -> (d: Stored)
    requires
        0 <= k < s.len(),
    ensures
        stands_for(d, s[k]),
        stored_at(xattr_bytes(s), attribute_start(s, k), d),
        attribute_start(s, 0) == 12,
        attribute_start(s, k + 1) == attribute_start(s, k) + 4 * ((4 + d.rest.len()
            + d.value.len() + 3) / 4),
        attribute_start(s, s.len() as int) == xattr_bytes(s).len(),
{
    let area = xattr_bytes(s);
    let all = xattr_entries(s, s.len() as int);
    let o = attribute_start(s, k);
    let x = s[k];
    let e = xattr_entry(x);
    let (index, rest) = split_name(x.name);
    let n = rest.len() as int;
    let m = x.value.len() as int;
    lemma_sizes(s, s.len() as int);
    lemma_sizes(s, k);
    lemma_entry_at(s, s.len() as int, k);
    lemma_entry_fields(x);
    lemma_split(x);
    lemma_rounded(xattr_entry_len(x), 4);
    let a = xattr_entries_size(s, k);
    assert forall|j: int| 0 <= j < e.len() implies area[o + j] == #[trigger] e[j] by {
        assert(all.subrange(a, a + e.len())[j] == e[j]);
        assert(area[o + j] == all[a + j]);
    }
    assert(area[o] == e[0] && area[o + 1] == e[1] && area[o + 2] == e[2] && area[o + 3] == e[3]);
    assert(area.subrange(o + 4, o + 4 + n) =~= e.subrange(4, 4 + n));
    assert(area.subrange(o + 4 + n, o + 4 + n + m) =~= e.subrange(4 + n, 4 + n + m));
    assert forall|j: int| o + 4 + n + m <= j < o + e.len() implies #[trigger] area[j] == 0 by {
        assert(area[o + (j - o)] == e[j - o]);
    }
    Stored { index: index as int, rest, value: x.value }
}

} // verus!
