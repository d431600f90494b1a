//! The metadata of an entry, and its extended attributes.

use vstd::prelude::*;
use vstd::utf8::encode_utf8;

use crate::bytes::{le16, le32, lemma_rounded, push_le32, push_low16, push_slice, push_zeros,
    round_up, rounded, zeros};
use crate::dirent::checked_round_up;
use crate::layout::{mode, xattr_index, SIZE_XATTR_ENTRY, SIZE_XATTR_IBODY_HEADER};
use crate::names::{byte_order_is_total, less, name_equal, name_less};

verus! {

broadcast use crate::bytes::group_le_len;

/// The mathematical value of an extended attribute.
#[verifier::ext_equal]
pub struct XattrView {
    pub name: Seq<u8>,
    pub value: Seq<u8>,
}

/// One extended attribute, under its full "prefix.name".
#[derive(Clone, Debug)]
pub struct Xattr {
    pub name: String,
    pub value: Vec<u8>,
}

impl View for Xattr {
    type V = XattrView;

    open spec fn view(&self) -> XattrView {
        XattrView { name: encode_utf8(self.name@), value: self.value@ }
    }
}

/// Extended attributes, ordered by name.
#[derive(Clone, Debug)]
pub struct Xattrs {
    entries: Vec<Xattr>,
}

/// The names ascend strictly.
pub open spec fn ascending(s: Seq<XattrView>) -> bool {
    forall|i: int, j: int| 0 <= i < j < s.len() ==> less(#[trigger] s[i].name, #[trigger] s[j].name)
}

/// How many of the first `k` attributes come before `name`.
pub open spec fn rank_upto(s: Seq<XattrView>, name: Seq<u8>, k: int) -> int
    decreases k,
{
    if k <= 0 {
        0
    } else {
        rank_upto(s, name, k - 1) + if less(s[k - 1].name, name) {
            1int
        } else {
            0
        }
    }
}

/// How many attributes come before `name`.
pub open spec fn rank(s: Seq<XattrView>, name: Seq<u8>) -> int {
    rank_upto(s, name, s.len() as int)
}

/// Where the attribute `name` stands, if there is one.
pub open spec fn has_at(s: Seq<XattrView>, name: Seq<u8>, i: int) -> bool {
    0 <= i < s.len() && s[i].name == name
}

/// The value of the attribute `name`, if there is one.
pub open spec fn value_of(s: Seq<XattrView>, name: Seq<u8>) -> Option<Seq<u8>> {
    if exists|i: int| has_at(s, name, i) {
        Some(s[choose|i: int| has_at(s, name, i)].value)
    } else {
        None
    }
}

/// The attributes after `name` has been given `value`: an earlier value is
/// replaced, and a new attribute goes where its name belongs.
pub open spec fn with_xattr(s: Seq<XattrView>, name: Seq<u8>, value: Seq<u8>) -> Seq<XattrView> {
    let p = rank(s, name);
    if has_at(s, name, p) {
        s.update(p, XattrView { name, value })
    } else {
        s.insert(p, XattrView { name, value })
    }
}

proof fn lemma_rank_upto(s: Seq<XattrView>, name: Seq<u8>, k: int)
    requires
        ascending(s),
        0 <= k <= s.len(),
    ensures
        0 <= rank_upto(s, name, k) <= k,
        forall|i: int| 0 <= i < rank_upto(s, name, k) ==> less(#[trigger] s[i].name, name),
        forall|i: int| rank_upto(s, name, k) <= i < k ==> !less(#[trigger] s[i].name, name),
    decreases k,
{
    if k > 0 {
        lemma_rank_upto(s, name, k - 1);
        let r = rank_upto(s, name, k - 1);
        if r < k - 1 && less(s[k - 1].name, name) {
            assert(less(s[r].name, s[k - 1].name));
            byte_order_is_total(s[r].name, s[k - 1].name, name);
            assert(!less(s[r].name, name));
        }
    }
}

proof fn lemma_value_of(s: Seq<XattrView>, name: Seq<u8>, i: int)
    requires
        ascending(s),
        has_at(s, name, i),
    ensures
        value_of(s, name) == Some(s[i].value),
{
    let j = choose|j: int| has_at(s, name, j);
    assert(has_at(s, name, j));
    byte_order_is_total(name, name, name);
    if i < j {
        assert(less(s[i].name, s[j].name));
    } else if j < i {
        assert(less(s[j].name, s[i].name));
    }
}

/// Giving an attribute a value keeps the names ascending, makes that value the
/// attribute's, and changes no other attribute.
pub proof fn setting_an_xattr(s: Seq<XattrView>, name: Seq<u8>, value: Seq<u8>, other: Seq<u8>)
    requires
        ascending(s),
    ensures
        ascending(with_xattr(s, name, value)),
        value_of(with_xattr(s, name, value), name) == Some(value),
        other != name ==> value_of(with_xattr(s, name, value), other) == value_of(s, other),
{
    let p = rank(s, name);
    let t = with_xattr(s, name, value);
    lemma_rank_upto(s, name, s.len() as int);
    if !has_at(s, name, p) {
        assert forall|i: int, j: int| 0 <= i < j < t.len() implies less(
            #[trigger] t[i].name,
            #[trigger] t[j].name,
        ) by {
            let a = if i < p {
                i
            } else {
                i - 1
            };
            let b = if j < p {
                j
            } else {
                j - 1
            };
            if i == p {
                assert(t[j] == s[b]);
                byte_order_is_total(s[p].name, name, s[b].name);
                assert(!less(s[p].name, name));
                assert(s[p].name != name);
                byte_order_is_total(name, s[p].name, s[b].name);
                if p < b {
                    assert(less(s[p].name, s[b].name));
                }
            } else if j == p {
                assert(t[i] == s[a]);
                assert(less(s[a].name, name));
            } else {
                assert(t[i] == s[a] && t[j] == s[b]);
                assert(less(s[a].name, s[b].name));
            }
        }
    } else {
        assert forall|i: int, j: int| 0 <= i < j < t.len() implies less(
            #[trigger] t[i].name,
            #[trigger] t[j].name,
        ) by {
            assert(t[i].name == s[i].name && t[j].name == s[j].name);
        }
    }
    assert(has_at(t, name, p));
    lemma_value_of(t, name, p);
    if other != name {
        if exists|i: int| has_at(s, other, i) {
            let i = choose|i: int| has_at(s, other, i);
            lemma_value_of(s, other, i);
            let j = if has_at(s, name, p) || i < p {
                i
            } else {
                i + 1
            };
            assert(t[j] == s[i]);
            assert(has_at(t, other, j));
            lemma_value_of(t, other, j);
        } else if exists|j: int| has_at(t, other, j) {
            let j = choose|j: int| has_at(t, other, j);
            let i = if has_at(s, name, p) || j < p {
                j
            } else {
                j - 1
            };
            assert(j != p);
            assert(t[j] == s[i]);
            assert(has_at(s, other, i));
        }
    }
}

impl View for Xattrs {
    type V = Seq<XattrView>;

    closed spec fn view(&self) -> Seq<XattrView> {
        Seq::new(self.entries@.len(), |i: int| self.entries@[i]@)
    }
}

impl Xattrs {
    /// The names ascend, so none occurs twice.
    pub open spec fn wf(&self) -> bool {
        ascending(self@)
    }

    pub fn new() -> (x: Self)
        ensures
            x@ == Seq::<XattrView>::empty(),
            x.wf(),
    {
        let x = Xattrs { entries: Vec::new() };
        assert(x@ =~= Seq::<XattrView>::empty());
        x
    }

    pub fn len(&self) -> (n: usize)
        ensures
            n == self@.len(),
    {
        self.entries.len()
    }

    /// The attribute at position `i` in the order of the names.
    pub fn entry(&self, i: usize) -> (x: &Xattr)
        requires
            i < self@.len(),
        ensures
            x@ == self@[i as int],
    {
        &self.entries[i]
    }

    /// Gives the attribute `name` a value. Returns the value that it had.
    pub fn insert(&mut self, name: String, value: Vec<u8>) -> (earlier: Option<Vec<u8>>)
        requires
            old(self).wf(),
        ensures
            final(self).wf(),
            final(self)@ == with_xattr(old(self)@, encode_utf8(name@), value@),
            match value_of(old(self)@, encode_utf8(name@)) {
                Some(v) => earlier matches Some(w) && w@ == v,
                None => earlier is None,
            },
    {
        let ghost s = self@;
        let ghost nb = encode_utf8(name@);
        let mut p: usize = 0;
        proof {
            setting_an_xattr(s, nb, value@, nb);
            lemma_rank_upto(s, nb, s.len() as int);
        }
        while p < self.entries.len() && name_less(
            self.entries[p].name.as_str().as_bytes(),
            name.as_str().as_bytes(),
        )
            invariant
                s == self@,
                self.entries@ == old(self).entries@,
                nb == encode_utf8(name@),
                p <= rank(s, nb) <= s.len() == self.entries@.len(),
                forall|i: int| rank(s, nb) <= i < s.len() ==> !less(#[trigger] s[i].name, nb),
            decreases self.entries@.len() - p,
        {
            assert(s[p as int].name == encode_utf8(self.entries@[p as int].name@));
            p = p + 1;
        }
        proof {
            if p < s.len() {
                assert(s[p as int].name == encode_utf8(self.entries@[p as int].name@));
            }
            assert(p == rank(s, nb));
        }
        if p < self.entries.len() && name_equal(
            self.entries[p].name.as_str().as_bytes(),
            name.as_str().as_bytes(),
        ) {
            proof {
                assert(has_at(s, nb, p as int));
                lemma_value_of(s, nb, p as int);
            }
            let mut v: Vec<u8> = value;
            let ghost given = v@;
            std::mem::swap(&mut self.entries[p].value, &mut v);
            assert(self@ =~= s.update(p as int, XattrView { name: nb, value: given }));
            Some(v)
        } else {
            proof {
                if exists|i: int| has_at(s, nb, i) {
                    let i = choose|i: int| has_at(s, nb, i);
                    byte_order_is_total(nb, nb, nb);
                    lemma_rank_upto(s, nb, s.len() as int);
                    if i < p {
                        assert(less(s[i].name, nb));
                    } else if i > p {
                        assert(less(s[p as int].name, s[i].name));
                        assert(!less(s[p as int].name, nb));
                    }
                }
            }
            self.entries.insert(p, Xattr { name, value });
            assert(self@ =~= s.insert(p as int, XattrView { name: nb, value: value@ }));
            None
        }
    }
}

/// What follows `prefix` in `name`, if `name` starts with it.
pub open spec fn after_prefix(name: Seq<u8>, prefix: Seq<char>) -> Option<Seq<u8>> {
    let p = encode_utf8(prefix);
    if p.len() <= name.len() && name.subrange(0, p.len() as int) == p {
        Some(name.skip(p.len() as int))
    } else {
        None
    }
}

/// The index of the well-known prefix of an attribute name and what follows
/// it; index zero and the whole name where there is none.
#[verifier::opaque]
pub open spec fn split_name(name: Seq<u8>) -> (u8, Seq<u8>) {
    match after_prefix(name, "user."@) {
        Some(rest) => (xattr_index::USER, rest),
        None => match after_prefix(name, "system.posix_acl_access."@) {
            Some(rest) => (xattr_index::POSIX_ACL_ACCESS, rest),
            None => match after_prefix(name, "system.posix_acl_default."@) {
                Some(rest) => (xattr_index::POSIX_ACL_DEFAULT, rest),
                None => match after_prefix(name, "trusted."@) {
                    Some(rest) => (xattr_index::TRUSTED, rest),
                    None => match after_prefix(name, "lustre."@) {
                        Some(rest) => (xattr_index::LUSTRE, rest),
                        None => match after_prefix(name, "security."@) {
                            Some(rest) => (xattr_index::SECURITY, rest),
                            None => (0, name),
                        },
                    },
                },
            },
        },
    }
}

/// The length of an attribute's entry without its fill.
pub open spec fn xattr_entry_len(x: XattrView) -> int {
    SIZE_XATTR_ENTRY + split_name(x.name).1.len() + x.value.len()
}

/// The length of the entries of the first `k` attributes.
pub open spec fn xattr_entries_size(s: Seq<XattrView>, k: int) -> int
    decreases k,
{
    if k <= 0 {
        0
    } else {
        xattr_entries_size(s, k - 1) + rounded(xattr_entry_len(s[k - 1]), 4)
    }
}

/// The length of what an inode's attributes take behind it.
pub open spec fn xattr_size(s: Seq<XattrView>) -> int {
    if s.len() == 0 {
        0
    } else {
        SIZE_XATTR_IBODY_HEADER + xattr_entries_size(s, s.len() as int)
    }
}

/// The entry of an attribute, filled up to a multiple of four bytes. Lengths
/// keep only the low bits that their fields can hold.
pub open spec fn xattr_entry(x: XattrView) -> Seq<u8> {
    let (index, suffix) = split_name(x.name);
    seq![(suffix.len() % 0x100) as u8, index] + le16(x.value.len() as int) + suffix + x.value
        + zeros(rounded(xattr_entry_len(x), 4) - xattr_entry_len(x))
}

/// The entries of the first `k` attributes.
pub open spec fn xattr_entries(s: Seq<XattrView>, k: int) -> Seq<u8>
    decreases k,
{
    if k <= 0 {
        Seq::empty()
    } else {
        xattr_entries(s, k - 1) + xattr_entry(s[k - 1])
    }
}

/// What an inode's attributes put behind it.
pub open spec fn xattr_bytes(s: Seq<XattrView>) -> Seq<u8> {
    if s.len() == 0 {
        Seq::empty()
    } else {
        le32(0xFFFF_FFFF) + zeros(8) + xattr_entries(s, s.len() as int)
    }
}

/// The size of an inode's attributes as its header counts it.
pub open spec fn xattr_count_of(size: int) -> int {
    if size == 0 {
        0
    } else {
        ((size - SIZE_XATTR_IBODY_HEADER) / (SIZE_XATTR_ENTRY as int) + 1) % 0x1_0000
    }
}

proof fn lemma_xattr_entries_len(s: Seq<XattrView>, k: int)
    requires
        0 <= k <= s.len(),
    ensures
        xattr_entries(s, k).len() == xattr_entries_size(s, k),
        0 <= xattr_entries_size(s, k),
    decreases k,
{
    if k > 0 {
        lemma_xattr_entries_len(s, k - 1);
        lemma_rounded(xattr_entry_len(s[k - 1]), 4);
    }
}

/// The size that is planned for the attributes is the length of what they put
/// behind the inode.
pub proof fn xattr_bytes_have_xattr_size(s: Seq<XattrView>)
    ensures
        xattr_bytes(s).len() == xattr_size(s),
        xattr_size(s) == 0 || xattr_size(s) >= SIZE_XATTR_IBODY_HEADER,
        xattr_size(s) == 0 <==> s.len() == 0,
{
    lemma_xattr_entries_len(s, s.len() as int);
}

proof fn lemma_xattr_entries_size_ordered(s: Seq<XattrView>, j: int, k: int)
    requires
        0 <= j <= k <= s.len(),
    ensures
        0 <= xattr_entries_size(s, j) <= xattr_entries_size(s, k),
    decreases k,
{
    if j < k {
        lemma_xattr_entries_size_ordered(s, j, k - 1);
        lemma_rounded(xattr_entry_len(s[k - 1]), 4);
    } else if j > 0 {
        lemma_xattr_entries_size_ordered(s, j - 1, j - 1);
        lemma_rounded(xattr_entry_len(s[j - 1]), 4);
    }
}

fn strip_prefix<'a>(name: &'a [u8], prefix: &str) -> (r: Option<&'a [u8]>)
    ensures
        match after_prefix(name@, prefix@) {
            Some(rest) => r matches Some(s) && s@ == rest,
            None => r is None,
        },
{
    let p: &[u8] = prefix.as_bytes();
    if p.len() > name.len() {
        return None;
    }
    let head: &[u8] = vstd::slice::slice_subrange(name, 0, p.len());
    if name_equal(head, p) {
        let rest: &[u8] = vstd::slice::slice_subrange(name, p.len(), name.len());
        assert(rest@ =~= name@.skip(p@.len() as int));
        Some(rest)
    } else {
        None
    }
}

/// Splits an attribute name into the index of its well-known prefix and what
/// follows it.
pub fn split_xattr_name(name: &[u8]) -> (r: (u8, &[u8]))
    ensures
        r.0 == split_name(name@).0,
        r.1@ == split_name(name@).1,
{
    reveal(split_name);
    if let Some(rest) = strip_prefix(name, "user.") {
        return (xattr_index::USER, rest);
    }
    if let Some(rest) = strip_prefix(name, "system.posix_acl_access.") {
        return (xattr_index::POSIX_ACL_ACCESS, rest);
    }
    if let Some(rest) = strip_prefix(name, "system.posix_acl_default.") {
        return (xattr_index::POSIX_ACL_DEFAULT, rest);
    }
    if let Some(rest) = strip_prefix(name, "trusted.") {
        return (xattr_index::TRUSTED, rest);
    }
    if let Some(rest) = strip_prefix(name, "lustre.") {
        return (xattr_index::LUSTRE, rest);
    }
    if let Some(rest) = strip_prefix(name, "security.") {
        return (xattr_index::SECURITY, rest);
    }
    (0, name)
}

/// The length of an attribute's entry, where it can be represented together
/// with its fill.
fn entry_length(x: &Xattr) -> (r: Option<usize>)
    ensures
        r is Some <==> rounded(xattr_entry_len(x@), 4) <= usize::MAX,
        r matches Some(n) ==> n == xattr_entry_len(x@),
{
    let (_, suffix): (u8, &[u8]) = split_xattr_name(x.name.as_str().as_bytes());
    proof {
        lemma_rounded(xattr_entry_len(x@), 4);
    }
    match suffix.len().checked_add(x.value.len()) {
        None => None,
        Some(n) => match n.checked_add(SIZE_XATTR_ENTRY) {
            None => None,
            Some(len) => match checked_round_up(len, 4) {
                None => None,
                Some(_) => Some(len),
            },
        },
    }
}

/// The length of what the attributes put behind an inode, where it can be
/// represented.
pub fn calc_xattr_size(xattrs: &Xattrs) -> (r: Option<usize>)
    ensures
        r is Some <==> xattr_size(xattrs@) <= usize::MAX,
        r matches Some(n) ==> n == xattr_size(xattrs@),
{
    if xattrs.len() == 0 {
        return Some(0);
    }
    let ghost s = xattrs@;
    let mut size: usize = SIZE_XATTR_IBODY_HEADER;
    let mut k: usize = 0;
    while k < xattrs.len()
        invariant
            s == xattrs@,
            k <= s.len(),
            s.len() > 0,
            size == SIZE_XATTR_IBODY_HEADER + xattr_entries_size(s, k as int),
        decreases s.len() - k,
    {
        proof {
            lemma_xattr_entries_size_ordered(s, k as int, k + 1);
            lemma_xattr_entries_size_ordered(s, k + 1, s.len() as int);
        }
        let len: usize = match entry_length(xattrs.entry(k)) {
            Some(n) => n,
            None => {
                return None;
            },
        };
        size = match size.checked_add(round_up(len, 4)) {
            Some(n) => n,
            None => {
                return None;
            },
        };
        k = k + 1;
    }
    Some(size)
}

/// The size of an inode's attributes as its header counts it.
pub fn xattr_count(size: usize) -> (n: u16)
    requires
        size == 0 || size >= SIZE_XATTR_IBODY_HEADER,
    ensures
        n == xattr_count_of(size as int),
{
    if size == 0 {
        0
    } else {
        (((size - SIZE_XATTR_IBODY_HEADER) / SIZE_XATTR_ENTRY + 1) % 0x1_0000) as u16
    }
}

/// Appends the entry of an attribute.
fn push_xattr_entry(x: &Xattr, buf: &mut Vec<u8>)
    requires
        rounded(xattr_entry_len(x@), 4) <= usize::MAX,
    ensures
        final(buf)@ == old(buf)@ + xattr_entry(x@),
{
    let (index, suffix): (u8, &[u8]) = split_xattr_name(x.name.as_str().as_bytes());
    proof {
        lemma_rounded(xattr_entry_len(x@), 4);
    }
    let entry_len: usize = SIZE_XATTR_ENTRY + suffix.len() + x.value.len();
    let fill: usize = round_up(entry_len, 4) - entry_len;
    buf.push((suffix.len() % 0x100) as u8);
    buf.push(index);
    push_low16(buf, x.value.len() as u64);
    push_slice(buf, suffix);
    push_slice(buf, x.value.as_slice());
    push_zeros(buf, fill);
    assert(buf@ =~= old(buf)@ + xattr_entry(x@));
}

/// Appends what the attributes put behind an inode.
pub fn write_xattrs(xattrs: &Xattrs, buf: &mut Vec<u8>)
    requires
        xattrs@.len() > 0,
        xattr_size(xattrs@) <= usize::MAX,
    ensures
        final(buf)@ == old(buf)@ + xattr_bytes(xattrs@),
{
    let ghost s = xattrs@;
    push_le32(buf, 0xFFFF_FFFF);
    push_zeros(buf, 8);
    let mut k: usize = 0;
    let ghost head = le32(0xFFFF_FFFF) + zeros(8);
    assert(buf@ =~= old(buf)@ + head + xattr_entries(s, 0));
    while k < xattrs.len()
        invariant
            s == xattrs@,
            k <= s.len(),
            s.len() > 0,
            xattr_size(s) <= usize::MAX,
            buf@ == old(buf)@ + head + xattr_entries(s, k as int),
        decreases s.len() - k,
    {
        proof {
            lemma_xattr_entries_size_ordered(s, k as int, k + 1);
            lemma_xattr_entries_size_ordered(s, k + 1, s.len() as int);
        }
        push_xattr_entry(xattrs.entry(k), buf);
        assert(buf@ =~= old(buf)@ + head + xattr_entries(s, k + 1));
        k = k + 1;
    }
    assert(buf@ =~= old(buf)@ + xattr_bytes(s));
}

/// The mathematical value of an [`InodeMeta`].
#[verifier::ext_equal]
pub struct MetaView {
    pub mode: u16,
    pub uid: u32,
    pub gid: u32,
    pub mtime: u64,
    pub mtime_nsec: u32,
    pub nlink: Option<u32>,
    pub rdev: u32,
    pub xattrs: Seq<XattrView>,
}

/// Metadata for a filesystem entry, mirroring `stat` plus EROFS extras.
#[derive(Clone, Debug)]
pub struct InodeMeta {
    pub mode: u16,
    pub uid: u32,
    pub gid: u32,
    /// Seconds since the epoch. If this equals the image build time and
    /// other constraints hold, a compact 32-byte inode is emitted.
    pub mtime: u64,
    pub mtime_nsec: u32,
    /// Explicit nlink; when `None` it is computed (dirs: 2 + subdirs).
    pub nlink: Option<u32>,
    pub rdev: u32,
    /// Extended attributes as full "prefix.name" with their values.
    pub xattrs: Xattrs,
}

impl View for InodeMeta {
    type V = MetaView;

    open spec fn view(&self) -> MetaView {
        MetaView {
            mode: self.mode,
            uid: self.uid,
            gid: self.gid,
            mtime: self.mtime,
            mtime_nsec: self.mtime_nsec,
            nlink: self.nlink,
            rdev: self.rdev,
            xattrs: self.xattrs@,
        }
    }
}

/// The metadata of an entry of which only the mode is given.
pub open spec fn plain_meta(mode: u16) -> MetaView {
    MetaView {
        mode,
        uid: 0,
        gid: 0,
        mtime: 0,
        mtime_nsec: 0,
        nlink: None,
        rdev: 0,
        xattrs: Seq::empty(),
    }
}

/// A mode with the given type bits and the permission bits of `mode`.
pub open spec fn typed_mode(bits: u16, mode: u16) -> u16 {
    bits | (mode & !mode::S_IFMT)
}

impl Default for InodeMeta {
    fn default() -> (m: Self)
        ensures
            m@ == plain_meta(0o644),
            m.mode == 0o644,
            m.xattrs.wf(),
    {
        InodeMeta {
            mode: 0o644,
            uid: 0,
            gid: 0,
            mtime: 0,
            mtime_nsec: 0,
            nlink: None,
            rdev: 0,
            xattrs: Xattrs::new(),
        }
    }
}

impl InodeMeta {
    fn with_mode(mode: u16) -> (m: Self)
        ensures
            m@ == plain_meta(mode),
            m.xattrs.wf(),
    {
        let mut m: InodeMeta = InodeMeta::default();
        m.mode = mode;
        m
    }

    pub fn dir(mode: u16) -> (m: Self)
        ensures
            m@ == plain_meta(typed_mode(mode::S_IFDIR, mode)),
            m.mode / 4096 == 4 && m.mode % 4096 == mode % 4096,
            m.xattrs.wf(),
    {
        assert((0o040000u16 | (mode & !0o170000u16)) / 4096 == 4 && (0o040000u16 | (mode
            & !0o170000u16)) % 4096 == mode % 4096) by (bit_vector);
        Self::with_mode(mode::S_IFDIR | (mode & !mode::S_IFMT))
    }

    pub fn reg(mode: u16) -> (m: Self)
        ensures
            m@ == plain_meta(typed_mode(mode::S_IFREG, mode)),
            m.mode / 4096 == 8 && m.mode % 4096 == mode % 4096,
            m.xattrs.wf(),
    {
        assert((0o100000u16 | (mode & !0o170000u16)) / 4096 == 8 && (0o100000u16 | (mode
            & !0o170000u16)) % 4096 == mode % 4096) by (bit_vector);
        Self::with_mode(mode::S_IFREG | (mode & !mode::S_IFMT))
    }

    pub fn symlink() -> (m: Self)
        ensures
            m@ == plain_meta(mode::S_IFLNK | 0o777),
            m.mode == 0o120777,
            m.xattrs.wf(),
    {
        assert(0o120000u16 | 0o777u16 == 0o120777u16) by (bit_vector);
        Self::with_mode(mode::S_IFLNK | 0o777)
    }
}

} // verus!
