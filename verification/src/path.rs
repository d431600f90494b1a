//! Paths of entries, reduced to the names that they lead through.

use vstd::prelude::*;
use vstd::slice::slice_subrange;
use vstd::utf8::{encode_utf8, is_char_boundary_iff_not_is_continuation_byte, valid_utf8,
    valid_utf8_split};

use crate::names::views;
use crate::reader::is_dot_name;

verus! {

/// The byte that separates the names of a path.
pub const SLASH: u8 = 47;

/// The first position from `k` on at which `s` has a slash, or its length.
pub open spec fn slash_from(s: Seq<u8>, k: int) -> int
    decreases s.len() - k,
{
    if k >= s.len() || k < 0 {
        s.len() as int
    } else if s[k] == SLASH {
        k
    } else {
        slash_from(s, k + 1)
    }
}

/// One step along a path: an empty name and `.` stay, `..` goes back one name
/// where there is one, and any other name goes on.
pub open spec fn step(names: Seq<Seq<u8>>, seg: Seq<u8>) -> Seq<Seq<u8>> {
    if seg.len() == 0 || seg == seq![46u8] {
        names
    } else if seg == seq![46u8, 46u8] {
        if names.len() > 0 {
            names.drop_last()
        } else {
            names
        }
    } else {
        names.push(seg)
    }
}

/// The names that `path` leads through when it starts behind `names`.
pub open spec fn walk(names: Seq<Seq<u8>>, path: Seq<u8>) -> Seq<Seq<u8>>
    decreases path.len(),
{
    let i = slash_from(path, 0);
    if 0 <= i < path.len() {
        walk(step(names, path.subrange(0, i)), path.skip(i + 1))
    } else {
        step(names, path)
    }
}

/// The names that a path leads through, from the root.
pub open spec fn cleaned(path: Seq<u8>) -> Seq<Seq<u8>> {
    walk(Seq::empty(), path)
}

/// A name that an entry can have: not empty, no slash, neither `.` nor `..`,
/// and UTF-8.
pub open spec fn is_name(s: Seq<u8>) -> bool {
    &&& s.len() > 0
    &&& !s.contains(SLASH)
    &&& !is_dot_name(s)
    &&& valid_utf8(s)
}

/// Every one of these is a name that an entry can have.
pub open spec fn all_names(names: Seq<Seq<u8>>) -> bool {
    forall|i: int| 0 <= i < names.len() ==> is_name(#[trigger] names[i])
}

/// The path that leads through `names`.
pub open spec fn joined(names: Seq<Seq<u8>>) -> Seq<u8>
    decreases names.len(),
{
    if names.len() == 0 {
        Seq::empty()
    } else {
        joined(names.drop_last()) + seq![SLASH] + names.last()
    }
}

proof fn lemma_slash_from(s: Seq<u8>, k: int)
    requires
        0 <= k <= s.len(),
    ensures
        k <= slash_from(s, k) <= s.len(),
        forall|j: int| k <= j < slash_from(s, k) ==> #[trigger] s[j] != SLASH,
        slash_from(s, k) < s.len() ==> s[slash_from(s, k)] == SLASH,
    decreases s.len() - k,
{
    if k < s.len() && s[k] != SLASH {
        lemma_slash_from(s, k + 1);
    }
}

/// UTF-8 stays UTF-8 on both sides of a slash.
proof fn lemma_utf8_around_slash(s: Seq<u8>, i: int)
    requires
        valid_utf8(s),
        0 <= i < s.len(),
        s[i] == SLASH,
    ensures
        valid_utf8(s.subrange(0, i)),
        valid_utf8(s.skip(i + 1)),
{
    assert(!vstd::utf8::is_continuation_byte(47u8)) by (bit_vector);
    is_char_boundary_iff_not_is_continuation_byte(s, i);
    valid_utf8_split(s, i);
    let t = s.subrange(i, s.len() as int);
    assert(t[0] == 47u8);
    assert(vstd::utf8::is_leading_byte_width_1(47u8)) by (bit_vector);
    assert(vstd::utf8::pop_first_scalar(t) =~= s.skip(i + 1));
}

proof fn lemma_walk_names(names: Seq<Seq<u8>>, path: Seq<u8>)
    requires
        all_names(names),
        valid_utf8(path),
    ensures
        all_names(walk(names, path)),
    decreases path.len(),
{
    let i = slash_from(path, 0);
    lemma_slash_from(path, 0);
    let seg = path.subrange(0, i);
    assert(!seg.contains(SLASH)) by {
        if seg.contains(SLASH) {
            let j = seg.index_of(SLASH);
            assert(path[j] == SLASH);
        }
    }
    if i < path.len() {
        lemma_utf8_around_slash(path, i);
        assert(all_names(step(names, seg)));
        lemma_walk_names(step(names, seg), path.skip(i + 1));
    } else {
        assert(seg =~= path);
        assert(all_names(step(names, seg)));
    }
}

/// A path leads through names that entries can have.
pub proof fn cleaned_names_are_names(path: Seq<u8>)
    requires
        valid_utf8(path),
    ensures
        all_names(cleaned(path)),
{
    lemma_walk_names(Seq::empty(), path);
}

proof fn lemma_slash_from_concat(a: Seq<u8>, b: Seq<u8>, k: int)
    requires
        !a.contains(SLASH),
        b.len() > 0,
        b[0] == SLASH,
        0 <= k <= a.len(),
    ensures
        slash_from(a + b, k) == a.len(),
    decreases a.len() - k,
{
    if k < a.len() {
        assert((a + b)[k] == a[k]);
        assert(a.contains(a[k]));
        lemma_slash_from_concat(a, b, k + 1);
    }
}

proof fn lemma_no_slash(a: Seq<u8>, k: int)
    requires
        !a.contains(SLASH),
        0 <= k <= a.len(),
    ensures
        slash_from(a, k) == a.len(),
    decreases a.len() - k,
{
    if k < a.len() {
        assert(a.contains(a[k]));
        lemma_no_slash(a, k + 1);
    }
}

/// A slash and one more name at the end of a path lead one name further.
proof fn lemma_walk_appends(names: Seq<Seq<u8>>, path: Seq<u8>, name: Seq<u8>)
    requires
        is_name(name),
    ensures
        walk(names, path + seq![SLASH] + name) == walk(names, path).push(name),
    decreases path.len(),
{
    let full = path + seq![SLASH] + name;
    let tail = seq![SLASH] + name;
    let i = slash_from(path, 0);
    lemma_slash_from(path, 0);
    assert(full =~= path + tail);
    if i < path.len() {
        let head = path.subrange(0, i);
        assert(!head.contains(SLASH)) by {
            if head.contains(SLASH) {
                assert(path[head.index_of(SLASH)] == SLASH);
            }
        }
        assert(full =~= head + full.skip(i));
        lemma_slash_from_concat(head, full.skip(i), 0);
        assert(full.subrange(0, i) =~= head);
        assert(full.skip(i + 1) =~= path.skip(i + 1) + seq![SLASH] + name);
        lemma_walk_appends(step(names, head), path.skip(i + 1), name);
    } else {
        assert(!path.contains(SLASH)) by {
            if path.contains(SLASH) {
                assert(path[path.index_of(SLASH)] == SLASH);
            }
        }
        lemma_slash_from_concat(path, tail, 0);
        assert(full.subrange(0, path.len() as int) =~= path);
        assert(full.skip(path.len() as int + 1) =~= name);
        lemma_no_slash(name, 0);
        let before = step(names, path);
        assert(walk(names, path) == before);
        assert(walk(before, name) == step(before, name));
        assert(walk(names, full) == walk(before, full.skip(path.len() as int + 1)));
    }
}

/// The path that leads through some names cleans to those names: cleaning a
/// path and joining what is left gives a path to the same place.
pub proof fn cleaning_keeps_clean_paths(names: Seq<Seq<u8>>)
    requires
        all_names(names),
    ensures
        cleaned(joined(names)) == names,
    decreases names.len(),
{
    if names.len() == 0 {
        assert(cleaned(Seq::empty()) =~= Seq::<Seq<u8>>::empty());
    } else {
        let front = names.drop_last();
        assert forall|i: int| 0 <= i < front.len() implies is_name(#[trigger] front[i]) by {
            assert(front[i] == names[i]);
        }
        cleaning_keeps_clean_paths(front);
        assert(is_name(names[names.len() - 1]));
        lemma_walk_appends(Seq::empty(), joined(front), names.last());
        assert(front.push(names.last()) =~= names);
    }
}

/// Applies one step along a path.
fn apply_step(names: &mut Vec<Vec<u8>>, seg: &[u8])
    ensures
        views(final(names)@) == step(views(old(names)@), seg@),
{
    let ghost before = views(names@);
    let dot: bool = seg.len() == 1 && seg[0] == 46;
    let dotdot: bool = seg.len() == 2 && seg[0] == 46 && seg[1] == 46;
    proof {
        assert(dot ==> seg@ =~= seq![46u8]);
        assert(dotdot ==> seg@ =~= seq![46u8, 46u8]);
    }
    if seg.len() == 0 || dot {
    } else if dotdot {
        names.pop();
        proof {
            if before.len() > 0 {
                assert(views(names@) =~= before.drop_last());
            } else {
                assert(views(names@) =~= before);
            }
        }
    } else {
        names.push(vstd::slice::slice_to_vec(seg));
        assert(views(names@) =~= before.push(seg@));
    }
}

/// The names that a path leads through, from the root.
pub fn clean(path: &str) -> (names: Vec<Vec<u8>>)
    ensures
        views(names@) == cleaned(encode_utf8(path@)),
        all_names(views(names@)),
{
    let p: &[u8] = path.as_bytes();
    let mut names: Vec<Vec<u8>> = Vec::new();
    let mut start: usize = 0;
    let mut i: usize = 0;
    proof {
        assert(views(names@) =~= Seq::empty());
        assert(p@.skip(0) =~= p@);
    }
    while i < p.len()
        invariant
            start <= i <= p@.len(),
            forall|j: int| start <= j < i ==> #[trigger] p@[j] != SLASH,
            walk(views(names@), p@.skip(start as int)) == cleaned(p@),
        decreases p@.len() - i,
    {
        if p[i] == SLASH {
            let ghost rest = p@.skip(start as int);
            let ghost n = (i - start) as int;
            let ghost before = views(names@);
            let seg: &[u8] = slice_subrange(p, start, i);
            proof {
                lemma_slash_from(rest, 0);
                let f = slash_from(rest, 0);
                assert(rest[n] == SLASH);
                if f < n {
                    assert(p@[start + f] != SLASH);
                }
                assert(f == n);
                assert(rest.subrange(0, n) =~= seg@);
                assert(rest.skip(n + 1) =~= p@.skip(i + 1));
            }
            apply_step(&mut names, seg);
            start = i + 1;
        }
        i = i + 1;
    }
    let last: &[u8] = slice_subrange(p, start, p.len());
    proof {
        let rest = p@.skip(start as int);
        lemma_slash_from(rest, 0);
        let f = slash_from(rest, 0);
        if f < rest.len() {
            assert(p@[start + f] != SLASH);
        }
        assert(rest =~= last@);
    }
    apply_step(&mut names, last);
    proof {
        vstd::utf8::encode_utf8_valid_utf8(path@);
        cleaned_names_are_names(p@);
    }
    names
}

} // verus!
