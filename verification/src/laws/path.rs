//! What a path leads through.

use vstd::prelude::*;

use crate::path::{cleaned, slash_from, step, walk};

verus! {

/// A piece of a path between slashes.
pub open spec fn is_segment(s: Seq<u8>) -> bool {
    forall|i: int| 0 <= i < s.len() ==> #[trigger] s[i] != 47
}

/// A segment that names an entry.
pub open spec fn names_an_entry(s: Seq<u8>) -> bool {
    &&& is_segment(s)
    &&& s.len() > 0
    &&& s != seq![46u8]
    &&& s != seq![46u8, 46u8]
}

/// What a path leads through, segment by segment: nothing at first; a name
/// leads on, an empty segment and `.` stay, and `..` goes back one name where
/// there is one.
pub proof fn paths_are_followed_by_segments(path: Seq<u8>, seg: Seq<u8>)
    requires
        is_segment(seg),
    ensures
        cleaned(Seq::<u8>::empty()) == Seq::<Seq<u8>>::empty(),
        names_an_entry(seg) ==> cleaned(seg) == seq![seg],
        names_an_entry(seg) ==> cleaned(path + seq![47u8] + seg) == cleaned(path).push(seg),
        seg.len() == 0 || seg == seq![46u8] ==> cleaned(path + seq![47u8] + seg) == cleaned(path),
        seg.len() == 0 || seg == seq![46u8] || seg == seq![46u8, 46u8] ==> cleaned(seg) == Seq::<
            Seq<u8>,
        >::empty(),
        seg == seq![46u8, 46u8] && cleaned(path).len() > 0 ==> cleaned(path + seq![47u8] + seg)
            == cleaned(path).drop_last(),
        seg == seq![46u8, 46u8] && cleaned(path).len() == 0 ==> cleaned(path + seq![47u8] + seg)
            == Seq::<Seq<u8>>::empty(),
{
    let none = Seq::<Seq<u8>>::empty();
    lemma_walk_then(none, path, seg);
    lemma_no_slash(seg, 0);
    lemma_no_slash(Seq::<u8>::empty(), 0);
    assert(none.push(seg) =~= seq![seg]);
}

proof fn lemma_no_slash(s: Seq<u8>, k: int)
    requires
        is_segment(s),
        0 <= k,
    ensures
        slash_from(s, k) == s.len(),
    decreases s.len() - k,
{
    if k < s.len() {
        lemma_no_slash(s, k + 1);
    }
}

proof fn lemma_first_slash(s: Seq<u8>, t: Seq<u8>, k: int)
    requires
        0 <= k <= s.len(),
        t.len() > 0,
        t[0] == 47,
    ensures
        slash_from(s + t, k) == slash_from(s, k),
        k <= slash_from(s, k) <= s.len(),
        slash_from(s, k) < s.len() ==> s[slash_from(s, k)] == 47,
    decreases s.len() - k,
{
    if k < s.len() && s[k] != 47 {
        lemma_first_slash(s, t, k + 1);
    }
}

/// Following a path and one more segment is following the path, and the
/// segment from there.
proof fn lemma_walk_then(names: Seq<Seq<u8>>, path: Seq<u8>, seg: Seq<u8>)
    requires
        is_segment(seg),
    ensures
        walk(names, path + seq![47u8] + seg) == step(walk(names, path), seg),
    decreases path.len(),
{
    let tail = seq![47u8] + seg;
    let full = path + seq![47u8] + seg;
    assert(full =~= path + tail);
    lemma_first_slash(path, tail, 0);
    let i = slash_from(path, 0);
    assert(full.subrange(0, i) =~= path.subrange(0, i));
    if i < path.len() {
        assert(full.skip(i + 1) =~= path.skip(i + 1) + seq![47u8] + seg);
        lemma_walk_then(step(names, path.subrange(0, i)), path.skip(i + 1), seg);
    } else {
        assert(path.subrange(0, i) =~= path);
        assert(full.skip(i + 1) =~= seg);
        lemma_no_slash(seg, 0);
        let there = step(names, path);
        assert(walk(names, path) == there);
        assert(walk(there, seg) == step(there, seg));
        assert(walk(names, full) == walk(step(names, full.subrange(0, i)), full.skip(i + 1)));
    }
}

} // verus!
