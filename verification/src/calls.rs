//! Whole sequences of calls on a builder.

use vstd::prelude::*;
use vstd::utf8::valid_utf8;

use crate::error::Error;
use crate::image::{concat, image, regions};
use crate::layout::FileType;
use crate::meta::MetaView;
use crate::path::{all_names, cleaned, cleaned_names_are_names, is_name};
use crate::streaming::{all_filled, filled, is_pending};
use crate::tree::{added, adding_an_entry, extends, find, implied_dir, is_named, lemma_find,
    lemma_implied_dir_kind, lemma_nothing_below, lemma_nothing_in_last, lemma_push_wf,
    lemma_same_shape, lookup, loose, placed, same_shape, tree_wf, NodeView};
use crate::writer::{can_be_finished, chunking_does_not_matter, drained, with_dir, with_entry,
    BuilderView};

verus! {

/// A call on a builder.
pub enum Call {
    /// `mkdir`.
    Dir { path: Seq<u8>, meta: MetaView },
    /// `add_bytes` with the content that the chunks make up, or, where it is
    /// streamed, `add_file` with a stream that yields the chunks and ends.
    File { path: Seq<u8>, meta: MetaView, chunks: Seq<Seq<u8>>, streamed: bool },
    /// `symlink`.
    Symlink { path: Seq<u8>, meta: MetaView, target: Seq<u8> },
    /// `mknod`.
    Node { path: Seq<u8>, meta: MetaView },
    /// `supply` with what comes out of the stream behind a ticket, where there
    /// is one that has not been drained.
    Supply { ticket: int },
}

impl Call {
    /// The path of the call is UTF-8, as that of a string is.
    pub open spec fn wf(self) -> bool {
        match self {
            Call::Dir { path, .. } => valid_utf8(path),
            Call::File { path, .. } => valid_utf8(path),
            Call::Symlink { path, .. } => valid_utf8(path),
            Call::Node { path, .. } => valid_utf8(path),
            Call::Supply { .. } => true,
        }
    }
}

/// What a call does where every content is at hand.
pub open spec fn inline_call(b: BuilderView, c: Call) -> Result<BuilderView, Error> {
    let none = Seq::<u8>::empty();
    match c {
        Call::Dir { path, meta } => with_dir(b, path, meta),
        Call::File { path, meta, chunks, .. } => with_entry(
            b,
            path,
            loose(meta, concat(chunks), false, none),
        ),
        Call::Symlink { path, meta, target } => with_entry(
            b,
            path,
            loose(meta, none, false, target),
        ),
        Call::Node { path, meta } => with_entry(b, path, loose(meta, none, false, none)),
        Call::Supply { .. } => Ok(b),
    }
}

/// The builder after a call, which leaves it alone where it fails.
pub open spec fn after_result(b: BuilderView, r: Result<BuilderView, Error>) -> BuilderView {
    match r {
        Ok(v) => v,
        Err(_) => b,
    }
}

/// The builder after some calls where every content is at hand.
pub open spec fn inline_run(b: BuilderView, calls: Seq<Call>) -> BuilderView
    decreases calls.len(),
{
    if calls.len() == 0 {
        b
    } else {
        let a = inline_run(b, calls.drop_last());
        after_result(a, inline_call(a, calls.last()))
    }
}

/// A builder, and what the streams that have not been drained will yield, by
/// ticket.
pub struct Streaming {
    pub builder: BuilderView,
    pub waiting: Map<int, Seq<Seq<u8>>>,
}

/// Every stream has been drained.
pub open spec fn all_drained(s: Streaming) -> bool {
    forall|ticket: int| !#[trigger] s.waiting.dom().contains(ticket)
}

/// What a call does to the builder where contents are streamed.
pub open spec fn streamed_call(s: Streaming, c: Call) -> Result<BuilderView, Error> {
    let b = s.builder;
    let none = Seq::<u8>::empty();
    match c {
        Call::File { path, meta, chunks, streamed: true } => with_entry(
            b,
            path,
            loose(meta, none, true, none),
        ),
        Call::Supply { ticket } => if s.waiting.dom().contains(ticket) {
            Ok(
                BuilderView {
                    entries: filled(b.entries, ticket, drained(s.waiting[ticket])),
                    ..b
                },
            )
        } else {
            Ok(b)
        },
        _ => inline_call(b, c),
    }
}

/// The streams that are waiting after a call.
pub open spec fn waiting_after(s: Streaming, c: Call) -> Map<int, Seq<Seq<u8>>> {
    match c {
        Call::File { path, meta, chunks, streamed: true } => match streamed_call(s, c) {
            Ok(v) => if lookup(s.builder.entries, 0, cleaned(path)) is None {
                s.waiting.insert(v.entries.len() - 1, chunks)
            } else {
                s.waiting
            },
            Err(_) => s.waiting,
        },
        Call::Supply { ticket } => s.waiting.remove(ticket),
        _ => s.waiting,
    }
}

/// The builder and its streams after some calls.
pub open spec fn streamed_run(b: BuilderView, calls: Seq<Call>) -> Streaming
    decreases calls.len(),
{
    if calls.len() == 0 {
        Streaming { builder: b, waiting: Map::empty() }
    } else {
        let s = streamed_run(b, calls.drop_last());
        Streaming {
            builder: after_result(s.builder, streamed_call(s, calls.last())),
            waiting: waiting_after(s, calls.last()),
        }
    }
}

/// Two entries that differ at most in their contents.
pub open spec fn alike(a: NodeView, b: NodeView) -> bool {
    a == (NodeView { data: a.data, pending: a.pending, ..b })
}

/// Two trees whose entries differ at most in their contents.
pub open spec fn all_alike(t: Seq<NodeView>, u: Seq<NodeView>) -> bool {
    &&& t.len() == u.len()
    &&& forall|i: int| 0 <= i < t.len() ==> alike(#[trigger] t[i], u[i])
}

proof fn lemma_alike_wf(t: Seq<NodeView>, u: Seq<NodeView>)
    requires
        tree_wf(t),
        all_alike(t, u),
    ensures
        tree_wf(u),
{
    assert forall|i: int| 0 <= i < t.len() implies (#[trigger] u[i]).name == t[i].name && u[i].parent
        == t[i].parent && u[i].kind == t[i].kind && u[i].meta == t[i].meta by {
        assert(alike(t[i], u[i]));
    }
    assert(same_shape(t, u));
    lemma_same_shape(t, u);
}

/// What a name finds does not depend on contents.
proof fn lemma_find_alike(t: Seq<NodeView>, u: Seq<NodeView>, i: int, name: Seq<u8>)
    requires
        tree_wf(t),
        tree_wf(u),
        all_alike(t, u),
    ensures
        find(t, i, name) == find(u, i, name),
        find(t, i, name) matches Some(j) ==> 0 < j < t.len(),
{
    if exists|j: int| is_named(t, i, name, j) {
        let j = choose|j: int| is_named(t, i, name, j);
        assert(alike(t[j], u[j]));
        assert(is_named(u, i, name, j));
        lemma_find(t, i, name, j);
        lemma_find(u, i, name, j);
    } else if exists|j: int| is_named(u, i, name, j) {
        let j = choose|j: int| is_named(u, i, name, j);
        assert(alike(t[j], u[j]));
        assert(is_named(t, i, name, j));
    }
}

/// What comes of adding two entries that differ at most in their contents to
/// two trees that do.
pub open spec fn added_alike(
    t: Seq<NodeView>,
    a: Option<Seq<NodeView>>,
    b: Option<Seq<NodeView>>,
    n: NodeView,
    m: NodeView,
    fresh: bool,
) -> bool {
    match (a, b) {
        (Some(v), Some(w)) => {
            &&& v.len() == w.len()
            &&& fresh ==> {
                &&& t.len() < v.len()
                &&& forall|k: int| t.len() <= k < v.len() - 1 ==> #[trigger] v[k] == w[k]
                &&& alike(v.last(), w.last())
                &&& v.last().data == n.data && v.last().pending == n.pending
                &&& w.last().data == m.data && w.last().pending == m.pending
            }
        },
        (None, None) => true,
        _ => false,
    }
}

proof fn lemma_added_alike(
    t: Seq<NodeView>,
    u: Seq<NodeView>,
    i: int,
    path: Seq<Seq<u8>>,
    n: NodeView,
    m: NodeView,
)
    requires
        tree_wf(t),
        tree_wf(u),
        all_alike(t, u),
        alike(n, m),
        0 <= i < t.len(),
        t[i].kind == FileType::Dir,
        all_names(path),
        path.len() > 0,
        n.kind == FileType::of_mode(n.meta.mode),
    ensures
        lookup(t, i, path) == lookup(u, i, path),
        added_alike(
            t,
            added(t, i, path, n),
            added(u, i, path, m),
            n,
            m,
            lookup(t, i, path) is None,
        ),
    decreases path.len(),
{
    let head = path[0];
    let rest = path.skip(1);
    assert(is_name(head));
    assert forall|k: int| 0 <= k < rest.len() implies is_name(#[trigger] rest[k]) by {
        assert(rest[k] == path[k + 1]);
    }
    lemma_find_alike(t, u, i, head);
    assert(alike(t[i], u[i]));
    let found = find(t, i, head);
    if found is Some {
        let j = found->Some_0;
        assert(alike(t[j], u[j]));
        if path.len() == 1 {
            assert(lookup(t, j, rest) == Some(j));
            assert(lookup(u, j, rest) == Some(j));
        } else if t[j].kind == FileType::Dir {
            lemma_added_alike(t, u, j, rest, n, m);
        } else {
            lemma_nothing_below(t, j, rest[0]);
            lemma_nothing_below(u, j, rest[0]);
        }
    } else if path.len() > 1 {
        let d = placed(implied_dir(), i, head);
        let (v, w) = (t.push(d), u.push(d));
        lemma_implied_dir_kind();
        lemma_push_wf(t, d);
        lemma_push_wf(u, d);
        lemma_nothing_in_last(v, rest[0]);
        assert(all_alike(v, w));
        lemma_added_alike(v, w, t.len() as int, rest, n, m);
        adding_an_entry(v, t.len() as int, rest, n);
        adding_an_entry(w, t.len() as int, rest, m);
        let (a, b) = (added(v, t.len() as int, rest, n), added(w, t.len() as int, rest, m));
        if a is Some {
            let (x, y) = (a->Some_0, b->Some_0);
            assert(x.subrange(0, v.len() as int)[t.len() as int] == d);
            assert(y.subrange(0, w.len() as int)[t.len() as int] == d);
        }
    }
}

/// A streaming builder and one that has every content are the same but for the
/// contents that are still to come.
pub open spec fn same_but_waiting(s: Streaming, b: BuilderView) -> bool {
    let t = s.builder.entries;
    let u = b.entries;
    &&& s.builder.options == b.options
    &&& all_alike(t, u)
    &&& forall|i: int| #[trigger]
        s.waiting.dom().contains(i) ==> {
            &&& 0 <= i < t.len()
            &&& t[i].pending && t[i].data == Seq::<u8>::empty()
            &&& !u[i].pending && u[i].data == concat(s.waiting[i])
        }
    &&& forall|i: int|
        0 <= i < t.len() && !s.waiting.dom().contains(i) ==> #[trigger] t[i] == u[i]
}

/// Two calls came to the same end: both succeeded, or both failed alike.
pub open spec fn same_outcome(
    a: Result<BuilderView, Error>,
    b: Result<BuilderView, Error>,
) -> bool {
    match (a, b) {
        (Ok(_), Ok(_)) => true,
        (Err(e), Err(f)) => e == f,
        _ => false,
    }
}

/// Adding an entry to both, with its content or without.
proof fn lemma_entry_step(
    s: Streaming,
    b: BuilderView,
    path: Seq<u8>,
    n: NodeView,
    m: NodeView,
)
    requires
        tree_wf(b.entries),
        same_but_waiting(s, b),
        valid_utf8(path),
        alike(n, m),
        n.kind == FileType::of_mode(n.meta.mode),
        m.kind == FileType::of_mode(m.meta.mode),
    ensures
        ({
            let r = with_entry(s.builder, path, n);
            let q = with_entry(b, path, m);
            let fresh = lookup(s.builder.entries, 0, cleaned(path)) is None;
            &&& same_outcome(r, q)
            &&& match (r, q) {
                (Ok(v), Ok(w)) => {
                    &&& tree_wf(w.entries)
                    &&& v.options == s.builder.options && w.options == b.options
                    &&& v.entries.len() == w.entries.len()
                    &&& if fresh {
                        &&& extends(v.entries, s.builder.entries)
                        &&& extends(w.entries, b.entries)
                        &&& added_alike(
                            s.builder.entries,
                            Some(v.entries),
                            Some(w.entries),
                            n,
                            m,
                            true,
                        )
                    } else {
                        v == s.builder && w == b
                    }
                },
                _ => true,
            }
        }),
{
    let t = s.builder.entries;
    let u = b.entries;
    let names = cleaned(path);
    assert forall|i: int| 0 <= i < u.len() implies alike(#[trigger] u[i], t[i]) by {
        assert(alike(t[i], u[i]));
    }
    lemma_alike_wf(u, t);
    if names.len() > 0 {
        cleaned_names_are_names(path);
        lemma_added_alike(t, u, 0, names, n, m);
        adding_an_entry(t, 0, names, n);
        adding_an_entry(u, 0, names, m);
    }
}

/// Entries that were there before a new one keep their relation, and the new
/// ones have it.
proof fn lemma_grown(
    s: Streaming,
    b: BuilderView,
    v: BuilderView,
    w: BuilderView,
    n: NodeView,
    m: NodeView,
    waiting: Map<int, Seq<Seq<u8>>>,
)
    requires
        same_but_waiting(s, b),
        extends(v.entries, s.builder.entries),
        extends(w.entries, b.entries),
        v.options == w.options,
        added_alike(s.builder.entries, Some(v.entries), Some(w.entries), n, m, true),
        (waiting == s.waiting && n == m) || (exists|chunks: Seq<Seq<u8>>|
            #![trigger concat(chunks)]
            waiting == s.waiting.insert(v.entries.len() - 1, chunks) && n.pending && n.data
                == Seq::<u8>::empty() && !m.pending && m.data == concat(chunks)),
    ensures
        same_but_waiting(Streaming { builder: v, waiting }, w),
{
    let (t, u) = (s.builder.entries, b.entries);
    let (x, y) = (v.entries, w.entries);
    let last = x.len() - 1;
    assert forall|i: int| 0 <= i < t.len() implies #[trigger] x[i] == t[i] && y[i] == u[i] by {
        assert(x.subrange(0, t.len() as int)[i] == t[i]);
        assert(y.subrange(0, u.len() as int)[i] == u[i]);
    }
    assert forall|i: int| 0 <= i < x.len() implies alike(#[trigger] x[i], y[i]) by {
        if i < t.len() {
            assert(alike(t[i], u[i]));
        } else if i < last {
            assert(x[i] == y[i]);
        }
    }
    assert forall|i: int| 0 <= i < x.len() && !waiting.dom().contains(i) implies #[trigger] x[i]
        == y[i] by {
        if i < t.len() {
            assert(!s.waiting.dom().contains(i));
            assert(t[i] == u[i]);
        } else if i == last {
            assert(alike(x[i], y[i]));
        }
    }
    assert forall|i: int| #[trigger] waiting.dom().contains(i) implies {
        &&& 0 <= i < x.len()
        &&& x[i].pending && x[i].data == Seq::<u8>::empty()
        &&& !y[i].pending && y[i].data == concat(waiting[i])
    } by {
        if s.waiting.dom().contains(i) {
            assert(0 <= i < t.len());
            assert(x[i] == t[i] && y[i] == u[i]);
        }
    }
}

/// One call keeps the relation, and comes to the same end on both sides.
proof fn lemma_call_step(s: Streaming, b: BuilderView, c: Call)
    requires
        tree_wf(b.entries),
        same_but_waiting(s, b),
        c.wf(),
    ensures
        same_outcome(streamed_call(s, c), inline_call(b, c)),
        tree_wf(after_result(b, inline_call(b, c)).entries),
        same_but_waiting(
            Streaming {
                builder: after_result(s.builder, streamed_call(s, c)),
                waiting: waiting_after(s, c),
            },
            after_result(b, inline_call(b, c)),
        ),
{
    let none = Seq::<u8>::empty();
    match c {
        Call::Supply { ticket } => {
            lemma_supply_step(s, b, ticket);
        },
        Call::Dir { path, meta } => if cleaned(path).len() == 0 {
            lemma_root_step(s, b, meta);
        } else {
            lemma_same_entry_step(s, b, path, loose(meta, none, false, none));
        },
        Call::Symlink { path, meta, target } => {
            lemma_same_entry_step(s, b, path, loose(meta, none, false, target));
        },
        Call::Node { path, meta } => {
            lemma_same_entry_step(s, b, path, loose(meta, none, false, none));
        },
        Call::File { path, meta, chunks, streamed } => {
            let m = loose(meta, concat(chunks), false, none);
            if streamed {
                let n = loose(meta, none, true, none);
                lemma_entry_step(s, b, path, n, m);
                if let Ok(v) = with_entry(s.builder, path, n) {
                    let w = with_entry(b, path, m)->Ok_0;
                    if lookup(s.builder.entries, 0, cleaned(path)) is None {
                        lemma_grown(s, b, v, w, n, m, waiting_after(s, c));
                    }
                }
            } else {
                lemma_same_entry_step(s, b, path, m);
            }
        },
    }
}

proof fn lemma_same_entry_step(s: Streaming, b: BuilderView, path: Seq<u8>, n: NodeView)
    requires
        tree_wf(b.entries),
        same_but_waiting(s, b),
        valid_utf8(path),
        n.kind == FileType::of_mode(n.meta.mode),
    ensures
        same_outcome(with_entry(s.builder, path, n), with_entry(b, path, n)),
        tree_wf(after_result(b, with_entry(b, path, n)).entries),
        same_but_waiting(
            Streaming {
                builder: after_result(s.builder, with_entry(s.builder, path, n)),
                waiting: s.waiting,
            },
            after_result(b, with_entry(b, path, n)),
        ),
{
    lemma_entry_step(s, b, path, n, n);
    if let Ok(v) = with_entry(s.builder, path, n) {
        let w = with_entry(b, path, n)->Ok_0;
        if lookup(s.builder.entries, 0, cleaned(path)) is None {
            lemma_grown(s, b, v, w, n, n, s.waiting);
        }
    }
}

proof fn lemma_root_step(s: Streaming, b: BuilderView, meta: MetaView)
    requires
        tree_wf(b.entries),
        same_but_waiting(s, b),
    ensures
        ({
            let x = s.builder.entries.update(0, NodeView { meta, ..s.builder.entries[0] });
            let y = b.entries.update(0, NodeView { meta, ..b.entries[0] });
            &&& tree_wf(y)
            &&& same_but_waiting(
                Streaming {
                    builder: BuilderView { entries: x, ..s.builder },
                    waiting: s.waiting,
                },
                BuilderView { entries: y, ..b },
            )
        }),
{
    let (t, u) = (s.builder.entries, b.entries);
    let x = t.update(0, NodeView { meta, ..t[0] });
    let y = u.update(0, NodeView { meta, ..u[0] });
    assert(same_shape(u, y));
    lemma_same_shape(u, y);
    assert(alike(t[0], u[0]));
    assert forall|i: int| 0 <= i < x.len() implies alike(#[trigger] x[i], y[i]) by {
        assert(alike(t[i], u[i]));
    }
    assert forall|i: int| 0 <= i < x.len() && !s.waiting.dom().contains(i) implies #[trigger] x[i]
        == y[i] by {
        assert(t[i] == u[i]);
    }
}

proof fn lemma_supply_step(s: Streaming, b: BuilderView, ticket: int)
    requires
        tree_wf(b.entries),
        same_but_waiting(s, b),
    ensures
        ({
            let c = Call::Supply { ticket };
            &&& streamed_call(s, c) is Ok
            &&& same_but_waiting(
                Streaming {
                    builder: after_result(s.builder, streamed_call(s, c)),
                    waiting: s.waiting.remove(ticket),
                },
                b,
            )
        }),
{
    let (t, u) = (s.builder.entries, b.entries);
    if s.waiting.dom().contains(ticket) {
        chunking_does_not_matter(s.waiting[ticket]);
        let x = filled(t, ticket, drained(s.waiting[ticket]));
        assert(alike(t[ticket], u[ticket]));
        assert(x[ticket] == u[ticket]);
        assert forall|i: int| 0 <= i < x.len() implies alike(#[trigger] x[i], u[i]) by {
            assert(alike(t[i], u[i]));
        }
        assert forall|i: int|
            0 <= i < x.len() && !s.waiting.remove(ticket).dom().contains(i) implies #[trigger] x[i]
            == u[i] by {
            if i != ticket {
                assert(t[i] == u[i]);
            }
        }
        assert forall|i: int| #[trigger] s.waiting.remove(ticket).dom().contains(i) implies {
            &&& 0 <= i < x.len()
            &&& x[i].pending && x[i].data == Seq::<u8>::empty()
            &&& !u[i].pending && u[i].data == concat(s.waiting.remove(ticket)[i])
        } by {
            assert(s.waiting.dom().contains(i));
        }
    } else {
        assert(s.waiting.remove(ticket) =~= s.waiting);
    }
}

proof fn lemma_runs(b: BuilderView, calls: Seq<Call>)
    requires
        tree_wf(b.entries),
        forall|k: int| 0 <= k < calls.len() ==> (#[trigger] calls[k]).wf(),
    ensures
        tree_wf(inline_run(b, calls).entries),
        same_but_waiting(streamed_run(b, calls), inline_run(b, calls)),
    decreases calls.len(),
{
    if calls.len() > 0 {
        let front = calls.drop_last();
        assert forall|k: int| 0 <= k < front.len() implies (#[trigger] front[k]).wf() by {
            assert(front[k] == calls[k]);
        }
        lemma_runs(b, front);
        assert(calls[calls.len() - 1].wf());
        lemma_call_step(streamed_run(b, front), inline_run(b, front), calls.last());
    }
}

/// It makes no difference which files are streamed, how their contents are cut
/// into chunks, and when the streams are drained: every call comes to the same
/// end, and once the streams are drained, the builders are the same, and so
/// are their images.
pub proof fn streaming_makes_no_difference(b: BuilderView, calls: Seq<Call>)
    requires
        tree_wf(b.entries),
        forall|k: int| 0 <= k < calls.len() ==> (#[trigger] calls[k]).wf(),
    ensures
        forall|k: int|
            0 <= k < calls.len() ==> same_outcome(
                streamed_call(streamed_run(b, calls.take(k)), #[trigger] calls[k]),
                inline_call(inline_run(b, calls.take(k)), calls[k]),
            ),
        all_filled(streamed_run(b, calls).builder.entries) ==> all_drained(
            streamed_run(b, calls),
        ),
        all_drained(streamed_run(b, calls)) ==> {
            let s = streamed_run(b, calls).builder;
            let i = inline_run(b, calls);
            &&& s == i
            &&& can_be_finished(s) == can_be_finished(i)
            &&& regions(s.entries, s.options) == regions(i.entries, i.options)
            &&& image(s.entries, s.options) == image(i.entries, i.options)
        },
{
    let s = streamed_run(b, calls);
    let i = inline_run(b, calls);
    lemma_runs(b, calls);
    assert forall|k: int| 0 <= k < calls.len() implies same_outcome(
        streamed_call(streamed_run(b, calls.take(k)), #[trigger] calls[k]),
        inline_call(inline_run(b, calls.take(k)), calls[k]),
    ) by {
        let front = calls.take(k);
        assert forall|l: int| 0 <= l < front.len() implies (#[trigger] front[l]).wf() by {
            assert(front[l] == calls[l]);
        }
        lemma_runs(b, front);
        lemma_call_step(streamed_run(b, front), inline_run(b, front), calls[k]);
    }
    let t = s.builder.entries;
    if all_filled(t) {
        assert forall|k: int| !#[trigger] s.waiting.dom().contains(k) by {
            assert(!is_pending(t, k));
        }
    }
    if all_drained(s) {
        assert forall|k: int| 0 <= k < t.len() implies #[trigger] t[k] == i.entries[k] by {
            assert(!s.waiting.dom().contains(k));
        }
        assert(t =~= i.entries);
    }
}

} // verus!
