//! What sources and sinks do with what they are told.

use vstd::prelude::*;

use crate::sink::{after_close_poll, after_flush_poll, after_send, after_shutdown,
    after_write_event, ready_action, CloseAction, FlushAction, ReadyAction, ShutdownEvent,
    SinkError, SinkView, WriteEvent};
use crate::source::{after_stream_poll, given_out, poll_action, SourceAction, StreamEvent};
use crate::writer::{after_drain_poll, DrainAction};

verus! {

/// Byte strings one behind another.
pub open spec fn joined_bytes(parts: Seq<Seq<u8>>) -> Seq<u8>
    decreases parts.len(),
{
    if parts.len() == 0 {
        Seq::empty()
    } else {
        parts[0] + joined_bytes(parts.skip(1))
    }
}

/// The chunks that a stream delivers before it ends or fails.
pub open spec fn delivered<E>(events: Seq<StreamEvent<E>>) -> Seq<Seq<u8>>
    decreases events.len(),
{
    if events.len() == 0 {
        Seq::empty()
    } else {
        match events[0] {
            StreamEvent::Chunk(v) => seq![v@] + delivered(events.skip(1)),
            StreamEvent::Pending => delivered(events.skip(1)),
            StreamEvent::End | StreamEvent::Failed(_) => Seq::empty(),
        }
    }
}

/// The chunks that a source gives out while it is told of these events, until
/// it is done.
pub open spec fn yielded<E>(events: Seq<StreamEvent<E>>) -> Seq<Seq<u8>>
    decreases events.len(),
{
    if events.len() == 0 {
        Seq::empty()
    } else {
        let (done, action) = after_stream_poll(events[0]);
        let now = match action {
            SourceAction::Yield(v) => seq![v@],
            _ => Seq::empty(),
        };
        if done {
            now
        } else {
            now + yielded(events.skip(1))
        }
    }
}

/// A source gives out what its stream delivers: together the same bytes, and
/// no empty chunk.
pub proof fn sources_give_out_what_is_delivered<E>(events: Seq<StreamEvent<E>>)
    ensures
        joined_bytes(yielded(events)) == joined_bytes(delivered(events)),
        forall|k: int| 0 <= k < yielded(events).len() ==> (#[trigger] yielded(events)[k]).len() > 0,
        yielded(events).len() <= delivered(events).len(),
    decreases events.len(),
{
    if events.len() > 0 {
        let rest = events.skip(1);
        sources_give_out_what_is_delivered(rest);
        let none = Seq::<Seq<u8>>::empty();
        assert(none + yielded(rest) =~= yielded(rest));
        match events[0] {
            StreamEvent::Chunk(v) => {
                let (y, d) = (seq![v@] + yielded(rest), seq![v@] + delivered(rest));
                assert(y.skip(1) =~= yielded(rest));
                assert(d.skip(1) =~= delivered(rest));
                assert(joined_bytes(d) == v@ + joined_bytes(delivered(rest)));
                if v@.len() == 0 {
                    assert(v@ + joined_bytes(delivered(rest)) =~= joined_bytes(delivered(rest)));
                } else {
                    assert(yielded(events) == y);
                }
            },
            _ => {},
        }
    }
}

/// What a source says of an event: it gives out a chunk as it came, but for an
/// empty one, hands an error on as it came, ends with its stream, waits with
/// it, and after an error or the end there is nothing more.
pub proof fn sources_end_with_their_streams<E>(event: StreamEvent<E>)
    ensures
        poll_action::<E>(true) == SourceAction::<E>::End,
        poll_action::<E>(false) == SourceAction::<E>::Poll,
        after_stream_poll(event).0 <==> event is End || event is Failed,
        after_stream_poll(event).1 == SourceAction::<E>::End <==> event is End,
        after_stream_poll(event).1 == SourceAction::<E>::Wait <==> event is Pending,
        event matches StreamEvent::Failed(e) ==> after_stream_poll(event).1
            == SourceAction::Fail(e),
        event matches StreamEvent::Chunk(v) ==> after_stream_poll(event).1 == if v@.len() > 0 {
            SourceAction::Yield(v)
        } else {
            SourceAction::<E>::Poll
        },
{
}

/// What has been drained after these events.
pub open spec fn drained_after<E>(held: Seq<u8>, events: Seq<StreamEvent<E>>) -> Seq<u8>
    decreases events.len(),
{
    if events.len() == 0 {
        held
    } else {
        let (now, action) = after_drain_poll(held, events[0]);
        match action {
            DrainAction::Poll | DrainAction::Wait => drained_after(now, events.skip(1)),
            _ => now,
        }
    }
}

/// Draining a stream collects what it delivers.
pub proof fn draining_collects_what_is_delivered<E>(held: Seq<u8>, events: Seq<StreamEvent<E>>)
    ensures
        drained_after(held, events) == held + joined_bytes(delivered(events)),
    decreases events.len(),
{
    if events.len() > 0 {
        let rest = events.skip(1);
        match events[0] {
            StreamEvent::Chunk(v) => {
                draining_collects_what_is_delivered(held + v@, rest);
                let d = seq![v@] + delivered(rest);
                assert(d.skip(1) =~= delivered(rest));
                assert(held + v@ + joined_bytes(delivered(rest)) =~= held + (v@ + joined_bytes(
                    delivered(rest),
                )));
            },
            StreamEvent::Pending => {
                draining_collects_what_is_delivered(held, rest);
            },
            _ => {
                assert(held + Seq::<u8>::empty() =~= held);
            },
        }
    } else {
        assert(held + Seq::<u8>::empty() =~= held);
    }
}

/// Draining is done with the end of the stream, fails as the stream fails, and
/// goes on otherwise.
pub proof fn draining_ends_with_the_stream<E>(held: Seq<u8>, event: StreamEvent<E>)
    ensures
        after_drain_poll(held, event).1 == DrainAction::<E>::Done <==> event is End,
        after_drain_poll(held, event).1 == DrainAction::<E>::Wait <==> event is Pending,
        after_drain_poll(held, event).1 == DrainAction::<E>::Poll <==> event is Chunk,
        event matches StreamEvent::Failed(e) ==> after_drain_poll(held, event).1
            == DrainAction::Fail(e),
{
}

/// A read that filled in something is given out as it is, and an empty one is
/// the end.
pub proof fn reads_are_given_out(filled: Seq<u8>)
    ensures
        filled.len() == 0 <==> given_out(filled) is None,
        given_out(filled) matches Some(c) ==> c == filled,
{
}

/// A poisoned sink stays as it is and answers everything with its error.
pub proof fn poisoned_sinks_stay_poisoned(s: SinkView, item: Seq<u8>, e: SinkError)
    requires
        s.error == Some(e),
    ensures
        ready_action(s) == ReadyAction::Fail(e),
        after_send(s, item).0 == s,
        after_send(s, item).1 == Err::<(), SinkError>(e),
        after_flush_poll(s).0 == s,
        after_flush_poll(s).1 == FlushAction::Fail(e),
        after_close_poll(s).0 == s,
        after_close_poll(s).1 == CloseAction::Fail(e),
{
}

/// A sink takes an item when it has none, and has the whole item to write.
pub proof fn sinks_take_one_item_at_a_time(s: SinkView, item: Seq<u8>)
    requires
        s.error is None,
    ensures
        ready_action(s) == ReadyAction::Ready <==> !s.staged,
        ready_action(s) == ReadyAction::Flush <==> s.staged,
        after_send(s, item).1 is Ok,
        after_send(s, item).0.staged,
        after_send(s, item).0.unsent == item,
        after_send(s, item).0.error is None,
{
}

/// A sink is flushed when nothing is unsent, and only shuts its writer down
/// when it is flushed; until it is, it writes.
pub proof fn sinks_flush_before_they_close(s: SinkView)
    requires
        s.error is None,
    ensures
        after_flush_poll(s).1 == FlushAction::Done <==> s.unsent.len() == 0,
        after_flush_poll(s).1 == FlushAction::Write <==> s.unsent.len() > 0,
        after_close_poll(s).1 == CloseAction::Shutdown <==> s.unsent.len() == 0,
        after_close_poll(s).1 == CloseAction::Write <==> s.unsent.len() > 0,
        after_flush_poll(s).0.unsent == s.unsent,
        after_close_poll(s).0.unsent == s.unsent,
        after_flush_poll(s).0.error is None,
        after_close_poll(s).0.error is None,
        after_flush_poll(s).0.staged == (s.unsent.len() > 0),
        after_close_poll(s).0.staged == (s.unsent.len() > 0),
{
}

/// What a writer has taken is no longer unsent, and the rest still is. The item
/// is done when nothing is unsent. A writer that takes nothing or fails poisons
/// the sink, and one that is not ready changes nothing.
pub proof fn sinks_keep_what_was_not_taken(s: SinkView, event: WriteEvent)
    requires
        s.error is None,
        s.staged,
        s.unsent.len() > 0,
    ensures
        ({
            let (t, action) = after_write_event(s, event);
            match event {
                WriteEvent::Wrote(n) => {
                    let taken = if n < s.unsent.len() {
                        n as int
                    } else {
                        s.unsent.len() as int
                    };
                    if n == 0 {
                        t.error == Some(SinkError::WriteZero) && t.unsent == s.unsent && t.staged
                            && action == FlushAction::Fail(SinkError::WriteZero)
                    } else {
                        &&& s.unsent.take(taken) + t.unsent == s.unsent
                        &&& t.error is None
                        &&& t.staged == (t.unsent.len() > 0)
                        &&& action == FlushAction::Done <==> t.unsent.len() == 0
                        &&& action == FlushAction::Write <==> t.unsent.len() > 0
                    }
                },
                WriteEvent::Failed(kind, text) => {
                    &&& t.error == Some(SinkError::Writer(kind, text))
                    &&& t.unsent == s.unsent && t.staged
                    &&& action == FlushAction::Fail(SinkError::Writer(kind, text))
                },
                WriteEvent::Pending => t == s && action == FlushAction::Wait,
            }
        }),
{
    if let WriteEvent::Wrote(n) = event {
        if 0 < n < s.unsent.len() {
            assert(s.unsent.take(n as int) + s.unsent.skip(n as int) =~= s.unsent);
        } else if n > 0 {
            assert(s.unsent.take(s.unsent.len() as int) + Seq::<u8>::empty() =~= s.unsent);
        }
    }
}

/// A sink is closed when its writer is shut down; a failed shutdown poisons it.
pub proof fn sinks_close_with_their_writers(s: SinkView, event: ShutdownEvent)
    requires
        s.error is None,
    ensures
        ({
            let (t, action) = after_shutdown(s, event);
            &&& t.unsent == s.unsent && t.staged == s.staged
            &&& action == CloseAction::Done <==> event is Done
            &&& action == CloseAction::Wait <==> event is Pending
            &&& t.error is None <==> !(event is Failed)
            &&& event matches ShutdownEvent::Failed(kind, text) ==> t.error == Some(
                SinkError::Writer(kind, text),
            ) && action == CloseAction::Fail(SinkError::Writer(kind, text))
        }),
{
}

} // verus!
