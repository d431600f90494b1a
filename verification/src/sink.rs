//! Output side of the writer: the image is emitted, region by region in
//! order, as items of a sink.
//!
//! [`AsyncWriteSink`] is what such a sink over a byte writer decides; the
//! caller performs the writes and reports how they went.

use vstd::prelude::*;

verus! {

/// The class of an I/O error, carried through as it came.
#[verifier::external_type_specification]
#[verifier::external_body]
pub struct ExErrorKind(std::io::ErrorKind);

/// Why a sink failed.
pub enum SinkError {
    /// The writer took no byte of an item.
    WriteZero,
    /// What the writer reported: its error's kind and text.
    Writer(std::io::ErrorKind, String),
}

impl SinkError {
    /// The same error once more.
    fn copied(&self) -> (e: SinkError)
        ensures
            e == *self,
    {
        match self {
            SinkError::WriteZero => SinkError::WriteZero,
            SinkError::Writer(kind, text) => SinkError::Writer(*kind, text.clone()),
        }
    }
}

/// How an attempt to write went.
pub enum WriteEvent {
    Wrote(usize),
    Failed(std::io::ErrorKind, String),
    Pending,
}

/// How an attempt to shut the writer down went.
pub enum ShutdownEvent {
    Done,
    Failed(std::io::ErrorKind, String),
    Pending,
}

/// What a sink does when it is asked whether it can take an item.
pub enum ReadyAction {
    Ready,
    /// Flush the item it still has; it is ready when that is done.
    Flush,
    Fail(SinkError),
}

/// What a sink does next to get its item out.
pub enum FlushAction {
    /// Write what is unsent of the item.
    Write,
    Done,
    /// Nothing until the writer can go on.
    Wait,
    Fail(SinkError),
}

/// What a sink does next to come to its end.
pub enum CloseAction {
    /// Write what is unsent of the item.
    Write,
    /// Shut the writer down.
    Shutdown,
    Done,
    /// Nothing until the writer can go on.
    Wait,
    Fail(SinkError),
}

/// What is unsent after the writer has taken `n` bytes.
pub open spec fn after_write(unsent: Seq<u8>, n: int) -> Seq<u8> {
    if n < unsent.len() {
        unsent.skip(n)
    } else {
        Seq::empty()
    }
}

/// What is unsent of an item after a number of writes.
pub open spec fn after_writes(item: Seq<u8>, counts: Seq<int>) -> Seq<u8>
    decreases counts.len(),
{
    if counts.len() == 0 {
        item
    } else {
        after_write(after_writes(item, counts.drop_last()), counts.last())
    }
}

/// What the writer has taken of an item in a number of writes, each of which
/// was offered what was unsent.
pub open spec fn landed(item: Seq<u8>, counts: Seq<int>) -> Seq<u8>
    decreases counts.len(),
{
    if counts.len() == 0 {
        Seq::empty()
    } else {
        let unsent = after_writes(item, counts.drop_last());
        landed(item, counts.drop_last()) + if counts.last() < unsent.len() {
            unsent.take(counts.last())
        } else {
            unsent
        }
    }
}

/// Partial writes lose and repeat nothing: what has landed and what is unsent
/// make up the item, so when nothing is unsent the item has landed whole.
pub proof fn items_land_whole(item: Seq<u8>, counts: Seq<int>)
    requires
        forall|i: int| 0 <= i < counts.len() ==> 0 <= #[trigger] counts[i],
    ensures
        landed(item, counts) + after_writes(item, counts) == item,
        after_writes(item, counts).len() == 0 ==> landed(item, counts) == item,
    decreases counts.len(),
{
    if counts.len() > 0 {
        let front = counts.drop_last();
        let n = counts.last();
        assert(n == counts[counts.len() - 1]);
        assert forall|i: int| 0 <= i < front.len() implies 0 <= #[trigger] front[i] by {
            assert(front[i] == counts[i]);
        }
        items_land_whole(item, front);
        let unsent = after_writes(item, front);
        let piece = if n < unsent.len() {
            unsent.take(n)
        } else {
            unsent
        };
        assert(piece + after_write(unsent, n) =~= unsent);
        assert(landed(item, front) + piece + after_write(unsent, n) =~= landed(item, front) + (piece
            + after_write(unsent, n)));
    }
    assert(landed(item, counts) + Seq::<u8>::empty() =~= landed(item, counts));
    if after_writes(item, counts).len() == 0 {
        assert(after_writes(item, counts) =~= Seq::<u8>::empty());
    }
}

/// The mathematical value of a sink.
#[verifier::ext_equal]
pub struct SinkView {
    /// Whether an item is staged.
    pub staged: bool,
    /// What is still to be written of it.
    pub unsent: Seq<u8>,
    /// The error that poisons the sink.
    pub error: Option<SinkError>,
}

/// Whether a sink can take an item.
pub open spec fn ready_action(s: SinkView) -> ReadyAction {
    match s.error {
        Some(e) => ReadyAction::Fail(e),
        None => if s.staged {
            ReadyAction::Flush
        } else {
            ReadyAction::Ready
        },
    }
}

/// A sink after it has been given an item, and what it says to that.
pub open spec fn after_send(s: SinkView, item: Seq<u8>) -> (SinkView, Result<(), SinkError>) {
    match s.error {
        Some(e) => (s, Err(e)),
        None => (SinkView { staged: true, unsent: item, error: None }, Ok(())),
    }
}

/// A sink after it has been asked to flush, and what it does next.
pub open spec fn after_flush_poll(s: SinkView) -> (SinkView, FlushAction) {
    match s.error {
        Some(e) => (s, FlushAction::Fail(e)),
        None => if s.unsent.len() == 0 {
            (SinkView { staged: false, ..s }, FlushAction::Done)
        } else {
            (SinkView { staged: true, ..s }, FlushAction::Write)
        },
    }
}

/// A sink after an attempt to write, and what it does next.
pub open spec fn after_write_event(s: SinkView, event: WriteEvent) -> (SinkView, FlushAction) {
    match event {
        WriteEvent::Wrote(n) => if n == 0 {
            (
                SinkView { staged: true, error: Some(SinkError::WriteZero), ..s },
                FlushAction::Fail(SinkError::WriteZero),
            )
        } else if n < s.unsent.len() {
            (
                SinkView { staged: true, unsent: after_write(s.unsent, n as int), error: None },
                FlushAction::Write,
            )
        } else {
            (
                SinkView { staged: false, unsent: after_write(s.unsent, n as int), error: None },
                FlushAction::Done,
            )
        },
        WriteEvent::Failed(kind, text) => (
            SinkView { staged: true, error: Some(SinkError::Writer(kind, text)), ..s },
            FlushAction::Fail(SinkError::Writer(kind, text)),
        ),
        WriteEvent::Pending => (SinkView { staged: true, error: None, ..s }, FlushAction::Wait),
    }
}

/// A sink after it has been asked to close, and what it does next.
pub open spec fn after_close_poll(s: SinkView) -> (SinkView, CloseAction) {
    match s.error {
        Some(e) => (s, CloseAction::Fail(e)),
        None => if s.unsent.len() == 0 {
            (SinkView { staged: false, ..s }, CloseAction::Shutdown)
        } else {
            (SinkView { staged: true, ..s }, CloseAction::Write)
        },
    }
}

/// A sink after an attempt to shut the writer down, and what it does next.
pub open spec fn after_shutdown(s: SinkView, event: ShutdownEvent) -> (SinkView, CloseAction) {
    match event {
        ShutdownEvent::Done => (SinkView { error: None, ..s }, CloseAction::Done),
        ShutdownEvent::Pending => (SinkView { error: None, ..s }, CloseAction::Wait),
        ShutdownEvent::Failed(kind, text) => (
            SinkView { error: Some(SinkError::Writer(kind, text)), ..s },
            CloseAction::Fail(SinkError::Writer(kind, text)),
        ),
    }
}

/// A sink over a byte writer.
///
/// `start_send` only stages the item; flushing and closing write it out,
/// until the whole item has landed, partial writes counted. After an error
/// the sink stays poisoned.
pub struct AsyncWriteSink<W> {
    inner: W,
    pending: Option<Vec<u8>>,
    written: usize,
    err: Option<SinkError>,
}

impl<W> AsyncWriteSink<W> {
    /// The writer.
    pub closed spec fn inner(&self) -> W {
        self.inner
    }

    /// Whether an item is staged.
    pub closed spec fn staged(&self) -> bool {
        self.pending is Some
    }

    /// What is still to be written of the staged item.
    pub closed spec fn unsent(&self) -> Seq<u8> {
        match self.pending {
            Some(item) => item@.skip(self.written as int),
            None => Seq::empty(),
        }
    }

    /// The error that poisons the sink.
    pub closed spec fn error(&self) -> Option<SinkError> {
        self.err
    }

    /// What the sink has.
    pub open spec fn state(&self) -> SinkView {
        SinkView { staged: self.staged(), unsent: self.unsent(), error: self.error() }
    }

    /// No more of the item is counted as written than it has.
    pub closed spec fn wf(&self) -> bool {
        match self.pending {
            Some(item) => self.written <= item@.len(),
            None => true,
        }
    }

    pub fn new(inner: W) -> (s: Self)
        ensures
            s.wf(),
            s.inner() == inner,
            !s.staged(),
            s.unsent() == Seq::<u8>::empty(),
            s.state() == (SinkView { staged: false, unsent: Seq::empty(), error: None }),
            s.error() is None,
    {
        AsyncWriteSink { inner, pending: None, written: 0, err: None }
    }

    /// Marks the sink as failed. Returns the error.
    fn poison(&mut self, e: SinkError) -> (r: SinkError)
        requires
            old(self).wf(),
        ensures
            final(self).wf(),
            final(self).error() == Some(e),
            r == e,
            final(self).inner() == old(self).inner(),
            final(self).staged() == old(self).staged(),
            final(self).unsent() == old(self).unsent(),
    {
        self.err = Some(e.copied());
        e
    }

    /// The error that poisons the sink.
    pub fn poisoned(&self) -> (r: Option<SinkError>)
        ensures
            r == self.error(),
    {
        match &self.err {
            Some(e) => Some(e.copied()),
            None => None,
        }
    }

    /// Whether the sink can take an item.
    pub fn poll_ready(&self) -> (r: ReadyAction)
        requires
            self.wf(),
        ensures
            r == ready_action(self.state()),
            r == match self.error() {
                Some(e) => ReadyAction::Fail(e),
                None => if self.staged() {
                    ReadyAction::Flush
                } else {
                    ReadyAction::Ready
                },
            },
    {
        match self.poisoned() {
            Some(e) => ReadyAction::Fail(e),
            None => if self.pending.is_some() {
                ReadyAction::Flush
            } else {
                ReadyAction::Ready
            },
        }
    }

    /// Stages an item, unless the sink is poisoned.
    pub fn start_send(&mut self, item: Vec<u8>) -> (r: Result<(), SinkError>)
        requires
            old(self).wf(),
        ensures
            final(self).wf(),
            final(self).state() == after_send(old(self).state(), item@).0,
            r == after_send(old(self).state(), item@).1,
            final(self).inner() == old(self).inner(),
            final(self).error() == old(self).error(),
            match old(self).error() {
                Some(e) => r == Err::<(), SinkError>(e) && final(self).staged() == old(self).staged()
                    && final(self).unsent() == old(self).unsent(),
                None => r == Ok::<(), SinkError>(()) && final(self).staged()
                    && final(self).unsent() == item@,
            },
    {
        match self.poisoned() {
            Some(e) => Err(e),
            None => {
                self.pending = Some(item);
                self.written = 0;
                assert(self.unsent() =~= item@);
                Ok(())
            },
        }
    }

    /// What to do next to get the staged item out. An item of which nothing
    /// is unsent is dropped.
    pub fn poll_flush(&mut self) -> (r: FlushAction)
        requires
            old(self).wf(),
        ensures
            final(self).wf(),
            final(self).state() == after_flush_poll(old(self).state()).0,
            r == after_flush_poll(old(self).state()).1,
            final(self).inner() == old(self).inner(),
            final(self).error() == old(self).error(),
            final(self).unsent() == old(self).unsent(),
            match old(self).error() {
                Some(e) => r == FlushAction::Fail(e) && final(self).staged() == old(self).staged(),
                None => if old(self).unsent().len() == 0 {
                    r == FlushAction::Done && !final(self).staged()
                } else {
                    r == FlushAction::Write && final(self).staged()
                },
            },
    {
        match self.poisoned() {
            Some(e) => FlushAction::Fail(e),
            None => {
                let done: bool = match &self.pending {
                    Some(item) => self.written >= item.len(),
                    None => true,
                };
                if done {
                    self.pending = None;
                    self.written = 0;
                    assert(self.unsent() =~= old(self).unsent());
                    FlushAction::Done
                } else {
                    FlushAction::Write
                }
            },
        }
    }

    /// The writer, and what is to be written to it next.
    pub fn next_write(&mut self) -> (r: (&mut W, &[u8]))
        requires
            old(self).wf(),
        ensures
            *r.0 == old(self).inner(),
            r.1@ == old(self).unsent(),
            final(self).inner() == *final(r.0),
            final(self).wf(),
            final(self).staged() == old(self).staged(),
            final(self).unsent() == old(self).unsent(),
            final(self).error() == old(self).error(),
    {
        let unsent: &[u8] = match &self.pending {
            Some(item) => vstd::slice::slice_subrange(item.as_slice(), self.written, item.len()),
            None => &[],
        };
        assert(unsent@ =~= self.unsent());
        (&mut self.inner, unsent)
    }

    /// Takes in how an attempt to write went. A writer that takes nothing
    /// fails the sink.
    pub fn wrote(&mut self, event: WriteEvent) -> (r: FlushAction)
        requires
            old(self).wf(),
            old(self).error() is None,
            old(self).unsent().len() > 0,
        ensures
            final(self).wf(),
            final(self).state() == after_write_event(old(self).state(), event).0,
            r == after_write_event(old(self).state(), event).1,
            final(self).inner() == old(self).inner(),
            match event {
                WriteEvent::Wrote(n) => if n == 0 {
                    &&& r == FlushAction::Fail(SinkError::WriteZero)
                    &&& final(self).error() == Some(SinkError::WriteZero)
                    &&& final(self).staged()
                    &&& final(self).unsent() == old(self).unsent()
                } else if n < old(self).unsent().len() {
                    &&& r == FlushAction::Write
                    &&& final(self).error() is None
                    &&& final(self).staged()
                    &&& final(self).unsent() == after_write(old(self).unsent(), n as int)
                } else {
                    &&& r == FlushAction::Done
                    &&& final(self).error() is None
                    &&& !final(self).staged()
                    &&& final(self).unsent() == after_write(old(self).unsent(), n as int)
                },
                WriteEvent::Failed(kind, text) => {
                    &&& r == FlushAction::Fail(SinkError::Writer(kind, text))
                    &&& final(self).error() == Some(SinkError::Writer(kind, text))
                    &&& final(self).staged()
                    &&& final(self).unsent() == old(self).unsent()
                },
                WriteEvent::Pending => {
                    &&& r == FlushAction::Wait
                    &&& final(self).error() is None
                    &&& final(self).staged()
                    &&& final(self).unsent() == old(self).unsent()
                },
            },
    {
        match event {
            WriteEvent::Wrote(n) => {
                if n == 0 {
                    let e: SinkError = self.poison(SinkError::WriteZero);
                    return FlushAction::Fail(e);
                }
                let total: usize = match &self.pending {
                    Some(item) => item.len(),
                    None => 0,
                };
                if n >= total - self.written {
                    self.pending = None;
                    self.written = 0;
                    FlushAction::Done
                } else {
                    self.written = self.written + n;
                    assert(self.unsent() =~= old(self).unsent().skip(n as int));
                    FlushAction::Write
                }
            },
            WriteEvent::Failed(kind, text) => {
                let e: SinkError = self.poison(SinkError::Writer(kind, text));
                FlushAction::Fail(e)
            },
            WriteEvent::Pending => FlushAction::Wait,
        }
    }

    /// What to do next to close the sink: flush it, and shut the writer down
    /// when that is done. How that goes is for [`AsyncWriteSink::shut_down`].
    pub fn poll_close(&mut self) -> (r: CloseAction)
        requires
            old(self).wf(),
        ensures
            final(self).wf(),
            final(self).state() == after_close_poll(old(self).state()).0,
            r == after_close_poll(old(self).state()).1,
            final(self).inner() == old(self).inner(),
            final(self).error() == old(self).error(),
            final(self).unsent() == old(self).unsent(),
            match old(self).error() {
                Some(e) => r == CloseAction::Fail(e) && final(self).staged() == old(self).staged(),
                None => if old(self).unsent().len() == 0 {
                    r == CloseAction::Shutdown && !final(self).staged()
                } else {
                    r == CloseAction::Write && final(self).staged()
                },
            },
    {
        match self.poll_flush() {
            FlushAction::Fail(e) => CloseAction::Fail(e),
            FlushAction::Done => CloseAction::Shutdown,
            _ => CloseAction::Write,
        }
    }

    /// Takes in how an attempt to shut the writer down went. A failed one
    /// fails the sink.
    pub fn shut_down(&mut self, event: ShutdownEvent) -> (r: CloseAction)
        requires
            old(self).wf(),
            old(self).error() is None,
            old(self).unsent().len() == 0,
        ensures
            final(self).wf(),
            final(self).state() == after_shutdown(old(self).state(), event).0,
            r == after_shutdown(old(self).state(), event).1,
            final(self).inner() == old(self).inner(),
            final(self).staged() == old(self).staged(),
            final(self).unsent() == old(self).unsent(),
            match event {
                ShutdownEvent::Done => r == CloseAction::Done && final(self).error() is None,
                ShutdownEvent::Pending => r == CloseAction::Wait && final(self).error() is None,
                ShutdownEvent::Failed(kind, text) => {
                    &&& r == CloseAction::Fail(SinkError::Writer(kind, text))
                    &&& final(self).error() == Some(SinkError::Writer(kind, text))
                },
            },
    {
        match event {
            ShutdownEvent::Done => CloseAction::Done,
            ShutdownEvent::Pending => CloseAction::Wait,
            ShutdownEvent::Failed(kind, text) => {
                let e: SinkError = self.poison(SinkError::Writer(kind, text));
                CloseAction::Fail(e)
            },
        }
    }
}

} // verus!
