//! Byte sources for file content: what they decide about each event of the
//! stream or reader that they stand on. The caller performs the polls and
//! reports how they went.

use vstd::prelude::*;

use crate::bytes::zeros;
use crate::image::concat;

verus! {

/// What a poll of the underlying stream gave.
pub enum StreamEvent<E> {
    Chunk(Vec<u8>),
    Failed(E),
    End,
    Pending,
}

/// What a poll of the underlying reader gave: how much of the buffer it
/// filled, or why it did not.
pub enum ReadEvent<E> {
    Filled(usize),
    Failed(E),
    Pending,
}

/// What a source does next.
pub enum SourceAction<E> {
    /// Poll the underlying stream.
    Poll,
    /// Give out a chunk, which is not empty.
    Yield(Vec<u8>),
    /// Give out an error.
    Fail(E),
    /// There is nothing more.
    End,
    /// Nothing until the underlying stream can go on.
    Wait,
}

/// What a source does when it is polled: nothing comes after the end.
pub open spec fn poll_action<E>(done: bool) -> SourceAction<E> {
    if done {
        SourceAction::End
    } else {
        SourceAction::Poll
    }
}

/// Whether a source is done after its stream has been polled, and what it does
/// next.
pub open spec fn after_stream_poll<E>(event: StreamEvent<E>) -> (bool, SourceAction<E>) {
    match event {
        StreamEvent::Chunk(v) => (
            false,
            if v@.len() == 0 {
                SourceAction::Poll
            } else {
                SourceAction::Yield(v)
            },
        ),
        StreamEvent::Failed(e) => (true, SourceAction::Fail(e)),
        StreamEvent::End => (true, SourceAction::End),
        StreamEvent::Pending => (false, SourceAction::Wait),
    }
}

/// A source that passes on the chunks of a stream, without the empty ones,
/// until the stream ends or fails.
pub struct StreamSource<S> {
    inner: S,
    done: bool,
}

impl<S> StreamSource<S> {
    /// The underlying stream.
    pub closed spec fn inner(&self) -> S {
        self.inner
    }

    /// Whether the stream has ended or failed.
    pub closed spec fn done(&self) -> bool {
        self.done
    }

    pub fn new(inner: S) -> (s: Self)
        ensures
            s.inner() == inner,
            !s.done(),
    {
        StreamSource { inner, done: false }
    }

    /// The underlying stream, for polling.
    pub fn inner_mut(&mut self) -> (r: &mut S)
        ensures
            *r == old(self).inner(),
            final(self).inner() == *final(r),
            final(self).done() == old(self).done(),
    {
        &mut self.inner
    }

    /// What to do when the source is polled: nothing comes after the end.
    pub fn poll_next<E>(&self) -> (r: SourceAction<E>)
        ensures
            r == poll_action::<E>(self.done()),
            r == if self.done() {
                SourceAction::<E>::End
            } else {
                SourceAction::<E>::Poll
            },
    {
        if self.done {
            SourceAction::End
        } else {
            SourceAction::Poll
        }
    }

    /// Takes in what a poll of the underlying stream gave.
    pub fn polled<E>(&mut self, event: StreamEvent<E>) -> (r: SourceAction<E>)
        requires
            !old(self).done(),
        ensures
            final(self).inner() == old(self).inner(),
            (final(self).done(), r) == after_stream_poll(event),
            match event {
                StreamEvent::Chunk(v) => !final(self).done() && r == if v@.len() == 0 {
                    SourceAction::<E>::Poll
                } else {
                    SourceAction::Yield(v)
                },
                StreamEvent::Failed(e) => final(self).done() && r == SourceAction::Fail(e),
                StreamEvent::End => final(self).done() && r == SourceAction::<E>::End,
                StreamEvent::Pending => !final(self).done() && r == SourceAction::<E>::Wait,
            },
    {
        match event {
            StreamEvent::Chunk(v) => if v.len() == 0 {
                SourceAction::Poll
            } else {
                SourceAction::Yield(v)
            },
            StreamEvent::Failed(e) => {
                self.done = true;
                SourceAction::Fail(e)
            },
            StreamEvent::End => {
                self.done = true;
                SourceAction::End
            },
            StreamEvent::Pending => SourceAction::Wait,
        }
    }
}

impl<S> From<S> for StreamSource<S> {
    fn from(inner: S) -> (s: Self) {
        StreamSource::new(inner)
    }
}

impl<S> vstd::std_specs::convert::FromSpecImpl<S> for StreamSource<S> {
    open spec fn obeys_from_spec() -> bool {
        true
    }

    closed spec fn from_spec(inner: S) -> Self {
        StreamSource { inner, done: false }
    }
}

/// A source that is made from a stream is a new source over it.
pub proof fn made_from_a_stream<S>(inner: S)
    ensures
        <StreamSource<S> as vstd::std_specs::convert::FromSpec<S>>::from_spec(inner).inner()
            == inner,
        !<StreamSource<S> as vstd::std_specs::convert::FromSpec<S>>::from_spec(inner).done(),
{
}

/// The size of the buffer that a reader is read into.
pub const READ_BUFFER: usize = 131072;

/// What is passed on of a number of reads, each given by what it filled in:
/// each as it is, up to the first that filled in nothing.
pub open spec fn passed_on(reads: Seq<Seq<u8>>) -> Seq<Seq<u8>>
    decreases reads.len(),
{
    if reads.len() == 0 || reads[0].len() == 0 {
        Seq::empty()
    } else {
        seq![reads[0]] + passed_on(reads.skip(1))
    }
}

/// What a source gives out for a read that filled in `filled`: nothing for an
/// empty one, which is the end.
pub open spec fn given_out(filled: Seq<u8>) -> Option<Seq<u8>> {
    if filled.len() == 0 {
        None
    } else {
        Some(filled)
    }
}

/// While no read is empty, every chunk is what one read filled in, in order,
/// so the chunks make up what the reader delivered. An empty read ends them.
pub proof fn reads_pass_unchanged(reads: Seq<Seq<u8>>, n: int)
    requires
        0 <= n <= reads.len(),
        forall|i: int| 0 <= i < n ==> #[trigger] given_out(reads[i]) is Some,
        n < reads.len() ==> given_out(reads[n]) is None,
    ensures
        passed_on(reads) == reads.take(n),
        forall|i: int|
            0 <= i < n ==> given_out(#[trigger] reads[i]) == Some(passed_on(reads)[i]),
        concat(passed_on(reads)) == concat(reads.take(n)),
    decreases n,
{
    if n > 0 {
        assert(given_out(reads[0]) is Some);
        let rest = reads.skip(1);
        assert forall|i: int| 0 <= i < n - 1 implies #[trigger] given_out(rest[i]) is Some by {
            assert(given_out(reads[i + 1]) is Some);
        }
        reads_pass_unchanged(rest, n - 1);
        assert(seq![reads[0]] + rest.take(n - 1) =~= reads.take(n));
    } else {
        assert(reads.take(0) =~= Seq::empty());
    }
}

/// A source that reads sequentially from a reader.
pub struct AsyncReadSource<R> {
    inner: R,
    buf: Box<[u8; READ_BUFFER]>,
}

impl<R> AsyncReadSource<R> {
    /// The underlying reader.
    pub closed spec fn inner(&self) -> R {
        self.inner
    }

    /// The buffer that the reader fills.
    pub closed spec fn buffer(&self) -> Seq<u8> {
        self.buf@
    }

    /// The buffer keeps its size.
    pub proof fn lemma_buffer_len(&self)
        ensures
            self.buffer().len() == READ_BUFFER,
            self.buffer().len() == 131072,
    {
    }

    pub fn new(inner: R) -> (s: Self)
        ensures
            s.inner() == inner,
            s.buffer() == zeros(READ_BUFFER as int),
    {
        let buf: Box<[u8; READ_BUFFER]> = Box::new([0u8; READ_BUFFER]);
        assert(buf@ =~= zeros(READ_BUFFER as int));
        AsyncReadSource { inner, buf }
    }

    /// The underlying reader and the buffer, for reading.
    pub fn parts_mut(&mut self) -> (r: (&mut R, &mut [u8; READ_BUFFER]))
        ensures
            *r.0 == old(self).inner(),
            r.1@ == old(self).buffer(),
            final(self).inner() == *final(r.0),
            final(self).buffer() == final(r.1)@,
    {
        (&mut self.inner, &mut *self.buf)
    }

    /// Takes in what a read gave: an empty read is the end.
    pub fn polled<E>(&self, event: ReadEvent<E>) -> (r: SourceAction<E>)
        requires
            event matches ReadEvent::Filled(n) ==> n <= READ_BUFFER,
        ensures
            match event {
                ReadEvent::Filled(n) => match given_out(self.buffer().take(n as int)) {
                    Some(chunk) => {
                        &&& r matches SourceAction::Yield(v)
                        &&& v@ == chunk
                        &&& 1 <= v@.len() <= READ_BUFFER
                    },
                    None => r == SourceAction::<E>::End,
                },
                ReadEvent::Failed(e) => r == SourceAction::Fail(e),
                ReadEvent::Pending => r == SourceAction::<E>::Wait,
            },
    {
        match event {
            ReadEvent::Filled(n) => if n == 0 {
                SourceAction::End
            } else {
                assert(self.buffer().subrange(0, n as int) =~= self.buffer().take(n as int));
                SourceAction::Yield(
                    vstd::slice::slice_to_vec(
                        vstd::slice::slice_subrange(self.buf.as_slice(), 0, n),
                    ),
                )
            },
            ReadEvent::Failed(e) => SourceAction::Fail(e),
            ReadEvent::Pending => SourceAction::Wait,
        }
    }
}

} // verus!
