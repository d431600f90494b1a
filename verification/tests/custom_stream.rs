//! Any `futures_core::Stream<Item = io::Result<Vec<u8>>>` can be drained as
//! file content. This test hand-rolls one over a `Vec<u8>`, with no runtime,
//! and checks that the image matches what `add_bytes` produces for the same
//! data.

use std::io;
use std::pin::Pin;
use std::task::{Context, Poll, Waker};

use erofs_rs::layout::{EROFS_SUPER_MAGIC_V1, EROFS_SUPER_OFFSET};
use erofs_rs::source::StreamEvent;
use erofs_rs::writer::DrainAction;
use erofs_rs::{Builder, CreateOptions, Drain, InodeMeta};
use futures_core::Stream;
use futures_sink::Sink;

/// A hand-rolled `Stream` serving a `Vec<u8>` in fixed-size chunks.
struct VecStream {
    data: Vec<u8>,
    pos: usize,
}

impl VecStream {
    fn new(data: Vec<u8>) -> Self {
        Self { data, pos: 0 }
    }
}

impl Stream for VecStream {
    type Item = io::Result<Vec<u8>>;

    fn poll_next(mut self: Pin<&mut Self>, _cx: &mut Context<'_>) -> Poll<Option<Self::Item>> {
        let this = &mut *self;
        if this.pos >= this.data.len() {
            return Poll::Ready(None);
        }
        let end = (this.pos + 4096).min(this.data.len());
        let chunk = this.data[this.pos..end].to_vec();
        this.pos = end;
        Poll::Ready(Some(Ok(chunk)))
    }
}

/// A hand-rolled `Sink` collecting the image into a `Vec<u8>`.
struct VecSink(Vec<u8>);

impl Sink<Vec<u8>> for VecSink {
    type Error = io::Error;

    fn poll_ready(self: Pin<&mut Self>, _cx: &mut Context<'_>) -> Poll<Result<(), Self::Error>> {
        Poll::Ready(Ok(()))
    }

    fn start_send(mut self: Pin<&mut Self>, item: Vec<u8>) -> Result<(), Self::Error> {
        self.0.extend(item);
        Ok(())
    }

    fn poll_flush(self: Pin<&mut Self>, _cx: &mut Context<'_>) -> Poll<Result<(), Self::Error>> {
        Poll::Ready(Ok(()))
    }

    fn poll_close(self: Pin<&mut Self>, _cx: &mut Context<'_>) -> Poll<Result<(), Self::Error>> {
        Poll::Ready(Ok(()))
    }
}

fn drain(mut stream: VecStream) -> Vec<u8> {
    let mut cx = Context::from_waker(Waker::noop());
    let mut drain = Drain::new();
    loop {
        let event = match Pin::new(&mut stream).poll_next(&mut cx) {
            Poll::Ready(Some(Ok(chunk))) => StreamEvent::Chunk(chunk),
            Poll::Ready(Some(Err(e))) => StreamEvent::Failed(e),
            Poll::Ready(None) => StreamEvent::End,
            Poll::Pending => StreamEvent::Pending,
        };
        match drain.polled(event) {
            DrainAction::Done => return drain.into_bytes(),
            DrainAction::Fail(e) => panic!("stream failed: {e}"),
            DrainAction::Poll | DrainAction::Wait => {}
        }
    }
}

fn build(data: Vec<u8>, streamed: bool) -> Vec<u8> {
    let mut b = Builder::new(CreateOptions::default()).unwrap();
    if streamed {
        let ticket = b.add_file("/file.bin", InodeMeta::reg(0o644)).unwrap().unwrap();
        assert!(!b.can_finish());
        assert_eq!(b.next_stream(), Some(ticket));
        b.supply(ticket, drain(VecStream::new(data)));
    } else {
        b.add_bytes("/file.bin", InodeMeta::reg(0o644), data).unwrap();
    }
    assert_eq!(b.next_stream(), None);
    assert!(b.can_finish());
    let mut cx = Context::from_waker(Waker::noop());
    let mut sink = VecSink(Vec::new());
    for region in b.finish() {
        assert!(Pin::new(&mut sink).poll_ready(&mut cx).is_ready());
        Pin::new(&mut sink).start_send(region).unwrap();
        assert!(Pin::new(&mut sink).poll_flush(&mut cx).is_ready());
    }
    sink.0
}

#[test]
fn custom_vec_stream_matches_add_bytes() {
    let data: Vec<u8> = (0..100_000u32).map(|i| (i % 251) as u8).collect();
    let streamed = build(data.clone(), true);
    let inline = build(data.clone(), false);

    assert_eq!(streamed, inline, "streamed and inline images must match");

    assert!(streamed.len() > EROFS_SUPER_OFFSET + 4);
    let magic = EROFS_SUPER_MAGIC_V1.to_le_bytes();
    assert_eq!(
        &streamed[EROFS_SUPER_OFFSET..EROFS_SUPER_OFFSET + 4],
        &magic
    );
    assert_eq!(streamed.len() % 4096, 0);
    assert!(
        streamed.windows(4096).any(|w| w == &data[..4096]),
        "file data must appear verbatim in the image"
    );
}

#[test]
fn contents_may_come_in_any_order() {
    let build = |late: bool| {
        let mut b = Builder::new(CreateOptions::default()).unwrap();
        let first = b.add_file("/first", InodeMeta::reg(0o644)).unwrap().unwrap();
        if !late {
            b.supply(first, vec![1; 5000]);
        }
        let second = b.add_file("/dir/second", InodeMeta::reg(0o644)).unwrap().unwrap();
        b.add_bytes("/third", InodeMeta::reg(0o644), vec![3; 10]).unwrap();
        assert_eq!(b.next_stream(), Some(if late { first } else { second }));
        b.supply(second, vec![2; 20]);
        if late {
            b.supply(first, vec![1; 5000]);
        }
        assert_eq!(b.next_stream(), None);
        b.finish()
    };
    assert_eq!(build(true), build(false));
}

#[test]
fn streams_are_drained_in_emission_order() {
    let mut b = Builder::new(CreateOptions::default()).unwrap();
    b.mkdir("/d", InodeMeta::dir(0o755)).unwrap();
    let z = b.add_file("/z", InodeMeta::reg(0o644)).unwrap().unwrap();
    let inner = b.add_file("/d/inner", InodeMeta::reg(0o644)).unwrap().unwrap();
    assert!(z < inner);
    // The directory was added first, so what it holds is emitted first.
    assert_eq!(b.next_stream(), Some(inner));
    b.supply(inner, Vec::new());
    assert_eq!(b.next_stream(), Some(z));
    b.supply(z, Vec::new());
    assert_eq!(b.next_stream(), None);
}

#[test]
fn a_path_that_is_taken_wants_no_stream() {
    let mut b = Builder::new(CreateOptions::default()).unwrap();
    b.add_bytes("/f", InodeMeta::reg(0o644), vec![1]).unwrap();
    assert_eq!(b.add_file("/f", InodeMeta::reg(0o644)), Ok(None));
    assert_eq!(b.next_stream(), None);
}

#[test]
fn draining_collects_chunks_until_the_end() {
    let mut d = Drain::new();
    assert!(matches!(d.polled::<i32>(StreamEvent::Pending), DrainAction::Wait));
    assert!(matches!(d.polled::<i32>(StreamEvent::Chunk(vec![1, 2])), DrainAction::Poll));
    assert!(matches!(d.polled::<i32>(StreamEvent::Chunk(vec![])), DrainAction::Poll));
    assert!(matches!(d.polled::<i32>(StreamEvent::Chunk(vec![3])), DrainAction::Poll));
    assert!(matches!(d.polled(StreamEvent::Failed(7)), DrainAction::Fail(7)));
    assert!(matches!(d.polled::<i32>(StreamEvent::End), DrainAction::Done));
    assert_eq!(d.into_bytes(), vec![1, 2, 3]);
}

#[test]
fn which_files_are_streamed_makes_no_difference() {
    let first: Vec<u8> = (0..9000u32).map(|i| (i % 7) as u8).collect();
    let second = b"second".to_vec();
    let build = |streamed: bool, chunk: usize| -> Vec<u8> {
        let mut b = Builder::new(CreateOptions::default()).unwrap();
        let mut tickets = Vec::new();
        for (path, data) in [("/d/first", &first), ("/second", &second), ("/second", &first)] {
            if streamed {
                if let Some(t) = b.add_file(path, InodeMeta::reg(0o644)).unwrap() {
                    tickets.push((t, data.clone()));
                }
            } else {
                b.add_bytes(path, InodeMeta::reg(0o644), data.clone()).unwrap();
            }
            b.mkdir("/", InodeMeta::dir(0o711)).unwrap();
            assert!(b.mkdir("/d/first/x", InodeMeta::dir(0o755)).is_err());
        }
        for (t, data) in tickets.into_iter().rev() {
            let mut d = Drain::new();
            for c in data.chunks(chunk) {
                d.polled::<()>(StreamEvent::Chunk(c.to_vec()));
                d.polled::<()>(StreamEvent::Chunk(Vec::new()));
            }
            assert!(matches!(d.polled::<()>(StreamEvent::End), DrainAction::Done));
            b.supply(t, d.into_bytes());
        }
        assert!(b.can_finish());
        b.finish().concat()
    };
    let inline = build(false, 1);
    for chunk in [1, 7, 4096, 100_000] {
        assert_eq!(build(true, chunk), inline);
    }
}
