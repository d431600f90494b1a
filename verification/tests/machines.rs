//! The sink and the sources, driven by hand.

use erofs_rs::sink::{
    CloseAction, FlushAction, ReadyAction, ShutdownEvent, SinkError, WriteEvent,
};
use erofs_rs::source::{ReadEvent, SourceAction, StreamEvent, READ_BUFFER};
use erofs_rs::{AsyncReadSource, AsyncWriteSink, StreamSource};

/// Flushes a sink over a `Vec<u8>` that takes at most `step` bytes at once.
fn flush(sink: &mut AsyncWriteSink<Vec<u8>>, step: usize) {
    let mut action = sink.poll_flush();
    loop {
        match action {
            FlushAction::Write => {
                let (w, unsent) = sink.next_write();
                let n = unsent.len().min(step);
                let part = unsent[..n].to_vec();
                w.extend(part);
                action = sink.wrote(WriteEvent::Wrote(n));
            }
            FlushAction::Done => return,
            FlushAction::Wait | FlushAction::Fail(_) => panic!("the writer takes everything"),
        }
    }
}

#[test]
fn items_land_whole_and_in_order() {
    let mut sink = AsyncWriteSink::new(Vec::new());
    for (item, step) in [(vec![1u8; 10], 3), (vec![], 1), (vec![2; 7], 7), (vec![3; 5], 100)] {
        assert!(matches!(sink.poll_ready(), ReadyAction::Ready));
        assert!(sink.start_send(item).is_ok());
        assert!(matches!(sink.poll_ready(), ReadyAction::Flush));
        flush(&mut sink, step);
    }
    let expected: Vec<u8> = [vec![1; 10], vec![2; 7], vec![3; 5]].concat();
    assert_eq!(*sink.next_write().0, expected);
    assert!(matches!(sink.poll_close(), CloseAction::Shutdown));
}

#[test]
fn a_pending_write_is_tried_again() {
    let mut sink = AsyncWriteSink::new(());
    assert!(sink.start_send(vec![1, 2, 3]).is_ok());
    assert!(matches!(sink.poll_flush(), FlushAction::Write));
    assert!(matches!(sink.wrote(WriteEvent::Wrote(1)), FlushAction::Write));
    assert!(matches!(sink.wrote(WriteEvent::Pending), FlushAction::Wait));
    assert_eq!(sink.next_write().1, [2, 3]);
    assert!(matches!(sink.poll_close(), CloseAction::Write));
    assert!(matches!(sink.wrote(WriteEvent::Wrote(2)), FlushAction::Done));
    assert!(matches!(sink.poll_close(), CloseAction::Shutdown));
}

#[test]
fn a_writer_that_takes_nothing_poisons_the_sink() {
    let mut sink = AsyncWriteSink::new(());
    assert!(sink.start_send(vec![1]).is_ok());
    assert!(sink.poisoned().is_none());
    assert!(matches!(
        sink.wrote(WriteEvent::Wrote(0)),
        FlushAction::Fail(SinkError::WriteZero)
    ));
    assert!(matches!(sink.poll_ready(), ReadyAction::Fail(SinkError::WriteZero)));
    assert!(matches!(sink.start_send(vec![2]), Err(SinkError::WriteZero)));
    assert!(matches!(sink.poll_flush(), FlushAction::Fail(SinkError::WriteZero)));
    assert!(matches!(sink.poll_close(), CloseAction::Fail(SinkError::WriteZero)));
}

#[test]
fn an_error_of_the_writer_stays() {
    let mut sink = AsyncWriteSink::new(());
    assert!(sink.start_send(vec![1]).is_ok());
    let failed = WriteEvent::Failed(std::io::ErrorKind::BrokenPipe, "gone".to_string());
    assert!(matches!(sink.wrote(failed), FlushAction::Fail(SinkError::Writer(_, _))));
    for _ in 0..2 {
        match sink.poisoned() {
            Some(SinkError::Writer(kind, text)) => {
                assert_eq!(kind, std::io::ErrorKind::BrokenPipe);
                assert_eq!(text, "gone");
            }
            _ => panic!("the sink is poisoned"),
        }
    }
}

#[test]
fn a_failed_shutdown_poisons_the_sink() {
    let mut sink = AsyncWriteSink::new(());
    assert!(matches!(sink.poll_close(), CloseAction::Shutdown));
    assert!(matches!(sink.shut_down(ShutdownEvent::Pending), CloseAction::Wait));
    assert!(matches!(sink.poll_ready(), ReadyAction::Ready));
    assert!(matches!(sink.poll_close(), CloseAction::Shutdown));
    let failed = ShutdownEvent::Failed(std::io::ErrorKind::TimedOut, "late".to_string());
    match sink.shut_down(failed) {
        CloseAction::Fail(SinkError::Writer(kind, text)) => {
            assert_eq!(kind, std::io::ErrorKind::TimedOut);
            assert_eq!(text, "late");
        }
        _ => panic!("the error is reported"),
    }
    assert!(matches!(sink.poll_ready(), ReadyAction::Fail(SinkError::Writer(_, _))));
    assert!(matches!(sink.start_send(vec![1]), Err(SinkError::Writer(_, _))));
    assert!(matches!(sink.poll_flush(), FlushAction::Fail(SinkError::Writer(_, _))));
    assert!(matches!(sink.poll_close(), CloseAction::Fail(SinkError::Writer(_, _))));
}

#[test]
fn a_shutdown_that_is_done_closes_the_sink() {
    let mut sink = AsyncWriteSink::new(());
    assert!(matches!(sink.poll_close(), CloseAction::Shutdown));
    assert!(matches!(sink.shut_down(ShutdownEvent::Done), CloseAction::Done));
    assert!(sink.poisoned().is_none());
}

#[test]
fn a_stream_source_skips_empty_chunks_and_stays_ended() {
    let mut s = StreamSource::from(7u32);
    assert_eq!(*s.inner_mut(), 7);
    assert!(matches!(s.poll_next::<i32>(), SourceAction::Poll));
    assert!(matches!(s.polled::<i32>(StreamEvent::Chunk(vec![])), SourceAction::Poll));
    match s.polled::<i32>(StreamEvent::Chunk(vec![1, 2])) {
        SourceAction::Yield(v) => assert_eq!(v, [1, 2]),
        _ => panic!("a chunk is passed on"),
    }
    assert!(matches!(s.polled::<i32>(StreamEvent::Pending), SourceAction::Wait));
    assert!(matches!(s.poll_next::<i32>(), SourceAction::Poll));
    assert!(matches!(s.polled::<i32>(StreamEvent::End), SourceAction::End));
    assert!(matches!(s.poll_next::<i32>(), SourceAction::End));
}

#[test]
fn a_stream_source_ends_after_an_error() {
    let mut s = StreamSource::new(());
    assert!(matches!(s.polled(StreamEvent::Failed(5)), SourceAction::Fail(5)));
    assert!(matches!(s.poll_next::<i32>(), SourceAction::End));
}

#[test]
fn a_read_source_passes_on_what_was_filled() {
    let mut s = AsyncReadSource::new("reader");
    {
        let (r, buf) = s.parts_mut();
        assert_eq!(*r, "reader");
        assert_eq!(buf.len(), READ_BUFFER);
        assert_eq!(buf.len(), 128 * 1024);
        buf[..3].copy_from_slice(b"abc");
    }
    match s.polled::<i32>(ReadEvent::Filled(2)) {
        SourceAction::Yield(v) => assert_eq!(v, b"ab"),
        _ => panic!("what was read is passed on"),
    }
    assert!(matches!(s.polled::<i32>(ReadEvent::Pending), SourceAction::Wait));
    assert!(matches!(s.polled(ReadEvent::Failed(3)), SourceAction::Fail(3)));
    assert!(matches!(s.polled::<i32>(ReadEvent::Filled(0)), SourceAction::End));
}

#[test]
fn reads_make_up_what_the_reader_delivered() {
    let data: Vec<u8> = (0..300_000u32).map(|i| (i % 253) as u8).collect();
    let mut s = AsyncReadSource::new(data.as_slice());
    let mut chunks: Vec<Vec<u8>> = Vec::new();
    loop {
        let n = {
            let (r, buf) = s.parts_mut();
            let n = r.len().min(buf.len());
            buf[..n].copy_from_slice(&r[..n]);
            *r = &r[n..];
            n
        };
        match s.polled::<i32>(ReadEvent::Filled(n)) {
            SourceAction::Yield(v) => chunks.push(v),
            SourceAction::End => break,
            _ => panic!("the reader never waits or fails"),
        }
    }
    let lens: Vec<usize> = chunks.iter().map(|c| c.len()).collect();
    assert_eq!(lens, [131_072, 131_072, 37_856]);
    assert_eq!(chunks.concat(), data);
}
