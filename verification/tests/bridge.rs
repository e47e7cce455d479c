use xml::io::{read_decision, write_decision, FAULT};
use xml::{read_memory, Document, IoError, IoErrorKind, ReadContext, Reader, WriteContext, Writer};

fn failure(kind: IoErrorKind, desc: &'static str) -> IoError {
    IoError { kind, desc, detail: None }
}

/// Hands out its bytes a few at a time and then answers as told.
struct Script<'a> {
    bytes: &'a [u8],
    pos: usize,
    step: usize,
    calls: usize,
    at_end: fn() -> Result<usize, IoError>,
}

impl<'a> Script<'a> {
    fn new(bytes: &'a [u8], step: usize, at_end: fn() -> Result<usize, IoError>) -> Script<'a> {
        Script { bytes, pos: 0, step, calls: 0, at_end }
    }
}

impl<'a> Reader for Script<'a> {
    fn read(&mut self, buf: &mut [u8]) -> Result<usize, IoError> {
        self.calls += 1;
        if self.pos == self.bytes.len() {
            return (self.at_end)();
        }
        let n = std::cmp::min(std::cmp::min(self.step, buf.len()), self.bytes.len() - self.pos);
        buf[..n].copy_from_slice(&self.bytes[self.pos..self.pos + n]);
        self.pos += n;
        Ok(n)
    }
}

fn end_of_file() -> Result<usize, IoError> {
    Err(failure(IoErrorKind::EndOfFile, "end of file"))
}

fn no_bytes() -> Result<usize, IoError> {
    Ok(0)
}

fn broken_pipe() -> Result<usize, IoError> {
    Err(IoError { kind: IoErrorKind::BrokenPipe, desc: "pipe", detail: Some("detail".to_string()) })
}

fn closed() -> Result<usize, IoError> {
    Err(failure(IoErrorKind::Closed, "closed"))
}

/// Takes writes until it has been called `fail_at` times, fails that call,
/// and fails its flush if told to.
struct Flaky {
    bytes: Vec<u8>,
    writes: usize,
    flushes: usize,
    fail_at: usize,
    fail_flush: bool,
}

impl Flaky {
    fn new(fail_at: usize, fail_flush: bool) -> Flaky {
        Flaky { bytes: Vec::new(), writes: 0, flushes: 0, fail_at, fail_flush }
    }
}

impl Writer for Flaky {
    fn write(&mut self, buf: &[u8]) -> Result<(), IoError> {
        self.writes += 1;
        if self.writes == self.fail_at {
            return Err(failure(IoErrorKind::ResourceUnavailable, "write failed"));
        }
        self.bytes.extend_from_slice(buf);
        Ok(())
    }

    fn flush(&mut self) -> Result<(), IoError> {
        self.flushes += 1;
        if self.fail_flush {
            return Err(failure(IoErrorKind::IoUnavailable, "flush failed"));
        }
        Ok(())
    }
}

fn large_document() -> Vec<u8> {
    let mut input = Vec::new();
    input.extend_from_slice(b"<r>");
    for i in 0..2000 {
        input.extend_from_slice(format!("<item n=\"{}\">text</item>", i).as_bytes());
    }
    input.extend_from_slice(b"</r>");
    input
}

#[test]
fn reading_in_small_steps() {
    let input = large_document();
    let mut reader = Script::new(&input, 7, end_of_file);
    let doc = Document::read(&mut reader).unwrap().unwrap();
    assert_eq!(doc.serialize(), read_memory(&input).unwrap().serialize());
    assert_eq!(reader.calls, (input.len() + 6) / 7 + 1);
}

#[test]
fn reading_in_large_steps() {
    let input = large_document();
    assert!(input.len() > 3 * 4000);
    let mut reader = Script::new(&input, usize::MAX, end_of_file);
    let doc = Document::read(&mut reader).unwrap().unwrap();
    assert_eq!(doc.serialize(), read_memory(&input).unwrap().serialize());
    assert_eq!(reader.calls, (input.len() + 3999) / 4000 + 1);
}

#[test]
fn zero_bytes_end_the_input() {
    let mut reader = Script::new(b"<a/>", 100, no_bytes);
    assert!(Document::read(&mut reader).unwrap().is_some());
    assert_eq!(reader.calls, 2);
    let mut reader = Script::new(b"<a>", 100, no_bytes);
    assert!(Document::read(&mut reader).unwrap().is_none());
}

#[test]
fn the_end_of_the_input_is_no_failure() {
    let mut reader = Script::new(b"<a/>", 1, end_of_file);
    assert!(Document::read(&mut reader).unwrap().is_some());
    let mut reader = Script::new(b"", 1, end_of_file);
    assert!(Document::read(&mut reader).unwrap().is_none());
    assert_eq!(reader.calls, 1);
}

#[test]
fn a_failure_of_the_reader_surfaces() {
    let mut reader = Script::new(b"<a/>", 2, broken_pipe);
    let err = Document::read(&mut reader).unwrap_err();
    assert_eq!(err.kind, IoErrorKind::BrokenPipe);
    assert_eq!(err.desc, "pipe");
    assert_eq!(err.detail, Some("detail".to_string()));
    assert_eq!(reader.calls, 3);
    let mut reader = Script::new(b"<a", 2, closed);
    let err = Document::read(&mut reader).unwrap_err();
    assert_eq!(err.kind, IoErrorKind::Closed);
    let mut reader = Script::new(b"", 2, closed);
    let err = Document::read(&mut reader).unwrap_err();
    assert_eq!(err.kind, IoErrorKind::Closed);
    assert_eq!(reader.calls, 1);
}

#[test]
fn read_io_hands_back_the_adapter() {
    let mut reader = Script::new(b"<a/>", 2, broken_pipe);
    let (ctx, doc) = Document::read_io(&mut reader);
    assert!(ctx.has_failed());
    assert!(doc.is_none());
    assert_eq!(ctx.finish(doc).unwrap_err().kind, IoErrorKind::BrokenPipe);
    let mut reader = Script::new(b"<a/>", 2, end_of_file);
    let (ctx, doc) = Document::read_io(&mut reader);
    assert!(!ctx.has_failed());
    assert!(doc.is_some());
    assert!(ctx.finish(doc).unwrap().is_some());
}

#[test]
fn a_reader_that_failed_is_not_called_again() {
    let mut reader = Script::new(b"", 1, broken_pipe);
    let mut ctx = ReadContext::new();
    assert!(!ctx.has_failed());
    let mut buf = vec![7u8; 16];
    assert_eq!(ctx.ioread(&mut reader, &mut buf), FAULT);
    assert!(ctx.has_failed());
    assert_eq!(reader.calls, 1);
    assert_eq!(ctx.ioread(&mut reader, &mut buf), FAULT);
    assert_eq!(ctx.ioread(&mut reader, &mut buf), FAULT);
    assert_eq!(reader.calls, 1);
    assert_eq!(buf, vec![7u8; 16]);
    assert_eq!(ctx.ioclose(), 0);
    let r: Result<Option<u8>, IoError> = ctx.finish(Some(1));
    assert_eq!(r.unwrap_err().kind, IoErrorKind::BrokenPipe);
}

#[test]
fn reading_through_the_adapter() {
    let mut reader = Script::new(b"hello", 3, end_of_file);
    let mut ctx = ReadContext::new();
    let mut buf = vec![0u8; 4];
    assert_eq!(ctx.ioread(&mut reader, &mut buf), 3);
    assert_eq!(&buf[..3], b"hel");
    assert_eq!(ctx.ioread(&mut reader, &mut buf), 2);
    assert_eq!(&buf[..2], b"lo");
    assert_eq!(ctx.ioread(&mut reader, &mut buf), 0);
    assert!(!ctx.has_failed());
    assert_eq!(ctx.ioread(&mut reader, &mut buf), 0);
    assert_eq!(reader.calls, 4);
    assert_eq!(ctx.ioclose(), 0);
    let r: Result<Option<u8>, IoError> = ctx.finish(None);
    assert!(r.unwrap().is_none());
}

#[test]
fn a_count_beyond_the_buffer_is_taken_as_a_full_buffer() {
    struct Liar;
    impl Reader for Liar {
        fn read(&mut self, _buf: &mut [u8]) -> Result<usize, IoError> {
            Ok(1000)
        }
    }
    let mut ctx = ReadContext::new();
    let mut buf = vec![0u8; 8];
    assert_eq!(ctx.ioread(&mut Liar, &mut buf), 8);
}

#[test]
fn deciding_on_a_read() {
    assert_eq!(read_decision(Ok(5), 10).0, 5);
    assert!(read_decision(Ok(5), 10).1.is_none());
    assert_eq!(read_decision(Ok(10), 10).0, 10);
    assert_eq!(read_decision(Ok(11), 10).0, 10);
    assert_eq!(read_decision(Ok(0), 10).0, 0);
    assert_eq!(read_decision(Ok(0), 0).0, 0);
    let (report, slot) = read_decision(Err(failure(IoErrorKind::EndOfFile, "eof")), 10);
    assert_eq!(report, 0);
    assert!(slot.is_none());
    let (report, slot) = read_decision(Err(failure(IoErrorKind::PermissionDenied, "no")), 10);
    assert_eq!(report, FAULT);
    assert_eq!(report, -1);
    let slot = slot.unwrap();
    assert_eq!(slot.kind, IoErrorKind::PermissionDenied);
    assert_eq!(slot.desc, "no");
}

#[test]
fn every_kind_of_failure_but_the_end_of_the_input_is_recorded() {
    let kinds = [
        IoErrorKind::PreviousIoError,
        IoErrorKind::OtherIoError,
        IoErrorKind::FileNotFound,
        IoErrorKind::PermissionDenied,
        IoErrorKind::ConnectionFailed,
        IoErrorKind::Closed,
        IoErrorKind::ConnectionRefused,
        IoErrorKind::ConnectionReset,
        IoErrorKind::ConnectionAborted,
        IoErrorKind::NotConnected,
        IoErrorKind::BrokenPipe,
        IoErrorKind::PathAlreadyExists,
        IoErrorKind::PathDoesntExist,
        IoErrorKind::MismatchedFileTypeForOperation,
        IoErrorKind::ResourceUnavailable,
        IoErrorKind::IoUnavailable,
        IoErrorKind::InvalidInput,
    ];
    for kind in kinds.iter() {
        let (report, slot) = read_decision(Err(failure(*kind, "x")), 4);
        assert_eq!(report, FAULT);
        assert_eq!(slot.unwrap().kind, *kind);
        let (report, slot) = write_decision(None, Err(failure(*kind, "x")), 4);
        assert_eq!(report, FAULT);
        assert_eq!(slot.unwrap().kind, *kind);
    }
    let (report, slot) = write_decision(None, Err(failure(IoErrorKind::EndOfFile, "x")), 4);
    assert_eq!(report, FAULT);
    assert_eq!(slot.unwrap().kind, IoErrorKind::EndOfFile);
}

#[test]
fn deciding_on_a_write() {
    let (report, slot) = write_decision(None, Ok(()), 12);
    assert_eq!(report, 12);
    assert!(slot.is_none());
    let (report, slot) = write_decision(None, Ok(()), 0);
    assert_eq!(report, 0);
    assert!(slot.is_none());
    let (report, slot) = write_decision(Some(failure(IoErrorKind::Closed, "old")), Ok(()), 12);
    assert_eq!(report, FAULT);
    assert_eq!(slot.unwrap().desc, "old");
    let (report, slot) = write_decision(
        Some(failure(IoErrorKind::Closed, "old")),
        Err(failure(IoErrorKind::BrokenPipe, "new")),
        12,
    );
    assert_eq!(report, FAULT);
    assert_eq!(slot.unwrap().desc, "new");
}

#[test]
fn writing_through_the_adapter() {
    let mut writer = Flaky::new(2, false);
    let mut ctx = WriteContext::new();
    assert!(!ctx.has_failed());
    assert_eq!(ctx.iowrite(&mut writer, b"abc"), 3);
    assert!(!ctx.has_failed());
    assert_eq!(ctx.iowrite(&mut writer, b"defg"), FAULT);
    assert!(ctx.has_failed());
    assert_eq!(ctx.iowrite(&mut writer, b"h"), FAULT);
    assert_eq!(ctx.ioclose(&mut writer), FAULT);
    assert_eq!(writer.bytes, b"abch".to_vec());
    let err = ctx.finish().unwrap_err();
    assert_eq!(err.kind, IoErrorKind::ResourceUnavailable);
    assert_eq!(err.desc, "write failed");
    let mut writer = Flaky::new(0, false);
    let mut ctx = WriteContext::new();
    assert_eq!(ctx.iowrite(&mut writer, b""), 0);
    assert_eq!(ctx.ioclose(&mut writer), 0);
    assert!(ctx.finish().is_ok());
}

#[test]
fn a_failure_of_the_nth_write_surfaces() {
    let doc = read_memory(&large_document()).unwrap();
    let bytes = doc.serialize();
    let spans = (bytes.len() + 3999) / 4000;
    assert!(spans > 4);
    for n in 1..spans + 1 {
        let mut writer = Flaky::new(n, false);
        let err = doc.write(&mut writer).unwrap_err();
        assert_eq!(err.kind, IoErrorKind::ResourceUnavailable);
        assert_eq!(err.desc, "write failed");
        assert_eq!(writer.writes, n);
        assert_eq!(writer.flushes, 1);
        assert_eq!(writer.bytes.len(), (n - 1) * 4000);
        assert_eq!(&writer.bytes[..], &bytes[..(n - 1) * 4000]);
    }
    let mut writer = Flaky::new(spans + 1, false);
    assert!(doc.write(&mut writer).is_ok());
    assert_eq!(writer.writes, spans);
    assert_eq!(writer.bytes, bytes);
}

#[test]
fn a_failure_of_the_flush_surfaces() {
    let doc = read_memory(b"<a/>").unwrap();
    let mut writer = Flaky::new(0, true);
    let err = doc.write(&mut writer).unwrap_err();
    assert_eq!(err.kind, IoErrorKind::IoUnavailable);
    assert_eq!(err.desc, "flush failed");
    assert_eq!(writer.bytes, doc.serialize());
    assert_eq!(writer.flushes, 1);
}

#[test]
fn a_failed_flush_after_a_failed_write_is_what_surfaces() {
    let doc = read_memory(b"<a/>").unwrap();
    let mut writer = Flaky::new(1, true);
    let err = doc.write(&mut writer).unwrap_err();
    assert_eq!(err.kind, IoErrorKind::IoUnavailable);
    assert_eq!(writer.writes, 1);
    assert_eq!(writer.flushes, 1);
    assert!(writer.bytes.is_empty());
}

#[test]
fn write_io_hands_back_the_adapter() {
    let doc = read_memory(b"<a/>").unwrap();
    let mut writer = Flaky::new(0, false);
    let ctx = doc.write_io(&mut writer);
    assert!(!ctx.has_failed());
    assert!(ctx.finish().is_ok());
    let mut writer = Flaky::new(1, false);
    let ctx = doc.write_io(&mut writer);
    assert!(ctx.has_failed());
    assert_eq!(ctx.finish().unwrap_err().desc, "write failed");
}
