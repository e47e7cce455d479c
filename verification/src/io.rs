//! Byte sources and sinks, and the two adapters that sit between them and the
//! parser or serializer.
//!
//! The engine asks an adapter for bytes, or hands it bytes, and is answered
//! with a small integer. A failure of the source or sink is kept in the
//! adapter's failure slot, the engine is told to stop, and the failure is
//! given to the caller once the engine has returned.
//!
//! Nothing is known of a source or sink but what it answers. Each adapter
//! therefore keeps a transcript of the calls it made and the answers it got,
//! and says what it does in terms of that transcript.

use vstd::prelude::*;

verus! {

/// What went wrong in a byte source or sink.
#[derive(Clone, Copy, Debug, PartialEq, Eq, Structural)]
pub enum IoErrorKind {
    PreviousIoError,
    OtherIoError,
    EndOfFile,
    FileNotFound,
    PermissionDenied,
    ConnectionFailed,
    Closed,
    ConnectionRefused,
    ConnectionReset,
    ConnectionAborted,
    NotConnected,
    BrokenPipe,
    PathAlreadyExists,
    PathDoesntExist,
    MismatchedFileTypeForOperation,
    ResourceUnavailable,
    IoUnavailable,
    InvalidInput,
}

/// A failure of a byte source or sink.
#[derive(Debug)]
pub struct IoError {
    pub kind: IoErrorKind,
    pub desc: &'static str,
    pub detail: Option<String>,
}

/// A blocking source of bytes.
///
/// `read` fills the front of `buf` and says how many bytes it wrote there.
/// The end of the input is reported as a failure of kind `EndOfFile`, or as
/// zero bytes.
pub trait Reader {
    fn read(&mut self, buf: &mut [u8]) -> Result<usize, IoError>;
}

/// A blocking sink of bytes. `write` takes the whole of `buf` or fails.
pub trait Writer {
    fn write(&mut self, buf: &[u8]) -> Result<(), IoError>;

    fn flush(&mut self) -> Result<(), IoError>;
}

/// The answer that tells the engine to stop.
pub const FAULT: i32 = -1;

/// A byte count as the engine is told it: never more than the buffer holds,
/// nor than the answer's type can say.
pub open spec fn clamp_count(n: usize, len: usize) -> i32 {
    if n <= len && n <= i32::MAX {
        n as i32
    } else if len <= i32::MAX {
        len as i32
    } else {
        i32::MAX
    }
}

/// The failure to record after a read with the given outcome: any failure
/// but the end of the input.
pub open spec fn read_failure(outcome: Result<usize, IoError>) -> Option<IoError> {
    match outcome {
        Ok(_) => None,
        Err(e) => if e.kind == IoErrorKind::EndOfFile {
            None
        } else {
            Some(e)
        },
    }
}

/// The answer to the engine after a read with the given outcome into a buffer
/// of `len` bytes: the number of bytes read, 0 at the end of the input,
/// `FAULT` on any other failure.
pub open spec fn read_report(outcome: Result<usize, IoError>, len: usize) -> i32 {
    match outcome {
        Ok(n) => clamp_count(n, len),
        Err(e) => if e.kind == IoErrorKind::EndOfFile {
            0
        } else {
            FAULT
        },
    }
}

/// What parsing from a reader gives: a recorded failure comes first, then
/// whether the engine produced a tree.
pub open spec fn read_result<D>(slot: Option<IoError>, doc: Option<D>) -> Result<
    Option<D>,
    IoError,
> {
    match slot {
        Some(e) => Err(e),
        None => Ok(doc),
    }
}

/// Decides what a read's outcome means: the answer to the engine, and the
/// failure to record, if any.
pub fn read_decision(outcome: Result<usize, IoError>, len: usize) -> (r: (i32, Option<IoError>))
    ensures
        r.0 == read_report(outcome, len),
        r.1 == read_failure(outcome),
        r.0 == FAULT <==> r.1 is Some,
        r.0 != FAULT ==> 0 <= r.0 <= len,
{
    match outcome {
        Ok(n) => {
            if n <= len && n <= i32::MAX as usize {
                (n as i32, None)
            } else if len <= i32::MAX as usize {
                (len as i32, None)
            } else {
                (i32::MAX, None)
            }
        },
        Err(e) => {
            if e.kind == IoErrorKind::EndOfFile {
                (0, None)
            } else {
                (FAULT, Some(e))
            }
        },
    }
}

/// One call of a reader as an adapter saw it: what the reader answered, and
/// the bytes that the engine was given from the buffer.
pub struct ReadEvent {
    pub outcome: Result<usize, IoError>,
    pub data: Seq<u8>,
}

/// The bytes that the engine takes from a buffer after being answered
/// `report`.
pub open spec fn delivered(buf: Seq<u8>, report: i32) -> Seq<u8> {
    if 0 < report <= buf.len() {
        buf.take(report as int)
    } else {
        Seq::empty()
    }
}

/// All the bytes that the engine was given over a transcript, in order.
pub open spec fn received(log: Seq<ReadEvent>) -> Seq<u8>
    decreases log.len(),
{
    if log.len() == 0 {
        Seq::empty()
    } else {
        received(log.drop_last()) + log.last().data
    }
}

/// The adapter between the parser and a [`Reader`].
pub struct ReadContext {
    ioerror: Option<IoError>,
    log: Ghost<Seq<ReadEvent>>,
}

impl ReadContext {
    /// The failure that is waiting to be given to the caller, if any.
    pub closed spec fn pending(&self) -> Option<IoError> {
        self.ioerror
    }

    /// The calls that the adapter has made to its reader, in order.
    pub closed spec fn log(&self) -> Seq<ReadEvent> {
        self.log@
    }

    /// An adapter with an empty failure slot that has made no call yet.
    pub fn new() -> (ctx: ReadContext)
        ensures
            ctx.pending() is None,
            ctx.log().len() == 0,
    {
        ReadContext { ioerror: None, log: Ghost(Seq::empty()) }
    }

    /// Whether a failure has been recorded.
    pub fn has_failed(&self) -> (b: bool)
        ensures
            b == self.pending() is Some,
    {
        self.ioerror.is_some()
    }

    /// Answers one request of the engine for at most `buf.len()` bytes.
    ///
    /// Once a failure is recorded the reader is never called again: the
    /// answer is `FAULT` and nothing changes. Otherwise the reader is called
    /// once, the call is added to the transcript, and its outcome decides the
    /// answer and the failure slot as [`read_decision`] says.
    pub fn ioread<R: Reader>(&mut self, reader: &mut R, buf: &mut Vec<u8>) -> (report: i32)
        ensures
            old(self).pending() is Some ==> {
                &&& report == FAULT
                &&& final(self).pending() == old(self).pending()
                &&& final(self).log() == old(self).log()
                &&& *final(reader) == *old(reader)
                &&& *final(buf) == *old(buf)
            },
            old(self).pending() is None ==> {
                &&& final(self).log().len() == old(self).log().len() + 1
                &&& final(self).log().drop_last() == old(self).log()
                &&& report == read_report(
                    final(self).log().last().outcome,
                    final(buf)@.len() as usize,
                )
                &&& final(self).pending() == read_failure(final(self).log().last().outcome)
                &&& final(self).log().last().data == delivered(final(buf)@, report)
            },
            report == FAULT <==> final(self).pending() is Some,
            report != FAULT ==> 0 <= report <= final(buf)@.len(),
    {
        if self.ioerror.is_some() {
            return FAULT;
        }
        let outcome = reader.read(buf.as_mut_slice());
        let ghost answered = outcome;
        let (report, failure) = read_decision(outcome, buf.len());
        self.ioerror = failure;
        proof {
            let event = ReadEvent { outcome: answered, data: delivered(buf@, report) };
            let before = self.log@;
            self.log@ = before.push(event);
            assert(self.log@.drop_last() =~= before);
        }
        report
    }

    /// Closes the source on behalf of the engine. The reader belongs to the
    /// caller, so nothing is done and the answer is 0.
    pub fn ioclose(&mut self) -> (report: i32)
        ensures
            report == 0,
            *final(self) == *old(self),
    {
        0
    }

    /// Gives the caller the outcome of a parse once the engine has returned:
    /// a recorded failure, whatever the engine produced; else the document,
    /// or its absence.
    pub fn finish<D>(self, doc: Option<D>) -> (r: Result<Option<D>, IoError>)
        ensures
            r == read_result(self.pending(), doc),
    {
        match self.ioerror {
            Some(e) => Err(e),
            None => Ok(doc),
        }
    }
}

/// The failure slot after a write or a flush with the given outcome: a new
/// failure takes the place of an earlier one.
pub open spec fn write_failure(slot: Option<IoError>, outcome: Result<(), IoError>) -> Option<
    IoError,
> {
    match outcome {
        Ok(_) => slot,
        Err(e) => Some(e),
    }
}

/// The answer to the engine after a write or a flush: `FAULT` while a failure
/// is recorded, else `done`.
pub open spec fn write_report(slot: Option<IoError>, done: i32) -> i32 {
    if slot is Some {
        FAULT
    } else {
        done
    }
}

/// What serializing to a writer gives: the recorded failure, if there is
/// one.
pub open spec fn write_result(slot: Option<IoError>) -> Result<(), IoError> {
    match slot {
        Some(e) => Err(e),
        None => Ok(()),
    }
}

/// Decides what the outcome of a write or a flush means: the answer to the
/// engine, which is `done` when all is well, and the failure slot.
pub fn write_decision(slot: Option<IoError>, outcome: Result<(), IoError>, done: i32) -> (r: (
    i32,
    Option<IoError>,
))
    ensures
        r.1 == write_failure(slot, outcome),
        r.0 == write_report(r.1, done),
{
    let slot = match outcome {
        Ok(_) => slot,
        Err(e) => Some(e),
    };
    if slot.is_some() {
        (FAULT, slot)
    } else {
        (done, slot)
    }
}

/// One call of a writer as an adapter made it.
pub enum WriteEvent {
    /// `data` was handed to `write`.
    Write { data: Seq<u8>, outcome: Result<(), IoError> },
    /// `flush` was called.
    Flush { outcome: Result<(), IoError> },
}

impl WriteEvent {
    /// What the writer answered.
    pub open spec fn outcome(self) -> Result<(), IoError> {
        match self {
            WriteEvent::Write { outcome, .. } => outcome,
            WriteEvent::Flush { outcome } => outcome,
        }
    }

    /// The bytes that were handed over; none for a flush.
    pub open spec fn data(self) -> Seq<u8> {
        match self {
            WriteEvent::Write { data, .. } => data,
            WriteEvent::Flush { .. } => Seq::empty(),
        }
    }
}

/// All the bytes that were handed to the writer over a transcript, in order.
pub open spec fn sent(log: Seq<WriteEvent>) -> Seq<u8>
    decreases log.len(),
{
    if log.len() == 0 {
        Seq::empty()
    } else {
        sent(log.drop_last()) + log.last().data()
    }
}

/// The bytes that the writer took over a transcript: those of the writes
/// that succeeded.
pub open spec fn accepted(log: Seq<WriteEvent>) -> Seq<u8>
    decreases log.len(),
{
    if log.len() == 0 {
        Seq::empty()
    } else if log.last().outcome() is Ok {
        accepted(log.drop_last()) + log.last().data()
    } else {
        accepted(log.drop_last())
    }
}

/// The failure slot at the end of a transcript that began with `slot`.
pub open spec fn failure_after(slot: Option<IoError>, log: Seq<WriteEvent>) -> Option<IoError>
    decreases log.len(),
{
    if log.len() == 0 {
        slot
    } else {
        write_failure(failure_after(slot, log.drop_last()), log.last().outcome())
    }
}

/// The adapter between the serializer and a [`Writer`].
pub struct WriteContext {
    ioerror: Option<IoError>,
    log: Ghost<Seq<WriteEvent>>,
}

impl WriteContext {
    /// The failure that is waiting to be given to the caller, if any.
    pub closed spec fn pending(&self) -> Option<IoError> {
        self.ioerror
    }

    /// The calls that the adapter has made to its writer, in order.
    pub closed spec fn log(&self) -> Seq<WriteEvent> {
        self.log@
    }

    /// An adapter with an empty failure slot that has made no call yet.
    pub fn new() -> (ctx: WriteContext)
        ensures
            ctx.pending() is None,
            ctx.log().len() == 0,
    {
        WriteContext { ioerror: None, log: Ghost(Seq::empty()) }
    }

    /// Whether a failure has been recorded.
    pub fn has_failed(&self) -> (b: bool)
        ensures
            b == self.pending() is Some,
    {
        self.ioerror.is_some()
    }

    /// Hands one span of serialized bytes to the writer.
    ///
    /// The writer is called once with exactly `buf`, and the call is added to
    /// the transcript. A failure is recorded. The answer is `FAULT` while a
    /// failure is recorded, so that the engine stops, and the span's length
    /// otherwise.
    pub fn iowrite<W: Writer>(&mut self, writer: &mut W, buf: &[u8]) -> (report: i32)
        requires
            buf@.len() <= i32::MAX,
        ensures
            final(self).log().len() == old(self).log().len() + 1,
            final(self).log().drop_last() == old(self).log(),
            final(self).log().last() is Write,
            final(self).log().last().data() == buf@,
            final(self).pending() == write_failure(
                old(self).pending(),
                final(self).log().last().outcome(),
            ),
            report == write_report(final(self).pending(), buf@.len() as i32),
    {
        let outcome = writer.write(buf);
        let ghost answered = outcome;
        let (report, slot) = write_decision(self.ioerror.take(), outcome, buf.len() as i32);
        self.ioerror = slot;
        proof {
            let event = WriteEvent::Write { data: buf@, outcome: answered };
            let before = self.log@;
            self.log@ = before.push(event);
            assert(self.log@.drop_last() =~= before);
        }
        report
    }

    /// Flushes the writer when the engine closes its output.
    ///
    /// The writer's `flush` is called once, and the call is added to the
    /// transcript. A failure is recorded. The answer is `FAULT` while a
    /// failure is recorded, and 0 otherwise.
    pub fn ioclose<W: Writer>(&mut self, writer: &mut W) -> (report: i32)
        ensures
            final(self).log().len() == old(self).log().len() + 1,
            final(self).log().drop_last() == old(self).log(),
            final(self).log().last() is Flush,
            final(self).pending() == write_failure(
                old(self).pending(),
                final(self).log().last().outcome(),
            ),
            report == write_report(final(self).pending(), 0),
    {
        let outcome = writer.flush();
        let ghost answered = outcome;
        let (report, slot) = write_decision(self.ioerror.take(), outcome, 0);
        self.ioerror = slot;
        proof {
            let event = WriteEvent::Flush { outcome: answered };
            let before = self.log@;
            self.log@ = before.push(event);
            assert(self.log@.drop_last() =~= before);
        }
        report
    }

    /// Gives the caller the outcome of a serialization once the engine has
    /// returned: the recorded failure, if there is one.
    pub fn finish(self) -> (r: Result<(), IoError>)
        ensures
            r == write_result(self.pending()),
    {
        match self.ioerror {
            Some(e) => Err(e),
            None => Ok(()),
        }
    }
}

} // verus!
