//! The buffering of a stream adaptor that offers synchronous reads and writes
//! above an asynchronous stream.
//!
//! A read takes bytes from the read buffer and reports "would block" when the
//! buffer is empty and the stream has not ended. A write appends to the write
//! buffer and reports "would block" when the buffer must be flushed first. The
//! asynchronous operations that fill and flush the buffers hand their data to
//! [`SyncStream::receive`] and take it from [`SyncStream::take_pending`].
//!
//! [`AsyncStream`] holds the polling protocol of an asynchronous adaptor above
//! these buffers: which operation each poll waits for, tries, or starts.

use std::collections::VecDeque;

use vstd::prelude::*;

verus! {

/// Default buffer capacity for stream operations.
pub const DEFAULT_BUFFER_CAPACITY: usize = 8192;

/// The abstract state of a [`SyncStream`]: the bytes that wait to be read, the
/// bytes that wait to be written, the capacity of the write buffer, and
/// whether the stream ended.
pub struct SyncStreamView {
    pub readable: Seq<u8>,
    pub pending: Seq<u8>,
    pub capacity: nat,
    pub eof: bool,
}

/// Wraps an asynchronous stream into a synchronous one with internal buffers.
pub struct SyncStream<S> {
    inner: S,
    read_buffer: VecDeque<u8>,
    writes: WriteBuffer,
    eof: bool,
}

/// The write buffer of a [`SyncStream`] and its capacity.
struct WriteBuffer {
    write_buffer: Vec<u8>,
    capacity: usize,
}

impl WriteBuffer {
    /// The buffer never holds more than its capacity.
    #[verifier::type_invariant]
    spec fn fits(self) -> bool {
        self.write_buffer.len() <= self.capacity
    }
}

impl<S> View for SyncStream<S> {
    type V = SyncStreamView;

    closed spec fn view(&self) -> SyncStreamView {
        SyncStreamView {
            readable: self.read_buffer@,
            pending: self.writes.write_buffer@,
            capacity: self.writes.capacity as nat,
            eof: self.eof,
        }
    }
}

impl<S> SyncStream<S> {
    /// The wrapped stream.
    pub closed spec fn spec_inner(&self) -> S {
        self.inner
    }

    /// Create a new `SyncStream` with the default buffer capacity.
    pub fn new(stream: S) -> (sync: Self)
        ensures
            sync@ == (SyncStreamView {
                readable: Seq::empty(),
                pending: Seq::empty(),
                capacity: DEFAULT_BUFFER_CAPACITY as nat,
                eof: false,
            }),
            sync.spec_inner() == stream,
    {
        Self::with_capacity(DEFAULT_BUFFER_CAPACITY, stream)
    }

    /// Create a new `SyncStream` with the given buffer capacity.
    pub fn with_capacity(capacity: usize, stream: S) -> (sync: Self)
        ensures
            sync@ == (SyncStreamView {
                readable: Seq::empty(),
                pending: Seq::empty(),
                capacity: capacity as nat,
                eof: false,
            }),
            sync.spec_inner() == stream,
    {
        Self {
            inner: stream,
            read_buffer: VecDeque::with_capacity(capacity),
            writes: WriteBuffer { write_buffer: Vec::with_capacity(capacity), capacity },
            eof: false,
        }
    }

    /// Returns `true` if the stream has reached its end.
    pub fn is_eof(&self) -> (eof: bool)
        ensures
            eof == self@.eof,
    {
        self.eof
    }

    /// Get a reference to the inner stream.
    pub fn get_ref(&self) -> (inner: &S)
        ensures
            *inner == self.spec_inner(),
    {
        &self.inner
    }

    /// Get a mutable reference to the inner stream.
    pub fn get_mut(&mut self) -> (inner: &mut S)
        ensures
            *inner == old(self).spec_inner(),
            final(self).spec_inner() == *final(inner),
            final(self)@ == old(self)@,
    {
        &mut self.inner
    }

    /// Consume this wrapper and return the inner stream.
    pub fn into_inner(self) -> (inner: S)
        ensures
            inner == self.spec_inner(),
    {
        self.inner
    }

    /// Takes bytes from the read buffer into `buffer`.
    ///
    /// Returns the number of bytes copied, which is the smaller of the two
    /// lengths; `Some(0)` at the end of the stream; and `None` ("would block")
    /// when the buffer is empty and the stream has not ended.
    pub fn read_buffered(&mut self, buffer: &mut [u8]) -> (copied: Option<usize>)
        ensures
            final(self).spec_inner() == old(self).spec_inner(),
            final(buffer)@.len() == old(buffer)@.len(),
            old(self)@.readable.len() > 0 ==> {
                let count: int = if old(buffer)@.len() < old(self)@.readable.len() {
                    old(buffer)@.len() as int
                } else {
                    old(self)@.readable.len() as int
                };
                &&& copied == Some(count as usize)
                &&& final(buffer)@ == old(self)@.readable.take(count) + old(buffer)@.skip(
                    count,
                )
                &&& final(self)@ == (SyncStreamView {
                    readable: old(self)@.readable.skip(count),
                    ..old(self)@
                })
            },
            old(self)@.readable.len() == 0 ==> {
                &&& final(self)@ == old(self)@
                &&& final(buffer)@ == old(buffer)@
                &&& copied == if old(self)@.eof {
                    Some(0usize)
                } else {
                    None::<usize>
                }
            },
    {
        let available = self.read_buffer.len();
        if available > 0 {
            let count = if buffer.len() < available {
                buffer.len()
            } else {
                available
            };
            let mut index: usize = 0;
            while index < count
                invariant
                    index <= count,
                    count <= old(self)@.readable.len(),
                    count <= old(buffer)@.len(),
                    buffer@.len() == old(buffer)@.len(),
                    self.inner == old(self).inner,
                    self.writes.write_buffer == old(self).writes.write_buffer,
                    self.writes.capacity == old(self).writes.capacity,
                    self.eof == old(self).eof,
                    self.read_buffer@ == old(self)@.readable.skip(index as int),
                    buffer@ == old(self)@.readable.take(index as int) + old(buffer)@.skip(
                        index as int,
                    ),
                decreases count - index,
            {
                let byte = match self.read_buffer.pop_front() {
                    Some(byte) => byte,
                    None => 0,
                };
                buffer[index] = byte;
                proof {
                    assert(buffer@ =~= old(self)@.readable.take(index + 1) + old(buffer)@.skip(
                        index + 1,
                    ));
                    assert(self.read_buffer@ =~= old(self)@.readable.skip(index + 1));
                }
                index = index + 1;
            }
            return Some(count);
        }
        if self.eof {
            Some(0)
        } else {
            None
        }
    }

    /// Appends bytes of `data` to the write buffer.
    ///
    /// Returns `None` ("would block") when the buffered bytes and `data` do
    /// not fit together and the buffer holds bytes to flush first; otherwise
    /// the number of bytes taken, as many as the capacity leaves room for.
    pub fn write_buffered(&mut self, data: &[u8]) -> (taken: Option<usize>)
        ensures
            final(self).spec_inner() == old(self).spec_inner(),
            final(self)@.pending.len() <= final(self)@.capacity,
            old(self)@.pending.len() + data@.len() > old(self)@.capacity
                && old(self)@.pending.len() > 0 ==> taken is None && final(self)@ == old(self)@,
            !(old(self)@.pending.len() + data@.len() > old(self)@.capacity
                && old(self)@.pending.len() > 0) ==> {
                let room = old(self)@.capacity - old(self)@.pending.len();
                let count: int = if data@.len() < room {
                    data@.len() as int
                } else {
                    room
                };
                &&& taken == Some(count as usize)
                &&& final(self)@ == (SyncStreamView {
                    pending: old(self)@.pending + data@.take(count),
                    ..old(self)@
                })
            },
    {
        proof {
            use_type_invariant(&self.writes);
        }
        let capacity = self.writes.capacity;
        let length = self.writes.write_buffer.len();
        if data.len() > capacity - length && length > 0 {
            return None;
        }
        let room = capacity - length;
        let count = if data.len() < room {
            data.len()
        } else {
            room
        };
        let mut bytes = Vec::new();
        core::mem::swap(&mut bytes, &mut self.writes.write_buffer);
        let mut index: usize = 0;
        while index < count
            invariant
                index <= count <= data@.len(),
                length + count <= capacity,
                capacity == old(self)@.capacity,
                bytes@ == old(self)@.pending + data@.take(index as int),
                old(self)@.pending.len() == length,
            decreases count - index,
        {
            bytes.push(data[index]);
            proof {
                assert(data@.take(index + 1) =~= data@.take(index as int).push(data@[index as int]));
            }
            index = index + 1;
        }
        self.writes = WriteBuffer { write_buffer: bytes, capacity };
        Some(count)
    }

    /// Whether the write buffer holds bytes that wait for a flush. A flush of
    /// the synchronous side would block exactly then.
    pub fn has_pending_writes(&self) -> (pending: bool)
        ensures
            pending == (self@.pending.len() > 0),
    {
        self.writes.write_buffer.len() > 0
    }

    /// Records bytes that a read of the asynchronous stream returned. An empty
    /// read is the end of the stream. Returns the number of bytes recorded.
    pub fn receive(&mut self, data: &[u8]) -> (received: usize)
        ensures
            received == data@.len(),
            final(self).spec_inner() == old(self).spec_inner(),
            data@.len() == 0 ==> final(self)@ == (SyncStreamView { eof: true, ..old(self)@ }),
            data@.len() > 0 ==> final(self)@ == (SyncStreamView {
                readable: old(self)@.readable + data@,
                ..old(self)@
            }),
    {
        if data.len() == 0 {
            self.eof = true;
            return 0;
        }
        let mut index: usize = 0;
        while index < data.len()
            invariant
                index <= data@.len(),
                self.inner == old(self).inner,
                self.writes.write_buffer == old(self).writes.write_buffer,
                self.writes.capacity == old(self).writes.capacity,
                self.eof == old(self).eof,
                self.read_buffer@ == old(self)@.readable + data@.take(index as int),
            decreases data@.len() - index,
        {
            self.read_buffer.push_back(data[index]);
            proof {
                assert(data@.take(index + 1) =~= data@.take(index as int).push(data@[index as int]));
            }
            index = index + 1;
        }
        proof {
            assert(data@.take(data@.len() as int) =~= data@);
        }
        data.len()
    }

    /// Takes the bytes that wait in the write buffer, for a write to the
    /// asynchronous stream, and leaves an empty buffer of the same capacity.
    pub fn take_pending(&mut self) -> (pending: Vec<u8>)
        ensures
            pending@ == old(self)@.pending,
            final(self).spec_inner() == old(self).spec_inner(),
            final(self)@ == (SyncStreamView { pending: Seq::empty(), ..old(self)@ }),
    {
        let mut taken = Vec::with_capacity(self.writes.capacity);
        core::mem::swap(&mut taken, &mut self.writes.write_buffer);
        taken
    }
}

/// How an asynchronous operation of an [`AsyncStream`] stood when its owner
/// polled it just before a poll of the adaptor.
#[derive(Clone, Copy, Debug, PartialEq, Eq, Structural)]
pub enum Progress {
    /// No operation of this kind is in flight.
    Idle,
    /// The operation is still in flight.
    Pending,
    /// The operation finished; its owner has applied its result.
    Finished,
}

/// What a poll of a read does.
#[derive(Clone, Copy, Debug, PartialEq, Eq, Structural)]
pub enum ReadStep {
    /// The read copied this many bytes; zero at the end of the stream.
    Ready(usize),
    /// Wait for the fill of the read buffer that is in flight.
    Pending,
    /// Start a fill of the read buffer, wake the task, and wait.
    StartFill,
}

/// What a poll of a write does.
#[derive(Clone, Copy, Debug, PartialEq, Eq, Structural)]
pub enum WriteStep {
    /// The write buffered this many bytes.
    Ready(usize),
    /// Wait for the flush that is in flight.
    Pending,
    /// Start a flush of the write buffer, wake the task, and wait.
    StartFlush,
}

/// What a poll of a flush does.
#[derive(Clone, Copy, Debug, PartialEq, Eq, Structural)]
pub enum FlushStep {
    /// Nothing waits to be written, or a shutdown (which flushes) is in
    /// progress: the flush is complete.
    Complete,
    /// The flush that was in flight finished: its result is the result.
    Finished,
    /// Wait for the flush that is in flight.
    Pending,
    /// Start a flush of the write buffer, wake the task, and wait.
    StartFlush,
}

/// What a poll of a shutdown does once the flush before it is complete.
#[derive(Clone, Copy, Debug, PartialEq, Eq, Structural)]
pub enum ShutdownStep {
    /// The shutdown that was in flight finished: its result is the result.
    Finished,
    /// Wait for the shutdown that is in flight.
    Pending,
    /// Start the shutdown of the stream, wake the task, and wait.
    StartShutdown,
}

/// The abstract state of an [`AsyncStream`]: its synchronous stream and the
/// operations in flight.
pub struct AsyncStreamView {
    pub inner: SyncStreamView,
    pub reading: bool,
    pub writing: bool,
    pub shutting_down: bool,
}

/// The polling protocol of an asynchronous adaptor above a [`SyncStream`].
///
/// A poll first looks at the operation of its kind that is in flight: while
/// it is pending, the poll waits. Then the poll tries the synchronous
/// operation, and starts an asynchronous fill or flush when that operation
/// would block. The owner of the adaptor runs the asynchronous operations and
/// reports how each stood before each poll.
pub struct AsyncStream<S> {
    inner: SyncStream<S>,
    reading: bool,
    writing: bool,
    shutting_down: bool,
}

impl<S> View for AsyncStream<S> {
    type V = AsyncStreamView;

    closed spec fn view(&self) -> AsyncStreamView {
        AsyncStreamView {
            inner: self.inner@,
            reading: self.reading,
            writing: self.writing,
            shutting_down: self.shutting_down,
        }
    }
}

impl<S> AsyncStream<S> {
    /// The wrapped stream.
    pub closed spec fn spec_inner(&self) -> S {
        self.inner.spec_inner()
    }

    /// Create a new `AsyncStream` with the default buffer capacity.
    pub fn new(stream: S) -> (adaptor: Self)
        ensures
            adaptor.spec_inner() == stream,
            adaptor@ == (AsyncStreamView {
                inner: SyncStreamView {
                    readable: Seq::empty(),
                    pending: Seq::empty(),
                    capacity: DEFAULT_BUFFER_CAPACITY as nat,
                    eof: false,
                },
                reading: false,
                writing: false,
                shutting_down: false,
            }),
    {
        Self::new_impl(SyncStream::new(stream))
    }

    /// Create a new `AsyncStream` with the given buffer capacity.
    pub fn with_capacity(capacity: usize, stream: S) -> (adaptor: Self)
        ensures
            adaptor.spec_inner() == stream,
            adaptor@ == (AsyncStreamView {
                inner: SyncStreamView {
                    readable: Seq::empty(),
                    pending: Seq::empty(),
                    capacity: capacity as nat,
                    eof: false,
                },
                reading: false,
                writing: false,
                shutting_down: false,
            }),
    {
        Self::new_impl(SyncStream::with_capacity(capacity, stream))
    }

    fn new_impl(inner: SyncStream<S>) -> (adaptor: Self)
        ensures
            adaptor.spec_inner() == inner.spec_inner(),
            adaptor@ == (AsyncStreamView {
                inner: inner@,
                reading: false,
                writing: false,
                shutting_down: false,
            }),
    {
        Self { inner, reading: false, writing: false, shutting_down: false }
    }

    /// Get a reference to the inner stream.
    pub fn get_ref(&self) -> (inner: &S)
        ensures
            *inner == self.spec_inner(),
    {
        self.inner.get_ref()
    }

    /// Get a mutable reference to the inner stream.
    pub fn get_mut(&mut self) -> (inner: &mut S)
        ensures
            *inner == old(self).spec_inner(),
            final(self).spec_inner() == *final(inner),
            final(self)@ == old(self)@,
    {
        self.inner.get_mut()
    }

    /// The synchronous stream, for the asynchronous operations that fill and
    /// flush its buffers.
    pub fn sync_stream(&mut self) -> (inner: &mut SyncStream<S>)
        ensures
            inner@ == old(self)@.inner,
            inner.spec_inner() == old(self).spec_inner(),
            final(self)@ == (AsyncStreamView { inner: final(inner)@, ..old(self)@ }),
            final(self).spec_inner() == final(inner).spec_inner(),
    {
        &mut self.inner
    }

    /// Polls a read into `buffer`. `fill` is how the fill of the read buffer
    /// that is in flight stood, if there is one.
    pub fn poll_read(&mut self, fill: Progress, buffer: &mut [u8]) -> (step: ReadStep)
        ensures
            final(self).spec_inner() == old(self).spec_inner(),
            fill == Progress::Pending ==> step == ReadStep::Pending && final(self)@ == old(self)@
                && final(buffer)@ == old(buffer)@,
            fill != Progress::Pending ==> {
                let available = old(self)@.inner.readable.len();
                &&& final(buffer)@.len() == old(buffer)@.len()
                &&& final(self)@.writing == old(self)@.writing
                &&& final(self)@.shutting_down == old(self)@.shutting_down
                &&& available > 0 ==> {
                    let count: int = if old(buffer)@.len() < available {
                        old(buffer)@.len() as int
                    } else {
                        available as int
                    };
                    &&& step == ReadStep::Ready(count as usize)
                    &&& !final(self)@.reading
                    &&& final(buffer)@ == old(self)@.inner.readable.take(count) + old(buffer)@.skip(count)
                    &&& final(self)@.inner == (SyncStreamView {
                        readable: old(self)@.inner.readable.skip(count),
                        ..old(self)@.inner
                    })
                }
                &&& available == 0 ==> final(self)@.inner == old(self)@.inner && final(buffer)@
                    == old(buffer)@ && if old(self)@.inner.eof {
                    step == ReadStep::Ready(0) && !final(self)@.reading
                } else {
                    step == ReadStep::StartFill && final(self)@.reading
                }
            },
    {
        if fill == Progress::Pending {
            return ReadStep::Pending;
        }
        self.reading = false;
        match self.inner.read_buffered(buffer) {
            Some(count) => ReadStep::Ready(count),
            None => {
                self.reading = true;
                ReadStep::StartFill
            },
        }
    }

    /// Polls a write of `data`. `flush` is how the flush of the write buffer
    /// that is in flight stood, if there is one.
    pub fn poll_write(&mut self, flush: Progress, data: &[u8]) -> (step: WriteStep)
        ensures
            final(self).spec_inner() == old(self).spec_inner(),
            flush == Progress::Pending ==> step == WriteStep::Pending && final(self)@ == old(self)@,
            flush != Progress::Pending ==> {
                let pending = old(self)@.inner.pending;
                let capacity = old(self)@.inner.capacity;
                &&& final(self)@.reading == old(self)@.reading
                &&& final(self)@.shutting_down == old(self)@.shutting_down
                &&& pending.len() + data@.len() > capacity && pending.len() > 0 ==> step
                    == WriteStep::StartFlush && final(self)@.writing && final(self)@.inner == old(self)@.inner
                &&& !(pending.len() + data@.len() > capacity && pending.len() > 0) ==> {
                    let room = capacity - pending.len();
                    let count: int = if data@.len() < room {
                        data@.len() as int
                    } else {
                        room
                    };
                    &&& step == WriteStep::Ready(count as usize)
                    &&& !final(self)@.writing
                    &&& final(self)@.inner == (SyncStreamView {
                        pending: pending + data@.take(count),
                        ..old(self)@.inner
                    })
                }
            },
    {
        if flush == Progress::Pending {
            return WriteStep::Pending;
        }
        self.writing = false;
        match self.inner.write_buffered(data) {
            Some(count) => WriteStep::Ready(count),
            None => {
                self.writing = true;
                WriteStep::StartFlush
            },
        }
    }

    /// Polls a flush. `flush` is how the flush of the write buffer that is in
    /// flight stood, if there is one.
    pub fn poll_flush(&mut self, flush: Progress) -> (step: FlushStep)
        ensures
            final(self).spec_inner() == old(self).spec_inner(),
            final(self)@.inner == old(self)@.inner,
            final(self)@.reading == old(self)@.reading,
            final(self)@.shutting_down == old(self)@.shutting_down,
            old(self)@.shutting_down ==> step == FlushStep::Complete && final(self)@ == old(self)@,
            !old(self)@.shutting_down ==> match flush {
                Progress::Pending => step == FlushStep::Pending && final(self)@ == old(self)@,
                Progress::Finished => step == FlushStep::Finished && !final(self)@.writing,
                Progress::Idle => if old(self)@.inner.pending.len() == 0 {
                    step == FlushStep::Complete && final(self)@ == old(self)@
                } else {
                    step == FlushStep::StartFlush && final(self)@.writing
                },
            },
    {
        // A shutdown includes a flush, thus a flush during a shutdown has
        // nothing to do.
        if self.shutting_down {
            return FlushStep::Complete;
        }
        match flush {
            Progress::Pending => FlushStep::Pending,
            Progress::Finished => {
                self.writing = false;
                FlushStep::Finished
            },
            Progress::Idle => {
                if !self.inner.has_pending_writes() {
                    FlushStep::Complete
                } else {
                    self.writing = true;
                    FlushStep::StartFlush
                }
            },
        }
    }

    /// Polls the shutdown that follows a complete flush. `shutdown` is how the
    /// shutdown in flight stood, if there is one.
    pub fn poll_shutdown(&mut self, shutdown: Progress) -> (step: ShutdownStep)
        ensures
            final(self).spec_inner() == old(self).spec_inner(),
            final(self)@.inner == old(self)@.inner,
            final(self)@.reading == old(self)@.reading,
            final(self)@.writing == old(self)@.writing,
            match shutdown {
                Progress::Pending => step == ShutdownStep::Pending && final(self)@ == old(self)@,
                Progress::Finished => step == ShutdownStep::Finished && !final(self)@.shutting_down,
                Progress::Idle => step == ShutdownStep::StartShutdown && final(self)@.shutting_down,
            },
    {
        match shutdown {
            Progress::Pending => ShutdownStep::Pending,
            Progress::Finished => {
                self.shutting_down = false;
                ShutdownStep::Finished
            },
            Progress::Idle => {
                self.shutting_down = true;
                ShutdownStep::StartShutdown
            },
        }
    }
}

} // verus!
