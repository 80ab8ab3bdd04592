//! The ring buffer shared by the two ends of a pipe.

use vstd::prelude::*;

use super::buffer::UserBuffer;

verus! {

/// Capacity of a pipe in bytes.
pub const RING_BUFFER_SIZE: usize = 32;

/// Whether the ring is full, empty, or neither.
#[derive(Clone, Copy, PartialEq, Eq, Structural)]
pub enum RingBufferStatus {
    Full,
    Empty,
    Normal,
}

/// A byte ring of `RING_BUFFER_SIZE` slots: bytes are read at `head` and
/// written at `tail`; `status` tells a full ring from an empty one.
pub struct PipeRingBuffer {
    pub array: Vec<u8>,
    pub head: usize,
    pub tail: usize,
    pub status: RingBufferStatus,
}

impl PipeRingBuffer {
    /// The indexes and the status agree.
    pub open spec fn wf(&self) -> bool {
        &&& self.array@.len() == RING_BUFFER_SIZE
        &&& self.head < RING_BUFFER_SIZE
        &&& self.tail < RING_BUFFER_SIZE
        &&& (self.status == RingBufferStatus::Normal) == (self.head != self.tail)
    }

    /// Number of bytes waiting to be read.
    pub open spec fn count(&self) -> nat {
        match self.status {
            RingBufferStatus::Empty => 0,
            RingBufferStatus::Full => RING_BUFFER_SIZE as nat,
            RingBufferStatus::Normal => ((self.tail - self.head + RING_BUFFER_SIZE) % (
            RING_BUFFER_SIZE as int)) as nat,
        }
    }

    /// The bytes waiting to be read, oldest first.
    pub open spec fn view(&self) -> Seq<u8> {
        Seq::new(self.count(), |i: int| self.array@[(self.head + i) % (RING_BUFFER_SIZE as int)])
    }

    /// An empty ring.
    pub fn new() -> (r: Self)
        ensures
            r.wf(),
            r.view() == Seq::<u8>::empty(),
    {
        let mut array: Vec<u8> = Vec::new();
        let mut i: usize = 0;
        while i < RING_BUFFER_SIZE
            invariant
                i <= RING_BUFFER_SIZE,
                array@.len() == i,
            decreases RING_BUFFER_SIZE - i,
        {
            array.push(0);
            i = i + 1;
        }
        let r = Self { array, head: 0, tail: 0, status: RingBufferStatus::Empty };
        assert(r.view() =~= Seq::<u8>::empty());
        r
    }

    /// Takes the oldest byte out of the ring, which must not be empty.
    pub fn read_byte(&mut self) -> (r: u8)
        requires
            old(self).wf(),
            old(self).view().len() > 0,
        ensures
            final(self).wf(),
            r == old(self).view()[0],
            final(self).view() == old(self).view().drop_first(),
    {
        let ch = self.array[self.head];
        self.status = RingBufferStatus::Normal;
        self.head = (self.head + 1) % RING_BUFFER_SIZE;
        if self.head == self.tail {
            self.status = RingBufferStatus::Empty;
        }
        proof {
            assert(self.view() =~= old(self).view().drop_first());
        }
        ch
    }

    /// Appends `byte` to the ring, which must not be full.
    pub fn write_byte(&mut self, byte: u8)
        requires
            old(self).wf(),
            old(self).view().len() < RING_BUFFER_SIZE,
        ensures
            final(self).wf(),
            final(self).view() == old(self).view().push(byte),
    {
        self.array.set(self.tail, byte);
        self.status = RingBufferStatus::Normal;
        self.tail = (self.tail + 1) % RING_BUFFER_SIZE;
        if self.tail == self.head {
            self.status = RingBufferStatus::Full;
        }
        proof {
            let o = old(self);
            assert(o.count() < RING_BUFFER_SIZE);
            assert((o.head + o.count()) % 32 == o.tail);
            assert(self.view() =~= old(self).view().push(byte));
        }
    }

    /// Number of bytes waiting to be read.
    pub fn available_read(&self) -> (r: usize)
        requires
            self.wf(),
        ensures
            r == self.view().len(),
    {
        match self.status {
            RingBufferStatus::Empty => 0,
            _ => {
                if self.tail > self.head {
                    self.tail - self.head
                } else {
                    self.tail + RING_BUFFER_SIZE - self.head
                }
            },
        }
    }

    /// Number of bytes that can still be written.
    pub fn available_write(&self) -> (r: usize)
        requires
            self.wf(),
        ensures
            r == RING_BUFFER_SIZE - self.view().len(),
    {
        match self.status {
            RingBufferStatus::Full => 0,
            _ => RING_BUFFER_SIZE - self.available_read(),
        }
    }

    /// Moves as many bytes of `buf` as fit into the ring, in order, and
    /// returns how many it moved (the work of a pipe's write end).
    pub fn write_from(&mut self, buf: &UserBuffer) -> (r: usize)
        requires
            old(self).wf(),
        ensures
            final(self).wf(),
            r == vstd::math::min(
                (RING_BUFFER_SIZE - old(self).view().len()) as int,
                buf.view().len() as int,
            ),
            final(self).view() == old(self).view() + buf.view().take(r as int),
    {
        let data = buf.concat();
        let num_write = self.available_write();
        let mut write_size: usize = 0;
        while write_size < num_write && write_size < data.len()
            invariant
                self.wf(),
                num_write == RING_BUFFER_SIZE - old(self).view().len(),
                write_size <= num_write,
                write_size <= data@.len(),
                data@ == buf.view(),
                self.view() == old(self).view() + data@.take(write_size as int),
            decreases num_write - write_size,
        {
            self.write_byte(data[write_size]);
            write_size = write_size + 1;
            proof {
                assert(data@.take(write_size as int) =~= data@.take(write_size - 1).push(
                    data@[write_size - 1],
                ));
            }
        }
        write_size
    }

    /// Takes up to `want` of the waiting bytes out of the ring, oldest
    /// first (one round of a pipe's read end).
    pub fn read_into(&mut self, want: usize) -> (r: Vec<u8>)
        requires
            old(self).wf(),
        ensures
            final(self).wf(),
            r@.len() == vstd::math::min(old(self).view().len() as int, want as int),
            r@ == old(self).view().take(r@.len() as int),
            final(self).view() == old(self).view().skip(r@.len() as int),
    {
        let num_read = self.available_read();
        let mut out: Vec<u8> = Vec::new();
        while out.len() < num_read && out.len() < want
            invariant
                self.wf(),
                num_read == old(self).view().len(),
                out@.len() <= num_read,
                out@.len() <= want,
                out@ == old(self).view().take(out@.len() as int),
                self.view() == old(self).view().skip(out@.len() as int),
            decreases num_read - out@.len(),
        {
            let b = self.read_byte();
            out.push(b);
            proof {
                assert(out@ =~= old(self).view().take(out@.len() as int));
                assert(self.view() =~= old(self).view().skip(out@.len() as int));
            }
        }
        out
    }
}

/// What a read from a pipe's read end does after a round.
pub enum PipeRead {
    /// The write end is closed: the read ends, with this many bytes read.
    Done(usize),
    /// The write end is open: the reader gives up the processor and reads
    /// again when it next runs.
    Wait,
}

impl PipeRingBuffer {
    /// One round of a read from the pipe into a buffer with room for `room`
    /// more bytes, `read` bytes having been read in earlier rounds: takes
    /// what the ring holds, up to `room`, oldest first; then the read ends
    /// when the write end is closed (`write_closed`), with the count of all
    /// bytes read, and waits for another round otherwise.
    pub fn read_round(&mut self, room: usize, read: usize, write_closed: bool) -> (r: (Vec<u8>, PipeRead))
        requires
            old(self).wf(),
            read + room <= usize::MAX,
        ensures
            final(self).wf(),
            r.0@.len() == vstd::math::min(old(self).view().len() as int, room as int),
            r.0@ == old(self).view().take(r.0@.len() as int),
            final(self).view() == old(self).view().skip(r.0@.len() as int),
            write_closed ==> r.1 == PipeRead::Done((read + r.0@.len()) as usize),
            !write_closed ==> r.1 == PipeRead::Wait,
    {
        let bytes = self.read_into(room);
        if write_closed {
            let total = read + bytes.len();
            (bytes, PipeRead::Done(total))
        } else {
            (bytes, PipeRead::Wait)
        }
    }
}

/// Bytes come out of a pipe in the order they went in: whatever an empty
/// ring is written, reading as many bytes gives back.
pub proof fn law_pipe_fifo(
    empty: PipeRingBuffer,
    after_write: PipeRingBuffer,
    after_read: PipeRingBuffer,
    written: Seq<u8>,
    read: Seq<u8>,
)
    requires
        empty.view().len() == 0,
        after_write.view() == empty.view() + written,
        read == after_write.view().take(written.len() as int),
        after_read.view() == after_write.view().skip(written.len() as int),
    ensures
        read == written,
        after_read.view().len() == 0,
{
    assert(empty.view() + written =~= written);
    assert(read =~= written);
}

/// A ring always has room for exactly what is not waiting to be read.
pub proof fn law_pipe_capacity(ring: PipeRingBuffer)
    requires
        ring.wf(),
    ensures
        ring.view().len() <= RING_BUFFER_SIZE,
{
}

} // verus!
