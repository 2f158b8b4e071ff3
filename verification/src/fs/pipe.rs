//! The ring buffer behind a pipe.
//!
//! The buffer holds at most 32 bytes between a head (next byte to read) and a
//! tail (next slot to write); a status tells a full buffer from an empty one
//! when head and tail meet.
use vstd::prelude::*;
use std::sync::{Arc, Weak};
use crate::sync::up::UpIntrFreeCell;

verus! {

/// Capacity of a pipe's ring buffer.
pub const RING_BUFFER_SIZE: usize = 32;

/// Whether the ring buffer is full, empty, or neither.
#[derive(Copy, Clone, Debug, PartialEq, Eq, Structural)]
pub enum RingBufferStatus {
    Full,
    Empty,
    Normal,
}

/// Abstract state of a ring buffer: its raw slots, head, tail and status.
pub ghost struct RingModel {
    pub arr: Seq<u8>,
    pub head: int,
    pub tail: int,
    pub status: RingBufferStatus,
}

impl RingModel {
    /// Head and tail are slots of the buffer, and the status agrees with them.
    pub open spec fn wf(self) -> bool {
        &&& self.arr.len() == RING_BUFFER_SIZE
        &&& 0 <= self.head < RING_BUFFER_SIZE
        &&& 0 <= self.tail < RING_BUFFER_SIZE
        &&& (self.status == RingBufferStatus::Normal <==> self.head != self.tail)
    }

    /// Number of buffered bytes.
    pub open spec fn count(self) -> int {
        if self.status == RingBufferStatus::Empty {
            0
        } else if self.tail > self.head {
            self.tail - self.head
        } else {
            self.tail + RING_BUFFER_SIZE - self.head
        }
    }

    /// The buffered bytes, oldest first.
    pub open spec fn contents(self) -> Seq<u8> {
        Seq::new(self.count() as nat, |i: int| self.arr[(self.head + i) % (RING_BUFFER_SIZE as int)])
    }

    /// The state after writing `byte`.
    pub open spec fn write_spec(self, byte: u8) -> RingModel {
        let tail = (self.tail + 1) % (RING_BUFFER_SIZE as int);
        RingModel {
            arr: self.arr.update(self.tail, byte),
            head: self.head,
            tail: tail,
            status: if tail == self.head { RingBufferStatus::Full } else { RingBufferStatus::Normal },
        }
    }

    /// The state after reading one byte, and the byte read.
    pub open spec fn read_spec(self) -> (RingModel, u8) {
        let head = (self.head + 1) % (RING_BUFFER_SIZE as int);
        (RingModel {
            arr: self.arr,
            head: head,
            tail: self.tail,
            status: if head == self.tail { RingBufferStatus::Empty } else { RingBufferStatus::Normal },
        }, self.arr[self.head])
    }
}

/// Law: the number of bytes that can be read plus the number that can be
/// written is always the capacity, and the buffered bytes are never more
/// than the capacity.
pub proof fn lemma_ring_capacity(r: RingModel)
    requires
        r.wf(),
    ensures
        0 <= r.count() <= RING_BUFFER_SIZE,
        r.status == RingBufferStatus::Full ==> r.count() == RING_BUFFER_SIZE,
        r.status == RingBufferStatus::Empty ==> r.count() == 0,
        r.status == RingBufferStatus::Normal ==> 0 < r.count() < RING_BUFFER_SIZE,
{
}

/// Law (first in, first out): writing a byte into a buffer that is not full
/// appends it to the buffered bytes, and reading from a buffer that is not
/// empty yields the oldest buffered byte and removes it.
pub proof fn lemma_ring_fifo(r: RingModel, byte: u8)
    requires
        r.wf(),
    ensures
        r.status != RingBufferStatus::Full ==> r.write_spec(byte).wf() && r.write_spec(byte).contents()
            == r.contents().push(byte),
        r.status == RingBufferStatus::Full ==> r.write_spec(byte).wf() && r.write_spec(byte).contents()
            == seq![byte],
        r.status != RingBufferStatus::Empty ==> r.read_spec().0.wf() && r.read_spec().1 == r.contents()[0]
            && r.read_spec().0.contents() == r.contents().drop_first(),
{
    let n = RING_BUFFER_SIZE as int;
    let w = r.write_spec(byte);
    if r.status != RingBufferStatus::Full {
        assert(w.count() == r.count() + 1);
        assert forall|i: int| 0 <= i < w.count() implies #[trigger] w.contents()[i] == r.contents().push(byte)[i] by {
            if i < r.count() {
                assert((r.head + i) % n != r.tail);
            } else {
                assert((r.head + i) % n == r.tail);
            }
        }
        assert(w.contents() =~= r.contents().push(byte));
    } else {
        assert(w.count() == 1);
        assert(w.contents() =~= seq![byte]);
    }
    if r.status != RingBufferStatus::Empty {
        let (s, b) = r.read_spec();
        assert(r.contents()[0] == r.arr[r.head % n]);
        assert(s.count() == r.count() - 1);
        assert forall|i: int| 0 <= i < s.count() implies #[trigger] s.contents()[i] == r.contents().drop_first()[i] by {
            assert((s.head + i) % n == (r.head + (i + 1)) % n);
        }
        assert(s.contents() =~= r.contents().drop_first());
    }
}

/// A weak reference to the write end of a pipe. `std::sync::Weak` carries an
/// allocator parameter that Verus cannot declare, so the reference is held
/// opaquely.
#[verifier::external_body]
pub struct WriteEndRef {
    inner: Weak<Pipe>,
}

/// `std::sync::Arc::downgrade`: a weak reference to the write end.
#[verifier::external_body]
fn arc_downgrade(this: &Arc<Pipe>) -> WriteEndRef {
    WriteEndRef { inner: Arc::downgrade(this) }
}

/// `std::sync::Weak::upgrade`: a strong reference to the write end while
/// some owner still holds one. That depends on the other owners of the
/// write end, so nothing is stated of the result.
#[verifier::external_body]
fn weak_upgrade(this: &WriteEndRef) -> Option<Arc<Pipe>> {
    this.inner.upgrade()
}

/// The ring buffer shared by the two ends of a pipe.
pub struct PipeRingBuffer {
    arr: [u8; 32],
    head: usize,
    tail: usize,
    status: RingBufferStatus,
    write_end: Option<WriteEndRef>,
}

impl View for PipeRingBuffer {
    type V = RingModel;

    closed spec fn view(&self) -> RingModel {
        RingModel { arr: self.arr@, head: self.head as int, tail: self.tail as int, status: self.status }
    }
}

impl PipeRingBuffer {
    /// An empty buffer.
    pub fn new() -> (b: Self)
        ensures
            b@.wf(),
            b@.contents() == Seq::<u8>::empty(),
            b@.status == RingBufferStatus::Empty,
            b@.head == 0,
            b@.tail == 0,
            !b.has_write_end(),
    {
        PipeRingBuffer { arr: [0u8; 32], head: 0, tail: 0, status: RingBufferStatus::Empty, write_end: None }
    }

    /// Appends `byte` at the tail. Writing into a full buffer overwrites the
    /// oldest byte and leaves only `byte` buffered.
    pub fn write_byte(&mut self, byte: u8)
        requires
            old(self)@.wf(),
        ensures
            final(self)@ == old(self)@.write_spec(byte),
            final(self)@.wf(),
            final(self).has_write_end() == old(self).has_write_end(),
    {
        self.status = RingBufferStatus::Normal;
        self.arr[self.tail] = byte;
        self.tail = (self.tail + 1) % RING_BUFFER_SIZE;
        if self.tail == self.head {
            self.status = RingBufferStatus::Full;
        }
    }

    /// Takes the byte at the head. Reading from an empty buffer yields a stale
    /// slot and leaves the buffer holding stale bytes.
    pub fn read_byte(&mut self) -> (byte: u8)
        requires
            old(self)@.wf(),
        ensures
            (final(self)@, byte) == old(self)@.read_spec(),
            final(self)@.wf(),
            final(self).has_write_end() == old(self).has_write_end(),
    {
        self.status = RingBufferStatus::Normal;
        let c = self.arr[self.head];
        self.head = (self.head + 1) % RING_BUFFER_SIZE;
        if self.head == self.tail {
            self.status = RingBufferStatus::Empty;
        }
        c
    }

    /// Whether a write end has been attached.
    pub closed spec fn has_write_end(&self) -> bool {
        self.write_end is Some
    }

    /// Attaches the write end, held weakly so that the buffer can tell when
    /// every writer has closed it.
    pub fn set_write_end(&mut self, write_end: &Arc<Pipe>)
        requires
            old(self)@.wf(),
        ensures
            final(self)@ == old(self)@,
            final(self).has_write_end(),
    {
        self.write_end = Some(arc_downgrade(write_end));
    }

    /// Whether every holder of the write end has dropped it. The write end
    /// must have been attached.
    pub fn all_write_end_closed(&self) -> bool
        requires
            self.has_write_end(),
    {
        match &self.write_end {
            Some(w) => weak_upgrade(w).is_none(),
            None => true,
        }
    }

    /// Number of bytes that can be read.
    pub fn available_read(&self) -> (n: usize)
        requires
            self@.wf(),
        ensures
            n == self@.count(),
    {
        if self.status == RingBufferStatus::Empty {
            0
        } else if self.tail > self.head {
            self.tail - self.head
        } else {
            self.tail + RING_BUFFER_SIZE - self.head
        }
    }

    /// Number of bytes that can be written without overwriting.
    pub fn available_write(&self) -> (n: usize)
        requires
            self@.wf(),
        ensures
            n == RING_BUFFER_SIZE - self@.count(),
    {
        if self.status == RingBufferStatus::Full {
            0
        } else {
            RING_BUFFER_SIZE - self.available_read()
        }
    }
}

/// One end of a pipe.
pub struct Pipe {
    readable: bool,
    writeable: bool,
    buffer: Arc<UpIntrFreeCell<PipeRingBuffer>>,
}

impl Pipe {
    /// Whether this end reads.
    pub closed spec fn is_readable(&self) -> bool {
        self.readable
    }

    /// Whether this end writes.
    pub closed spec fn is_writeable(&self) -> bool {
        self.writeable
    }

    /// Whether this end reads.
    pub fn readable(&self) -> (r: bool)
        ensures
            r == self.is_readable(),
    {
        self.readable
    }

    /// Whether this end writes.
    pub fn writable(&self) -> (r: bool)
        ensures
            r == self.is_writeable(),
    {
        self.writeable
    }

    /// The read end over `buffer`.
    pub fn read_end_with_buffer(buffer: Arc<UpIntrFreeCell<PipeRingBuffer>>) -> (p: Self)
        ensures
            p.is_readable(),
            !p.is_writeable(),
    {
        Pipe { readable: true, writeable: false, buffer }
    }

    /// The write end over `buffer`.
    pub fn write_end_with_buffer(buffer: Arc<UpIntrFreeCell<PipeRingBuffer>>) -> (p: Self)
        ensures
            !p.is_readable(),
            p.is_writeable(),
    {
        Pipe { readable: false, writeable: true, buffer }
    }
}

/// What the driver of a pipe read or write does after one round.
#[derive(Copy, Clone, Debug, PartialEq, Eq, Structural)]
pub enum PipeStep {
    /// The transfer is over; the value is the number of bytes moved in total.
    Done(usize),
    /// Progress was made; run another round at once.
    Again,
    /// Nothing can move now; yield the processor, then run another round.
    Wait,
}

/// One round of reading from a pipe into `dst`, which wants `want` bytes in
/// all, given whether every writer has closed the pipe: moves as many
/// buffered bytes as `dst` still wants. With nothing buffered, the read is
/// over if the writers are gone and must wait otherwise.
pub fn pipe_read_round(ring: &mut PipeRingBuffer, dst: &mut Vec<u8>, want: usize, writers_closed: bool) -> (step: PipeStep)
    requires
        old(ring)@.wf(),
        old(dst)@.len() <= want,
    ensures
        final(ring)@.wf(),
        final(ring).has_write_end() == old(ring).has_write_end(),
        old(ring)@.count() == 0 ==> {
            &&& final(ring)@ == old(ring)@
            &&& final(dst)@ == old(dst)@
            &&& step == if writers_closed { PipeStep::Done(old(dst)@.len() as usize) } else { PipeStep::Wait }
        },
        old(ring)@.count() > 0 ==> {
            let k = if old(ring)@.count() < want - old(dst)@.len() {
                old(ring)@.count()
            } else {
                want - old(dst)@.len()
            };
            &&& final(dst)@ == old(dst)@ + old(ring)@.contents().take(k)
            &&& final(ring)@.contents() == old(ring)@.contents().skip(k)
            &&& step == if old(dst)@.len() + k == want { PipeStep::Done(want) } else { PipeStep::Again }
        },
{
    let loop_read = ring.available_read();
    if loop_read == 0 {
        if writers_closed {
            return PipeStep::Done(dst.len());
        }
        return PipeStep::Wait;
    }
    let remaining = want - dst.len();
    let k = if loop_read < remaining { loop_read } else { remaining };
    let ghost c0 = ring@.contents();
    let ghost d0 = dst@;
    let mut i: usize = 0;
    while i < k
        invariant
            loop_read == c0.len(),
            k <= loop_read,
            i <= k,
            d0.len() + k <= want,
            ring@.wf(),
            ring.has_write_end() == old(ring).has_write_end(),
            dst@ == d0 + c0.take(i as int),
            ring@.contents() == c0.skip(i as int),
        decreases k - i,
    {
        proof {
            lemma_ring_capacity(ring@);
            assert(ring@.contents().len() == c0.len() - i);
            assert(ring@.count() > 0);
            assert(ring@.status != RingBufferStatus::Empty);
            lemma_ring_fifo(ring@, 0u8);
            assert(c0.skip(i as int)[0] == c0[i as int]);
            assert(ring@.read_spec().1 == c0[i as int]);
        }
        let byte = ring.read_byte();
        dst.push(byte);
        proof {
            assert(byte == c0[i as int]);
            assert(dst@ =~= d0 + c0.take(i + 1));
            assert(c0.skip(i as int).drop_first() =~= c0.skip(i + 1));
        }
        i = i + 1;
    }
    if dst.len() == want {
        PipeStep::Done(want)
    } else {
        PipeStep::Again
    }
}

/// One round of reading from a pipe into `dst`, which wants `want` bytes in
/// all: asks whether every writer has closed the pipe, then reads as
/// `pipe_read_round` does with that answer. Whether the writers are gone is
/// decided by reference counts held elsewhere, so the contract states what
/// holds either way.
pub fn pipe_read_step(ring: &mut PipeRingBuffer, dst: &mut Vec<u8>, want: usize) -> (step: PipeStep)
    requires
        old(ring)@.wf(),
        old(ring).has_write_end(),
        old(dst)@.len() <= want,
    ensures
        final(ring)@.wf(),
        final(ring).has_write_end(),
        old(ring)@.count() == 0 ==> {
            &&& final(ring)@ == old(ring)@
            &&& final(dst)@ == old(dst)@
            &&& (step == PipeStep::Done(old(dst)@.len() as usize) || step == PipeStep::Wait)
        },
        old(ring)@.count() > 0 ==> {
            let k = if old(ring)@.count() < want - old(dst)@.len() {
                old(ring)@.count()
            } else {
                want - old(dst)@.len()
            };
            &&& final(dst)@ == old(dst)@ + old(ring)@.contents().take(k)
            &&& final(ring)@.contents() == old(ring)@.contents().skip(k)
            &&& step == if old(dst)@.len() + k == want { PipeStep::Done(want) } else { PipeStep::Again }
        },
{
    let closed = ring.all_write_end_closed();
    pipe_read_round(ring, dst, want, closed)
}

/// One round of writing `src[written..]` into a pipe: moves as many bytes as
/// the buffer has room for, or must wait when the buffer is full.
pub fn pipe_write_step(ring: &mut PipeRingBuffer, src: &[u8], written: usize) -> (step: PipeStep)
    requires
        old(ring)@.wf(),
        written <= src@.len(),
    ensures
        final(ring)@.wf(),
        final(ring).has_write_end() == old(ring).has_write_end(),
        old(ring)@.count() == RING_BUFFER_SIZE ==> final(ring)@ == old(ring)@ && step == PipeStep::Wait,
        old(ring)@.count() < RING_BUFFER_SIZE ==> {
            let room = RING_BUFFER_SIZE - old(ring)@.count();
            let k = if room < src@.len() - written { room } else { src@.len() - written };
            &&& final(ring)@.contents() == old(ring)@.contents() + src@.subrange(written as int, written + k)
            &&& step == if written + k == src@.len() { PipeStep::Done(src@.len() as usize) } else { PipeStep::Again }
        },
{
    proof {
        lemma_ring_capacity(ring@);
    }
    let loop_write = ring.available_write();
    if loop_write == 0 {
        return PipeStep::Wait;
    }
    let left = src.len() - written;
    let k = if loop_write < left { loop_write } else { left };
    let ghost c0 = ring@.contents();
    let mut done = written;
    let mut i: usize = 0;
    while i < k
        invariant
            loop_write == RING_BUFFER_SIZE - c0.len(),
            c0.len() < RING_BUFFER_SIZE,
            k <= loop_write,
            written + k <= src@.len(),
            i <= k,
            done == written + i,
            ring@.wf(),
            ring.has_write_end() == old(ring).has_write_end(),
            ring@.contents() == c0 + src@.subrange(written as int, done as int),
        decreases k - i,
    {
        proof {
            lemma_ring_capacity(ring@);
            assert(ring@.contents().len() == c0.len() + i);
            assert(ring@.count() < RING_BUFFER_SIZE);
            assert(ring@.status != RingBufferStatus::Full);
            lemma_ring_fifo(ring@, src@[done as int]);
        }
        ring.write_byte(src[done]);
        proof {
            assert(ring@.contents() =~= c0 + src@.subrange(written as int, done + 1));
        }
        done = done + 1;
        i = i + 1;
    }
    if done == src.len() {
        PipeStep::Done(src.len())
    } else {
        PipeStep::Again
    }
}

} // verus!
