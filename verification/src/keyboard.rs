//! Keyboard ring buffer. The keyboard interrupt pushes characters, the shell
//! pops them. One slot always stays empty, so the buffer holds at most
//! `BUFFER_SIZE - 1` bytes.
use vstd::prelude::*;

verus! {

pub const BUFFER_SIZE: usize = 256;

pub struct RingBuffer {
    data: [u8; 256],
    read_pos: usize,
    write_pos: usize,
}

impl View for RingBuffer {
    /// The queued bytes, oldest first.
    type V = Seq<u8>;

    closed spec fn view(&self) -> Seq<u8> {
        let len = (self.write_pos - self.read_pos + BUFFER_SIZE) % (BUFFER_SIZE as int);
        Seq::new(len as nat, |i: int| self.data@[(self.read_pos + i) % (BUFFER_SIZE as int)])
    }
}

impl RingBuffer {
    /// Both positions name a slot.
    pub closed spec fn positions_ok(&self) -> bool {
        &&& self.read_pos < BUFFER_SIZE
        &&& self.write_pos < BUFFER_SIZE
    }

    /// The positions name slots, and fewer than `BUFFER_SIZE` bytes are queued.
    pub open spec fn wf(&self) -> bool {
        &&& self.positions_ok()
        &&& self@.len() < BUFFER_SIZE
    }

    pub fn new() -> (r: RingBuffer)
        ensures
            r.wf(),
            r@ == Seq::<u8>::empty(),
    {
        let r = RingBuffer { data: [0; 256], read_pos: 0, write_pos: 0 };
        assert(r@ =~= Seq::<u8>::empty());
        r
    }

    /// Queue `byte` unless the buffer is full; report whether it was queued.
    pub fn push(&mut self, byte: u8) -> (r: bool)
        requires
            old(self).wf(),
        ensures
            final(self).wf(),
            r == (old(self)@.len() < BUFFER_SIZE - 1),
            r ==> final(self)@ == old(self)@.push(byte),
            !r ==> final(self)@ == old(self)@,
    {
        let next_write = (self.write_pos + 1) % BUFFER_SIZE;
        if next_write == self.read_pos {
            return false;
        }
        let ghost before = self@;
        self.data[self.write_pos] = byte;
        self.write_pos = next_write;
        assert(self@ =~= before.push(byte));
        true
    }

    /// Take the oldest queued byte, if any.
    pub fn pop(&mut self) -> (r: Option<u8>)
        requires
            old(self).wf(),
        ensures
            final(self).wf(),
            old(self)@.len() == 0 ==> r is None && final(self)@ == old(self)@,
            old(self)@.len() > 0 ==> r == Some(old(self)@[0]) && final(self)@ == old(self)@.drop_first(),
    {
        if self.read_pos == self.write_pos {
            return None;
        }
        let ghost before = self@;
        let byte = self.data[self.read_pos];
        self.read_pos = (self.read_pos + 1) % BUFFER_SIZE;
        assert(self@ =~= before.drop_first());
        Some(byte)
    }
}

/// What the keyboard interrupt does after a key press.
#[derive(Clone, Copy, Debug, PartialEq, Eq, Structural)]
pub enum PushOutcome {
    /// The byte is queued: processes waiting on stdin are to be woken.
    Queued,
    /// The buffer was full and the byte is dropped: a warning is due.
    Dropped,
}

/// Queue a character from the keyboard interrupt and say what follows.
pub fn push_char(buffer: &mut RingBuffer, c: u8) -> (r: PushOutcome)
    requires
        old(buffer).wf(),
    ensures
        final(buffer).wf(),
        old(buffer)@.len() < BUFFER_SIZE - 1 ==> r == PushOutcome::Queued && final(buffer)@ == old(buffer)@.push(c),
        old(buffer)@.len() >= BUFFER_SIZE - 1 ==> r == PushOutcome::Dropped && final(buffer)@ == old(buffer)@,
{
    if !buffer.push(c) {
        return PushOutcome::Dropped;
    }
    PushOutcome::Queued
}

/// Take the next character typed, if any.
pub fn pop_char(buffer: &mut RingBuffer) -> (r: Option<u8>)
    requires
        old(buffer).wf(),
    ensures
        final(buffer).wf(),
        old(buffer)@.len() == 0 ==> r is None && final(buffer)@ == old(buffer)@,
        old(buffer)@.len() > 0 ==> r == Some(old(buffer)@[0]) && final(buffer)@ == old(buffer)@.drop_first(),
{
    buffer.pop()
}

} // verus!
