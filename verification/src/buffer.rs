use vstd::prelude::*;

verus! {

/// An append-only byte sequence with a fixed maximum capacity and an explicit
/// overflow signal. Both the encoder and the decoder write through it, so
/// neither can ever produce more bytes than the caller asked for.
pub struct BoundedBuffer {
    data: Vec<u8>,
    capacity: usize,
}

impl View for BoundedBuffer {
    type V = Seq<u8>;

    closed spec fn view(&self) -> Seq<u8> {
        self.data@
    }
}

impl BoundedBuffer {
    /// The fixed maximum number of bytes the buffer accepts.
    pub closed spec fn cap(&self) -> nat {
        self.capacity as nat
    }

    /// The buffer never holds more bytes than its capacity.
    pub open spec fn wf(&self) -> bool {
        self@.len() <= self.cap()
    }

    /// An empty buffer that will accept at most `capacity` bytes.
    pub fn new(capacity: usize) -> (r: Self)
        ensures
            r@ == Seq::<u8>::empty(),
            r.cap() == capacity,
            r.wf(),
    {
        BoundedBuffer { data: Vec::new(), capacity }
    }

    /// The number of bytes appended so far.
    pub fn len(&self) -> (r: usize)
        ensures
            r == self@.len(),
    {
        self.data.len()
    }

    /// The fixed maximum number of bytes the buffer accepts.
    pub fn capacity(&self) -> (r: usize)
        ensures
            r == self.cap(),
    {
        self.capacity
    }

    /// Appends one byte, or reports overflow and leaves the buffer unchanged.
    pub fn push(&mut self, byte: u8) -> (r: Result<(), ()>)
        ensures
            final(self).cap() == old(self).cap(),
            old(self)@.len() < old(self).cap() ==> r is Ok && final(self)@ == old(self)@.push(
                byte,
            ),
            old(self)@.len() >= old(self).cap() ==> r is Err && final(self)@ == old(self)@,
            old(self).wf() ==> final(self).wf(),
    {
        if self.data.len() < self.capacity {
            self.data.push(byte);
            Ok(())
        } else {
            Err(())
        }
    }

    /// Hands the appended bytes out as a plain vector.
    pub fn into_vec(self) -> (r: Vec<u8>)
        ensures
            r@ == self@,
    {
        self.data
    }
}

} // verus!
