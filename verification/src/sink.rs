//! Streaming output: an abstract byte sink and two in-memory sinks.

use vstd::prelude::*;

verus! {

/// An abstract destination that accepts sequential writes of byte chunks.
/// A write may fail with the sink's own error; the encoder propagates it.
pub trait ByteSink {
    type Error;

    /// The bytes the sink has accepted so far.
    spec fn sunk(&self) -> Seq<u8>;

    /// Whether this sink accepts every write.  An infallible sink never
    /// reports an error, and writing to it keeps it infallible.
    spec fn infallible(&self) -> bool;

    /// Writes one chunk.  On success the chunk stands appended to what the
    /// sink had accepted before; on failure the sink promises nothing about
    /// its state.
    fn write_chunk(&mut self, chunk: &[u8]) -> (r: Result<(), Self::Error>)
        ensures
            r is Ok ==> final(self).sunk() == old(self).sunk() + chunk@,
            old(self).infallible() ==> r is Ok && final(self).infallible(),
    ;
}

/// A sink that accepts every write into a growable buffer.
pub struct VecSink {
    pub bytes: Vec<u8>,
}

impl VecSink {
    /// A fresh, empty sink.
    pub fn new() -> (r: VecSink)
        ensures
            r.sunk() == Seq::<u8>::empty(),
    {
        VecSink { bytes: Vec::new() }
    }
}

impl ByteSink for VecSink {
    type Error = ();

    open spec fn sunk(&self) -> Seq<u8> {
        self.bytes@
    }

    open spec fn infallible(&self) -> bool {
        true
    }

    fn write_chunk(&mut self, chunk: &[u8]) -> (r: Result<(), ()>)
        ensures
            r is Ok,
            final(self).sunk() == old(self).sunk() + chunk@,
    {
        self.bytes.extend_from_slice(chunk);
        Ok(())
    }
}

/// A sink of fixed capacity: it refuses a write that would overflow it and
/// leaves its contents as they were.
pub struct BoundedSink {
    pub bytes: Vec<u8>,
    pub capacity: usize,
}

impl BoundedSink {
    /// A fresh sink that accepts at most `capacity` bytes in all.
    pub fn new(capacity: usize) -> (r: BoundedSink)
        ensures
            r.sunk() == Seq::<u8>::empty(),
            r.capacity == capacity,
    {
        BoundedSink { bytes: Vec::new(), capacity }
    }
}

impl ByteSink for BoundedSink {
    type Error = ();

    open spec fn sunk(&self) -> Seq<u8> {
        self.bytes@
    }

    open spec fn infallible(&self) -> bool {
        false
    }

    fn write_chunk(&mut self, chunk: &[u8]) -> (r: Result<(), ()>)
        ensures
            r is Ok ==> final(self).sunk() == old(self).sunk() + chunk@,
            r is Err ==> final(self).sunk() == old(self).sunk(),
            final(self).capacity == old(self).capacity,
            (r is Ok) == (old(self).sunk().len() + chunk@.len() <= old(self).capacity),
    {
        if chunk.len() <= self.capacity && self.bytes.len() <= self.capacity - chunk.len() {
            self.bytes.extend_from_slice(chunk);
            Ok(())
        } else {
            Err(())
        }
    }
}

} // verus!
