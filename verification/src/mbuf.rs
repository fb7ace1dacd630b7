//! The owned handle to a packet buffer.

use vstd::prelude::*;

verus! {

/// An owned handle to one packet buffer.
///
/// The handle is move-only: it is neither `Clone` nor `Copy`, so at any instant
/// exactly one operator, batch or error value holds a given buffer. The
/// identity of the buffer is fixed for its whole life, whatever is written to
/// its bytes.
#[derive(Debug)]
pub struct Mbuf {
    id: u64,
    data: Vec<u8>,
}

impl View for Mbuf {
    type V = Seq<u8>;

    /// The bytes the buffer holds.
    closed spec fn view(&self) -> Seq<u8> {
        self.data@
    }
}

impl Mbuf {
    /// The identity of the buffer.
    pub closed spec fn id(&self) -> u64 {
        self.id
    }

    /// Takes ownership of `data` as the contents of the buffer `id`.
    pub fn new(id: u64, data: Vec<u8>) -> (buffer: Mbuf)
        ensures
            buffer.id() == id,
            buffer@ == data@,
    {
        Mbuf { id, data }
    }

    /// Copies `data` into a fresh buffer with the identity `id`.
    pub fn from_bytes(id: u64, data: &[u8]) -> (buffer: Mbuf)
        ensures
            buffer.id() == id,
            buffer@ == data@,
    {
        let mut bytes: Vec<u8> = Vec::with_capacity(data.len());
        let mut i: usize = 0;
        while i < data.len()
            invariant
                i <= data.len(),
                bytes@ == data@.take(i as int),
            decreases data.len() - i,
        {
            bytes.push(data[i]);
            i += 1;
        }
        Mbuf { id, data: bytes }
    }

    /// The identity of the buffer.
    pub fn handle(&self) -> (id: u64)
        ensures
            id == self.id(),
    {
        self.id
    }

    /// The number of bytes the buffer holds.
    pub fn data_len(&self) -> (len: usize)
        ensures
            len == self@.len(),
    {
        self.data.len()
    }

    /// The bytes the buffer holds.
    pub fn data(&self) -> (bytes: &[u8])
        ensures
            bytes@ == self@,
    {
        self.data.as_slice()
    }
}

} // verus!
