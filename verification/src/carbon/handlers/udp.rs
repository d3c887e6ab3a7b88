//! The receive buffer of the datagram listener.

use vstd::prelude::*;
use vstd::slice::slice_subrange;

verus! {

/// Bytes that the receive buffer holds.
pub const BUFFER_SIZE: usize = 8192;

/// A zeroed receive buffer of `BUFFER_SIZE` bytes.
pub fn create_buffer() -> (buf: Vec<u8>)
    ensures
        buf@.len() == BUFFER_SIZE,
        forall|i: int| 0 <= i < buf@.len() ==> buf@[i] == 0,
{
    let mut buf: Vec<u8> = Vec::new();
    let mut i: usize = 0;
    while i < BUFFER_SIZE
        invariant
            i <= BUFFER_SIZE,
            buf@.len() == i,
            forall|j: int| 0 <= j < buf@.len() ==> buf@[j] == 0,
        decreases BUFFER_SIZE - i,
    {
        buf.push(0);
        i = i + 1;
    }
    buf
}

/// The datagram that a receive of `bytes_read` bytes left in `buf`: its
/// first `bytes_read` bytes and nothing of what the buffer held before.
pub fn datagram(buf: &[u8], bytes_read: usize) -> (received: &[u8])
    requires
        bytes_read <= buf@.len(),
    ensures
        received@ == buf@.take(bytes_read as int),
{
    let received = slice_subrange(buf, 0, bytes_read);
    assert(received@ =~= buf@.take(bytes_read as int));
    received
}

} // verus!
