use vstd::prelude::*;
use vstd::slice::slice_subrange;
use byteorder::{BigEndian, ByteOrder};

verus! {

/// The number that four bytes spell, most significant byte first.
pub open spec fn be_u32(b0: u8, b1: u8, b2: u8, b3: u8) -> int {
    b0 as int * 0x100_0000 + b1 as int * 0x1_0000 + b2 as int * 0x100 + b3 as int
}

/// The big-endian number held by the four bytes of `s` that start at `i`.
pub open spec fn be_u32_at(s: Seq<u8>, i: int) -> int {
    be_u32(s[i], s[i + 1], s[i + 2], s[i + 3])
}

/// The four bytes that spell `n`, most significant byte first.
pub open spec fn be_bytes(n: int) -> Seq<u8> {
    seq![
        ((n / 0x100_0000) % 0x100) as u8,
        ((n / 0x1_0000) % 0x100) as u8,
        ((n / 0x100) % 0x100) as u8,
        (n % 0x100) as u8,
    ]
}

/// Reading back what `be_bytes` spelled gives the number again.
pub proof fn lemma_be_round_trip(n: int)
    requires
        0 <= n <= u32::MAX,
    ensures
        be_bytes(n).len() == 4,
        be_u32_at(be_bytes(n), 0) == n,
{
}

/// Calls `byteorder::BigEndian::read_u32`, which reads the first four bytes
/// of the slice as a big-endian number and panics on a shorter slice.
#[verifier::external_body]
fn read_u32_be(buf: &[u8]) -> (r: u32)
    requires
        buf@.len() >= 4,
    ensures
        r as int == be_u32_at(buf@, 0),
{
    BigEndian::read_u32(buf)
}

/// Calls `byteorder::BigEndian::write_u32` on a fresh four-byte buffer, which
/// fills it with the big-endian spelling of `n`.
#[verifier::external_body]
fn write_u32_be(n: u32) -> (r: [u8; 4])
    ensures
        r@ == be_bytes(n as int),
{
    let mut buf: [u8; 4] = [0u8; 4];
    BigEndian::write_u32(&mut buf, n);
    buf
}

/// The big-endian number at byte `at` of `buf`.
pub fn read_u32_at(buf: &[u8], at: usize) -> (r: u32)
    requires
        at + 4 <= buf@.len(),
    ensures
        r as int == be_u32_at(buf@, at as int),
{
    let len = buf.len();
    assert(at + 4 <= len);
    let part = slice_subrange(buf, at, at + 4);
    read_u32_be(part)
}

/// Appends the big-endian spelling of `n` to `out`.
pub fn push_u32(out: &mut Vec<u8>, n: u32)
    ensures
        final(out)@ == old(out)@ + be_bytes(n as int),
{
    let bytes = write_u32_be(n);
    out.push(bytes[0]);
    out.push(bytes[1]);
    out.push(bytes[2]);
    out.push(bytes[3]);
    assert(out@ =~= old(out)@ + be_bytes(n as int));
}

} // verus!
