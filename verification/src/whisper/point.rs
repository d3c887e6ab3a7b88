use vstd::prelude::*;
use super::endian::{be_bytes, be_u32_at, push_u32, read_u32_at, lemma_be_round_trip};

verus! {

/// Bytes that one stored point takes: a 4-byte timestamp and an 8-byte value.
pub const POINT_SIZE: usize = 12;

/// One sample. The value is carried as the bit pattern of an IEEE-754
/// double, which is how it is stored; the engine never looks inside it.
#[derive(PartialEq, Eq, Structural, Debug, Clone, Copy)]
pub struct Point {
    pub timestamp: u64,
    pub value: u64,
}

impl Point {
    pub fn new(timestamp: u64, value: u64) -> (p: Point)
        ensures
            p.timestamp == timestamp,
            p.value == value,
    {
        Point { timestamp, value }
    }
}

/// What a 12-byte record decodes to: a big-endian 32-bit timestamp, then
/// the 64 bits of the value, most significant half first.
pub open spec fn spec_slice_to_point(s: Seq<u8>) -> Point {
    Point {
        timestamp: be_u32_at(s, 0) as u64,
        value: (be_u32_at(s, 4) * 0x1_0000_0000 + be_u32_at(s, 8)) as u64,
    }
}

impl Point {
    /// The 12 bytes of the record of a point whose timestamp fits 32 bits.
    pub open spec fn spec_to_bytes(&self) -> Seq<u8> {
        be_bytes(self.timestamp as int) + be_bytes(self.value as int / 0x1_0000_0000) + be_bytes(
            self.value as int % 0x1_0000_0000,
        )
    }

    /// The record of the point as an archive stores it, or `None` when the
    /// timestamp does not fit the 32 bits of a record.
    pub fn to_bytes(&self) -> (res: Option<Vec<u8>>)
        ensures
            res is Some <==> self.timestamp <= u32::MAX,
            res is Some ==> res->Some_0@ == self.spec_to_bytes() && res->Some_0@.len()
                == POINT_SIZE,
    {
        if self.timestamp > 0xFFFF_FFFF {
            return None;
        }
        let mut out: Vec<u8> = Vec::new();
        push_u32(&mut out, self.timestamp as u32);
        push_u32(&mut out, (self.value / 0x1_0000_0000) as u32);
        push_u32(&mut out, (self.value % 0x1_0000_0000) as u32);
        assert(out@ =~= self.spec_to_bytes());
        Some(out)
    }
}

/// Decodes one 12-byte record of an archive.
pub fn slice_to_point(buf: &[u8]) -> (p: Point)
    requires
        buf@.len() >= POINT_SIZE,
    ensures
        p == spec_slice_to_point(buf@),
        p.timestamp <= u32::MAX,
{
    let timestamp = read_u32_at(buf, 0);
    let high = read_u32_at(buf, 4);
    let low = read_u32_at(buf, 8);
    Point { timestamp: timestamp as u64, value: high as u64 * 0x1_0000_0000 + low as u64 }
}

/// A record decodes to the point it was made from.
pub proof fn lemma_point_round_trip(p: Point)
    requires
        p.timestamp <= u32::MAX,
    ensures
        p.spec_to_bytes().len() == 12,
        spec_slice_to_point(p.spec_to_bytes()) == p,
{
    let s = p.spec_to_bytes();
    let high = p.value as int / 0x1_0000_0000;
    let low = p.value as int % 0x1_0000_0000;
    lemma_be_round_trip(p.timestamp as int);
    lemma_be_round_trip(high);
    lemma_be_round_trip(low);
    assert(be_u32_at(s, 0) == be_u32_at(be_bytes(p.timestamp as int), 0));
    assert(be_u32_at(s, 4) == be_u32_at(be_bytes(high), 0));
    assert(be_u32_at(s, 8) == be_u32_at(be_bytes(low), 0));
}

} // verus!
