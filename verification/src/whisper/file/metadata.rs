use vstd::prelude::*;
use crate::whisper::endian::{be_bytes, be_u32_at, push_u32, read_u32_at, lemma_be_round_trip};

verus! {

/// Bytes that the metadata block takes at the start of a file.
pub const METADATA_SIZE: usize = 16;

/// How the points of a finer archive are folded into one coarser point.
#[derive(PartialEq, Eq, Structural, Debug, Clone, Copy)]
pub enum AggregationType {
    Average,
    Sum,
    Last,
    Max,
    Min,
}

/// The fixed fields at the start of a file. `x_files_factor` is the bit
/// pattern of an IEEE-754 single, as it is stored.
#[derive(PartialEq, Eq, Structural, Debug, Clone, Copy)]
pub struct Metadata {
    pub aggregation_type: AggregationType,
    pub max_retention: u64,
    pub x_files_factor: u32,
    pub archive_count: u32,
}

/// The method that a stored code stands for.
pub open spec fn spec_aggregation_from_code(code: int) -> Option<AggregationType> {
    if code == 1 {
        Some(AggregationType::Average)
    } else if code == 2 {
        Some(AggregationType::Sum)
    } else if code == 3 {
        Some(AggregationType::Last)
    } else if code == 4 {
        Some(AggregationType::Max)
    } else if code == 5 {
        Some(AggregationType::Min)
    } else {
        None
    }
}

/// What a 16-byte metadata block decodes to; nothing when its first field
/// is no aggregation method.
pub open spec fn spec_slice_to_metadata(s: Seq<u8>) -> Option<Metadata> {
    match spec_aggregation_from_code(be_u32_at(s, 0)) {
        None => None,
        Some(aggregation_type) => Some(
            Metadata {
                aggregation_type,
                max_retention: be_u32_at(s, 4) as u64,
                x_files_factor: be_u32_at(s, 8) as u32,
                archive_count: be_u32_at(s, 12) as u32,
            },
        ),
    }
}

impl AggregationType {
    /// The code under which the method is stored.
    pub open spec fn spec_code(&self) -> int {
        match self {
            AggregationType::Average => 1,
            AggregationType::Sum => 2,
            AggregationType::Last => 3,
            AggregationType::Max => 4,
            AggregationType::Min => 5,
        }
    }

    pub fn code(&self) -> (c: u32)
        ensures
            c as int == self.spec_code(),
    {
        match self {
            AggregationType::Average => 1,
            AggregationType::Sum => 2,
            AggregationType::Last => 3,
            AggregationType::Max => 4,
            AggregationType::Min => 5,
        }
    }

    pub fn from_code(code: u32) -> (res: Option<AggregationType>)
        ensures
            res == spec_aggregation_from_code(code as int),
    {
        if code == 1 {
            Some(AggregationType::Average)
        } else if code == 2 {
            Some(AggregationType::Sum)
        } else if code == 3 {
            Some(AggregationType::Last)
        } else if code == 4 {
            Some(AggregationType::Max)
        } else if code == 5 {
            Some(AggregationType::Min)
        } else {
            None
        }
    }
}

impl Metadata {
    /// The longest retention fits the 32-bit field it is stored in.
    pub open spec fn wf(&self) -> bool {
        self.max_retention <= u32::MAX
    }

    /// The 16 bytes of the block.
    pub open spec fn spec_to_bytes(&self) -> Seq<u8> {
        be_bytes(self.aggregation_type.spec_code()) + be_bytes(self.max_retention as int)
            + be_bytes(self.x_files_factor as int) + be_bytes(self.archive_count as int)
    }

    /// The block as it stands at the start of a file.
    pub fn to_bytes(&self) -> (out: Vec<u8>)
        requires
            self.wf(),
        ensures
            out@ == self.spec_to_bytes(),
            out@.len() == METADATA_SIZE,
    {
        let mut out: Vec<u8> = Vec::new();
        push_u32(&mut out, self.aggregation_type.code());
        push_u32(&mut out, self.max_retention as u32);
        push_u32(&mut out, self.x_files_factor);
        push_u32(&mut out, self.archive_count);
        assert(out@ =~= self.spec_to_bytes());
        out
    }
}

/// Decodes the 16-byte metadata block; `None` when the aggregation code is
/// none of the five methods.
pub fn slice_to_metadata(buf: &[u8]) -> (res: Option<Metadata>)
    requires
        buf@.len() >= METADATA_SIZE,
    ensures
        res == spec_slice_to_metadata(buf@),
        res is Some ==> res->Some_0.wf(),
{
    let code = read_u32_at(buf, 0);
    let max_retention = read_u32_at(buf, 4);
    let x_files_factor = read_u32_at(buf, 8);
    let archive_count = read_u32_at(buf, 12);
    match AggregationType::from_code(code) {
        None => None,
        Some(aggregation_type) => Some(
            Metadata {
                aggregation_type,
                max_retention: max_retention as u64,
                x_files_factor,
                archive_count,
            },
        ),
    }
}

/// A metadata block decodes to the metadata it was made from.
pub proof fn lemma_metadata_round_trip(m: Metadata)
    requires
        m.wf(),
    ensures
        m.spec_to_bytes().len() == 16,
        spec_slice_to_metadata(m.spec_to_bytes()) == Some(m),
{
    let s = m.spec_to_bytes();
    lemma_be_round_trip(m.aggregation_type.spec_code());
    lemma_be_round_trip(m.max_retention as int);
    lemma_be_round_trip(m.x_files_factor as int);
    lemma_be_round_trip(m.archive_count as int);
    assert(be_u32_at(s, 0) == be_u32_at(be_bytes(m.aggregation_type.spec_code()), 0));
    assert(be_u32_at(s, 4) == be_u32_at(be_bytes(m.max_retention as int), 0));
    assert(be_u32_at(s, 8) == be_u32_at(be_bytes(m.x_files_factor as int), 0));
    assert(be_u32_at(s, 12) == be_u32_at(be_bytes(m.archive_count as int), 0));
}

} // verus!
