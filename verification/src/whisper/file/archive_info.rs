use vstd::prelude::*;
use vstd::arithmetic::div_mod::{
    lemma_fundamental_div_mod, lemma_mod_multiples_basic, lemma_mod_multiples_vanish,
    lemma_small_mod, lemma_truncate_middle,
};
use crate::whisper::endian::{
    be_bytes, be_u32_at, lemma_be_round_trip, push_u32, read_u32_at,
};
use crate::whisper::point::Point;

verus! {

/// Bytes that one archive descriptor takes in the header.
pub const ARCHIVE_INFO_SIZE: usize = 12;

/// Where one archive lies in the file and how it is laid out.
#[derive(PartialEq, Eq, Structural, Debug, Clone, Copy)]
pub struct ArchiveInfo {
    pub offset: u64,
    pub seconds_per_point: u64,
    pub points: u64,
    pub retention: u64,
    pub size_in_bytes: u64,
}

/// Why a descriptor cannot describe an archive.
#[derive(PartialEq, Eq, Structural, Debug, Clone, Copy)]
pub enum ArchiveInfoError {
    /// The interval between points is zero.
    ZeroInterval,
    /// The archive holds no points.
    ZeroPoints,
    /// The archive would end beyond the largest file offset.
    TooLarge,
}

/// The descriptor of an archive at `offset` with `points` slots, one every
/// `seconds_per_point` seconds, or the reason why there is none.
pub open spec fn spec_archive_info(offset: int, seconds_per_point: int, points: int) -> Result<
    ArchiveInfo,
    ArchiveInfoError,
> {
    if seconds_per_point == 0 {
        Err(ArchiveInfoError::ZeroInterval)
    } else if points == 0 {
        Err(ArchiveInfoError::ZeroPoints)
    } else if offset + seconds_per_point * points * 12 > u64::MAX {
        Err(ArchiveInfoError::TooLarge)
    } else {
        Ok(
            ArchiveInfo {
                offset: offset as u64,
                seconds_per_point: seconds_per_point as u64,
                points: points as u64,
                retention: (seconds_per_point * points) as u64,
                size_in_bytes: (seconds_per_point * points * 12) as u64,
            },
        )
    }
}

/// What a 12-byte descriptor decodes to: three big-endian numbers, and the
/// two sizes derived from them.
pub open spec fn spec_slice_to_archive_info(s: Seq<u8>) -> Result<ArchiveInfo, ArchiveInfoError> {
    spec_archive_info(be_u32_at(s, 0), be_u32_at(s, 4), be_u32_at(s, 8))
}

/// The bucket start of `timestamp` at one point every `seconds_per_point`.
pub open spec fn spec_interval_ceiling(seconds_per_point: int, timestamp: int) -> int {
    timestamp - timestamp % seconds_per_point
}

impl ArchiveInfo {
    /// The three stored fields fit their 32-bit slots, the derived fields
    /// are what they derive from, and the archive ends at a file offset.
    pub open spec fn wf(&self) -> bool {
        &&& self.offset <= u32::MAX
        &&& 0 < self.seconds_per_point <= u32::MAX
        &&& 0 < self.points <= u32::MAX
        &&& self.retention == self.seconds_per_point * self.points
        &&& self.size_in_bytes == self.retention * 12
        &&& self.offset + self.size_in_bytes <= u64::MAX
    }

    /// The 12 bytes of the descriptor.
    pub open spec fn spec_to_bytes(&self) -> Seq<u8> {
        be_bytes(self.offset as int) + be_bytes(self.seconds_per_point as int) + be_bytes(
            self.points as int,
        )
    }

    /// The byte at which the slot of `timestamp` starts, in a ring whose
    /// first point was written at `base_timestamp`.
    pub open spec fn spec_seek(&self, timestamp: int, base_timestamp: int) -> int {
        if base_timestamp == 0 {
            self.offset as int
        } else {
            self.offset + (((timestamp - base_timestamp) / (self.seconds_per_point as int)) * 12)
                % (self.size_in_bytes as int)
        }
    }

    /// An archive from its three stored fields.
    pub fn new(offset: u32, seconds_per_point: u32, points: u32) -> (res: Result<
        ArchiveInfo,
        ArchiveInfoError,
    >)
        ensures
            res == spec_archive_info(offset as int, seconds_per_point as int, points as int),
            res is Ok ==> res->Ok_0.wf(),
    {
        if seconds_per_point == 0 {
            return Err(ArchiveInfoError::ZeroInterval);
        }
        if points == 0 {
            return Err(ArchiveInfoError::ZeroPoints);
        }
        assert(seconds_per_point as int * points as int <= 0xFFFF_FFFF * 0xFFFF_FFFF)
            by (nonlinear_arith)
            requires
                seconds_per_point <= 0xFFFF_FFFF,
                points <= 0xFFFF_FFFF,
        ;
        let retention: u64 = seconds_per_point as u64 * points as u64;
        match retention.checked_mul(12) {
            None => Err(ArchiveInfoError::TooLarge),
            Some(size_in_bytes) => {
                if size_in_bytes > u64::MAX - offset as u64 {
                    Err(ArchiveInfoError::TooLarge)
                } else {
                    Ok(
                        ArchiveInfo {
                            offset: offset as u64,
                            seconds_per_point: seconds_per_point as u64,
                            points: points as u64,
                            retention,
                            size_in_bytes,
                        },
                    )
                }
            },
        }
    }

    /// The descriptor as it stands in the header.
    pub fn to_bytes(&self) -> (out: Vec<u8>)
        requires
            self.wf(),
        ensures
            out@ == self.spec_to_bytes(),
            out@.len() == ARCHIVE_INFO_SIZE,
    {
        let mut out: Vec<u8> = Vec::new();
        push_u32(&mut out, self.offset as u32);
        push_u32(&mut out, self.seconds_per_point as u32);
        push_u32(&mut out, self.points as u32);
        assert(out@ =~= self.spec_to_bytes());
        out
    }

    /// The file offset of the slot that `point` belongs to. An archive that
    /// was never written (`base_timestamp == 0`) takes its first point at
    /// its start; afterwards slots follow each other and wrap round.
    pub fn calculate_seek(&self, point: &Point, base_timestamp: u64) -> (seek: u64)
        requires
            self.wf(),
            base_timestamp == 0 || base_timestamp <= point.timestamp,
        ensures
            seek as int == self.spec_seek(point.timestamp as int, base_timestamp as int),
            self.offset <= seek,
            base_timestamp != 0 ==> seek < self.offset + self.size_in_bytes,
            (seek - self.offset) % 12 == 0,
    {
        if base_timestamp == 0 {
            self.offset
        } else {
            let time_since_base_time: u64 = point.timestamp - base_timestamp;
            let points_away_from_base_time: u64 = time_since_base_time / self.seconds_per_point;
            proof {
                lemma_retention_positive(*self);
            }
            let slot: u64 = points_away_from_base_time % self.retention;
            proof {
                lemma_truncate_middle(
                    points_away_from_base_time as int,
                    12,
                    self.retention as int,
                );
                assert(12 * slot <= 12 * (self.retention - 1)) by (nonlinear_arith)
                    requires
                        slot <= self.retention - 1,
                ;
                assert((12 * points_away_from_base_time as int) == (points_away_from_base_time
                    as int) * 12);
                assert(12 * self.retention as int == self.size_in_bytes as int);
                lemma_mod_multiples_basic(slot as int, 12);
            }
            self.offset + 12 * slot
        }
    }

    /// The start of the bucket that `point` falls into: its timestamp
    /// rounded down to a multiple of the archive's interval.
    pub fn interval_ceiling(&self, point: &Point) -> (start: u64)
        requires
            self.seconds_per_point > 0,
        ensures
            start as int == spec_interval_ceiling(
                self.seconds_per_point as int,
                point.timestamp as int,
            ),
            start <= point.timestamp < start + self.seconds_per_point,
            start % self.seconds_per_point == 0,
    {
        proof {
            lemma_interval_ceiling(self.seconds_per_point as int, point.timestamp as int);
        }
        point.timestamp - (point.timestamp % self.seconds_per_point)
    }
}

/// Decodes one 12-byte archive descriptor.
pub fn slice_to_archive_info(buf: &[u8]) -> (res: Result<ArchiveInfo, ArchiveInfoError>)
    requires
        buf@.len() >= ARCHIVE_INFO_SIZE,
    ensures
        res == spec_slice_to_archive_info(buf@),
        res is Ok ==> res->Ok_0.wf(),
{
    let offset = read_u32_at(buf, 0);
    let seconds_per_point = read_u32_at(buf, 4);
    let points = read_u32_at(buf, 8);
    ArchiveInfo::new(offset, seconds_per_point, points)
}

/// A descriptor decodes to the archive it was made from.
pub proof fn lemma_archive_info_round_trip(a: ArchiveInfo)
    requires
        a.wf(),
    ensures
        a.spec_to_bytes().len() == 12,
        spec_slice_to_archive_info(a.spec_to_bytes()) == Ok::<ArchiveInfo, ArchiveInfoError>(a),
{
    let s = a.spec_to_bytes();
    lemma_be_round_trip(a.offset as int);
    lemma_be_round_trip(a.seconds_per_point as int);
    lemma_be_round_trip(a.points as int);
    assert(be_u32_at(s, 0) == be_u32_at(be_bytes(a.offset as int), 0));
    assert(be_u32_at(s, 4) == be_u32_at(be_bytes(a.seconds_per_point as int), 0));
    assert(be_u32_at(s, 8) == be_u32_at(be_bytes(a.points as int), 0));
    assert(a.seconds_per_point * a.points * 12 == a.retention * 12);
}

/// A well-formed archive spans at least one second.
pub proof fn lemma_retention_positive(a: ArchiveInfo)
    requires
        a.wf(),
    ensures
        a.retention >= a.points,
        a.retention > 0,
        a.size_in_bytes > 0,
{
    assert(a.seconds_per_point * a.points >= a.points) by (nonlinear_arith)
        requires
            a.seconds_per_point >= 1,
            a.points >= 1,
    ;
}

/// A bucket start is a multiple of the interval, at most one interval
/// below the timestamp.
pub proof fn lemma_interval_ceiling(seconds_per_point: int, timestamp: int)
    requires
        seconds_per_point > 0,
        timestamp >= 0,
    ensures
        0 <= spec_interval_ceiling(seconds_per_point, timestamp) <= timestamp,
        timestamp < spec_interval_ceiling(seconds_per_point, timestamp) + seconds_per_point,
        spec_interval_ceiling(seconds_per_point, timestamp) % seconds_per_point == 0,
{
    lemma_fundamental_div_mod(timestamp, seconds_per_point);
    lemma_mod_multiples_basic(timestamp / seconds_per_point, seconds_per_point);
    assert(timestamp - timestamp % seconds_per_point == seconds_per_point * (timestamp
        / seconds_per_point));
    assert(seconds_per_point * (timestamp / seconds_per_point) == (timestamp / seconds_per_point)
        * seconds_per_point) by (nonlinear_arith);
}

/// Rounding a bucket start down again leaves it where it is.
pub proof fn lemma_interval_ceiling_idempotent(seconds_per_point: int, timestamp: int)
    requires
        seconds_per_point > 0,
        timestamp >= 0,
    ensures
        spec_interval_ceiling(
            seconds_per_point,
            spec_interval_ceiling(seconds_per_point, timestamp),
        ) == spec_interval_ceiling(seconds_per_point, timestamp),
{
    lemma_interval_ceiling(seconds_per_point, timestamp);
}

/// In a written ring the `k`-th interval after the base lands `k` slots
/// in, counted round the archive's span in seconds.
pub proof fn lemma_seek_slot(a: ArchiveInfo, base_timestamp: int, k: int)
    requires
        a.wf(),
        base_timestamp > 0,
        k >= 0,
    ensures
        a.spec_seek(base_timestamp + k * a.seconds_per_point, base_timestamp) == a.offset + 12 * (k
            % (a.retention as int)),
{
    let spp = a.seconds_per_point as int;
    let r = a.retention as int;
    lemma_retention_positive(a);
    assert((k * spp) / spp == k) by (nonlinear_arith)
        requires
            spp > 0,
    ;
    lemma_truncate_middle(k, 12, r);
    assert(12 * k == k * 12);
    assert(12 * r == a.size_in_bytes as int);
}

/// The `k`-th interval after the base lands in slot `k mod points`: in a
/// written ring while `k`, counted round the span in seconds, stays below
/// the capacity, and in a ring never written for each `k` that is a
/// multiple of the capacity.
pub proof fn lemma_seek_wraparound(a: ArchiveInfo, base_timestamp: int, k: int)
    requires
        a.wf(),
        base_timestamp >= 0,
        k >= 0,
        base_timestamp > 0 ==> k % (a.retention as int) < a.points,
        base_timestamp == 0 ==> k % (a.points as int) == 0,
    ensures
        a.spec_seek(base_timestamp + k * a.seconds_per_point, base_timestamp) == a.offset + (k % (
        a.points as int)) * 12,
{
    let spp = a.seconds_per_point as int;
    let n = a.points as int;
    let r = a.retention as int;
    lemma_retention_positive(a);
    if base_timestamp > 0 {
        lemma_seek_slot(a, base_timestamp, k);
        // k mod r differs from k by a multiple of r = spp * n, hence of n.
        lemma_fundamental_div_mod(k, r);
        let q = k / r;
        assert(k == (q * spp) * n + k % r) by (nonlinear_arith)
            requires
                k == r * q + k % r,
                r == spp * n,
        ;
        lemma_mod_multiples_vanish(q * spp, k % r, n);
        lemma_small_mod((k % r) as nat, n as nat);
    }
}

} // verus!
