//! Where a point goes when it is written, and when it is passed on to a
//! coarser archive.

use vstd::prelude::*;

pub mod archive_info;
pub mod header;
pub mod metadata;

use vstd::arithmetic::div_mod::lemma_fundamental_div_mod;
use vstd::arithmetic::power2::{
    lemma2_to64, lemma2_to64_rest, lemma_pow2_adds, lemma_pow2_strictly_increases,
    lemma_pow2_unfold, pow2,
};
use self::archive_info::{spec_interval_ceiling, ArchiveInfo};
use self::header::Header;
use crate::whisper::point::Point;

verus! {

/// Why a point is not written.
#[derive(PartialEq, Eq, Structural, Debug, Clone, Copy)]
pub enum WriteError {
    /// The point lies in the future, or further back than the file keeps data.
    OutsideRetention,
    /// The timestamp does not fit the 32 bits of a stored record.
    TimestampTooLarge,
    /// The point is older than the first point the archive ever took.
    BeforeFirstPoint,
}

/// A point written at `now` lies within the time that the file keeps.
pub open spec fn spec_in_window(max_retention: int, timestamp: int, now: int) -> bool {
    timestamp <= now && now - timestamp <= max_retention
}

/// Whether a point written at `now` lies within the time that the file keeps.
pub fn in_window(header: &Header, point: &Point, now: u64) -> (res: bool)
    ensures
        res == spec_in_window(
            header.metadata.max_retention as int,
            point.timestamp as int,
            now as int,
        ),
{
    point.timestamp <= now && now - point.timestamp <= header.metadata.max_retention
}

/// The archive that takes a point written at `now`: the finest one that
/// still covers the point's age. A point outside the window is refused.
pub fn select_archive(header: &Header, point: &Point, now: u64) -> (res: Result<usize, WriteError>)
    requires
        header@.wf(),
    ensures
        res is Ok <==> spec_in_window(
            header.metadata.max_retention as int,
            point.timestamp as int,
            now as int,
        ),
        match res {
            Ok(index) => {
                &&& index < header@.archive_infos.len()
                &&& now - point.timestamp <= header@.archive_infos[index as int].retention
                &&& forall|j: int|
                    0 <= j < index ==> (#[trigger] header@.archive_infos[j]).retention < now
                        - point.timestamp
            },
            Err(e) => e == WriteError::OutsideRetention,
        },
{
    if !in_window(header, point, now) {
        return Err(WriteError::OutsideRetention);
    }
    let age: u64 = now - point.timestamp;
    let n = header.archive_infos.len();
    let mut index: usize = 0;
    while index < n - 1 && header.archive_infos[index].retention < age
        invariant
            0 <= index < n,
            n == header@.archive_infos.len(),
            forall|j: int| 0 <= j < index ==> (#[trigger] header@.archive_infos[j]).retention < age,
        decreases n - index,
    {
        index = index + 1;
    }
    Ok(index)
}

/// A stored point counts for the bucket that starts at `bucket_start` in an
/// archive with one point every `seconds_per_point`: its slot was written,
/// and its timestamp falls into that bucket.
pub open spec fn spec_contributes(seconds_per_point: int, bucket_start: int, p: Point) -> bool {
    p.timestamp != 0 && spec_interval_ceiling(seconds_per_point, p.timestamp as int)
        == bucket_start
}

/// The points among `slots` that count for a bucket, in their order.
pub open spec fn spec_known(seconds_per_point: int, bucket_start: int, slots: Seq<Point>) -> Seq<
    Point,
>
    decreases slots.len(),
{
    if slots.len() == 0 {
        Seq::empty()
    } else if spec_contributes(seconds_per_point, bucket_start, slots.last()) {
        spec_known(seconds_per_point, bucket_start, slots.drop_last()).push(slots.last())
    } else {
        spec_known(seconds_per_point, bucket_start, slots.drop_last())
    }
}

/// Whether `known` of `total` slots are at least the fraction that `bits`
/// stands for as an IEEE-754 single: a significand of 24 bits, scaled by a
/// power of two. The two fractions are compared exactly. No fraction
/// reaches a NaN or positive infinity, and none is asked of no slots.
pub open spec fn spec_meets_x_files_factor(known: int, total: int, bits: u32) -> bool {
    let exponent = (bits as int / 0x80_0000) % 0x100;
    let fraction = bits as int % 0x80_0000;
    let negative = bits >= 0x8000_0000;
    let significand = if exponent == 0 {
        fraction
    } else {
        0x80_0000 + fraction
    };
    if total <= 0 {
        false
    } else if exponent == 255 {
        negative && fraction == 0
    } else if negative {
        true
    } else if exponent <= 150 {
        let scale = if exponent == 0 {
            149
        } else {
            150 - exponent
        };
        known * pow2(scale as nat) >= significand * total
    } else {
        known >= significand * pow2((exponent - 150) as nat) * total
    }
}

/// `k * u` reaches `x` exactly when `k` reaches `x / u` rounded up.
proof fn lemma_reaches_rounded_up(k: int, x: int, u: int)
    requires
        u > 0,
        x >= 0,
        k >= 0,
    ensures
        k * u >= x <==> k >= (x + u - 1) / u,
{
    let c = (x + u - 1) / u;
    lemma_fundamental_div_mod(x + u - 1, u);
    if k >= c {
        assert(k * u >= c * u) by (nonlinear_arith)
            requires
                k >= c,
                u > 0,
        ;
        assert(c * u == u * c) by (nonlinear_arith);
    } else {
        assert(k * u <= (c - 1) * u) by (nonlinear_arith)
            requires
                k <= c - 1,
                u > 0,
        ;
        assert((c - 1) * u == u * c - u) by (nonlinear_arith);
    }
}

/// `k` reaches `v * t` exactly when `k / t` reaches `v`.
proof fn lemma_reaches_multiple(k: int, v: int, t: int)
    requires
        t > 0,
        k >= 0,
        v >= 0,
    ensures
        k >= v * t <==> k / t >= v,
{
    let q = k / t;
    lemma_fundamental_div_mod(k, t);
    if q >= v {
        assert(t * q >= v * t) by (nonlinear_arith)
            requires
                q >= v,
                t > 0,
        ;
    } else {
        assert(t * (q + 1) <= v * t) by (nonlinear_arith)
            requires
                q + 1 <= v,
                t > 0,
        ;
        assert(t * (q + 1) == t * q + t) by (nonlinear_arith);
    }
}

/// Two to the power of `n`.
fn power_of_two(n: u32) -> (p: u128)
    requires
        n <= 88,
    ensures
        p == pow2(n as nat),
        1 <= p <= 0x100_0000_0000_0000_0000_0000,
        pow2(88) == 0x100_0000_0000_0000_0000_0000,
{
    let mut p: u128 = 1;
    let mut i: u32 = 0;
    proof {
        lemma2_to64();
        lemma_pow2_adds(24, 64);
    }
    while i < n
        invariant
            i <= n <= 88,
            p == pow2(i as nat),
            1 <= p <= 0x100_0000_0000_0000_0000_0000,
            pow2(88) == 0x100_0000_0000_0000_0000_0000,
        decreases n - i,
    {
        proof {
            lemma_pow2_unfold((i + 1) as nat);
            if i + 1 < 88 {
                lemma_pow2_strictly_increases((i + 1) as nat, 88);
            }
        }
        p = p * 2;
        i = i + 1;
    }
    p
}

/// Whether `known` of `total` contributing slots are enough for a bucket
/// to be passed on, under the threshold with the bit pattern
/// `x_files_factor`.
pub fn meets_x_files_factor(known: u64, total: u64, x_files_factor: u32) -> (res: bool)
    ensures
        res == spec_meets_x_files_factor(known as int, total as int, x_files_factor),
{
    let exponent: u32 = (x_files_factor / 0x80_0000) % 0x100;
    let fraction: u32 = x_files_factor % 0x80_0000;
    let negative = x_files_factor >= 0x8000_0000;
    if total == 0 {
        return false;
    }
    if exponent == 255 {
        return negative && fraction == 0;
    }
    if negative {
        return true;
    }
    let significand: u128 = if exponent == 0 {
        fraction as u128
    } else {
        0x80_0000 + fraction as u128
    };
    if exponent <= 150 {
        let scale: u32 = if exponent == 0 {
            149
        } else {
            150 - exponent
        };
        assert(significand * total <= 0x100_0000 * 0xFFFF_FFFF_FFFF_FFFF) by (nonlinear_arith)
            requires
                significand <= 0x100_0000,
                total <= 0xFFFF_FFFF_FFFF_FFFF,
        ;
        let needed: u128 = significand * (total as u128);
        if needed == 0 {
            assert(known * pow2(scale as nat) >= 0) by (nonlinear_arith);
            return true;
        }
        if known == 0 {
            assert(known * pow2(scale as nat) == 0) by (nonlinear_arith)
                requires
                    known == 0,
            ;
            return false;
        }
        if scale >= 88 {
            proof {
                lemma2_to64();
                lemma_pow2_adds(24, 64);
                if scale > 88 {
                    lemma_pow2_strictly_increases(88, scale as nat);
                }
                assert(known * pow2(scale as nat) >= pow2(scale as nat)) by (nonlinear_arith)
                    requires
                        known >= 1,
                ;
            }
            return true;
        }
        let unit = power_of_two(scale);
        proof {
            lemma_reaches_rounded_up(known as int, needed as int, unit as int);
        }
        let threshold: u128 = (needed + (unit - 1)) / unit;
        (known as u128) >= threshold
    } else {
        let scale: u32 = exponent - 150;
        if scale >= 41 {
            proof {
                lemma2_to64_rest();
                if scale > 41 {
                    lemma_pow2_strictly_increases(41, scale as nat);
                }
                assert(significand * pow2(scale as nat) * total >= 0x80_0000 * 0x200_0000_0000)
                    by (nonlinear_arith)
                    requires
                        significand >= 0x80_0000,
                        pow2(scale as nat) >= 0x200_0000_0000,
                        total >= 1,
                ;
            }
            return false;
        }
        let unit = power_of_two(scale);
        proof {
            lemma2_to64_rest();
            lemma_pow2_strictly_increases(scale as nat, 41);
        }
        assert(significand * unit <= 0x100_0000 * 0x200_0000_0000) by (nonlinear_arith)
            requires
                significand <= 0x100_0000,
                unit <= 0x200_0000_0000,
        ;
        let factor: u128 = significand * unit;
        proof {
            lemma_reaches_multiple(known as int, factor as int, total as int);
        }
        ((known / total) as u128) >= factor
    }
}

/// How many points of `fine` make up one bucket of `coarse`.
pub fn points_per_bucket(fine: &ArchiveInfo, coarse: &ArchiveInfo) -> (count: u64)
    requires
        fine.seconds_per_point > 0,
    ensures
        count == coarse.seconds_per_point / fine.seconds_per_point,
{
    coarse.seconds_per_point / fine.seconds_per_point
}

/// The points among `slots` that count for the bucket of `coarse` that
/// starts at `bucket_start`, in their order.
pub fn known_points(coarse: &ArchiveInfo, bucket_start: u64, slots: &Vec<Point>) -> (known: Vec<
    Point,
>)
    requires
        coarse.seconds_per_point > 0,
    ensures
        known@ == spec_known(coarse.seconds_per_point as int, bucket_start as int, slots@),
        known@.len() <= slots@.len(),
{
    let mut known: Vec<Point> = Vec::new();
    let mut i: usize = 0;
    while i < slots.len()
        invariant
            0 <= i <= slots@.len(),
            coarse.seconds_per_point > 0,
            known@ == spec_known(
                coarse.seconds_per_point as int,
                bucket_start as int,
                slots@.take(i as int),
            ),
            known@.len() <= i,
        decreases slots@.len() - i,
    {
        let p = slots[i];
        proof {
            assert(slots@.take(i + 1).drop_last() =~= slots@.take(i as int));
        }
        if p.timestamp != 0 && coarse.interval_ceiling(&p) == bucket_start {
            known.push(p);
        }
        i = i + 1;
    }
    proof {
        assert(slots@.take(i as int) =~= slots@);
    }
    known
}

/// What a write of `point` passes on to `coarse`: the points among the
/// finer `slots` that fall into the bucket of `point`, if they are enough
/// of the slots under the threshold `x_files_factor`; otherwise nothing,
/// and the coarser archive stays as it is.
pub fn propagate(coarse: &ArchiveInfo, x_files_factor: u32, point: &Point, slots: &Vec<Point>) -> (res:
    Option<Vec<Point>>)
    requires
        coarse.seconds_per_point > 0,
    ensures
        ({
            let known = spec_known(
                coarse.seconds_per_point as int,
                spec_interval_ceiling(coarse.seconds_per_point as int, point.timestamp as int),
                slots@,
            );
            &&& res is Some <==> spec_meets_x_files_factor(
                known.len() as int,
                slots@.len() as int,
                x_files_factor,
            )
            &&& res is Some ==> res->Some_0@ == known
        }),
{
    let bucket_start = coarse.interval_ceiling(point);
    let known = known_points(coarse, bucket_start, slots);
    if meets_x_files_factor(known.len() as u64, slots.len() as u64, x_files_factor) {
        Some(known)
    } else {
        None
    }
}

/// Where the record of `point` goes in `archive`, whose first point was
/// written at `base_timestamp`, or zero if none was.
pub fn store_seek(archive: &ArchiveInfo, point: &Point, base_timestamp: u64) -> (res: Result<
    u64,
    WriteError,
>)
    requires
        archive.wf(),
    ensures
        match res {
            Ok(seek) => {
                &&& point.timestamp <= u32::MAX
                &&& base_timestamp == 0 || base_timestamp <= point.timestamp
                &&& seek as int == archive.spec_seek(
                    point.timestamp as int,
                    base_timestamp as int,
                )
            },
            Err(WriteError::TimestampTooLarge) => point.timestamp > u32::MAX,
            Err(WriteError::BeforeFirstPoint) => point.timestamp <= u32::MAX && base_timestamp != 0
                && point.timestamp < base_timestamp,
            Err(WriteError::OutsideRetention) => false,
        },
{
    if point.timestamp > 0xFFFF_FFFF {
        Err(WriteError::TimestampTooLarge)
    } else if base_timestamp != 0 && point.timestamp < base_timestamp {
        Err(WriteError::BeforeFirstPoint)
    } else {
        Ok(archive.calculate_seek(point, base_timestamp))
    }
}

/// Where slot `j` of the bucket that starts at `bucket_start` lies in the
/// finer archive; nowhere while that archive is empty or its first point is
/// younger than the slot.
pub open spec fn spec_bucket_seek(
    fine: ArchiveInfo,
    bucket_start: int,
    j: int,
    base_timestamp: int,
) -> Option<u64> {
    let at = bucket_start + j * fine.seconds_per_point;
    if base_timestamp == 0 || at < base_timestamp {
        None
    } else {
        Some(fine.spec_seek(at, base_timestamp) as u64)
    }
}

/// Where the slots of `fine` lie that make up the bucket of `coarse` that
/// `point` falls into, oldest first.
pub fn bucket_seeks(fine: &ArchiveInfo, coarse: &ArchiveInfo, point: &Point, base_timestamp: u64) -> (seeks:
    Vec<Option<u64>>)
    requires
        fine.wf(),
        coarse.wf(),
        point.timestamp <= u32::MAX,
    ensures
        seeks@.len() == coarse.seconds_per_point / fine.seconds_per_point,
        forall|j: int|
            0 <= j < seeks@.len() ==> #[trigger] seeks@[j] == spec_bucket_seek(
                *fine,
                spec_interval_ceiling(coarse.seconds_per_point as int, point.timestamp as int),
                j,
                base_timestamp as int,
            ),
{
    let bucket_start = coarse.interval_ceiling(point);
    let count = points_per_bucket(fine, coarse);
    let mut seeks: Vec<Option<u64>> = Vec::new();
    let mut j: u64 = 0;
    while j < count
        invariant
            0 <= j <= count <= u32::MAX,
            fine.wf(),
            bucket_start <= u32::MAX,
            seeks@.len() == j,
            forall|k: int|
                0 <= k < j ==> #[trigger] seeks@[k] == spec_bucket_seek(
                    *fine,
                    bucket_start as int,
                    k,
                    base_timestamp as int,
                ),
        decreases count - j,
    {
        assert(j * fine.seconds_per_point <= 0xFFFF_FFFF * 0xFFFF_FFFF) by (nonlinear_arith)
            requires
                j <= 0xFFFF_FFFF,
                fine.seconds_per_point <= 0xFFFF_FFFF,
        ;
        let at: u64 = bucket_start + j * fine.seconds_per_point;
        if base_timestamp == 0 || at < base_timestamp {
            seeks.push(None);
        } else {
            seeks.push(Some(fine.calculate_seek(&Point::new(at, 0), base_timestamp)));
        }
        j = j + 1;
    }
    seeks
}

} // verus!
