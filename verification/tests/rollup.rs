use graphite::whisper::file::archive_info::ArchiveInfo;
use graphite::whisper::file::{
    bucket_seeks, known_points, meets_x_files_factor, points_per_bucket, propagate, store_seek,
    WriteError,
};
use graphite::whisper::point::Point;

fn archive(offset: u32, seconds_per_point: u32, points: u32) -> ArchiveInfo {
    ArchiveInfo::new(offset, seconds_per_point, points).unwrap()
}

/// Fifteen slots of a one-minute archive for the bucket that starts at
/// 9000, of which the first `known` were written.
fn slots(known: usize) -> Vec<Point> {
    (0..15)
        .map(|j| {
            if j < known {
                Point::new(9000 + 60 * j as u64, (j as f64).to_bits())
            } else {
                Point::new(0, 0)
            }
        })
        .collect()
}

#[test]
fn fifteen_fine_points_make_one_coarse_bucket() {
    let fine = archive(40, 60, 1440);
    let coarse = archive(40 + 60 * 1440 * 12, 900, 8640);
    assert_eq!(points_per_bucket(&fine, &coarse), 15);
}

#[test]
fn six_of_fifteen_are_too_few_for_one_half() {
    let coarse = archive(1_036_840, 900, 8640);
    let written = Point::new(9000 + 60 * 5 + 3, 1.0f64.to_bits());
    assert_eq!(propagate(&coarse, 0.5f32.to_bits(), &written, &slots(6)), None);
    assert!(!meets_x_files_factor(6, 15, 0.5f32.to_bits()));
}

#[test]
fn eight_of_fifteen_are_enough_for_one_half() {
    let coarse = archive(1_036_840, 900, 8640);
    let written = Point::new(9000 + 60 * 7, 1.0f64.to_bits());
    let passed = propagate(&coarse, 0.5f32.to_bits(), &written, &slots(8)).unwrap();
    assert_eq!(passed, slots(8)[..8].to_vec());
    assert!(!meets_x_files_factor(7, 15, 0.5f32.to_bits()));
    assert!(meets_x_files_factor(8, 15, 0.5f32.to_bits()));
}

#[test]
fn threshold_is_met_at_equality() {
    assert!(meets_x_files_factor(1, 2, 0.5f32.to_bits()));
    assert!(meets_x_files_factor(15, 15, 1.0f32.to_bits()));
    assert!(!meets_x_files_factor(14, 15, 1.0f32.to_bits()));
    assert!(meets_x_files_factor(3, 4, 0.75f32.to_bits()));
    assert!(!meets_x_files_factor(2, 4, 0.75f32.to_bits()));
}

#[test]
fn threshold_of_zero_is_always_met() {
    assert!(meets_x_files_factor(0, 15, 0.0f32.to_bits()));
    assert!(meets_x_files_factor(0, 15, (-0.0f32).to_bits()));
    assert!(meets_x_files_factor(0, 15, (-1.5f32).to_bits()));
    assert!(meets_x_files_factor(0, 15, f32::NEG_INFINITY.to_bits()));
}

#[test]
fn no_slots_meet_no_threshold() {
    assert!(!meets_x_files_factor(0, 0, 0.0f32.to_bits()));
    let coarse = archive(40, 900, 10);
    assert_eq!(propagate(&coarse, 0, &Point::new(9000, 0), &vec![]), None);
}

#[test]
fn thresholds_that_are_no_fraction_are_never_met() {
    assert!(!meets_x_files_factor(15, 15, f32::NAN.to_bits()));
    assert!(!meets_x_files_factor(15, 15, f32::INFINITY.to_bits()));
    assert!(!meets_x_files_factor(15, 15, 1.5f32.to_bits()));
    assert!(!meets_x_files_factor(u64::MAX, 1, f32::MAX.to_bits()));
    assert!(!meets_x_files_factor(u64::MAX, 1, 3.0e19f32.to_bits()));
}

#[test]
fn thresholds_are_compared_exactly() {
    // The single nearest to one tenth is a little more than one tenth.
    assert!(!meets_x_files_factor(1, 10, 0.1f32.to_bits()));
    assert!(meets_x_files_factor(2, 10, 0.1f32.to_bits()));
    // The smallest positive single is met by one slot of any number.
    assert!(meets_x_files_factor(1, u64::MAX, 1));
    assert!(!meets_x_files_factor(0, u64::MAX, 1));
    // More known slots than slots: the fraction exceeds one.
    assert!(meets_x_files_factor(40_000_000, 1, 33_554_432.0f32.to_bits()));
    assert!(!meets_x_files_factor(33_554_431, 1, 33_554_432.0f32.to_bits()));
    assert!(meets_x_files_factor(3, 2, 1.5f32.to_bits()));
    assert!(!meets_x_files_factor(2, 2, 1.5f32.to_bits()));
    // The smallest normal single and the largest subnormal one.
    assert!(meets_x_files_factor(1, 1, 0x0080_0000));
    assert!(meets_x_files_factor(1, 1, 0x007f_ffff));
}

#[test]
fn unwritten_and_foreign_slots_do_not_count() {
    let coarse = archive(40, 900, 10);
    let all = vec![
        Point::new(9000, 1),
        Point::new(0, 2),
        Point::new(8999, 3),
        Point::new(9899, 4),
        Point::new(9900, 5),
        Point::new(9060, 6),
    ];
    assert_eq!(
        known_points(&coarse, 9000, &all),
        vec![Point::new(9000, 1), Point::new(9899, 4), Point::new(9060, 6)]
    );
    assert_eq!(known_points(&coarse, 0, &all), vec![]);
}

#[test]
fn bucket_slots_are_sought_oldest_first() {
    let fine = archive(40, 60, 1440);
    let coarse = archive(40 + 60 * 1440 * 12, 900, 8640);
    let written = Point::new(9000 + 60 * 5 + 3, 0);
    let seeks = bucket_seeks(&fine, &coarse, &written, 9120);
    assert_eq!(seeks.len(), 15);
    assert_eq!(seeks[0], None);
    assert_eq!(seeks[1], None);
    assert_eq!(seeks[2], Some(40));
    assert_eq!(seeks[3], Some(52));
    assert_eq!(seeks[14], Some(40 + 12 * 12));
    assert!(bucket_seeks(&fine, &coarse, &written, 0).iter().all(|s| s.is_none()));
}

#[test]
fn store_refuses_what_a_record_cannot_hold() {
    let a = archive(40, 60, 1440);
    assert_eq!(store_seek(&a, &Point::new(1000, 0), 0), Ok(40));
    assert_eq!(store_seek(&a, &Point::new(1060, 0), 1000), Ok(52));
    assert_eq!(
        store_seek(&a, &Point::new(999, 0), 1000),
        Err(WriteError::BeforeFirstPoint)
    );
    assert_eq!(
        store_seek(&a, &Point::new(1 << 32, 0), 1000),
        Err(WriteError::TimestampTooLarge)
    );
    assert_eq!(store_seek(&a, &Point::new(u32::MAX as u64, 0), 0), Ok(40));
}

#[test]
fn dyadic_thresholds_agree_with_cross_multiplication() {
    let thresholds: [(f32, u64, u64); 6] = [
        (0.125, 1, 8),
        (0.25, 1, 4),
        (0.5, 1, 2),
        (0.625, 5, 8),
        (0.75, 3, 4),
        (1.0, 1, 1),
    ];
    for (x, numerator, denominator) in thresholds {
        for total in 1..40u64 {
            for known in 0..=total {
                assert_eq!(
                    meets_x_files_factor(known, total, x.to_bits()),
                    known * denominator >= numerator * total,
                    "{} of {} against {}",
                    known,
                    total,
                    x
                );
            }
        }
    }
}
