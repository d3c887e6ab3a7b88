use graphite::whisper::file::archive_info::{slice_to_archive_info, ArchiveInfo, ArchiveInfoError};
use graphite::whisper::endian::{push_u32, read_u32_at};
use graphite::whisper::point::{slice_to_point, Point, POINT_SIZE};

fn archive(offset: u32, seconds_per_point: u32, points: u32) -> ArchiveInfo {
    ArchiveInfo::new(offset, seconds_per_point, points).unwrap()
}

#[test]
fn big_endian_numbers_are_read_most_significant_byte_first() {
    let bytes = [0xaa, 0x01, 0x02, 0x03, 0x04, 0xbb];
    assert_eq!(read_u32_at(&bytes, 1), 0x0102_0304);
    assert_eq!(read_u32_at(&bytes, 0), 0xaa01_0203);
    assert_eq!(read_u32_at(&bytes, 2), 0x0203_04bb);
}

#[test]
fn big_endian_numbers_are_written_most_significant_byte_first() {
    let mut out = vec![7u8];
    push_u32(&mut out, 0x0102_0304);
    push_u32(&mut out, 86400);
    assert_eq!(out, vec![7, 1, 2, 3, 4, 0, 1, 0x51, 0x80]);
}

#[test]
fn descriptor_decodes_and_encodes() {
    let bytes = [0, 0, 0, 28, 0, 0, 0, 60, 0, 0, 5, 0xa0];
    let a = slice_to_archive_info(&bytes).unwrap();
    assert_eq!(
        a,
        ArchiveInfo {
            offset: 28,
            seconds_per_point: 60,
            points: 1440,
            retention: 86400,
            size_in_bytes: 1_036_800,
        }
    );
    assert_eq!(a.to_bytes(), bytes.to_vec());
}

#[test]
fn descriptor_errors() {
    assert_eq!(ArchiveInfo::new(28, 0, 10), Err(ArchiveInfoError::ZeroInterval));
    assert_eq!(ArchiveInfo::new(28, 10, 0), Err(ArchiveInfoError::ZeroPoints));
    assert_eq!(
        ArchiveInfo::new(28, u32::MAX, u32::MAX),
        Err(ArchiveInfoError::TooLarge)
    );
    assert_eq!(
        slice_to_archive_info(&[0, 0, 0, 28, 0, 0, 0, 0, 0, 0, 0, 1]),
        Err(ArchiveInfoError::ZeroInterval)
    );
}

#[test]
fn first_write_lands_at_the_start_and_the_next_one_slot_on() {
    let a = archive(28, 60, 1440);
    let first = Point::new(1000, 3.5f64.to_bits());
    assert_eq!(a.calculate_seek(&first, 0), a.offset);
    let second = Point::new(1060, 4.0f64.to_bits());
    assert_eq!(a.calculate_seek(&second, 1000), a.offset + 12);
}

#[test]
fn seek_rounds_down_within_a_slot() {
    let a = archive(28, 60, 1440);
    assert_eq!(a.calculate_seek(&Point::new(1059, 0), 1000), 28);
    assert_eq!(a.calculate_seek(&Point::new(1000, 0), 1000), 28);
    assert_eq!(a.calculate_seek(&Point::new(1000 + 60 * 7 + 59, 0), 1000), 28 + 7 * 12);
}

#[test]
fn seek_wraps_round_a_one_second_archive() {
    let a = archive(40, 1, 5);
    for k in 0..23u64 {
        let p = Point::new(1000 + k, 0);
        assert_eq!(a.calculate_seek(&p, 1000), 40 + (k % 5) * 12);
    }
}

#[test]
fn seek_wraps_round_the_byte_span() {
    let a = archive(28, 60, 10);
    // The span is 60 * 10 * 12 bytes, so slot counts wrap at 600.
    assert_eq!(a.calculate_seek(&Point::new(1000 + 60 * 9, 0), 1000), 28 + 9 * 12);
    assert_eq!(a.calculate_seek(&Point::new(1000 + 60 * 599, 0), 1000), 28 + 599 * 12);
    assert_eq!(a.calculate_seek(&Point::new(1000 + 60 * 600, 0), 1000), 28);
    assert_eq!(a.calculate_seek(&Point::new(1000 + 60 * 603, 0), 1000), 28 + 3 * 12);
}

#[test]
fn seek_takes_the_largest_timestamp() {
    let a = archive(28, 1, 7);
    let k = u64::MAX - 1;
    assert_eq!(a.calculate_seek(&Point::new(u64::MAX, 0), 1), 28 + (k % 7) * 12);
}

#[test]
fn interval_ceiling_rounds_down_to_the_interval() {
    let a = archive(28, 60, 1440);
    assert_eq!(a.interval_ceiling(&Point::new(1000, 0)), 960);
    assert_eq!(a.interval_ceiling(&Point::new(960, 0)), 960);
    assert_eq!(a.interval_ceiling(&Point::new(1019, 0)), 960);
    assert_eq!(a.interval_ceiling(&Point::new(1020, 0)), 1020);
    assert_eq!(a.interval_ceiling(&Point::new(59, 0)), 0);
}

#[test]
fn interval_ceiling_is_idempotent() {
    let a = archive(28, 900, 8640);
    for t in [0u64, 1, 899, 900, 901, 123_456_789, u64::MAX] {
        let once = a.interval_ceiling(&Point::new(t, 0));
        assert_eq!(a.interval_ceiling(&Point::new(once, 0)), once);
    }
}

#[test]
fn point_record_round_trips() {
    let p = Point::new(1000, 3.5f64.to_bits());
    let bytes = p.to_bytes().unwrap();
    assert_eq!(bytes.len(), POINT_SIZE);
    assert_eq!(&bytes[..4], &[0, 0, 0x03, 0xe8]);
    assert_eq!(&bytes[4..], &3.5f64.to_be_bytes());
    assert_eq!(slice_to_point(&bytes), p);
    assert_eq!(f64::from_bits(slice_to_point(&bytes).value), 3.5);
}

#[test]
fn point_record_needs_a_32_bit_timestamp() {
    assert_eq!(Point::new(1 << 32, 0).to_bytes(), None);
    assert!(Point::new(u32::MAX as u64, u64::MAX).to_bytes().is_some());
}
