//! Stamps of modification times and of contents.

use file_parse_cache::{
    Blake3Stamp, ContentHashFingerprint, EpochDistance, Fingerprint, MtimeFingerprint, MtimeStamp,
};
use std::time::{Duration, SystemTime};

#[test]
fn mtime_stamp_post_epoch_roundtrip() {
    let now = SystemTime::now();
    let stamp = MtimeStamp::from(now);
    assert!(stamp.secs > 0);
    assert_eq!(stamp.to_system_time(), now);
}

#[test]
fn mtime_stamp_pre_epoch_roundtrip() {
    let t = SystemTime::UNIX_EPOCH - Duration::new(1, 500_000_000);
    let stamp = MtimeStamp::from(t);
    assert_eq!(stamp.secs, -2);
    assert_eq!(stamp.nanos, 500_000_000);
    assert_eq!(stamp.to_system_time(), t);

    let t = SystemTime::UNIX_EPOCH - Duration::new(0, 500_000_000);
    let stamp = MtimeStamp::from(t);
    assert_eq!(stamp.secs, -1);
    assert_eq!(stamp.nanos, 500_000_000);
    assert_eq!(stamp.to_system_time(), t);

    let t = SystemTime::UNIX_EPOCH - Duration::from_secs(3);
    let stamp = MtimeStamp::from(t);
    assert_eq!(stamp.secs, -3);
    assert_eq!(stamp.nanos, 0);
    assert_eq!(stamp.to_system_time(), t);

    let stamp = MtimeStamp::from(SystemTime::UNIX_EPOCH);
    assert_eq!(stamp.secs, 0);
    assert_eq!(stamp.nanos, 0);
    assert_eq!(stamp.to_system_time(), SystemTime::UNIX_EPOCH);
}

#[test]
fn mtime_stamp_of_a_known_time() {
    let t = SystemTime::UNIX_EPOCH + Duration::new(1_700_000_000, 123_456_789);
    assert_eq!(MtimeStamp::from(t), MtimeStamp { secs: 1_700_000_000, nanos: 123_456_789 });
    assert_eq!(MtimeFingerprint.stamp(&t), MtimeStamp { secs: 1_700_000_000, nanos: 123_456_789 });
}

#[test]
fn mtime_stamp_of_one_nanosecond_each_side_of_the_epoch() {
    let after = SystemTime::UNIX_EPOCH + Duration::new(0, 1);
    assert_eq!(MtimeStamp::from(after), MtimeStamp { secs: 0, nanos: 1 });
    assert_eq!(MtimeStamp::from(after).to_system_time(), after);

    let before = SystemTime::UNIX_EPOCH - Duration::new(0, 1);
    assert_eq!(MtimeStamp::from(before), MtimeStamp { secs: -1, nanos: 999_999_999 });
    assert_eq!(MtimeStamp::from(before).to_system_time(), before);
}

#[test]
fn mtime_stamps_are_equal_only_for_equal_times() {
    let t = SystemTime::UNIX_EPOCH + Duration::new(10, 20);
    let same = SystemTime::UNIX_EPOCH + Duration::new(10, 20);
    let later = SystemTime::UNIX_EPOCH + Duration::new(10, 21);
    let next = SystemTime::UNIX_EPOCH + Duration::new(11, 20);
    assert_eq!(MtimeStamp::from(t), MtimeStamp::from(same));
    assert_ne!(MtimeStamp::from(t), MtimeStamp::from(later));
    assert_ne!(MtimeStamp::from(t), MtimeStamp::from(next));
}

#[test]
fn distances_are_rounded_down() {
    let stamp = |before, secs, nanos| {
        MtimeStamp::from_distance(EpochDistance { before, secs, nanos })
    };
    assert_eq!(stamp(false, 7, 9), MtimeStamp { secs: 7, nanos: 9 });
    assert_eq!(stamp(true, 7, 0), MtimeStamp { secs: -7, nanos: 0 });
    assert_eq!(stamp(true, 7, 9), MtimeStamp { secs: -8, nanos: 999_999_991 });
    assert_eq!(stamp(true, 0, 0), MtimeStamp { secs: 0, nanos: 0 });
}

#[test]
fn distances_beyond_the_range_wrap() {
    let stamp = |before, secs, nanos| {
        MtimeStamp::from_distance(EpochDistance { before, secs, nanos })
    };
    assert_eq!(stamp(false, 1 << 63, 0), MtimeStamp { secs: i64::MIN, nanos: 0 });
    assert_eq!(stamp(true, 1 << 63, 0), MtimeStamp { secs: i64::MIN, nanos: 0 });
    assert_eq!(stamp(true, 1 << 63, 1), MtimeStamp { secs: i64::MAX, nanos: 999_999_999 });
    assert_eq!(stamp(false, u64::MAX, 3), MtimeStamp { secs: -1, nanos: 3 });
}

#[test]
fn stamps_that_are_no_time_have_none() {
    assert!(MtimeStamp { secs: -1, nanos: 1_000_000_001 }.checked_to_system_time().is_none());
    assert!(MtimeStamp { secs: i64::MAX, nanos: u32::MAX }.checked_to_system_time().is_none());
}

#[test]
fn nanoseconds_beyond_a_second_carry_over() {
    assert_eq!(
        MtimeStamp { secs: 5, nanos: 1_500_000_000 }.to_system_time(),
        SystemTime::UNIX_EPOCH + Duration::new(6, 500_000_000)
    );
    assert_eq!(
        MtimeStamp { secs: -5, nanos: 1_000_000_000 }.to_system_time(),
        SystemTime::UNIX_EPOCH - Duration::new(4, 0)
    );
}

#[test]
fn earliest_second_roundtrip() {
    let stamp = MtimeStamp { secs: i64::MIN, nanos: 0 };
    let t = stamp.checked_to_system_time();
    assert!(t.is_none() || MtimeStamp::from(t.unwrap()) == stamp);
}

#[test]
fn content_stamp_is_the_blake3_digest() {
    let empty = ContentHashFingerprint.stamp(&Vec::new());
    assert_eq!(
        empty.0,
        [
            0xaf, 0x13, 0x49, 0xb9, 0xf5, 0xf9, 0xa1, 0xa6, 0xa0, 0x40, 0x4d, 0xea, 0x36, 0xdc,
            0xc9, 0x49, 0x9b, 0xcb, 0x25, 0xc9, 0xad, 0xc1, 0x12, 0xb7, 0xcc, 0x9a, 0x93, 0xca,
            0xe4, 0x1f, 0x32, 0x62,
        ]
    );
    let hello = ContentHashFingerprint.stamp(&b"hello".to_vec());
    assert_eq!(hello, Blake3Stamp(*blake3::hash(b"hello").as_bytes()));
}

#[test]
fn content_stamps_tell_contents_apart() {
    let a = ContentHashFingerprint.stamp(&b"stable".to_vec());
    let b = ContentHashFingerprint.stamp(&b"stable".to_vec());
    let c = ContentHashFingerprint.stamp(&b"stabla".to_vec());
    assert_eq!(a, b);
    assert_ne!(a, c);
}

#[test]
fn digests_are_compared_to_the_last_byte() {
    let a = [7u8; 32];
    let mut b = a;
    b[31] = 8;
    assert_eq!(Blake3Stamp(a), Blake3Stamp(a));
    assert_ne!(Blake3Stamp(a), Blake3Stamp(b));
    b = a;
    b[0] = 8;
    assert_ne!(Blake3Stamp(a), Blake3Stamp(b));
}

#[test]
fn fingerprints_have_a_default() {
    let t = SystemTime::UNIX_EPOCH;
    assert_eq!(MtimeFingerprint::default().stamp(&t), MtimeFingerprint.stamp(&t));
    let bytes = b"x".to_vec();
    assert_eq!(
        ContentHashFingerprint::default().stamp(&bytes),
        ContentHashFingerprint.stamp(&bytes)
    );
}
