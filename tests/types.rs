use iec_61850_lib::types::{TimeQuality, Timestamp};

#[test]
fn test_timestamp_from_bytes() {
    let ts = Timestamp::from_bytes([0x65, 0x3C, 0xF1, 0x65, 0x20, 0x00, 0x00, 0x0A]);
    assert_eq!(ts.seconds, 0x653CF165);
    assert_eq!(ts.fraction, 0x200000);
    assert_eq!(ts.quality.time_accuracy, 10);
}

#[test]
fn test_timestamp_to_bytes() {
    let ts = Timestamp {
        seconds: 1698502245,
        fraction: 2097152,
        quality: TimeQuality { time_accuracy: 10, ..TimeQuality::default() },
    };
    assert_eq!(ts.to_bytes(), [0x65, 0x3D, 0x16, 0x65, 0x20, 0x00, 0x00, 0x0A]);
}

#[test]
fn test_timestamp_roundtrip() {
    let bytes = [0x12, 0x34, 0x56, 0x78, 0x9A, 0xBC, 0xDE, 0xF0];
    assert_eq!(Timestamp::from_bytes(bytes).to_bytes(), bytes);
}

#[test]
fn test_timestamp_fraction_as_nanos() {
    let ts = Timestamp { seconds: 0, fraction: 8388608, quality: TimeQuality::default() };
    assert_eq!(ts.fraction_as_nanos(), 500000000);
    let ts = Timestamp { seconds: 0, fraction: 0, quality: TimeQuality::default() };
    assert_eq!(ts.fraction_as_nanos(), 0);
}

#[test]
fn test_time_quality_from_byte() {
    let q = TimeQuality::from_byte(0b1010_0101);
    assert!(q.leap_second_known);
    assert!(!q.clock_failure);
    assert!(q.clock_not_synchronized);
    assert_eq!(q.time_accuracy, 5);
}

#[test]
fn test_time_quality_to_byte() {
    let q = TimeQuality { leap_second_known: true, clock_failure: true, clock_not_synchronized: false, time_accuracy: 31 };
    assert_eq!(q.to_byte(), 0b1101_1111);
}

#[test]
fn test_time_quality_roundtrip() {
    for b in 0..=255u8 {
        assert_eq!(TimeQuality::from_byte(b).to_byte(), b);
    }
}

#[test]
fn test_time_quality_accuracy_bits_valid() {
    let q = TimeQuality { time_accuracy: 10, ..TimeQuality::default() };
    assert_eq!(q.accuracy_bits(), Some(10));
}

#[test]
fn test_time_quality_accuracy_bits_invalid() {
    let q = TimeQuality { time_accuracy: 26, ..TimeQuality::default() };
    assert_eq!(q.accuracy_bits(), None);
}

#[test]
fn test_time_quality_accuracy_bits_unspecified() {
    let q = TimeQuality { time_accuracy: 31, ..TimeQuality::default() };
    assert_eq!(q.accuracy_bits(), None);
}

#[test]
fn test_timestamp_utc_string_format() {
    let timestamp = Timestamp { seconds: 1698502245, fraction: 0, quality: TimeQuality::default() };
    let utc_string = timestamp.to_utc_string();
    assert!(utc_string.starts_with("2023-10-28"));
    assert!(utc_string.ends_with("Z"));
    assert!(utc_string.contains("T"));
    assert_eq!(utc_string, "2023-10-28T14:10:45.000000Z");
}

#[test]
fn utc_string_at_calendar_edges() {
    let t = |seconds: u32, fraction: u32| Timestamp { seconds, fraction, quality: TimeQuality::default() };
    assert_eq!(t(0, 0).to_utc_string(), "1970-01-01T00:00:00.000000Z");
    assert_eq!(t(951782400, 0x800000).to_utc_string(), "2000-02-29T00:00:00.500000Z");
    assert_eq!(t(4102444799, 0).to_utc_string(), "2099-12-31T23:59:59.000000Z");
    assert_eq!(t(u32::MAX, 0).to_utc_string(), "2106-02-07T06:28:15.000000Z");
    let p = t(1709251199, 0).utc_parts();
    assert_eq!((p.year, p.month, p.day, p.hour, p.minute, p.second), (2024, 2, 29, 23, 59, 59));
}
