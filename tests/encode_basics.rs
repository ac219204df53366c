use iec_61850_lib::encode_basics::{
    encode_ber, encode_boolean, encode_coded_enum, encode_float, encode_iec_data, encode_iec_data_element,
    encode_integer, encode_octet_string, encode_string, encode_tag_length, encode_unsigned_integer,
    minimal_integer_size, minimal_twos_complement_bytes, minimal_unsigned_size, size_iec_data,
    size_iec_data_element, size_length,
};
use iec_61850_lib::types::{EncodeError, IECData, TimeQuality, Timestamp};

#[test]
fn test_minimal_twos_complement_bytes() {
    assert_eq!(minimal_twos_complement_bytes(&[0x00, 0x7F]), &[0x7F]);
    assert_eq!(minimal_twos_complement_bytes(&[0xFF, 0x80]), &[0x80]);
    assert_eq!(minimal_twos_complement_bytes(&[0x00, 0x00, 0x01]), &[0x01]);
    assert_eq!(minimal_twos_complement_bytes(&[0x00, 0x80]), &[0x00, 0x80]);
    assert_eq!(minimal_twos_complement_bytes(&[0xFF, 0x7F]), &[0xFF, 0x7F]);
}

#[test]
fn minimal_sizes_at_the_edges() {
    assert_eq!(minimal_integer_size(&127i64.to_be_bytes()), 1);
    assert_eq!(minimal_integer_size(&128i64.to_be_bytes()), 2);
    assert_eq!(minimal_integer_size(&(-128i64).to_be_bytes()), 1);
    assert_eq!(minimal_integer_size(&(-129i64).to_be_bytes()), 2);
    assert_eq!(minimal_integer_size(&32767i64.to_be_bytes()), 2);
    assert_eq!(minimal_integer_size(&32768i64.to_be_bytes()), 3);
    assert_eq!(minimal_integer_size(&(-32768i64).to_be_bytes()), 2);
    assert_eq!(minimal_integer_size(&0i64.to_be_bytes()), 1);
    assert_eq!(minimal_integer_size(&(-1i64).to_be_bytes()), 1);
    assert_eq!(minimal_unsigned_size(&127u32.to_be_bytes()), 1);
    assert_eq!(minimal_unsigned_size(&128u32.to_be_bytes()), 2);
    assert_eq!(minimal_unsigned_size(&255u32.to_be_bytes()), 2);
    assert_eq!(minimal_unsigned_size(&256u32.to_be_bytes()), 2);
    assert_eq!(minimal_unsigned_size(&65535u32.to_be_bytes()), 3);
}

#[test]
fn test_size_length() {
    assert_eq!(size_length(127), 1);
    assert_eq!(size_length(128), 2);
    assert_eq!(size_length(255), 2);
    assert_eq!(size_length(256), 3);
    // 65535 fits the two-byte long form (0x82 0xFF 0xFF).
    assert_eq!(size_length(65535), 3);
    assert_eq!(size_length(65536), 4);
}

#[test]
fn test_encode_tag_length() {
    let mut buf = [0u8; 4];
    let pos = encode_tag_length(0x80, 10, &mut buf, 0).unwrap();
    assert_eq!(pos, 2);
    assert_eq!(&buf[..2], &[0x80, 0x0A]);

    let mut buf = [0u8; 6];
    let pos = encode_tag_length(0x80, 200, &mut buf, 0).unwrap();
    assert_eq!(pos, 3);
    assert_eq!(&buf[..3], &[0x80, 0x81, 0xC8]);

    let mut buf = [0u8; 6];
    let pos = encode_tag_length(0x80, 1300, &mut buf, 0).unwrap();
    assert_eq!(pos, 4);
    assert_eq!(&buf[..4], &[0x80, 0x82, 0x05, 0x14]);

    let mut buf = [0u8; 6];
    let pos = encode_tag_length(0x80, 70000, &mut buf, 0).unwrap();
    assert_eq!(pos, 5);
    assert_eq!(&buf[..5], &[0x80, 0x83, 0x01, 0x11, 0x70]);
}

#[test]
fn length_field_boundaries() {
    let cases: [(usize, &[u8]); 6] = [
        (127, &[0x7F]),
        (128, &[0x81, 0x80]),
        (255, &[0x81, 0xFF]),
        (256, &[0x82, 0x01, 0x00]),
        (65535, &[0x82, 0xFF, 0xFF]),
        (65536, &[0x83, 0x01, 0x00, 0x00]),
    ];
    for (n, expected) in cases.iter() {
        let mut buf = [0u8; 8];
        let pos = encode_tag_length(0x30, *n, &mut buf, 0).unwrap();
        assert_eq!(pos, 1 + expected.len());
        assert_eq!(&buf[1..pos], *expected);
    }
}

#[test]
fn test_encode_tag_length_short_buffer() {
    let mut buf = [0u8; 3];
    let result = encode_tag_length(0x80, 300, &mut buf, 0);
    assert!(matches!(result, Err(EncodeError::BufferTooSmall { required: 4, available: 3 })));
}

#[test]
fn test_encode_tag_length_exceeds_max_length() {
    let mut buf = [0u8; 10];
    let result = encode_tag_length(0x80, 16_777_216, &mut buf, 0);
    assert!(matches!(result, Err(EncodeError::General { .. })));
}

#[test]
fn test_encode_ber_buffer_too_small() {
    let mut buf = [0u8; 1];
    let result = encode_ber(0x80, &[0xFF, 0x10], &mut buf, 0);
    assert!(result.is_err());
}

#[test]
fn test_encode_ber_short_buffer() {
    let mut buf = [0u8; 3];
    let pos = encode_boolean(0x81, true, &mut buf, 0).unwrap();
    assert_eq!(pos, 3);
    assert_eq!(&buf, &[0x81, 0x01, 0xFF]);
    let mut buf = [0u8; 3];
    let pos = encode_boolean(0x81, false, &mut buf, 0).unwrap();
    assert_eq!(pos, 3);
    assert_eq!(&buf, &[0x81, 0x01, 0x00]);
}

#[test]
fn test_encode_ber() {
    let mut buf = [0u8; 10];
    let value = [0xDE, 0xAD, 0xBE, 0xEF];
    let start_pos = 2;
    let result = encode_ber(0x80, &value, &mut buf, start_pos);
    assert!(result.is_ok());
    let end_pos = result.unwrap();
    assert_eq!(&buf[start_pos..start_pos + 2], &[0x80, 0x04]);
    assert_eq!(&buf[start_pos + 2..end_pos], &value);
    assert_eq!(end_pos, start_pos + 2 + value.len());
}

#[test]
fn test_encode_boolean() {
    let mut buf = [0u8; 3];
    let pos = encode_boolean(0x81, true, &mut buf, 0).unwrap();
    assert_eq!(pos, 3);
    assert_eq!(&buf, &[0x81, 0x01, 0xFF]);

    let mut buf = [0u8; 3];
    let pos = encode_boolean(0x81, false, &mut buf, 0).unwrap();
    assert_eq!(pos, 3);
    assert_eq!(&buf, &[0x81, 0x01, 0x00]);
}

#[test]
fn test_encode_boolean_buffer_too_small() {
    let mut buf = [0u8; 2];
    let result = encode_boolean(0x81, true, &mut buf, 0);
    assert!(result.is_err());
}

#[test]
fn test_encode_string() {
    let mut buf = [0u8; 10];
    let pos = encode_string(0x82, "A", &mut buf, 0).unwrap();
    assert_eq!(pos, 3);
    assert_eq!(&buf[..3], &[0x82, 0x01, 0x41]);
}

#[test]
fn test_encode_octet_string() {
    let mut buf = [0u8; 10];
    let pos = encode_octet_string(0x83, &[0x01, 0x02], &mut buf, 0).unwrap();
    assert_eq!(pos, 4);
    assert_eq!(&buf[..4], &[0x83, 0x02, 0x01, 0x02]);
}

#[test]
fn test_encode_integer() {
    let mut buf = [0u8; 10];
    let pos = encode_integer(0x84, &[0x00, 0x7F], &mut buf, 0).unwrap();
    assert_eq!(pos, 3);
    assert_eq!(&buf[..3], &[0x84, 0x01, 0x7F]);
}

#[test]
fn test_encode_unsigned_integer() {
    let mut buf = [0u8; 10];
    let pos = encode_unsigned_integer(0x85, &[0x7F], &mut buf, 0).unwrap();
    assert_eq!(pos, 3);
    assert_eq!(&buf[..3], &[0x85, 0x01, 0x7F]);
    let mut buf = [0u8; 10];
    let pos = encode_unsigned_integer(0x85, &[0xFF], &mut buf, 0).unwrap();
    assert_eq!(pos, 4);
    assert_eq!(&buf[..4], &[0x85, 0x02, 0x00, 0xFF]);

    let bytes = [0xFF];
    assert_eq!(minimal_unsigned_size(&bytes), 2);
}

#[test]
fn unsigned_integer_keeps_high_bytes() {
    let mut buf = [0u8; 10];
    let pos = encode_unsigned_integer(0x86, &65535u16.to_be_bytes(), &mut buf, 0).unwrap();
    assert_eq!(&buf[..pos], &[0x86, 0x03, 0x00, 0xFF, 0xFF]);
}

#[test]
fn test_encode_float() {
    let mut buf = [0u8; 10];
    let float_bytes = 1.0f32.to_be_bytes();
    let pos = encode_float(0x09, &float_bytes, &mut buf, 0).unwrap();
    assert_eq!(pos, 7);
    assert_eq!(
        &buf[..7],
        &[0x09, 0x05, 0x08, float_bytes[0], float_bytes[1], float_bytes[2], float_bytes[3]]
    );
}

#[test]
fn test_encode_float_wrong_length() {
    let mut buf = [0u8; 10];
    let bytes = [0x00, 0x01, 0x02];
    let result = encode_float(0x09, &bytes, &mut buf, 0);
    assert!(result.is_err());
    let bytes = [0x00, 0x01, 0x02, 0x03, 0x04];
    let result = encode_float(0x09, &bytes, &mut buf, 0);
    assert!(result.is_err());
}

#[test]
fn test_encode_float_buffer_too_small() {
    let mut buf = [0u8; 5];
    let bytes = 1.0f32.to_be_bytes();
    let result = encode_float(0x09, &bytes, &mut buf, 0);
    assert!(result.is_err());
}

#[test]
fn test_encode_coded_enum() {
    let mut buf = [0u8; 10];
    encode_coded_enum(0x03, &[0b10100000], 3, &mut buf, 0).unwrap();
    assert_eq!(&buf[..4], &[0x03, 0x02, 0x03, 0x05]);
}

#[test]
fn coded_enum_reverses_bytes_and_bits() {
    let mut buf = [0u8; 10];
    let pos = encode_coded_enum(0x84, &[0x11, 0x55], 2, &mut buf, 0).unwrap();
    assert_eq!(&buf[..pos], &[0x84, 0x03, 0x02, 0xAA, 0x88]);
}

#[test]
fn test_encode_coded_enum_buffer_too_small() {
    let mut buf = [0u8; 2];
    let value = [0b10100000];
    let padding = 3;
    let result = encode_coded_enum(0x03, &value, padding, &mut buf, 0);
    assert!(result.is_err());
}

fn all_types() -> Vec<IECData> {
    vec![
        IECData::Boolean(true),
        IECData::Int(0x7F01),
        IECData::Int(-32767),
        IECData::Int(0x01),
        IECData::Int(-1),
        IECData::Int(-8),
        IECData::Int(-16),
        IECData::Int(-32),
        IECData::Int(-64),
        IECData::UInt(8),
        IECData::UInt(16),
        IECData::UInt(32),
        IECData::Float32(1.23f32.to_bits()),
        IECData::OctetString(vec![0x01, 0x02, 0x03]),
        IECData::VisibleString("abc".to_string()),
        IECData::MmsString("üöäß".to_string()),
        IECData::BitString { padding: 3, val: vec![0b10101000] },
        IECData::Array(vec![IECData::UInt(1), IECData::UInt(2)]),
        IECData::Structure(vec![IECData::MmsString("field2".to_string()), IECData::Int(42)]),
        IECData::Timestamp(Timestamp::from_bytes([1, 2, 3, 4, 5, 6, 7, 8])),
    ]
}

#[test]
fn test_encode_ied_data_all_types() {
    let all_types = all_types();
    let mut buf = [0u8; 1518];
    let result = encode_iec_data(&all_types, &mut buf, 0);
    assert!(result.is_ok());
    let len = result.unwrap();
    let expected: &[u8] = &[
        131, 1, 255, 133, 2, 127, 1, 133, 2, 128, 1, 133, 1, 1, 133, 1, 255, 133, 1, 248, 133, 1,
        240, 133, 1, 224, 133, 1, 192, 134, 1, 8, 134, 1, 16, 134, 1, 32, 135, 5, 8, 63, 157, 112,
        164, 137, 3, 1, 2, 3, 138, 3, 97, 98, 99, 144, 8, 195, 188, 195, 182, 195, 164, 195, 159,
        132, 2, 3, 21, 161, 6, 134, 1, 1, 134, 1, 2, 162, 11, 144, 6, 102, 105, 101, 108, 100, 50,
        133, 1, 42, 145, 8, 1, 2, 3, 4, 5, 6, 7, 8,
    ];
    assert_eq!(len, 100, "Encoded length does not match expected length");
    assert_eq!(&buf[..len], expected, "Encoded buffer does not match expected output");
}

#[test]
fn test_size_iec_data_all_types() {
    let all_types = all_types();
    let result = size_iec_data(&all_types);
    assert_eq!(result, 100, "Encoded length does not match expected length");
}

#[test]
fn float64_is_encoded_with_nine_bytes() {
    let data = vec![IECData::Float64(1.23f64.to_bits())];
    let mut buf = [0u8; 32];
    let len = encode_iec_data(&data, &mut buf, 0).unwrap();
    assert_eq!(len, 11);
    assert_eq!(&buf[..3], &[0x87, 0x09, 0x08]);
    assert_eq!(&buf[3..11], &1.23f64.to_be_bytes());
    assert_eq!(size_iec_data(&data), 11);
}

#[test]
fn size_equals_bytes_written() {
    let values = vec![
        IECData::Array(vec![]),
        IECData::Structure(vec![]),
        IECData::Int(i64::MIN),
        IECData::Int(i64::MAX),
        IECData::UInt(u32::MAX as u64),
        IECData::OctetString(vec![7u8; 300]),
        IECData::Array((0..50).map(|_| IECData::Structure((0..3).map(|_| IECData::Boolean(false)).collect())).collect()),
    ];
    for v in values.iter() {
        let mut buf = vec![0u8; 4096];
        let end = encode_iec_data_element(v, &mut buf, 5).unwrap();
        assert_eq!(end - 5, size_iec_data_element(v));
    }
}

#[test]
fn element_reports_small_buffer() {
    let mut buf = [0u8; 4];
    let r = encode_iec_data_element(&IECData::VisibleString("hello".to_string()), &mut buf, 0);
    assert!(matches!(r, Err(EncodeError::BufferTooSmall { required: 7, available: 4 })));
}

#[test]
fn timestamp_value_is_tagged_utc_time() {
    let t = Timestamp {
        seconds: 1,
        fraction: 0x800000,
        quality: TimeQuality { leap_second_known: true, clock_failure: false, clock_not_synchronized: false, time_accuracy: 10 },
    };
    let mut buf = [0u8; 16];
    let len = encode_iec_data_element(&IECData::Timestamp(t), &mut buf, 0).unwrap();
    assert_eq!(&buf[..len], &[0x91, 8, 0, 0, 0, 1, 0x80, 0, 0, 0x8A]);
}

#[test]
fn bit_string_in_both_orders() {
    let v = IECData::BitString { padding: 2, val: vec![0x11, 0x55] };
    assert_eq!(v.bit_string_wire(), Some((2, vec![0xAA, 0x88])));
    assert_eq!(IECData::Boolean(true).bit_string_wire(), None);
}

#[test]
fn length_overflow_wins_over_small_buffer() {
    let mut buf = [0u8; 3];
    let result = encode_tag_length(0x80, 16_777_216, &mut buf, 0);
    assert!(matches!(result, Err(EncodeError::General { .. })));
    assert_eq!(buf, [0u8; 3]);
    let big = vec![0u8; 16_777_216];
    let mut small = [0u8; 4];
    assert!(matches!(encode_ber(0x89, &big, &mut small, 0), Err(EncodeError::General { .. })));
    let value = IECData::OctetString(big);
    assert!(matches!(encode_iec_data_element(&value, &mut small, 0), Err(EncodeError::General { .. })));
    assert_eq!(small, [0u8; 4]);
}
