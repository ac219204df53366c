use iec_61850_lib::decode_basics::{
    decode_ethernet_header, decode_iec_data, decode_iec_data_element, decode_tag_length, decompress_integer,
};
use iec_61850_lib::types::{EthernetHeader, IECData};

#[test]
fn test_decode_tag_length() {
    let buf_short = [0xA1, 0x05];
    let mut tag: u8 = 0;
    let mut length: usize = 0;
    let pos = decode_tag_length(&mut tag, &mut length, &buf_short, 0).unwrap();
    assert_eq!(tag, 0xA1);
    assert_eq!(length, 5);
    assert_eq!(pos, 2);

    let buf_long = [0xA2, 0x82, 0x01, 0x23];
    let mut tag: u8 = 0;
    let mut length: usize = 0;
    let pos = decode_tag_length(&mut tag, &mut length, &buf_long, 0).unwrap();
    assert_eq!(tag, 0xA2);
    assert_eq!(length, 0x0123);
    assert_eq!(pos, 4);

    let buf_long3 = [0xA3, 0x83, 0x00, 0x01, 0x02];
    let mut tag: u8 = 0;
    let mut length: usize = 0;
    let pos = decode_tag_length(&mut tag, &mut length, &buf_long3, 0).unwrap();
    assert_eq!(tag, 0xA3);
    assert_eq!(length, 0x000102);
    assert_eq!(pos, 5);

    let buf_missing = [0xA1];
    let mut tag: u8 = 0;
    let mut length: usize = 0;
    let err = decode_tag_length(&mut tag, &mut length, &buf_missing, 0);
    assert!(err.is_err());

    let buf_invalid = [0xA1, 0x80];
    let mut tag: u8 = 0;
    let mut length: usize = 0;
    let err = decode_tag_length(&mut tag, &mut length, &buf_invalid, 0);
    assert!(err.is_err());

    let buf_short_len = [0xA1, 0x82, 0x01];
    let mut tag: u8 = 0;
    let mut length: usize = 0;
    let err = decode_tag_length(&mut tag, &mut length, &buf_short_len, 0);
    assert!(err.is_err());

    let mut tag: u8 = 0;
    let mut length: usize = 0;
    let buf: [u8; 0] = [];
    let err = decode_tag_length(&mut tag, &mut length, &buf, 0);
    assert!(err.is_err());
    let msg: String = err.unwrap_err().message;
    assert!(msg.contains("Out of bounds for buffer length"));
}

#[test]
fn four_byte_long_form_is_refused() {
    let buf = [0x30, 0x84, 0, 0, 0, 1, 0];
    let mut tag: u8 = 0;
    let mut length: usize = 0;
    assert!(decode_tag_length(&mut tag, &mut length, &buf, 0).is_err());
}

#[test]
fn test_decode_iec_data_element_errors() {
    let buf = [0x85, 0x09, 0, 0, 0, 0, 0, 0, 0, 0, 0];
    let err = decode_iec_data_element(&buf, 0).unwrap_err();
    assert!(err.message.contains("oversize signed integer"));

    let buf = [0x86, 0x09, 0, 0, 0, 0, 0, 0, 0, 0, 0];
    let err = decode_iec_data_element(&buf, 0).unwrap_err();
    assert!(err.message.contains("Unsigned integer exceeds supported size"));

    let buf = [0x86, 0x05, 0x01, 0, 0, 0, 0];
    let err = decode_iec_data_element(&buf, 0).unwrap_err();
    assert!(err.message.contains("Unsigned integer exceeds supported size"));

    let buf = [0x87, 0x04, 0, 0, 0, 0];
    let err = decode_iec_data_element(&buf, 0).unwrap_err();
    assert!(err.message.contains("Unexpected float size"));

    let buf = [0xFF, 0x01, 0x00];
    let err = decode_iec_data_element(&buf, 0).unwrap_err();
    assert!(err.message.contains("Unknown data type"));
}

#[test]
fn test_decode_bit_string() {
    let buf = [0x84, 0x03, 0x02, 0b10101010, 0b10001000];
    let (value, pos) = decode_iec_data_element(&buf, 0).unwrap();
    assert_eq!(pos, 5);
    assert_eq!(value, IECData::BitString { padding: 2, val: vec![0x11, 0x55] });
}

#[test]
fn test_decode_iec_data_multiple_elements() {
    let float_bytes = 42.5f32.to_be_bytes();
    let mut buf = vec![0x83, 0x01, 0xFF, 0x85, 0x02];
    buf.extend_from_slice(&(-12345i16).to_be_bytes());
    buf.extend_from_slice(&[0x86, 0x03, 0x00, 0x9C, 0x40]);
    buf.extend_from_slice(&[0x87, 0x05, 0x08]);
    buf.extend_from_slice(&float_bytes);
    buf.extend_from_slice(&[0x90, 0x04, 0xCE, 0xA9, 0xC3, 0x9F]);
    buf.extend_from_slice(&[0x89, 0x02, 0xAB, 0xCD]);
    buf.extend_from_slice(&[0xA1, 0x06, 0x83, 0x01, 0x00, 0x8A, 0x01, 0x41]);
    let values = decode_iec_data(&buf, 0, buf.len()).unwrap();
    assert_eq!(values.len(), 7);
    assert_eq!(values[0], IECData::Boolean(true));
    assert_eq!(values[1], IECData::Int(-12345));
    assert_eq!(values[2], IECData::UInt(40000));
    assert_eq!(values[3], IECData::Float32(42.5f32.to_bits()));
    assert_eq!(values[4], IECData::MmsString("Ωß".to_string()));
    assert_eq!(values[5], IECData::OctetString(vec![0xAB, 0xCD]));
    assert_eq!(
        values[6],
        IECData::Array(vec![IECData::Boolean(false), IECData::VisibleString("A".to_string())])
    );
}

#[test]
fn invalid_utf8_is_replaced() {
    let buf = [0x8A, 0x02, 0x41, 0xFF];
    let (value, _) = decode_iec_data_element(&buf, 0).unwrap();
    assert_eq!(value, IECData::VisibleString("A\u{FFFD}".to_string()));
}

#[test]
fn nesting_is_limited() {
    let mut buf: Vec<u8> = vec![0x83, 0x01, 0x01];
    for _ in 0..17 {
        let mut outer = vec![0xA2, buf.len() as u8];
        outer.extend_from_slice(&buf);
        buf = outer;
    }
    let err = decode_iec_data_element(&buf, 0).unwrap_err();
    assert!(err.message.contains("nest too deep"));
    assert!(decode_iec_data_element(&buf[2..], 0).is_ok());
}

#[test]
fn element_may_not_pass_its_enclosing_length() {
    let buf = [0xA1, 0x03, 0x8A, 0x05, 0x41, 0x42, 0x43];
    assert!(decode_iec_data_element(&buf, 0).is_err());
}

#[test]
fn test_decompress_integer() {
    let buf = [0x84, 0x01, 0x84];
    let mut value = [0u8; 2];
    decompress_integer(&mut value, &buf, 2, 1).unwrap();
    assert_eq!(i16::from_be_bytes(value), -124);

    let err = decompress_integer(&mut [0u8; 1], &buf, 2, 2);
    assert!(err.is_err());

    let buf = [0x01, 0x02, 0x03, 0x04];
    let mut value = [0u8; 2];
    let err = decompress_integer(&mut value, &buf, 0, 3);
    assert!(err.unwrap_err().message.contains("Mismatch value length"));

    let buf = [0x7F, 0xFF];
    let mut value = [0u8; 4];
    decompress_integer(&mut value, &buf, 0, 2).unwrap();
    assert_eq!(i32::from_be_bytes(value), 32767);
}

#[test]
fn compress_then_decompress_gives_the_number_back() {
    for x in [0i64, 1, -1, 127, -128, 128, -129, 32767, -32768, i64::MAX, i64::MIN] {
        let minimal = iec_61850_lib::encode_basics::minimal_twos_complement_bytes(&x.to_be_bytes());
        let mut value = [0u8; 8];
        decompress_integer(&mut value, &minimal, 0, minimal.len()).unwrap();
        assert_eq!(i64::from_be_bytes(value), x);
    }
}

#[test]
fn test_decode_ethernet_header() {
    let buf = [
        0x01, 0x0c, 0xcd, 0x01, 0x00, 0x01, 0x00, 0x1a, 0xb6, 0x03, 0x2f, 0x1c, 0x81, 0x00, 0x00, 0x01, 0x88,
        0xb8, 0x10, 0x01, 0x00, 0x8c, 0x00, 0x00, 0x00, 0x00,
    ];
    let mut header = EthernetHeader::default();
    let pos = decode_ethernet_header(&mut header, &buf).unwrap();
    assert_eq!(pos, 26);
    assert_eq!(header.dst_addr, [0x01, 0x0c, 0xcd, 0x01, 0x00, 0x01]);
    assert_eq!(header.src_addr, [0x00, 0x1a, 0xb6, 0x03, 0x2f, 0x1c]);
    assert_eq!(header.tpid, Some([0x81, 0x00]));
    assert_eq!(header.tci, Some([0x00, 0x01]));
    assert_eq!(header.ether_type, [0x88, 0xb8]);
    assert_eq!(header.appid, [0x10, 0x01]);
    assert_eq!(header.length, [0x00, 0x8c]);
}

#[test]
fn test_decode_ethernet_header_wo_tpid() {
    let buf = [
        0x01, 0x0c, 0xcd, 0x04, 0x00, 0x01, 0x00, 0x1a, 0xb6, 0x03, 0x2f, 0x1c, 0x88, 0xba, 0x40, 0x00, 0x00,
        0x64, 0x00, 0x00, 0x00, 0x00,
    ];
    let mut header = EthernetHeader::default();
    let pos = decode_ethernet_header(&mut header, &buf).unwrap();
    assert_eq!(pos, 22);
    assert_eq!(header.tpid, None);
    assert_eq!(header.tci, None);
    assert_eq!(header.ether_type, [0x88, 0xba]);
    assert_eq!(header.appid, [0x40, 0x00]);
    assert_eq!(header.length, [0x00, 0x64]);
}

#[test]
fn ethernet_header_too_short_is_an_error() {
    let buf = [0u8; 21];
    let mut header = EthernetHeader::default();
    assert!(decode_ethernet_header(&mut header, &buf).is_err());
    assert_eq!(header, EthernetHeader::default());
}

fn check_header(buffer: &[u8], vlan: bool) {
    let mut header = EthernetHeader::default();
    let pos = decode_ethernet_header(&mut header, buffer).unwrap();
    assert_eq!(header.dst_addr, [0x01, 0x0c, 0xcd, 0x01, 0x00, 0x01]);
    assert_eq!(header.src_addr, [0x00, 0x1a, 0xb6, 0x03, 0x2f, 0x1c]);
    if vlan {
        assert_eq!(header.tpid, Some([0x81, 0x00]));
        assert_eq!(header.tci, Some([0x00, 0x01]));
    } else {
        assert_eq!(header.tpid, None);
        assert_eq!(header.tci, None);
    }
    assert_eq!(header.ether_type, [0x88, 0xb8]);
    assert_eq!(header.appid, [0x10, 0x01]);
    assert_eq!(header.length, [0x00, 0x8c]);
    assert_eq!(pos, if vlan { 26 } else { 22 });
}

#[test]
fn test_decode_ethernet_header_without_vlan() {
    let buffer: Vec<u8> = vec![
        0x01, 0x0c, 0xcd, 0x01, 0x00, 0x01, 0x00, 0x1a, 0xb6, 0x03, 0x2f, 0x1c, 0x88, 0xb8, 0x10, 0x01,
        0x00, 0x8c, 0x00, 0x00, 0x00, 0x00,
    ];
    check_header(&buffer, false);
}

#[test]
fn test_decode_ethernet_header_with_vlan() {
    let buffer: Vec<u8> = vec![
        0x01, 0x0c, 0xcd, 0x01, 0x00, 0x01, 0x00, 0x1a, 0xb6, 0x03, 0x2f, 0x1c, 0x81, 0x00, 0x00, 0x01,
        0x88, 0xb8, 0x10, 0x01, 0x00, 0x8c, 0x00, 0x00, 0x00, 0x00,
    ];
    check_header(&buffer, true);
}

#[test]
fn test_decode_ethernet_header_from_real_goose_frame() {
    let buffer: Vec<u8> = vec![1, 12, 205, 1, 0, 1, 0, 26, 182, 3, 47, 28, 129, 0, 0, 1, 136, 184, 16, 1, 0, 140, 0, 0, 0, 0];
    check_header(&buffer, true);
}

#[test]
fn length_round_trip_at_boundaries() {
    for n in [0usize, 1, 127, 128, 255, 256, 65535, 65536, 0xFF_FFFF] {
        let mut buf = [0u8; 8];
        let end = iec_61850_lib::encode_basics::encode_tag_length(0x30, n, &mut buf, 0).unwrap();
        let mut tag: u8 = 0;
        let mut length: usize = 0;
        let pos = decode_tag_length(&mut tag, &mut length, &buf[..end], 0).unwrap();
        assert_eq!((tag, length, pos), (0x30, n, end));
    }
}

#[test]
fn decode_errors_locate_the_fault() {
    let buf = [0u8; 21];
    let mut header = EthernetHeader::default();
    assert_eq!(decode_ethernet_header(&mut header, &buf).unwrap_err().buffer_index, 21);
    // the second value of the structure has an unknown tag
    let buf = [0x83, 0x01, 0xFF, 0xA2, 0x06, 0x83, 0x01, 0x00, 0xFE, 0x01, 0x00];
    let values = decode_iec_data(&buf, 0, buf.len());
    assert_eq!(values.unwrap_err().buffer_index, 10);
    let mut tag: u8 = 0;
    let mut length: usize = 0;
    assert_eq!(decode_tag_length(&mut tag, &mut length, &[0x30, 0x85, 0, 0, 0, 0, 0], 0).unwrap_err().buffer_index, 0);
}
