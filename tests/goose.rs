use iec_61850_lib::decode_basics::decode_ethernet_header;
use iec_61850_lib::decode_goose::decode_goose_pdu;
use iec_61850_lib::encode_goose::{encode_ethernet_header, encode_goose};
use iec_61850_lib::types::{EthernetHeader, IECData, IECGoosePdu, Timestamp};

const TRACE: [u8; 158] = [
    1, 12, 205, 1, 0, 1, 0, 26, 182, 3, 47, 28, 129, 0, 0, 1, 136, 184, 16, 1, 0, 140, 0, 0, 0,
    0, 97, 129, 129, 128, 17, 73, 69, 68, 49, 47, 76, 76, 78, 48, 36, 71, 79, 36, 103, 99, 98,
    49, 129, 2, 7, 208, 130, 18, 73, 69, 68, 49, 47, 76, 76, 78, 48, 36, 68, 65, 84, 65, 83,
    69, 84, 49, 131, 6, 71, 79, 79, 83, 69, 49, 132, 8, 32, 33, 6, 18, 10, 48, 0, 0, 133, 1, 1,
    134, 1, 42, 135, 1, 0, 136, 2, 0, 128, 137, 1, 0, 138, 1, 11, 171, 47, 134, 1, 1, 134, 2,
    0, 128, 134, 2, 0, 255, 134, 1, 127, 134, 1, 1, 134, 2, 0, 128, 134, 2, 0, 255, 131, 1,
    255, 133, 4, 127, 255, 255, 255, 133, 5, 0, 128, 0, 0, 0, 138, 4, 116, 101, 115, 116,
];

fn trace_header() -> EthernetHeader {
    EthernetHeader {
        dst_addr: [0x01, 0x0C, 0xCD, 0x01, 0x00, 0x01],
        src_addr: [0x00, 0x1A, 0xB6, 0x03, 0x2F, 0x1C],
        tpid: Some([0x81, 0x00]),
        tci: Some([0x00, 0x01]),
        ether_type: [0x88, 0xB8],
        appid: [0x10, 0x01],
        length: [0x00, 0x00],
    }
}

fn trace_data() -> Vec<IECData> {
    vec![
        IECData::UInt(1),
        IECData::UInt(128),
        IECData::UInt(255),
        IECData::UInt(127),
        IECData::UInt(1),
        IECData::UInt(128),
        IECData::UInt(255),
        IECData::Boolean(true),
        IECData::Int(2147483647),
        IECData::Int(2147483648),
        IECData::VisibleString("test".to_string()),
    ]
}

fn trace_pdu() -> IECGoosePdu {
    let data = trace_data();
    IECGoosePdu {
        go_cb_ref: "IED1/LLN0$GO$gcb1".to_string(),
        time_allowed_to_live: 2000,
        dat_set: "IED1/LLN0$DATASET1".to_string(),
        go_id: "GOOSE1".to_string(),
        t: Timestamp::from_bytes([0x20, 0x21, 0x06, 0x12, 0x0A, 0x30, 0x00, 0x00]),
        st_num: 1,
        sq_num: 42,
        simulation: false,
        conf_rev: 128,
        nds_com: false,
        num_dat_set_entries: data.len() as u32,
        all_data: data,
    }
}

#[test]
fn decode_goose_test_decode_goose_pdu_all_fields() {
    let buf: &[u8] = &TRACE;
    let mut header = EthernetHeader::default();
    let pos = decode_ethernet_header(&mut header, buf).unwrap();
    let goose_pdu = decode_goose_pdu(buf, pos).unwrap();

    assert_eq!(header.ether_type, [0x88, 0xB8]);
    assert_eq!(header.tpid, Some([0x81, 0x00]));
    assert_eq!(header.tci, Some([0x00, 0x01]));
    assert_eq!(header.appid, [0x10, 0x01]);
    assert_eq!(header.length, [0x00, 0x8C]);
    assert_eq!(goose_pdu.go_cb_ref, "IED1/LLN0$GO$gcb1");
    assert_eq!(goose_pdu.time_allowed_to_live, 2000);
    assert_eq!(goose_pdu.dat_set, "IED1/LLN0$DATASET1");
    assert_eq!(goose_pdu.go_id, "GOOSE1");
    assert_eq!(goose_pdu.t.to_bytes(), [0x20, 0x21, 0x06, 0x12, 0x0A, 0x30, 0x00, 0x00]);
    assert_eq!(goose_pdu.t.seconds, 539035154);
    assert_eq!(goose_pdu.t.fraction, 667648);
    assert_eq!(goose_pdu.st_num, 1);
    assert_eq!(goose_pdu.sq_num, 42);
    assert_eq!(goose_pdu.simulation, false);
    assert_eq!(goose_pdu.conf_rev, 128);
    assert_eq!(goose_pdu.nds_com, false);
    assert_eq!(goose_pdu.num_dat_set_entries, 11);
    assert_eq!(goose_pdu.all_data[0], IECData::UInt(1));
    assert_eq!(goose_pdu.all_data[1], IECData::UInt(0x80));
    assert_eq!(goose_pdu.all_data[2], IECData::UInt(0xFF));
    assert_eq!(goose_pdu.all_data[3], IECData::UInt(0x7F));
    assert_eq!(goose_pdu.all_data[4], IECData::UInt(0x01));
    assert_eq!(goose_pdu.all_data[5], IECData::UInt(0x80));
    assert_eq!(goose_pdu.all_data[6], IECData::UInt(0xFF));
    assert_eq!(goose_pdu.all_data[7], IECData::Boolean(true));
    assert_eq!(goose_pdu.all_data[8], IECData::Int(2147483647));
    assert_eq!(goose_pdu.all_data[9], IECData::Int(2147483648));
    assert_eq!(goose_pdu.all_data[10], IECData::VisibleString("test".to_string()));
}

#[test]
fn encode_goose_test_encode_goose_pdu() {
    let encoded = encode_goose(&trace_header(), &trace_pdu()).unwrap();
    assert_eq!(encoded.len(), 158, "Encoded length does not match expected length");
    assert_eq!(encoded, TRACE.to_vec(), "Encoded buffer does not match expected output");
}

#[test]
fn trace_decodes_and_encodes_back_byte_for_byte() {
    let mut header = EthernetHeader::default();
    let pos = decode_ethernet_header(&mut header, &TRACE).unwrap();
    let pdu = decode_goose_pdu(&TRACE, pos).unwrap();
    assert_eq!(pdu, trace_pdu());
    assert_eq!(encode_goose(&header, &pdu).unwrap(), TRACE.to_vec());
}

#[test]
fn entry_count_follows_the_data() {
    let mut pdu = trace_pdu();
    pdu.num_dat_set_entries = 3;
    let encoded = encode_goose(&trace_header(), &pdu).unwrap();
    let decoded = decode_goose_pdu(&encoded, 26).unwrap();
    assert_eq!(decoded.num_dat_set_entries, 11);
}

#[test]
fn trailing_bytes_inside_the_pdu_are_ignored() {
    let mut frame = TRACE.to_vec();
    frame[28] = 0x84;
    frame.extend_from_slice(&[0xBF, 0x01, 0x00]);
    let mut header = EthernetHeader::default();
    let pos = decode_ethernet_header(&mut header, &frame).unwrap();
    assert_eq!(decode_goose_pdu(&frame, pos).unwrap(), trace_pdu());
}

#[test]
fn goose_pdu_with_wrong_tag_is_refused() {
    let mut frame = TRACE.to_vec();
    frame[26] = 0x60;
    assert!(decode_goose_pdu(&frame, 26).is_err());
    assert!(decode_goose_pdu(&TRACE[..100], 26).is_err());
}

#[test]
fn simulation_sets_the_reserved_bit() {
    let mut pdu = trace_pdu();
    pdu.simulation = true;
    let encoded = encode_goose(&trace_header(), &pdu).unwrap();
    assert_eq!(encoded[22], 0x80);
    assert_eq!(decode_goose_pdu(&encoded, 26).unwrap().simulation, true);
}

#[test]
fn test_encode_ethernet_header_without_vlan() {
    let header = EthernetHeader { tpid: None, tci: None, ..trace_header() };
    let encoded = encode_ethernet_header(&header, 140);
    let expected: &[u8] = &[
        0x01, 0x0C, 0xCD, 0x01, 0x00, 0x01, 0x00, 0x1A, 0xB6, 0x03, 0x2F, 0x1C, 0x88, 0xB8, 0x10, 0x01,
        0x00, 0x8C, 0x00, 0x00, 0x00, 0x00,
    ];
    assert_eq!(encoded.len(), 22, "Ethernet header without VLAN should be 22 bytes");
    assert_eq!(encoded, expected, "Encoded Ethernet header does not match expected");
}

#[test]
fn test_encode_ethernet_header_with_vlan() {
    let encoded = encode_ethernet_header(&trace_header(), 140);
    let expected: &[u8] = &[
        0x01, 0x0C, 0xCD, 0x01, 0x00, 0x01, 0x00, 0x1A, 0xB6, 0x03, 0x2F, 0x1C, 0x81, 0x00, 0x00, 0x01,
        0x88, 0xB8, 0x10, 0x01, 0x00, 0x8C, 0x00, 0x00, 0x00, 0x00,
    ];
    assert_eq!(encoded.len(), 26, "Ethernet header with VLAN should be 26 bytes");
    assert_eq!(encoded, expected, "Encoded Ethernet header with VLAN does not match expected");
}

#[test]
fn test_encode_ethernet_header_length_field() {
    let test_lengths = vec![(140u16, [0x00, 0x8C]), (256u16, [0x01, 0x00]), (1500u16, [0x05, 0xDC])];
    for (length, expected_bytes) in test_lengths {
        let encoded = encode_ethernet_header(&trace_header(), length);
        assert_eq!(&encoded[20..22], &expected_bytes, "Length field mismatch for length {}", length);
    }
}

#[test]
fn test_encode_ethernet_header_reserved_fields() {
    let encoded = encode_ethernet_header(&trace_header(), 140);
    assert_eq!(&encoded[22..24], &[0x00, 0x00], "Reserved1 should be zero");
    assert_eq!(&encoded[24..26], &[0x00, 0x00], "Reserved2 should be zero");
}

#[test]
fn empty_control_block_reference_is_refused() {
    let mut pdu = trace_pdu();
    pdu.go_cb_ref = String::new();
    assert!(encode_goose(&trace_header(), &pdu).is_err());
}

#[test]
fn wrong_size_field_is_located() {
    let mut frame = TRACE.to_vec();
    // the UtcTime field (tag 0x84 at offset 80) claims seven bytes
    assert_eq!(frame[80], 0x84);
    frame[81] = 7;
    let err = decode_goose_pdu(&frame, 26).unwrap_err();
    assert!(err.buffer_index >= 26 && err.buffer_index <= frame.len());
}
