use iec_61850_lib::decode_basics::decode_ethernet_header;
use iec_61850_lib::decode_smv::{decode_savs, decode_smv};
use iec_61850_lib::encode_smv::{asdu_size, encode_sav_asdu, encode_samples, encode_smv, encode_smv_into, sav_pdu_size, smv_size};
use iec_61850_lib::types::EncodeError;
use iec_61850_lib::types::{EthernetHeader, Quality, Sample, SavAsdu, SavPdu, Validity};

fn header(vlan: bool) -> EthernetHeader {
    EthernetHeader {
        dst_addr: [0x01, 0x0c, 0xcd, 0x04, 0x00, 0x01],
        src_addr: [0x00, 0x1a, 0xb6, 0x03, 0x2f, 0x1c],
        tpid: if vlan { Some([0x81, 0x00]) } else { None },
        tci: if vlan { Some([0x80, 0x64]) } else { None },
        ether_type: [0x88, 0xba],
        appid: [0x40, 0x01],
        length: [0x00, 0x00],
    }
}

fn simple_asdu(id: &str, values: &[i32]) -> SavAsdu {
    SavAsdu {
        msv_id: id.to_string(),
        dat_set: None,
        smp_cnt: 100,
        conf_rev: 1,
        refr_tm: None,
        smp_synch: 1,
        smp_rate: Some(4000),
        all_data: values.iter().map(|v| Sample::new(*v, 0x0000)).collect(),
        smp_mod: None,
        gm_identity: None,
    }
}

fn full_asdu() -> SavAsdu {
    SavAsdu {
        msv_id: "FULL_ASDU_TEST_ID".to_string(),
        dat_set: Some("DataSet_Full_Test".to_string()),
        smp_cnt: 32768,
        conf_rev: 987654,
        refr_tm: Some([1, 2, 3, 4, 5, 6, 7, 8]),
        smp_synch: 2,
        smp_rate: Some(4800),
        all_data: vec![Sample::new(10000, 0x0000), Sample::new(-20000, 0x2000), Sample::new(30000, 0xC008)],
        smp_mod: Some(10),
        gm_identity: Some([0xA, 0xB, 0xC, 0xD, 0xE, 0xF, 0x1, 0x2]),
    }
}

fn round_trip(header: &EthernetHeader, pdu: &SavPdu) -> SavPdu {
    let encoded = encode_smv(header, pdu).expect("Encoding failed");
    let mut decoded_header = EthernetHeader::default();
    let pos = decode_ethernet_header(&mut decoded_header, &encoded).unwrap();
    assert_eq!(decoded_header.dst_addr, header.dst_addr);
    assert_eq!(decoded_header.tpid, header.tpid);
    decode_smv(&encoded, pos).expect("Decoding failed")
}

#[test]
fn test_encode_decode_roundtrip_simple() {
    let pdu = SavPdu {
        sim: false,
        no_asdu: 1,
        security: None,
        sav_asdu: vec![simple_asdu("TestSV01", &[1000, -2000, 3000, -4000])],
    };
    let decoded = round_trip(&header(false), &pdu);
    assert_eq!(decoded, pdu);
}

#[test]
fn eight_samples_take_seventy_two_bytes() {
    let values: Vec<i32> = (0..8).map(|i| 10000 + i * 1000).collect();
    let pdu = SavPdu { sim: false, no_asdu: 1, security: None, sav_asdu: vec![simple_asdu("MU01", &values)] };
    let block = encode_samples(&pdu.sav_asdu[0].all_data);
    assert_eq!(block.len(), 72);
    let encoded = encode_smv(&header(false), &pdu).unwrap();
    assert!(encoded.len() <= 1500);
    let decoded = round_trip(&header(false), &pdu);
    for (i, s) in decoded.sav_asdu[0].all_data.iter().enumerate() {
        assert_eq!(s.value, 10000 + i as i32 * 1000);
        assert!(s.quality.is_good());
    }
}

#[test]
fn test_roundtrip_with_simulation_bit() {
    let pdu = SavPdu { sim: true, no_asdu: 1, security: None, sav_asdu: vec![simple_asdu("SIM_TEST", &[500])] };
    let encoded = encode_smv(&header(false), &pdu).unwrap();
    assert_eq!(encoded[18], 0x80, "Simulation bit should be set");
    let encoded_vlan = encode_smv(&header(true), &pdu).unwrap();
    assert_eq!(encoded_vlan[22], 0x80);
    assert_eq!(round_trip(&header(true), &pdu), pdu);
}

#[test]
fn test_roundtrip_with_security() {
    let pdu = SavPdu {
        sim: false,
        no_asdu: 1,
        security: Some(vec![0xDE, 0xAD, 0xBE, 0xEF, 0, 1, 2, 3, 4, 5]),
        sav_asdu: vec![simple_asdu("SEC_TEST", &[750])],
    };
    assert_eq!(round_trip(&header(false), &pdu), pdu);
}

#[test]
fn test_roundtrip_all_optional_fields() {
    let pdu = SavPdu { sim: false, no_asdu: 1, security: None, sav_asdu: vec![full_asdu()] };
    let decoded = round_trip(&header(true), &pdu);
    assert_eq!(decoded, pdu);
    assert_eq!(decoded.sav_asdu[0].all_data[2].quality.validity, Validity::Questionable);
    assert!(decoded.sav_asdu[0].all_data[1].quality.overflow);
    assert!(decoded.sav_asdu[0].all_data[2].quality.operator_blocked);
}

#[test]
fn test_roundtrip_multiple_asdus() {
    let mut second = full_asdu();
    second.dat_set = None;
    second.refr_tm = None;
    let pdu = SavPdu {
        sim: false,
        no_asdu: 3,
        security: None,
        sav_asdu: vec![simple_asdu("ASDU_01", &[100, 200]), second, simple_asdu("ASDU_03", &[])],
    };
    assert_eq!(round_trip(&header(false), &pdu), pdu);
}

#[test]
fn test_roundtrip_extreme_values() {
    let asdu = SavAsdu {
        msv_id: "X".to_string(),
        dat_set: Some(String::new()),
        smp_cnt: 65535,
        conf_rev: 4294967295,
        refr_tm: Some([255; 8]),
        smp_synch: 255,
        smp_rate: Some(0),
        all_data: vec![
            Sample::new(i32::MAX, 0xFFF8),
            Sample::new(i32::MIN, 0),
            Sample::new(127, 0),
            Sample::new(128, 0),
            Sample::new(-128, 0),
            Sample::new(-129, 0),
            Sample::new(32767, 0),
            Sample::new(32768, 0),
        ],
        smp_mod: Some(65535),
        gm_identity: Some([0; 8]),
    };
    let pdu = SavPdu { sim: false, no_asdu: 1, security: None, sav_asdu: vec![asdu] };
    assert_eq!(round_trip(&header(false), &pdu), pdu);
}

#[test]
fn test_roundtrip_large_packet() {
    let asdus: Vec<SavAsdu> = (0..10).map(|i| simple_asdu(&format!("IED{}/MSVCB{:02}", i, i), &[1, -1, 1000, -1000, 100000, -100000, 0, 7])).collect();
    let pdu = SavPdu { sim: false, no_asdu: 10, security: None, sav_asdu: asdus };
    assert_eq!(round_trip(&header(false), &pdu), pdu);
}

#[test]
fn samples_must_fill_their_block_exactly() {
    let samples = vec![Sample::new(1000, 0x4000), Sample::new(-1300, 0), Sample::new(2550, 0)];
    let block = encode_samples(&samples);
    let (end, decoded) = decode_savs(&block, 0, block.len()).unwrap();
    assert_eq!(end, block.len());
    assert_eq!(decoded, samples);
    assert_eq!(decoded[0].quality.validity, Validity::Invalid);
    assert!(decode_savs(&block, 0, block.len() - 1).is_err());
    assert!(decode_savs(&block, 0, block.len() + 1).is_err());
}

#[test]
fn missing_required_field_is_refused() {
    let pdu = SavPdu { sim: false, no_asdu: 1, security: None, sav_asdu: vec![simple_asdu("A", &[1])] };
    let mut encoded = encode_smv(&header(false), &pdu).unwrap();
    // turn smpCnt (0x82) into an unknown tag
    let i = encoded.iter().position(|b| *b == 0x82).unwrap();
    encoded[i] = 0x8F;
    assert!(decode_smv(&encoded, 22).is_err());
}

#[test]
fn quality_good_and_flags() {
    assert!(Quality::default().is_good());
    assert!(!Quality::from_u16(0x0008).is_good());
    assert!(!Quality::from_u16(0x4000).is_good());
    assert_eq!(Quality::from_u16(0xFFF8).to_u16(), 0xFFF8);
    assert_eq!(Quality::from_u16(0x0007).to_u16(), 0x0000);
}

fn sample_block(values: &[i32], quality: u16) -> Vec<u8> {
    let mut buffer = Vec::new();
    for value in values {
        let value_bytes = value.to_be_bytes();
        let mut start_idx = 0;
        for j in 0..3 {
            if value_bytes[j] == 0 && (value_bytes[j + 1] & 0x80) == 0 {
                start_idx = j + 1;
            } else {
                break;
            }
        }
        let compressed = &value_bytes[start_idx..];
        buffer.push(0x83);
        buffer.push(compressed.len() as u8);
        buffer.extend_from_slice(compressed);
        buffer.push(0x84);
        buffer.push(3);
        buffer.push(3);
        buffer.extend_from_slice(&quality.to_be_bytes());
    }
    buffer
}

#[test]
fn test_decode_92_le_data_correctness() {
    let values: Vec<i32> = (0..8).map(|i| 10000 + i * 1000).collect();
    let buffer = sample_block(&values, 0x0000);
    let result = decode_savs(&buffer, 0, buffer.len());
    assert!(result.is_ok());
    let (pos, data) = result.unwrap();
    assert_eq!(pos, buffer.len());
    assert_eq!(data.len(), 8);
    assert_eq!(data[0].value, 10000);
    assert_eq!(data[0].quality.to_u16(), 0);
    assert!(data[0].quality.is_good());
    assert_eq!(data[7].value, 17000);
    assert_eq!(data[7].quality.to_u16(), 0);
    assert!(data[7].quality.is_good());
}

#[test]
fn test_decode_variable_sample_count() {
    let values: Vec<i32> = (0..4).map(|i| 1000 + i * 100).collect();
    let buffer = sample_block(&values, 0x0000);
    let (pos, data) = decode_savs(&buffer, 0, buffer.len()).unwrap();
    assert_eq!(data.len(), 4);
    assert_eq!(pos, buffer.len());
    assert_eq!(data[0].value, 1000);
    assert_eq!(data[3].value, 1300);

    let values: Vec<i32> = (0..12).map(|i| 2000 + i * 50).collect();
    let buffer = sample_block(&values, 0x4000);
    let (pos, data) = decode_savs(&buffer, 0, buffer.len()).unwrap();
    assert_eq!(data.len(), 12);
    assert_eq!(pos, buffer.len());
    assert_eq!(data[0].value, 2000);
    assert_eq!(data[11].value, 2550);
    assert_eq!(data[0].quality.validity, Validity::Invalid);
}

#[test]
fn test_roundtrip_minimal() {
    let asdu = SavAsdu { msv_id: "IED1".to_string(), ..SavAsdu::default() };
    let pdu = SavPdu { sim: false, no_asdu: 1, security: None, sav_asdu: vec![asdu] };
    assert_eq!(round_trip(&header(false), &pdu), pdu);
}

#[test]
fn test_roundtrip_with_vlan() {
    let pdu = SavPdu {
        sim: false,
        no_asdu: 1,
        security: None,
        sav_asdu: vec![simple_asdu("VLAN_TEST", &[1000, 2000])],
    };
    let encoded = encode_smv(&header(true), &pdu).unwrap();
    assert_eq!(&encoded[12..16], &[0x81, 0x00, 0x80, 0x64]);
    assert_eq!(&encoded[16..18], &[0x88, 0xba]);
    assert_eq!(round_trip(&header(true), &pdu), pdu);
}

#[test]
fn test_length_calculation_exact_simple() {
    let pdu = SavPdu { sim: false, no_asdu: 1, security: None, sav_asdu: vec![simple_asdu("TestSV01", &[1000, -2000, 3000, -4000])] };
    let encoded = encode_smv(&header(false), &pdu).expect("Encoding failed");
    let length = u16::from_be_bytes([encoded[16], encoded[17]]) as usize;
    assert_eq!(length, encoded.len() - 14, "Length mismatch: calculated {}, actual {}", length, encoded.len() - 14);
}

#[test]
fn test_length_calculation_exact_multiple_asdus() {
    let pdu = SavPdu {
        sim: false,
        no_asdu: 2,
        security: None,
        sav_asdu: vec![simple_asdu("SV01", &[100, 200, 300]), full_asdu()],
    };
    let encoded = encode_smv(&header(true), &pdu).expect("Encoding failed");
    let length = u16::from_be_bytes([encoded[20], encoded[21]]) as usize;
    assert_eq!(length, encoded.len() - 18);
}

#[test]
fn sizes_match_the_encodings() {
    let pdu = SavPdu { sim: true, no_asdu: 2, security: Some(vec![1, 2, 3]), sav_asdu: vec![full_asdu(), simple_asdu("A", &[1, -70000])] };
    for a in pdu.sav_asdu.iter() {
        assert_eq!(asdu_size(a), encode_sav_asdu(a).unwrap().len());
    }
    let frame = encode_smv(&header(true), &pdu).unwrap();
    assert_eq!(smv_size(&header(true), &pdu), frame.len());
    assert_eq!(sav_pdu_size(&pdu), frame.len() - 26);
}

#[test]
fn encode_into_a_caller_buffer() {
    let pdu = SavPdu { sim: false, no_asdu: 1, security: None, sav_asdu: vec![simple_asdu("MU01", &[1, 2, 3])] };
    let frame = encode_smv(&header(false), &pdu).unwrap();
    let mut buf = vec![0u8; 1500];
    let n = encode_smv_into(&header(false), &pdu, &mut buf).unwrap();
    assert_eq!(&buf[..n], &frame[..]);
    let mut small = vec![0u8; frame.len() - 1];
    let r = encode_smv_into(&header(false), &pdu, &mut small);
    assert_eq!(r, Err(EncodeError::BufferTooSmall { required: frame.len(), available: frame.len() - 1 }));
}
