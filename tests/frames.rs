use iec_61850_lib::decode_goose::is_goose_frame;
use iec_61850_lib::decode_smv::{decode_sim_bit, is_smv_frame};

#[test]
fn decode_goose_test_is_goose_frame() {
    let mut buf = [0u8; 60];
    buf[12] = 0x88;
    buf[13] = 0xb8;
    assert!(is_goose_frame(&buf));

    let mut buf_vlan = [0u8; 60];
    buf_vlan[12] = 0x81;
    buf_vlan[13] = 0x00;
    buf_vlan[16] = 0x88;
    buf_vlan[17] = 0xb8;
    assert!(is_goose_frame(&buf_vlan));

    let mut buf_wrong = [0u8; 60];
    buf_wrong[12] = 0x08;
    buf_wrong[13] = 0x00;
    assert!(!is_goose_frame(&buf_wrong));

    let mut buf_vlan_wrong = [0u8; 60];
    buf_vlan_wrong[12] = 0x81;
    buf_vlan_wrong[13] = 0x00;
    buf_vlan_wrong[16] = 0x08;
    buf_vlan_wrong[17] = 0x00;
    assert!(!is_goose_frame(&buf_vlan_wrong));

    let short_buf = [0u8; 13];
    assert!(!is_goose_frame(&short_buf));

    let mut short_vlan_buf = [0u8; 17];
    short_vlan_buf[12] = 0x81;
    short_vlan_buf[13] = 0x00;
    assert!(!is_goose_frame(&short_vlan_buf));
}

#[test]
fn goose_test_frame_ether_type_accepted() {
    let mut buf = [0u8; 20];
    buf[12] = 0x88;
    buf[13] = 0xb9;
    assert!(is_goose_frame(&buf));
    assert!(!is_smv_frame(&buf));
}

#[test]
fn test_is_smv_frame_no_vlan() {
    let frame = vec![
        0x01, 0x0c, 0xcd, 0x04, 0x00, 0x01, // dst MAC
        0x00, 0x11, 0x22, 0x33, 0x44, 0x55, // src MAC
        0x88, 0xba, // EtherType = SMV
    ];
    assert!(is_smv_frame(&frame));
}

#[test]
fn test_is_smv_frame_with_vlan() {
    let frame = vec![
        0x01, 0x0c, 0xcd, 0x04, 0x00, 0x01, // dst MAC
        0x00, 0x11, 0x22, 0x33, 0x44, 0x55, // src MAC
        0x81, 0x00, // VLAN TPID
        0x00, 0x64, // VLAN TCI
        0x88, 0xba, // EtherType = SMV
    ];
    assert!(is_smv_frame(&frame));
}

#[test]
fn test_is_smv_frame_not_smv() {
    let frame = vec![
        0x01, 0x0c, 0xcd, 0x04, 0x00, 0x01, 0x00, 0x11, 0x22, 0x33, 0x44, 0x55, 0x08,
        0x00, // EtherType = IPv4
    ];
    assert!(!is_smv_frame(&frame));
}

#[test]
fn test_decode_sim_bit() {
    let mut frame = vec![
        0x01, 0x0c, 0xcd, 0x04, 0x00, 0x01, // dst
        0x00, 0x11, 0x22, 0x33, 0x44, 0x55, // src
        0x88, 0xba, // EtherType
        0x40, 0x00, // APPID
        0x00, 0x64, // Length
        0x00, 0x00, // Reserved 1 (SIM bit = 0)
    ];
    assert_eq!(decode_sim_bit(&frame), Some(false));
    frame[18] = 0x80;
    assert_eq!(decode_sim_bit(&frame), Some(true));
}

#[test]
fn sim_bit_with_vlan_and_short_frames() {
    let mut frame = vec![0u8; 26];
    frame[12] = 0x81;
    frame[13] = 0x00;
    frame[22] = 0x80;
    assert_eq!(decode_sim_bit(&frame), Some(true));
    assert_eq!(decode_sim_bit(&frame[..18]), None);
}
