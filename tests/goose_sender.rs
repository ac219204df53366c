use iec_61850_lib::decode_goose::decode_goose_pdu;
use iec_61850_lib::goose_sender::{time_ms, GooseConfig, GoosePublisher};
use iec_61850_lib::types::{IECData, Timestamp};

fn config(min: u32, max: u32) -> GooseConfig {
    GooseConfig {
        dst_addr: [0x01, 0x0C, 0xCD, 0x01, 0x00, 0x01],
        tpid: None,
        tci: None,
        appid: [0x10, 0x01],
        go_cb_ref: "IED1/LLN0$GO$gcb1".to_string(),
        dat_set: "IED1/LLN0$DATASET1".to_string(),
        go_id: "GOOSE1".to_string(),
        simulation: false,
        conf_rev: 1,
        nds_com: false,
        all_data: vec![IECData::Boolean(false)],
        min_repetition: min,
        max_repetition: max,
    }
}

fn stamp() -> Timestamp {
    Timestamp::from_bytes(time_ms(1698502245, 500_000_000))
}

#[test]
fn retransmission_cadence() {
    let mut p = GoosePublisher::new(config(10, 1000), [0, 1, 2, 3, 4, 5], stamp()).unwrap();
    let mut waits = Vec::new();
    for expected_sq in 1..=10u32 {
        let (frame, wait) = p.emit();
        let pdu = decode_goose_pdu(&frame.unwrap(), 22).unwrap();
        assert_eq!(pdu.sq_num, expected_sq);
        assert_eq!(pdu.st_num, 1);
        assert_eq!(pdu.time_allowed_to_live, 2 * wait);
        waits.push(wait);
    }
    assert_eq!(waits, vec![10, 20, 40, 80, 160, 320, 640, 1000, 1000, 1000]);
}

#[test]
fn update_restarts_the_count() {
    let mut p = GoosePublisher::new(config(10, 1000), [0, 1, 2, 3, 4, 5], stamp()).unwrap();
    for _ in 0..5 {
        p.emit();
    }
    p.update(vec![IECData::Boolean(true), IECData::Int(-5)], stamp());
    let (frame, wait) = p.emit();
    let pdu = decode_goose_pdu(&frame.unwrap(), 22).unwrap();
    assert_eq!(pdu.st_num, 2);
    assert_eq!(pdu.sq_num, 1);
    assert_eq!(wait, 10);
    assert_eq!(pdu.num_dat_set_entries, 2);
    assert_eq!(pdu.all_data, vec![IECData::Boolean(true), IECData::Int(-5)]);
    let (frame, wait) = p.emit();
    let pdu = decode_goose_pdu(&frame.unwrap(), 22).unwrap();
    assert_eq!(pdu.sq_num, 2);
    assert_eq!(wait, 20);
}

#[test]
fn status_number_wraps() {
    let mut p = GoosePublisher::new(config(5, 5), [0; 6], stamp()).unwrap();
    p.pdu.st_num = u32::MAX;
    p.update(vec![], stamp());
    assert_eq!(p.pdu.st_num, 0);
    let (_, wait) = p.emit();
    assert_eq!(wait, 5);
    assert_eq!(p.current_interval, 5);
}

#[test]
fn unusable_intervals_are_refused() {
    assert!(GoosePublisher::new(config(0, 10), [0; 6], stamp()).is_none());
    assert!(GoosePublisher::new(config(20, 10), [0; 6], stamp()).is_none());
    assert!(GoosePublisher::new(config(1, 0x8000_0000), [0; 6], stamp()).is_none());
}

#[test]
fn wall_clock_to_utc_time() {
    assert_eq!(time_ms(1698502245, 500_000_000), [0x65, 0x3D, 0x16, 0x65, 0x80, 0x00, 0x00, 0x18]);
    assert_eq!(time_ms(0x1_0000_0001, 0), [0, 0, 0, 1, 0, 0, 0, 0x18]);
}

#[test]
fn sub_microsecond_time_is_kept() {
    // 1 ns short of a quarter second: one count below 0x400000
    assert_eq!(time_ms(0, 249_999_999)[4..7], [0x3F, 0xFF, 0xFF]);
    assert_eq!(time_ms(0, 250_000_000)[4..7], [0x40, 0x00, 0x00]);
    assert_eq!(time_ms(0, 60)[4..7], [0x00, 0x00, 0x01]);
}

#[test]
fn new_publisher_carries_the_configuration() {
    let mut c = config(10, 1000);
    c.conf_rev = 7;
    c.nds_com = true;
    let p = GoosePublisher::new(c, [9; 6], stamp()).unwrap();
    assert_eq!(p.header.ether_type, [0x88, 0xB8]);
    assert_eq!(p.header.appid, [0x10, 0x01]);
    assert_eq!(p.header.src_addr, [9; 6]);
    assert_eq!(p.pdu.conf_rev, 7);
    assert!(p.pdu.nds_com);
    assert_eq!(p.pdu.dat_set, "IED1/LLN0$DATASET1");
    assert_eq!(p.pdu.num_dat_set_entries, 1);
    assert_eq!(p.pdu.time_allowed_to_live, 20);
}
