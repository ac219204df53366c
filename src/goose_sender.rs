//! The GOOSE publisher of one control block: what to send, and when.
//!
//! Every data change is sent at once with a new status number; the frame is
//! then repeated at intervals that double from the minimum up to the maximum.
//! The caller owns the clock and the socket: it sends what `emit` returns,
//! waits the interval that comes with it (or less, on an update), and calls
//! `emit` again.
use vstd::prelude::*;
use crate::encode_goose::{encode_goose, goose_pdu_bytes};
use crate::types::{
    header_bytes, list_view, EncodeError, EthernetHeader, GooseModel, IECData, IECGoosePdu, TimeQuality, Timestamp,
};

verus! {

/// Configuration of a GOOSE control block.
#[derive(Debug, PartialEq)]
pub struct GooseConfig {
    pub dst_addr: [u8; 6],
    pub tpid: Option<[u8; 2]>,
    pub tci: Option<[u8; 2]>,
    pub appid: [u8; 2],
    pub go_cb_ref: String,
    pub dat_set: String,
    pub go_id: String,
    pub simulation: bool,
    pub conf_rev: u32,
    pub nds_com: bool,
    pub all_data: Vec<IECData>,
    /// Shortest retransmission interval, in milliseconds.
    pub min_repetition: u32,
    /// Longest retransmission interval, in milliseconds.
    pub max_repetition: u32,
}

/// Intervals a publisher can run with: `0 < min <= max`, and twice the
/// maximum fits the 32-bit time-allowed-to-live.
pub open spec fn intervals_ok(min: u32, max: u32) -> bool {
    0 < min <= max <= 0x7FFF_FFFF
}

/// The counters and the interval of a publisher.
pub struct SenderState {
    pub st_num: u32,
    pub sq_num: u32,
    pub current_interval: u32,
    pub min_repetition: u32,
    pub max_repetition: u32,
}

/// `x + 1`, wrapping at 2^32.
pub open spec fn next_num(x: u32) -> u32 {
    if x == u32::MAX {
        0
    } else {
        (x + 1) as u32
    }
}

/// The interval after a retransmission: doubled, at most the maximum.
pub open spec fn next_interval(ci: u32, max: u32) -> u32 {
    if 2 * ci >= max {
        max
    } else {
        (2 * ci) as u32
    }
}

/// State after a data change.
pub open spec fn updated(s: SenderState) -> SenderState {
    SenderState { st_num: next_num(s.st_num), sq_num: 1, current_interval: s.min_repetition, ..s }
}

/// State after a frame went out.
pub open spec fn emitted(s: SenderState) -> SenderState {
    SenderState {
        sq_num: next_num(s.sq_num),
        current_interval: next_interval(s.current_interval, s.max_repetition),
        ..s
    }
}

/// The entry count written for `n` values (at most the largest `u32`).
pub open spec fn entry_count(n: nat) -> u32 {
    if n > u32::MAX {
        u32::MAX
    } else {
        n as u32
    }
}

/// The publisher of one control block.
#[derive(Debug)]
pub struct GoosePublisher {
    pub header: EthernetHeader,
    /// The APDU of the next frame.
    pub pdu: IECGoosePdu,
    pub min_repetition: u32,
    pub max_repetition: u32,
    /// Milliseconds until the next retransmission.
    pub current_interval: u32,
}

impl GoosePublisher {
    pub open spec fn state(&self) -> SenderState {
        SenderState {
            st_num: self.pdu.st_num,
            sq_num: self.pdu.sq_num,
            current_interval: self.current_interval,
            min_repetition: self.min_repetition,
            max_repetition: self.max_repetition,
        }
    }

    /// The interval lies between the bounds, and the next frame advertises
    /// twice the interval as its time allowed to live.
    pub open spec fn wf(&self) -> bool {
        &&& intervals_ok(self.min_repetition, self.max_repetition)
        &&& self.min_repetition <= self.current_interval <= self.max_repetition
        &&& self.pdu.time_allowed_to_live == 2 * self.current_interval
    }

    /// A publisher for `config`, sending from `src_addr`, with the data stamped
    /// `timestamp`: status and sequence numbers 1, the shortest interval.
    /// None when the intervals are unusable.
    pub fn new(config: GooseConfig, src_addr: [u8; 6], timestamp: Timestamp) -> (r: Option<GoosePublisher>)
        ensures
            r is Some <==> intervals_ok(config.min_repetition, config.max_repetition),
            r matches Some(p) ==> {
                &&& p.wf()
                &&& p.current_interval == config.min_repetition
                &&& p.min_repetition == config.min_repetition
                &&& p.max_repetition == config.max_repetition
                &&& p.pdu.all_data@ == config.all_data@
                &&& p.pdu@ == (GooseModel {
                    go_cb_ref: config.go_cb_ref@,
                    time_allowed_to_live: (2 * config.min_repetition) as u32,
                    dat_set: config.dat_set@,
                    go_id: config.go_id@,
                    t: timestamp,
                    st_num: 1,
                    sq_num: 1,
                    simulation: config.simulation,
                    conf_rev: config.conf_rev,
                    nds_com: config.nds_com,
                    num_dat_set_entries: entry_count(config.all_data@.len()),
                    all_data: list_view(config.all_data@),
                })
                &&& p.header.dst_addr == config.dst_addr
                &&& p.header.src_addr == src_addr
                &&& p.header.tpid == config.tpid
                &&& p.header.tci == config.tci
                &&& p.header.ether_type@ == seq![0x88u8, 0xB8u8]
                &&& p.header.appid == config.appid
                &&& p.header.length@ == seq![0u8, 0u8]
            },
    {
        if config.min_repetition == 0 || config.min_repetition > config.max_repetition
            || config.max_repetition > 0x7FFF_FFFF {
            return None;
        }
        let header = EthernetHeader {
            dst_addr: config.dst_addr,
            src_addr,
            tpid: config.tpid,
            tci: config.tci,
            ether_type: [0x88, 0xB8],
            appid: config.appid,
            length: [0, 0],
        };
        let n = config.all_data.len();
        let entries: u32 = if n > 0xFFFF_FFFF { 0xFFFF_FFFF } else { n as u32 };
        let pdu = IECGoosePdu {
            go_cb_ref: config.go_cb_ref,
            time_allowed_to_live: 2 * config.min_repetition,
            dat_set: config.dat_set,
            go_id: config.go_id,
            t: timestamp,
            st_num: 1,
            sq_num: 1,
            simulation: config.simulation,
            conf_rev: config.conf_rev,
            nds_com: config.nds_com,
            num_dat_set_entries: entries,
            all_data: config.all_data,
        };
        Some(
            GoosePublisher {
                header,
                pdu,
                min_repetition: config.min_repetition,
                max_repetition: config.max_repetition,
                current_interval: config.min_repetition,
            },
        )
    }

    /// A data change: the new data, stamped `timestamp`, goes out next with a
    /// new status number, sequence number 1 and the shortest interval.
    pub fn update(&mut self, all_data: Vec<IECData>, timestamp: Timestamp)
        requires
            old(self).wf(),
        ensures
            final(self).wf(),
            final(self).state() == updated(old(self).state()),
            final(self).pdu.all_data@ == all_data@,
            final(self).pdu@ == (GooseModel {
                time_allowed_to_live: (2 * old(self).min_repetition) as u32,
                t: timestamp,
                st_num: next_num(old(self).pdu.st_num),
                sq_num: 1,
                num_dat_set_entries: entry_count(all_data@.len()),
                all_data: list_view(all_data@),
                ..old(self).pdu@
            }),
            final(self).header == old(self).header,
    {
        let n = all_data.len();
        self.pdu.num_dat_set_entries = if n > 0xFFFF_FFFF { 0xFFFF_FFFF } else { n as u32 };
        self.pdu.all_data = all_data;
        self.pdu.st_num = self.pdu.st_num.wrapping_add(1);
        self.pdu.sq_num = 1;
        self.pdu.t = timestamp;
        self.current_interval = self.min_repetition;
        self.pdu.time_allowed_to_live = 2 * self.min_repetition;
    }

    /// The frame to send now, and how long to wait before the next one.
    /// Afterwards the sequence number has advanced and the interval doubled
    /// (at most the maximum), whether or not the frame could be encoded.
    pub fn emit(&mut self) -> (r: (Result<Vec<u8>, EncodeError>, u32))
        requires
            old(self).wf(),
        ensures
            final(self).wf(),
            final(self).state() == emitted(old(self).state()),
            final(self).header == old(self).header,
            final(self).pdu.all_data@ == old(self).pdu.all_data@,
            final(self).pdu@ == (GooseModel {
                sq_num: next_num(old(self).pdu.sq_num),
                time_allowed_to_live: (2 * final(self).current_interval) as u32,
                ..old(self).pdu@
            }),
            r.1 == old(self).current_interval,
            old(self).pdu.time_allowed_to_live == 2 * old(self).current_interval,
            r.0 is Ok ==> r.0->Ok_0@ == header_bytes(
                old(self).header,
                (goose_pdu_bytes(old(self).pdu@).len() + 8) as u16,
                old(self).pdu.simulation,
            ) + goose_pdu_bytes(old(self).pdu@),
            r.0 is Ok <==> crate::encode_goose::goose_fits(old(self).pdu@) && goose_pdu_bytes(old(self).pdu@).len() + 8
                <= 0xFFFF,
    {
        let frame = encode_goose(&self.header, &self.pdu);
        let wait = self.current_interval;
        self.pdu.sq_num = self.pdu.sq_num.wrapping_add(1);
        let doubled: u64 = 2 * (self.current_interval as u64);
        self.current_interval = if doubled >= self.max_repetition as u64 {
            self.max_repetition
        } else {
            doubled as u32
        };
        self.pdu.time_allowed_to_live = 2 * self.current_interval;
        (frame, wait)
    }
}

/// The data change restarts the count: the next frame carries the following
/// status number and sequence number 1; each frame after it within that
/// status carries the previous sequence number plus one.
pub proof fn lemma_update_then_emit(s: SenderState)
    ensures
        updated(s).st_num == next_num(s.st_num),
        updated(s).sq_num == 1,
        emitted(updated(s)).st_num == updated(s).st_num,
        emitted(updated(s)).sq_num == 2,
        emitted(s).st_num == s.st_num,
        emitted(s).sq_num == next_num(s.sq_num),
{
}

/// After a retransmission the interval lies between the bounds and has not
/// shrunk; it only shrinks back to the minimum on a data change.
pub proof fn lemma_interval_bounds(s: SenderState)
    requires
        intervals_ok(s.min_repetition, s.max_repetition),
        s.min_repetition <= s.current_interval <= s.max_repetition,
    ensures
        s.min_repetition <= emitted(s).current_interval <= s.max_repetition,
        emitted(s).current_interval >= s.current_interval,
        updated(s).current_interval == s.min_repetition,
{
}

/// Every frame a publisher sends advertises twice its current interval as the
/// time allowed to live.
pub proof fn lemma_time_allowed_to_live(p: GoosePublisher)
    requires
        p.wf(),
    ensures
        p.pdu@.time_allowed_to_live == 2 * p.state().current_interval,
{
}

/// IEC 61850 UtcTime bytes for a wall-clock time: seconds since 1970 (kept to
/// 32 bits), the nanoseconds as a 24-bit binary fraction (rounded down), and the quality
/// byte 0x18 (clock synchronised, 24 bits of accuracy).
pub fn time_ms(seconds: u64, subsec_nanos: u32) -> (r: [u8; 8])
    requires
        subsec_nanos < 1_000_000_000,
    ensures
        r@ == crate::types::timestamp_bytes(
            Timestamp {
                seconds: (seconds % 0x1_0000_0000) as u32,
                fraction: (subsec_nanos as nat * 0x100_0000 / 1_000_000_000) as u32,
                quality: TimeQuality {
                    leap_second_known: false,
                    clock_failure: false,
                    clock_not_synchronized: false,
                    time_accuracy: 24,
                },
            },
        ),
{
    let fraction: u64 = subsec_nanos as u64 * 0x100_0000 / 1_000_000_000;
    assert(fraction < 0x100_0000) by (nonlinear_arith)
        requires
            fraction == subsec_nanos as u64 * 0x100_0000 / 1_000_000_000,
            subsec_nanos < 1_000_000_000,
    ;
    let t = Timestamp {
        seconds: (seconds % 0x1_0000_0000) as u32,
        fraction: fraction as u32,
        quality: TimeQuality {
            leap_second_known: false,
            clock_failure: false,
            clock_not_synchronized: false,
            time_accuracy: 24,
        },
    };
    t.to_bytes()
}

} // verus!
