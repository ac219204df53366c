//! The data carried by GOOSE and Sampled Values frames.
use vstd::prelude::*;
use crate::grammar::{be_bytes, be_uint};

verus! {

/// Time quality flags of an IEC 61850 UtcTime.
#[derive(Debug, Clone, Copy, PartialEq, Eq, Default)]
pub struct TimeQuality {
    pub leap_second_known: bool,
    pub clock_failure: bool,
    pub clock_not_synchronized: bool,
    /// Five bits: 0..=25 bits of accuracy, 26..=30 reserved, 31 unspecified.
    pub time_accuracy: u8,
}

/// The quality byte that `q` stands for.
pub open spec fn time_quality_byte(q: TimeQuality) -> u8 {
    ((if q.leap_second_known { 0x80u8 } else { 0u8 }) | (if q.clock_failure { 0x40u8 } else { 0u8 })
        | (if q.clock_not_synchronized { 0x20u8 } else { 0u8 }) | (q.time_accuracy & 0x1F)) as u8
}

/// The flags that a quality byte holds.
pub open spec fn time_quality_of(b: u8) -> TimeQuality {
    TimeQuality {
        leap_second_known: b & 0x80 != 0,
        clock_failure: b & 0x40 != 0,
        clock_not_synchronized: b & 0x20 != 0,
        time_accuracy: b & 0x1F,
    }
}

impl TimeQuality {
    /// The accuracy field fits its five bits.
    pub open spec fn wf(&self) -> bool {
        self.time_accuracy < 32
    }

    pub fn from_byte(byte: u8) -> (r: TimeQuality)
        ensures
            r == time_quality_of(byte),
            r.wf(),
    {
        assert((byte & 0x1F) < 32) by (bit_vector);
        TimeQuality {
            leap_second_known: byte & 0x80 != 0,
            clock_failure: byte & 0x40 != 0,
            clock_not_synchronized: byte & 0x20 != 0,
            time_accuracy: byte & 0x1F,
        }
    }

    pub fn to_byte(&self) -> (r: u8)
        ensures
            r == time_quality_byte(*self),
    {
        let l: u8 = if self.leap_second_known { 0x80 } else { 0 };
        let c: u8 = if self.clock_failure { 0x40 } else { 0 };
        let n: u8 = if self.clock_not_synchronized { 0x20 } else { 0 };
        l | c | n | (self.time_accuracy & 0x1F)
    }

    /// Bits of accuracy, when the field gives them (0..=25).
    pub fn accuracy_bits(&self) -> (r: Option<u8>)
        ensures
            r == (if self.time_accuracy <= 25 { Some(self.time_accuracy) } else { None::<u8> }),
    {
        if self.time_accuracy <= 25 {
            Some(self.time_accuracy)
        } else {
            None
        }
    }
}

/// A byte survives being read into flags and written back.
pub proof fn lemma_time_quality_byte_round_trip(b: u8)
    ensures
        time_quality_byte(time_quality_of(b)) == b,
{
    assert(((if b & 0x80 != 0 { 0x80u8 } else { 0u8 }) | (if b & 0x40 != 0 { 0x40u8 } else { 0u8 }) | (if b & 0x20 != 0 { 0x20u8 } else { 0u8 }) | ((b & 0x1F) & 0x1F)) == b) by (bit_vector);
}

/// Well-formed flags survive being written to a byte and read back.
pub proof fn lemma_time_quality_flags_round_trip(q: TimeQuality)
    requires
        q.wf(),
    ensures
        time_quality_of(time_quality_byte(q)) == q,
{
    let l = q.leap_second_known;
    let c = q.clock_failure;
    let n = q.clock_not_synchronized;
    let a = q.time_accuracy;
    let b = ((if l { 0x80u8 } else { 0u8 }) | (if c { 0x40u8 } else { 0u8 }) | (if n { 0x20u8 } else { 0u8 }) | (a & 0x1F)) as u8;
    assert(a < 32 ==> ((b & 0x80 != 0) == l && (b & 0x40 != 0) == c && (b & 0x20 != 0) == n && (b & 0x1F) == a)) by (bit_vector)
        requires
            b == ((if l { 0x80u8 } else { 0u8 }) | (if c { 0x40u8 } else { 0u8 }) | (if n { 0x20u8 } else { 0u8 }) | (a & 0x1F)),
    ;
}

/// Validity of a sampled value.
#[derive(Debug, Clone, Copy, PartialEq, Eq, Default)]
pub enum Validity {
    #[default]
    Good,
    Invalid,
    Reserved,
    Questionable,
}

/// The two-bit code of a validity.
pub open spec fn validity_code(v: Validity) -> u16 {
    match v {
        Validity::Good => 0,
        Validity::Invalid => 1,
        Validity::Reserved => 2,
        Validity::Questionable => 3,
    }
}

/// The validity that a two-bit code names.
pub open spec fn validity_of(code: u16) -> Validity {
    if code == 0 {
        Validity::Good
    } else if code == 1 {
        Validity::Invalid
    } else if code == 2 {
        Validity::Reserved
    } else {
        Validity::Questionable
    }
}

/// Quality of a sampled value: thirteen bits, most significant first.
#[derive(Debug, Clone, Copy, PartialEq, Eq, Default)]
pub struct Quality {
    pub validity: Validity,
    pub overflow: bool,
    pub out_of_range: bool,
    pub bad_reference: bool,
    pub oscillatory: bool,
    pub failure: bool,
    pub old_data: bool,
    pub inconsistent: bool,
    pub inaccurate: bool,
    pub source_substituted: bool,
    pub test: bool,
    pub operator_blocked: bool,
}

pub open spec fn flag(b: bool, bit: u16) -> u16 {
    if b {
        bit
    } else {
        0
    }
}

/// The 16-bit container of a quality: the thirteen bits left-aligned.
pub open spec fn quality_bits(q: Quality) -> u16 {
    ((validity_code(q.validity) << 14u16) | flag(q.overflow, 0x2000) | flag(q.out_of_range, 0x1000)
        | flag(q.bad_reference, 0x0800) | flag(q.oscillatory, 0x0400) | flag(q.failure, 0x0200)
        | flag(q.old_data, 0x0100) | flag(q.inconsistent, 0x0080) | flag(q.inaccurate, 0x0040)
        | flag(q.source_substituted, 0x0020) | flag(q.test, 0x0010) | flag(q.operator_blocked, 0x0008)) as u16
}

/// The quality that a 16-bit container holds; its three low bits are padding.
pub open spec fn quality_of(v: u16) -> Quality {
    Quality {
        validity: validity_of((v >> 14u16) & 3),
        overflow: v & 0x2000 != 0,
        out_of_range: v & 0x1000 != 0,
        bad_reference: v & 0x0800 != 0,
        oscillatory: v & 0x0400 != 0,
        failure: v & 0x0200 != 0,
        old_data: v & 0x0100 != 0,
        inconsistent: v & 0x0080 != 0,
        inaccurate: v & 0x0040 != 0,
        source_substituted: v & 0x0020 != 0,
        test: v & 0x0010 != 0,
        operator_blocked: v & 0x0008 != 0,
    }
}

impl Quality {
    pub fn from_u16(value: u16) -> (r: Quality)
        ensures
            r == quality_of(value),
    {
        let code = (value >> 14u16) & 3;
        let validity = if code == 0 {
            Validity::Good
        } else if code == 1 {
            Validity::Invalid
        } else if code == 2 {
            Validity::Reserved
        } else {
            Validity::Questionable
        };
        Quality {
            validity,
            overflow: value & 0x2000 != 0,
            out_of_range: value & 0x1000 != 0,
            bad_reference: value & 0x0800 != 0,
            oscillatory: value & 0x0400 != 0,
            failure: value & 0x0200 != 0,
            old_data: value & 0x0100 != 0,
            inconsistent: value & 0x0080 != 0,
            inaccurate: value & 0x0040 != 0,
            source_substituted: value & 0x0020 != 0,
            test: value & 0x0010 != 0,
            operator_blocked: value & 0x0008 != 0,
        }
    }

    pub fn to_u16(&self) -> (r: u16)
        ensures
            r == quality_bits(*self),
    {
        let code: u16 = match self.validity {
            Validity::Good => 0,
            Validity::Invalid => 1,
            Validity::Reserved => 2,
            Validity::Questionable => 3,
        };
        let b1: u16 = if self.overflow { 0x2000 } else { 0 };
        let b2: u16 = if self.out_of_range { 0x1000 } else { 0 };
        let b3: u16 = if self.bad_reference { 0x0800 } else { 0 };
        let b4: u16 = if self.oscillatory { 0x0400 } else { 0 };
        let b5: u16 = if self.failure { 0x0200 } else { 0 };
        let b6: u16 = if self.old_data { 0x0100 } else { 0 };
        let b7: u16 = if self.inconsistent { 0x0080 } else { 0 };
        let b8: u16 = if self.inaccurate { 0x0040 } else { 0 };
        let b9: u16 = if self.source_substituted { 0x0020 } else { 0 };
        let b10: u16 = if self.test { 0x0010 } else { 0 };
        let b11: u16 = if self.operator_blocked { 0x0008 } else { 0 };
        (code << 14u16) | b1 | b2 | b3 | b4 | b5 | b6 | b7 | b8 | b9 | b10 | b11
    }

    /// Good validity and no flag set.
    pub fn is_good(&self) -> (r: bool)
        ensures
            r == (self.validity == Validity::Good && quality_bits(*self) & 0x3FF8 == 0),
    {
        let bits = self.to_u16();
        let good = match self.validity {
            Validity::Good => true,
            _ => false,
        };
        good && bits & 0x3FF8 == 0
    }
}

/// A quality survives being written to its container and read back.
pub proof fn lemma_quality_round_trip(q: Quality)
    ensures
        quality_of(quality_bits(q)) == q,
{
    let c = validity_code(q.validity);
    let v = quality_bits(q);
    let (f1, f2, f3, f4, f5, f6) = (q.overflow, q.out_of_range, q.bad_reference, q.oscillatory, q.failure, q.old_data);
    let (f7, f8, f9, f10, f11) = (q.inconsistent, q.inaccurate, q.source_substituted, q.test, q.operator_blocked);
    assert(c < 4 && v == ((c << 14u16) | (if f1 { 0x2000u16 } else { 0u16 }) | (if f2 { 0x1000u16 } else { 0u16 })
        | (if f3 { 0x0800u16 } else { 0u16 }) | (if f4 { 0x0400u16 } else { 0u16 }) | (if f5 { 0x0200u16 } else { 0u16 })
        | (if f6 { 0x0100u16 } else { 0u16 }) | (if f7 { 0x0080u16 } else { 0u16 }) | (if f8 { 0x0040u16 } else { 0u16 })
        | (if f9 { 0x0020u16 } else { 0u16 }) | (if f10 { 0x0010u16 } else { 0u16 }) | (if f11 { 0x0008u16 } else { 0u16 })) ==>
        (((v >> 14u16) & 3) == c && (v & 0x2000 != 0) == f1 && (v & 0x1000 != 0) == f2 && (v & 0x0800 != 0) == f3
        && (v & 0x0400 != 0) == f4 && (v & 0x0200 != 0) == f5 && (v & 0x0100 != 0) == f6 && (v & 0x0080 != 0) == f7
        && (v & 0x0040 != 0) == f8 && (v & 0x0020 != 0) == f9 && (v & 0x0010 != 0) == f10 && (v & 0x0008 != 0) == f11))
        by (bit_vector);
}

/// An IEC 61850 UtcTime: seconds since 1970, a 24-bit binary fraction and quality flags.
#[derive(Debug, Clone, Copy, PartialEq, Eq, Default)]
pub struct Timestamp {
    pub seconds: u32,
    /// Fraction of a second as `n / 2^24`.
    pub fraction: u32,
    pub quality: TimeQuality,
}

/// The eight wire bytes of a timestamp.
pub open spec fn timestamp_bytes(t: Timestamp) -> Seq<u8> {
    be_bytes(t.seconds as nat, 4) + be_bytes(t.fraction as nat % 0x100_0000, 3) + seq![time_quality_byte(t.quality)]
}

/// The timestamp that eight wire bytes hold.
pub open spec fn timestamp_of(b: Seq<u8>) -> Timestamp {
    Timestamp {
        seconds: be_uint(b.subrange(0, 4)) as u32,
        fraction: be_uint(b.subrange(4, 7)) as u32,
        quality: time_quality_of(b[7]),
    }
}

impl Timestamp {
    /// The fraction fits 24 bits and the quality byte its fields.
    pub open spec fn wf(&self) -> bool {
        self.fraction < 0x100_0000 && self.quality.wf()
    }

    pub fn from_bytes(bytes: [u8; 8]) -> (r: Timestamp)
        ensures
            r == timestamp_of(bytes@),
            r.wf(),
    {
        let ghost b = bytes@;
        proof {
            crate::grammar::lemma_be_uint_bound(b.subrange(0, 4));
            crate::grammar::lemma_be_uint_bound(b.subrange(4, 7));
            reveal_with_fuel(crate::grammar::pow256, 5);
            reveal_with_fuel(be_uint, 5);
        }
        let seconds: u32 = ((bytes[0] as u32 * 256 + bytes[1] as u32) * 256 + bytes[2] as u32) * 256 + bytes[3] as u32;
        let fraction: u32 = (bytes[4] as u32 * 256 + bytes[5] as u32) * 256 + bytes[6] as u32;
        assert(b.subrange(0, 4).drop_last().drop_last().drop_last().drop_last().len() == 0);
        assert(b.subrange(4, 7).drop_last().drop_last().drop_last().len() == 0);
        Timestamp { seconds, fraction, quality: TimeQuality::from_byte(bytes[7]) }
    }

    pub fn to_bytes(&self) -> (r: [u8; 8])
        ensures
            r@ == timestamp_bytes(*self),
    {
        let s = self.seconds;
        let f = self.fraction % 0x100_0000;
        let r = [
            (s / 0x100_0000) as u8,
            ((s / 0x1_0000) % 256) as u8,
            ((s / 256) % 256) as u8,
            (s % 256) as u8,
            (f / 0x1_0000) as u8,
            ((f / 256) % 256) as u8,
            (f % 256) as u8,
            self.quality.to_byte(),
        ];
        proof {
            reveal_with_fuel(be_bytes, 5);
            let sn = s as nat;
            let fnn = f as nat;
            assert(sn / 256 / 256 / 256 % 256 == sn / 0x100_0000) by {
                assert(sn / 256 / 256 / 256 == sn / 0x100_0000) by (nonlinear_arith)
                    requires sn >= 0;
            }
            assert(sn / 256 / 256 % 256 == (sn / 0x1_0000) % 256) by {
                assert(sn / 256 / 256 == sn / 0x1_0000) by (nonlinear_arith)
                    requires sn >= 0;
            }
            assert(fnn / 256 / 256 % 256 == fnn / 0x1_0000) by {
                assert(fnn / 256 / 256 == fnn / 0x1_0000) by (nonlinear_arith)
                    requires fnn >= 0;
            }
            assert(r@ =~= timestamp_bytes(*self));
        }
        r
    }

    /// The fraction in nanoseconds, rounded down.
    pub fn fraction_as_nanos(&self) -> (r: u32)
        ensures
            r as nat == (self.fraction as nat * 1_000_000_000 / 0x100_0000) % 0x1_0000_0000,
    {
        let n: u64 = self.fraction as u64 * 1_000_000_000 / 0x100_0000;
        (n % 0x1_0000_0000) as u32
    }
}

/// A well-formed timestamp survives its wire form.
pub proof fn lemma_timestamp_round_trip(t: Timestamp)
    requires
        t.wf(),
    ensures
        timestamp_bytes(t).len() == 8,
        timestamp_of(timestamp_bytes(t)) == t,
{
    let b = timestamp_bytes(t);
    reveal_with_fuel(crate::grammar::pow256, 5);
    crate::grammar::lemma_be_bytes(t.seconds as nat, 4);
    crate::grammar::lemma_be_bytes(t.fraction as nat, 3);
    assert(b.subrange(0, 4) =~= be_bytes(t.seconds as nat, 4));
    assert(b.subrange(4, 7) =~= be_bytes(t.fraction as nat, 3));
    lemma_time_quality_flags_round_trip(t.quality);
}

/// Ethernet and IEC 61850 link header of a frame.
#[derive(Debug, Clone, Copy, PartialEq, Eq, Default)]
pub struct EthernetHeader {
    pub dst_addr: [u8; 6],
    pub src_addr: [u8; 6],
    /// Tag protocol identifier of an 802.1Q tag (0x8100).
    pub tpid: Option<[u8; 2]>,
    /// Tag control information: VLAN priority and identifier.
    pub tci: Option<[u8; 2]>,
    pub ether_type: [u8; 2],
    pub appid: [u8; 2],
    /// Bytes from the APPID to the end of the PDU.
    pub length: [u8; 2],
}

/// A value of a GOOSE data set.
#[derive(Debug, PartialEq)]
pub enum IECData {
    Array(Vec<IECData>),
    Structure(Vec<IECData>),
    Boolean(bool),
    /// A coded-enum bit string: unused bits of the last byte, and the bytes
    /// in memory order (reversed against the wire, bits included).
    BitString { padding: u8, val: Vec<u8> },
    Int(i64),
    UInt(u64),
    /// IEEE-754 single precision, as its bits.
    Float32(u32),
    /// IEEE-754 double precision, as its bits.
    Float64(u64),
    OctetString(Vec<u8>),
    VisibleString(String),
    MmsString(String),
    Timestamp(Timestamp),
}

/// What an `IECData` value is, as mathematics.
pub enum DataModel {
    Array(Seq<DataModel>),
    Structure(Seq<DataModel>),
    Boolean(bool),
    BitString { padding: u8, val: Seq<u8> },
    Int(i64),
    UInt(u64),
    Float32(u32),
    Float64(u64),
    OctetString(Seq<u8>),
    VisibleString(Seq<char>),
    MmsString(Seq<char>),
    Timestamp(Timestamp),
}

pub open spec fn data_view(d: IECData) -> DataModel
    decreases d,
{
    match d {
        IECData::Array(v) => DataModel::Array(list_view(v@)),
        IECData::Structure(v) => DataModel::Structure(list_view(v@)),
        IECData::Boolean(b) => DataModel::Boolean(b),
        IECData::BitString { padding, val } => DataModel::BitString { padding, val: val@ },
        IECData::Int(x) => DataModel::Int(x),
        IECData::UInt(x) => DataModel::UInt(x),
        IECData::Float32(x) => DataModel::Float32(x),
        IECData::Float64(x) => DataModel::Float64(x),
        IECData::OctetString(v) => DataModel::OctetString(v@),
        IECData::VisibleString(s) => DataModel::VisibleString(s@),
        IECData::MmsString(s) => DataModel::MmsString(s@),
        IECData::Timestamp(t) => DataModel::Timestamp(t),
    }
}

pub open spec fn list_view(s: Seq<IECData>) -> Seq<DataModel>
    decreases s,
{
    if s.len() == 0 {
        Seq::empty()
    } else {
        list_view(s.drop_last()).push(data_view(s.last()))
    }
}

impl View for IECData {
    type V = DataModel;

    open spec fn view(&self) -> DataModel {
        data_view(*self)
    }
}

/// Failure of an encoder.
#[derive(Debug, Clone, PartialEq, Eq)]
pub enum EncodeError {
    /// The value cannot be written in this format (a length of 2^24 or more, ...).
    General { message: String, buffer_index: usize },
    /// The output buffer ends before the element does.
    BufferTooSmall { required: usize, available: usize },
}

impl EncodeError {
    pub fn new(msg: &str, buffer_index: usize) -> (r: EncodeError)
        ensures
            r matches EncodeError::General { message, buffer_index: i } && message@ == msg@ && i == buffer_index,
    {
        EncodeError::General { message: msg.to_owned(), buffer_index }
    }
}

/// Failure of a decoder, with the offset where it was found.
#[derive(Debug, Clone, PartialEq, Eq)]
pub struct DecodeError {
    pub message: String,
    pub buffer_index: usize,
}

impl DecodeError {
    pub fn new(msg: &str, buffer_index: usize) -> (r: DecodeError)
        ensures
            r.message@ == msg@,
            r.buffer_index == buffer_index,
    {
        DecodeError { message: msg.to_owned(), buffer_index }
    }
}

pub proof fn lemma_list_view(s: Seq<IECData>)
    ensures
        list_view(s).len() == s.len(),
        forall|i: int| 0 <= i < s.len() ==> #[trigger] list_view(s)[i] == data_view(s[i]),
    decreases s.len(),
{
    if s.len() > 0 {
        lemma_list_view(s.drop_last());
    }
}

/// A frame carries an 802.1Q tag after its MAC addresses.
pub open spec fn vlan_tagged(s: Seq<u8>) -> bool {
    s.len() >= 14 && s[12] == 0x81 && s[13] == 0x00
}

/// Offset of the EtherType: after the addresses and the tag, if any.
pub open spec fn ether_type_offset(s: Seq<u8>) -> int {
    if vlan_tagged(s) {
        16
    } else {
        12
    }
}

/// Bytes of the link header: 22 without a tag, 26 with one.
pub open spec fn header_len(s: Seq<u8>) -> int {
    ether_type_offset(s) + 10
}

/// `h` holds what the link header at the start of `s` says.
pub open spec fn header_matches(h: EthernetHeader, s: Seq<u8>) -> bool {
    let o = ether_type_offset(s);
    &&& h.dst_addr@ == s.subrange(0, 6)
    &&& h.src_addr@ == s.subrange(6, 12)
    &&& if vlan_tagged(s) {
        &&& h.tpid matches Some(t) && t@ == s.subrange(12, 14)
        &&& h.tci matches Some(t) && t@ == s.subrange(14, 16)
    } else {
        h.tpid is None && h.tci is None
    }
    &&& h.ether_type@ == s.subrange(o, o + 2)
    &&& h.appid@ == s.subrange(o + 2, o + 4)
    &&& h.length@ == s.subrange(o + 4, o + 6)
}

/// The link header written for `h`, with `length` and the simulation bit.
pub open spec fn header_bytes(h: EthernetHeader, length: u16, sim: bool) -> Seq<u8> {
    h.dst_addr@ + h.src_addr@ + (if h.tpid is Some && h.tci is Some {
        h.tpid->Some_0@ + h.tci->Some_0@
    } else {
        Seq::empty()
    }) + h.ether_type@ + h.appid@ + be_bytes(length as nat, 2) + seq![if sim { 0x80u8 } else { 0x00u8 }, 0x00u8, 0x00u8, 0x00u8]
}

/// A GOOSE APDU.
#[derive(Debug, PartialEq)]
pub struct IECGoosePdu {
    pub go_cb_ref: String,
    pub time_allowed_to_live: u32,
    pub dat_set: String,
    pub go_id: String,
    pub t: Timestamp,
    pub st_num: u32,
    pub sq_num: u32,
    pub simulation: bool,
    pub conf_rev: u32,
    pub nds_com: bool,
    /// Advisory on receipt; written as the number of entries of `all_data`.
    pub num_dat_set_entries: u32,
    pub all_data: Vec<IECData>,
}

/// What a GOOSE APDU is, as mathematics.
pub struct GooseModel {
    pub go_cb_ref: Seq<char>,
    pub time_allowed_to_live: u32,
    pub dat_set: Seq<char>,
    pub go_id: Seq<char>,
    pub t: Timestamp,
    pub st_num: u32,
    pub sq_num: u32,
    pub simulation: bool,
    pub conf_rev: u32,
    pub nds_com: bool,
    pub num_dat_set_entries: u32,
    pub all_data: Seq<DataModel>,
}

impl View for IECGoosePdu {
    type V = GooseModel;

    open spec fn view(&self) -> GooseModel {
        GooseModel {
            go_cb_ref: self.go_cb_ref@,
            time_allowed_to_live: self.time_allowed_to_live,
            dat_set: self.dat_set@,
            go_id: self.go_id@,
            t: self.t,
            st_num: self.st_num,
            sq_num: self.sq_num,
            simulation: self.simulation,
            conf_rev: self.conf_rev,
            nds_com: self.nds_com,
            num_dat_set_entries: self.num_dat_set_entries,
            all_data: list_view(self.all_data@),
        }
    }
}

/// One sampled value with its quality.
#[derive(Debug, Clone, Copy, PartialEq, Eq)]
pub struct Sample {
    /// The value before scaling.
    pub value: i32,
    pub quality: Quality,
}

impl Sample {
    /// A sample from its value and the 16-bit container of its quality.
    pub fn new(value: i32, quality_bits: u16) -> (r: Sample)
        ensures
            r.value == value,
            r.quality == quality_of(quality_bits),
    {
        Sample { value, quality: Quality::from_u16(quality_bits) }
    }

    pub fn from_parts(value: i32, quality: Quality) -> (r: Sample)
        ensures
            r == (Sample { value, quality }),
    {
        Sample { value, quality }
    }
}

/// One ASDU of a Sampled Values frame.
#[derive(Debug, Default, PartialEq)]
pub struct SavAsdu {
    pub msv_id: String,
    pub dat_set: Option<String>,
    pub smp_cnt: u16,
    pub conf_rev: u32,
    pub refr_tm: Option<[u8; 8]>,
    /// 0 = not synchronised, 1 = locally, 2 = globally.
    pub smp_synch: u8,
    pub smp_rate: Option<u16>,
    pub all_data: Vec<Sample>,
    pub smp_mod: Option<u16>,
    pub gm_identity: Option<[u8; 8]>,
}

/// A Sampled Values APDU.
#[derive(Debug, Default, PartialEq)]
pub struct SavPdu {
    /// The simulation bit of the link header.
    pub sim: bool,
    pub no_asdu: u16,
    /// Passed through as it stands.
    pub security: Option<Vec<u8>>,
    pub sav_asdu: Vec<SavAsdu>,
}

/// What an ASDU is, as mathematics.
pub struct AsduModel {
    pub msv_id: Seq<char>,
    pub dat_set: Option<Seq<char>>,
    pub smp_cnt: u16,
    pub conf_rev: u32,
    pub refr_tm: Option<Seq<u8>>,
    pub smp_synch: u8,
    pub smp_rate: Option<u16>,
    pub all_data: Seq<Sample>,
    pub smp_mod: Option<u16>,
    pub gm_identity: Option<Seq<u8>>,
}

/// What a Sampled Values APDU is, as mathematics.
pub struct SavModel {
    pub sim: bool,
    pub no_asdu: u16,
    pub security: Option<Seq<u8>>,
    pub sav_asdu: Seq<AsduModel>,
}

pub open spec fn opt_text(o: Option<String>) -> Option<Seq<char>> {
    match o {
        Some(t) => Some(t@),
        None => None,
    }
}

pub open spec fn opt_octets(o: Option<[u8; 8]>) -> Option<Seq<u8>> {
    match o {
        Some(a) => Some(a@),
        None => None,
    }
}

impl View for SavAsdu {
    type V = AsduModel;

    open spec fn view(&self) -> AsduModel {
        AsduModel {
            msv_id: self.msv_id@,
            dat_set: opt_text(self.dat_set),
            smp_cnt: self.smp_cnt,
            conf_rev: self.conf_rev,
            refr_tm: opt_octets(self.refr_tm),
            smp_synch: self.smp_synch,
            smp_rate: self.smp_rate,
            all_data: self.all_data@,
            smp_mod: self.smp_mod,
            gm_identity: opt_octets(self.gm_identity),
        }
    }
}

pub open spec fn asdus_view(v: Seq<SavAsdu>) -> Seq<AsduModel> {
    Seq::new(v.len(), |i: int| v[i]@)
}

impl View for SavPdu {
    type V = SavModel;

    open spec fn view(&self) -> SavModel {
        SavModel {
            sim: self.sim,
            no_asdu: self.no_asdu,
            security: match self.security {
                Some(v) => Some(v@),
                None => None,
            },
            sav_asdu: asdus_view(self.sav_asdu@),
        }
    }
}

} // verus!
