//! Sampled Values frames in: recognising them, the simulation bit, and the APDU.
use vstd::prelude::*;
use crate::decode_basics::{error_within, 
    ether_type_is, ether_type_of, int_from_be, next_element, read_fields, slot_view, slots_view,
    text_from_utf8, uint_from_be, window,
};
use crate::decode_goose::slot_bytes;
use crate::grammar::{
    be_int, be_uint, lemma_be_uint_bound, lemma_be_uint_first, lemma_pow_le, lemma_read_element_shift,
    lemma_slots_facts, pow256, read_element, read_slots, text_of, uint_ok,
};
use crate::types::{
    asdus_view, opt_octets, opt_text, quality_of, vlan_tagged, AsduModel, DecodeError, Sample, SavAsdu,
    SavModel, SavPdu,
};

verus! {

/// The simulation bit: top bit of the first reserved byte, after the tag if any.
pub open spec fn sim_bit(s: Seq<u8>) -> Option<bool> {
    let o: int = if vlan_tagged(s) { 22 } else { 18 };
    if s.len() > o {
        Some(s[o] >= 0x80)
    } else {
        None
    }
}

/// The sample at the start of `c`, and the bytes it takes.
pub open spec fn first_sample(c: Seq<u8>) -> Option<(Sample, nat)> {
    match read_element(c, 0) {
        Some((t1, cs1, nx1)) => {
            if t1 != 0x83 || !(1 <= nx1 - cs1 <= 4) {
                None
            } else {
                match read_element(c, nx1) {
                    Some((t2, cs2, nx2)) => {
                        if t2 != 0x84 || nx2 - cs2 != 3 {
                            None
                        } else {
                            Some(
                                (
                                    Sample {
                                        value: be_int(c.subrange(cs1 as int, nx1 as int)) as i32,
                                        quality: quality_of(be_uint(c.subrange(cs2 + 1 as int, nx2 as int)) as u16),
                                    },
                                    nx2,
                                ),
                            )
                        }
                    },
                    None => None,
                }
            }
        },
        None => None,
    }
}

/// The samples of an ASDU: INTEGER and BIT STRING pairs until `c` is used up.
pub open spec fn parse_samples(c: Seq<u8>) -> Option<Seq<Sample>>
    decreases c.len(),
{
    if c.len() == 0 {
        Some(Seq::empty())
    } else {
        match first_sample(c) {
            Some((s, k)) => {
                if k == 0 || k > c.len() {
                    None
                } else {
                    match parse_samples(c.subrange(k as int, c.len() as int)) {
                        Some(rest) => Some(seq![s] + rest),
                        None => None,
                    }
                }
            },
            None => None,
        }
    }
}

pub open spec fn asdu_tags() -> Seq<u8> {
    seq![0x80u8, 0x81u8, 0x82u8, 0x83u8, 0x84u8, 0x85u8, 0x86u8, 0x87u8, 0x88u8, 0x89u8]
}

pub open spec fn asdu_optional() -> Seq<bool> {
    seq![false, true, false, false, true, false, true, false, true, true]
}

pub open spec fn opt_slot_text(b: Seq<u8>, slot: Option<(nat, nat)>) -> Option<Seq<char>> {
    match slot {
        Some(_) => Some(text_of(slot_bytes(b, slot))),
        None => None,
    }
}

pub open spec fn opt_slot_bytes(b: Seq<u8>, slot: Option<(nat, nat)>) -> Option<Seq<u8>> {
    match slot {
        Some(_) => Some(slot_bytes(b, slot)),
        None => None,
    }
}

pub open spec fn opt_slot_u16(b: Seq<u8>, slot: Option<(nat, nat)>) -> Option<u16> {
    match slot {
        Some(_) => Some(be_uint(slot_bytes(b, slot)) as u16),
        None => None,
    }
}

/// An optional slot is empty or satisfies `ok`.
pub open spec fn opt_slot_ok(b: Seq<u8>, slot: Option<(nat, nat)>, w: nat) -> bool {
    slot is None || uint_ok(slot_bytes(b, slot), w)
}

pub open spec fn opt_slot_len(b: Seq<u8>, slot: Option<(nat, nat)>, n: nat) -> bool {
    slot is None || slot_bytes(b, slot).len() == n
}

/// The ASDU whose content lies between `cs` and `nx` in `s`.
pub open spec fn parse_asdu(s: Seq<u8>, cs: nat, nx: nat) -> Option<AsduModel> {
    let b = s.subrange(0, nx as int);
    match read_slots(b, cs, asdu_tags(), asdu_optional()) {
        Some((sl, _)) => {
            if uint_ok(slot_bytes(b, sl[2]), 2) && uint_ok(slot_bytes(b, sl[3]), 4) && opt_slot_len(b, sl[4], 8)
                && uint_ok(slot_bytes(b, sl[5]), 1) && opt_slot_ok(b, sl[6], 2) && opt_slot_ok(b, sl[8], 2)
                && opt_slot_len(b, sl[9], 8) {
                match parse_samples(slot_bytes(b, sl[7])) {
                    Some(samples) => Some(
                        AsduModel {
                            msv_id: text_of(slot_bytes(b, sl[0])),
                            dat_set: opt_slot_text(b, sl[1]),
                            smp_cnt: be_uint(slot_bytes(b, sl[2])) as u16,
                            conf_rev: be_uint(slot_bytes(b, sl[3])) as u32,
                            refr_tm: opt_slot_bytes(b, sl[4]),
                            smp_synch: be_uint(slot_bytes(b, sl[5])) as u8,
                            smp_rate: opt_slot_u16(b, sl[6]),
                            all_data: samples,
                            smp_mod: opt_slot_u16(b, sl[8]),
                            gm_identity: opt_slot_bytes(b, sl[9]),
                        },
                    ),
                    None => None,
                }
            } else {
                None
            }
        },
        None => None,
    }
}

/// The ASDUs (tag 0x30) from `pos` until `end`, which they must reach exactly.
pub open spec fn parse_asdus(s: Seq<u8>, pos: nat, end: nat) -> Option<Seq<AsduModel>>
    decreases end - pos,
{
    if pos >= end || end > s.len() {
        if pos == end && end <= s.len() { Some(Seq::empty()) } else { None }
    } else {
        match read_element(s.subrange(0, end as int), pos) {
            Some((t, cs, nx)) => {
                if t != 0x30 || nx <= pos || nx > end {
                    None
                } else {
                    match (parse_asdu(s, cs, nx), parse_asdus(s, nx, end)) {
                        (Some(a), Some(rest)) => Some(seq![a] + rest),
                        _ => None,
                    }
                }
            },
            None => None,
        }
    }
}

/// The Sampled Values APDU that starts at `pos` in the frame `s`.
pub open spec fn parse_sav_pdu(s: Seq<u8>, pos: nat) -> Option<SavModel> {
    match read_element(s, pos) {
        Some((t, cs, nx)) => {
            if t != 0x60 {
                None
            } else {
                let b = s.subrange(0, nx as int);
                match read_slots(b, cs, seq![0x80u8, 0x81u8, 0xA2u8], seq![false, true, false]) {
                    Some((sl, _)) => {
                        if uint_ok(slot_bytes(b, sl[0]), 2) {
                            match parse_asdus(s, sl[2]->Some_0.0, sl[2]->Some_0.1) {
                                Some(asdus) => Some(
                                    SavModel {
                                        sim: sim_bit(s) == Some(true),
                                        no_asdu: be_uint(slot_bytes(b, sl[0])) as u16,
                                        security: opt_slot_bytes(b, sl[1]),
                                        sav_asdu: asdus,
                                    },
                                ),
                                None => None,
                            }
                        } else {
                            None
                        }
                    },
                    None => None,
                }
            }
        },
        None => None,
    }
}

/// The simulation bit of the frame, when the frame reaches the reserved field.
pub fn decode_sim_bit(buffer: &[u8]) -> (r: Option<bool>)
    ensures
        r == sim_bit(buffer@),
{
    let tagged = buffer.len() >= 14 && buffer[12] == 0x81 && buffer[13] == 0x00;
    let o: usize = if tagged { 22 } else { 18 };
    if buffer.len() > o {
        Some(buffer[o] >= 0x80)
    } else {
        None
    }
}

/// The frame carries Sampled Values: EtherType 0x88BA, after an 802.1Q tag if there is one.
pub fn is_smv_frame(buffer: &[u8]) -> (r: bool)
    ensures
        r == ether_type_is(buffer@, 0x88, 0xBA),
{
    match ether_type_of(buffer) {
        Some((a, b)) => a == 0x88 && b == 0xBA,
        None => false,
    }
}

/// Unsigned field of `w` bytes (at most 4) with content between `a` and `e`.
pub fn read_uint(buffer: &[u8], a: usize, e: usize, w: usize) -> (r: Option<u32>)
    requires
        a <= e <= buffer@.len(),
        1 <= w <= 4,
    ensures
        uint_ok(window(buffer@, a as int, e as int), w as nat) ==> r == Some(be_uint(window(buffer@, a as int, e as int)) as u32)
            && be_uint(window(buffer@, a as int, e as int)) < pow256(w as nat),
        !uint_ok(window(buffer@, a as int, e as int), w as nat) ==> r is None,
{
    let ghost c = window(buffer@, a as int, e as int);
    let n = e - a;
    proof {
        reveal_with_fuel(pow256, 5);
        lemma_pow_le(w as nat, 4);
    }
    if 1 <= n && n <= w {
        let v = uint_from_be(buffer, a, n);
        proof {
            lemma_be_uint_bound(c);
            lemma_pow_le(n as nat, w as nat);
        }
        Some(v as u32)
    } else if n == w + 1 && buffer[a] == 0 {
        let v = uint_from_be(buffer, a, n);
        proof {
            lemma_be_uint_first(c);
            lemma_be_uint_bound(c.drop_first());
            assert(0nat * pow256(w as nat) == 0);
        }
        Some(v as u32)
    } else {
        None
    }
}

pub open spec fn prepend_samples(done: Seq<Sample>, rest: Option<Seq<Sample>>) -> Option<Seq<Sample>> {
    match rest {
        Some(r) => Some(done + r),
        None => None,
    }
}

/// Reads one sample at `p`, no further than `end`; returns it and the position after it.
fn decode_sample(buffer: &[u8], p: usize, end: usize) -> (r: Result<(Sample, usize), DecodeError>)
    requires
        p <= end <= buffer@.len(),
    ensures
        error_within(r, p as int, end as int),
        match first_sample(window(buffer@, p as int, end as int)) {
            Some((s, k)) => r is Ok && r->Ok_0.0 == s && r->Ok_0.1 == p + k && k <= end - p,
            None => r is Err,
        },
{
    let ghost w = window(buffer@, p as int, end as int);
    proof {
        lemma_read_element_shift(buffer@, p as nat, end as nat, p as nat);
    }
    let (t1, cs1, nx1) = match next_element(buffer, p, end) {
        Some(x) => x,
        None => {
            return Err(DecodeError::new("sample value is truncated", p));
        },
    };
    if t1 != 0x83 || nx1 - cs1 < 1 || nx1 - cs1 > 4 {
        return Err(DecodeError::new("Expected integer tag 0x83", p));
    }
    proof {
        lemma_read_element_shift(buffer@, p as nat, end as nat, nx1 as nat);
    }
    let (t2, cs2, nx2) = match next_element(buffer, nx1, end) {
        Some(x) => x,
        None => {
            return Err(DecodeError::new("sample quality is truncated", nx1));
        },
    };
    if t2 != 0x84 || nx2 - cs2 != 3 {
        return Err(DecodeError::new("Expected bitstring tag 0x84 with three content bytes", nx1));
    }
    let value = int_from_be(buffer, cs1, nx1 - cs1);
    let q = uint_from_be(buffer, cs2 + 1, 2);
    proof {
        lemma_be_uint_bound(window(buffer@, cs2 + 1, cs2 + 3));
        reveal_with_fuel(pow256, 3);
        assert(w.subrange((cs1 - p) as int, (nx1 - p) as int) =~= window(buffer@, cs1 as int, nx1 as int));
        assert(w.subrange((cs2 - p) + 1, (nx2 - p) as int) =~= window(buffer@, cs2 + 1, cs2 + 3));
        crate::grammar::lemma_be_int_bound(window(buffer@, cs1 as int, nx1 as int));
        lemma_pow_le((nx1 - cs1) as nat, 4);
        reveal_with_fuel(pow256, 5);
    }
    Ok((Sample::new(value as i32, q as u16), nx2))
}

/// Reads the samples in the `data_length` bytes from `buffer_index` on;
/// returns the position after them and the samples.
pub fn decode_savs(buffer: &[u8], buffer_index: usize, data_length: usize) -> (r: Result<(usize, Vec<Sample>), DecodeError>)
    ensures
        error_within(r, buffer_index as int, if buffer_index <= buffer@.len() && data_length <= buffer@.len() - buffer_index { buffer_index + data_length } else { buffer_index as int }),
        !(buffer_index <= buffer@.len() && data_length <= buffer@.len() - buffer_index) ==> r is Err,
        buffer_index <= buffer@.len() && data_length <= buffer@.len() - buffer_index ==> match parse_samples(
            window(buffer@, buffer_index as int, buffer_index + data_length),
        ) {
            Some(v) => r is Ok && r->Ok_0.1@ == v && r->Ok_0.0 == buffer_index + data_length,
            None => r is Err,
        },
{
    if buffer_index > buffer.len() || data_length > buffer.len() - buffer_index {
        return Err(DecodeError::new("samples run past the end of the buffer", buffer_index));
    }
    let end = buffer_index + data_length;
    let mut out: Vec<Sample> = Vec::new();
    let mut p = buffer_index;
    proof {
        match parse_samples(window(buffer@, buffer_index as int, end as int)) {
            Some(v) => {
                assert(out@ + v =~= v);
            },
            None => {},
        }
    }
    while p < end
        invariant
            buffer_index <= p <= end <= buffer@.len(),
            end == buffer_index + data_length,
            parse_samples(window(buffer@, buffer_index as int, end as int)) == prepend_samples(
                out@,
                parse_samples(window(buffer@, p as int, end as int)),
            ),
        decreases end - p,
    {
        let ghost w = window(buffer@, p as int, end as int);
        let (sample, next) = match decode_sample(buffer, p, end) {
            Ok(x) => x,
            Err(e) => {
                return Err(e);
            },
        };
        proof {
            assert(w.subrange((next - p) as int, w.len() as int) =~= window(buffer@, next as int, end as int));
        }
        let ghost prev = out@;
        out.push(sample);
        proof {
            match parse_samples(window(buffer@, next as int, end as int)) {
                Some(rest) => {
                    assert(prev + (seq![sample] + rest) =~= out@ + rest);
                },
                None => {},
            }
        }
        p = next;
    }
    proof {
        assert(window(buffer@, p as int, end as int).len() == 0);
        assert(out@ + Seq::<Sample>::empty() =~= out@);
    }
    Ok((p, out))
}

/// Bounds of a filled slot.
pub open spec fn slot_in(slot: Option<(usize, usize)>, end: nat) -> bool {
    slot matches Some((a, e)) ==> a <= e <= end
}

/// An optional unsigned 16-bit field.
fn slot_u16(buffer: &[u8], end: usize, slot: Option<(usize, usize)>) -> (r: Option<Option<u16>>)
    requires
        end <= buffer@.len(),
        slot_in(slot, end as nat),
    ensures
        opt_slot_ok(buffer@.subrange(0, end as int), slot_view(slot), 2) ==> r == Some(
            opt_slot_u16(buffer@.subrange(0, end as int), slot_view(slot)),
        ),
        !opt_slot_ok(buffer@.subrange(0, end as int), slot_view(slot), 2) ==> r is None,
{
    match slot {
        Some((a, e)) => {
            proof {
                assert(buffer@.subrange(0, end as int).subrange(a as int, e as int) =~= window(buffer@, a as int, e as int));
                reveal_with_fuel(pow256, 3);
            }
            match read_uint(buffer, a, e, 2) {
                Some(v) => Some(Some(v as u16)),
                None => None,
            }
        },
        None => Some(None),
    }
}

/// An optional field of eight octets.
fn slot_octets8(buffer: &[u8], end: usize, slot: Option<(usize, usize)>) -> (r: Option<Option<[u8; 8]>>)
    requires
        end <= buffer@.len(),
        slot_in(slot, end as nat),
    ensures
        opt_slot_len(buffer@.subrange(0, end as int), slot_view(slot), 8) ==> r is Some && opt_octets(r->Some_0)
            == opt_slot_bytes(buffer@.subrange(0, end as int), slot_view(slot)),
        !opt_slot_len(buffer@.subrange(0, end as int), slot_view(slot), 8) ==> r is None,
{
    match slot {
        Some((a, e)) => {
            if e - a != 8 {
                return None;
            }
            let o: [u8; 8] = [
                buffer[a],
                buffer[a + 1],
                buffer[a + 2],
                buffer[a + 3],
                buffer[a + 4],
                buffer[a + 5],
                buffer[a + 6],
                buffer[a + 7],
            ];
            proof {
                assert(o@ =~= buffer@.subrange(0, end as int).subrange(a as int, e as int));
            }
            Some(Some(o))
        },
        None => Some(None),
    }
}

/// An optional text field.
fn slot_text(buffer: &[u8], end: usize, slot: Option<(usize, usize)>) -> (r: Option<String>)
    requires
        end <= buffer@.len(),
        slot_in(slot, end as nat),
    ensures
        opt_text(r) == opt_slot_text(buffer@.subrange(0, end as int), slot_view(slot)),
{
    match slot {
        Some((a, e)) => {
            proof {
                assert(buffer@.subrange(0, end as int).subrange(a as int, e as int) =~= buffer@.subrange(a as int, e as int));
            }
            Some(text_from_utf8(vstd::slice::slice_subrange(buffer, a, e)))
        },
        None => None,
    }
}

/// The content range of a slot known to be filled.
fn filled(slot: Option<(usize, usize)>) -> (r: (usize, usize))
    requires
        slot is Some,
    ensures
        slot == Some(r),
{
    match slot {
        Some(x) => x,
        None => (0, 0),
    }
}

/// Reads the ASDU whose content lies between `cs` and `nx`.
pub fn decode_smv_asdu(buffer: &[u8], cs: usize, nx: usize) -> (r: Result<SavAsdu, DecodeError>)
    requires
        cs <= nx <= buffer@.len(),
    ensures
        error_within(r, cs as int, nx as int),
        match parse_asdu(buffer@, cs as nat, nx as nat) {
            Some(a) => r is Ok && r->Ok_0@ == a,
            None => r is Err,
        },
{
    let ghost b = buffer@.subrange(0, nx as int);
    let tags: [u8; 10] = [0x80, 0x81, 0x82, 0x83, 0x84, 0x85, 0x86, 0x87, 0x88, 0x89];
    let optional: [bool; 10] = [false, true, false, false, true, false, true, false, true, true];
    proof {
        assert(tags@ =~= asdu_tags());
        assert(optional@ =~= asdu_optional());
    }
    let (slots, _) = match read_fields(buffer, cs, nx, tags.as_slice(), optional.as_slice()) {
        Some(x) => x,
        None => {
            return Err(DecodeError::new("ASDU field missing or out of order", cs));
        },
    };
    let ghost sl = read_slots(b, cs as nat, asdu_tags(), asdu_optional())->Some_0.0;
    proof {
        lemma_slots_facts(b, cs as nat, asdu_tags(), asdu_optional());
        assert forall|i: int| 0 <= i < 10 implies slot_view(#[trigger] slots@[i]) == sl[i] && slot_in(slots@[i], nx as nat)
            && (!asdu_optional()[i] ==> slots@[i] is Some) by {
            assert(slots_view(slots@)[i] == sl[i]);
            if sl[i] is Some {
                assert(sl[i]->Some_0.0 <= sl[i]->Some_0.1 <= b.len());
            }
        }
    }
    let (a0, e0) = filled(slots[0]);
    let (a2, e2) = filled(slots[2]);
    let (a3, e3) = filled(slots[3]);
    let (a5, e5) = filled(slots[5]);
    let (a7, e7) = filled(slots[7]);
    proof {
        assert forall|i: int| 0 <= i < 10 && (#[trigger] slots@[i]) is Some implies slot_bytes(b, sl[i]) =~= window(
            buffer@,
            slots@[i]->Some_0.0 as int,
            slots@[i]->Some_0.1 as int,
        ) by {
            assert(slot_view(slots@[i]) == sl[i]);
        }
        reveal_with_fuel(pow256, 5);
    }
    let smp_cnt = read_uint(buffer, a2, e2, 2);
    let conf_rev = read_uint(buffer, a3, e3, 4);
    let refr_tm = slot_octets8(buffer, nx, slots[4]);
    let smp_synch = read_uint(buffer, a5, e5, 1);
    let smp_rate = slot_u16(buffer, nx, slots[6]);
    let smp_mod = slot_u16(buffer, nx, slots[8]);
    let gm_identity = slot_octets8(buffer, nx, slots[9]);
    if smp_cnt.is_none() || conf_rev.is_none() || refr_tm.is_none() || smp_synch.is_none() || smp_rate.is_none()
        || smp_mod.is_none() || gm_identity.is_none() {
        return Err(DecodeError::new("ASDU field has the wrong size", cs));
    }
    let (_, samples) = match decode_savs(buffer, a7, e7 - a7) {
        Ok(x) => x,
        Err(e) => {
            return Err(e);
        },
    };
    let asdu = SavAsdu {
        msv_id: text_from_utf8(vstd::slice::slice_subrange(buffer, a0, e0)),
        dat_set: slot_text(buffer, nx, slots[1]),
        smp_cnt: smp_cnt.unwrap() as u16,
        conf_rev: conf_rev.unwrap(),
        refr_tm: refr_tm.unwrap(),
        smp_synch: smp_synch.unwrap() as u8,
        smp_rate: smp_rate.unwrap(),
        all_data: samples,
        smp_mod: smp_mod.unwrap(),
        gm_identity: gm_identity.unwrap(),
    };
    proof {
        assert(asdu@ == parse_asdu(buffer@, cs as nat, nx as nat)->Some_0);
    }
    Ok(asdu)
}

pub open spec fn prepend_asdus(done: Seq<AsduModel>, rest: Option<Seq<AsduModel>>) -> Option<Seq<AsduModel>> {
    match rest {
        Some(r) => Some(done + r),
        None => None,
    }
}

/// Reads the ASDUs from `pos` until `end`, which they must reach exactly.
pub fn decode_smv_asdus(buffer: &[u8], pos: usize, end: usize) -> (r: Result<Vec<SavAsdu>, DecodeError>)
    requires
        pos <= end <= buffer@.len(),
    ensures
        error_within(r, pos as int, end as int),
        match parse_asdus(buffer@, pos as nat, end as nat) {
            Some(v) => r is Ok && asdus_view(r->Ok_0@) == v,
            None => r is Err,
        },
{
    let mut out: Vec<SavAsdu> = Vec::new();
    let mut p = pos;
    proof {
        match parse_asdus(buffer@, pos as nat, end as nat) {
            Some(v) => {
                assert(asdus_view(out@) + v =~= v);
            },
            None => {},
        }
    }
    while p < end
        invariant
            pos <= p <= end <= buffer@.len(),
            parse_asdus(buffer@, pos as nat, end as nat) == prepend_asdus(asdus_view(out@), parse_asdus(buffer@, p as nat, end as nat)),
        decreases end - p,
    {
        let (t, cs, nx) = match next_element(buffer, p, end) {
            Some(x) => x,
            None => {
                return Err(DecodeError::new("ASDU is truncated", p));
            },
        };
        if t != 0x30 || nx <= p {
            return Err(DecodeError::new("Expected ASDU tag 0x30", p));
        }
        let asdu = match decode_smv_asdu(buffer, cs, nx) {
            Ok(a) => a,
            Err(e) => {
                return Err(e);
            },
        };
        let ghost prev = asdus_view(out@);
        let ghost a = asdu@;
        out.push(asdu);
        proof {
            assert(asdus_view(out@) =~= prev.push(a));
            match parse_asdus(buffer@, nx as nat, end as nat) {
                Some(rest) => {
                    assert(prev + (seq![a] + rest) =~= asdus_view(out@) + rest);
                },
                None => {},
            }
        }
        p = nx;
    }
    proof {
        assert(asdus_view(out@) + Seq::<AsduModel>::empty() =~= asdus_view(out@));
    }
    Ok(out)
}

/// Reads the Sampled Values APDU that starts at `pos` (the first byte after the
/// link header); the simulation bit comes from the link header of the frame.
pub fn decode_smv(buffer: &[u8], pos: usize) -> (r: Result<SavPdu, DecodeError>)
    ensures
        error_within(r, pos as int, if pos <= buffer@.len() { buffer@.len() as int } else { pos as int }),
        pos > buffer@.len() ==> r is Err,
        pos <= buffer@.len() ==> match parse_sav_pdu(buffer@, pos as nat) {
            Some(p) => r is Ok && r->Ok_0@ == p,
            None => r is Err,
        },
{
    if pos > buffer.len() {
        return Err(DecodeError::new("Out of bounds for buffer length", pos));
    }
    proof {
        assert(buffer@.subrange(0, buffer@.len() as int) =~= buffer@);
    }
    let (t, cs, nx) = match next_element(buffer, pos, buffer.len()) {
        Some(x) => x,
        None => {
            return Err(DecodeError::new("Sampled Values PDU header is truncated", pos));
        },
    };
    if t != 0x60 {
        return Err(DecodeError::new("Sampled Values PDU must start with tag 0x60", pos));
    }
    let ghost b = buffer@.subrange(0, nx as int);
    let tags: [u8; 3] = [0x80, 0x81, 0xA2];
    let optional: [bool; 3] = [false, true, false];
    proof {
        assert(tags@ =~= seq![0x80u8, 0x81u8, 0xA2u8]);
        assert(optional@ =~= seq![false, true, false]);
    }
    let (slots, _) = match read_fields(buffer, cs, nx, tags.as_slice(), optional.as_slice()) {
        Some(x) => x,
        None => {
            return Err(DecodeError::new("Sampled Values PDU field missing or out of order", cs));
        },
    };
    let ghost sl = read_slots(b, cs as nat, seq![0x80u8, 0x81u8, 0xA2u8], seq![false, true, false])->Some_0.0;
    proof {
        lemma_slots_facts(b, cs as nat, seq![0x80u8, 0x81u8, 0xA2u8], seq![false, true, false]);
        assert forall|i: int| 0 <= i < 3 implies slot_view(#[trigger] slots@[i]) == sl[i] && slot_in(slots@[i], nx as nat) by {
            assert(slots_view(slots@)[i] == sl[i]);
            if sl[i] is Some {
                assert(sl[i]->Some_0.0 <= sl[i]->Some_0.1 <= b.len());
            }
        }
        assert(seq![false, true, false][0] == false);
        assert(seq![false, true, false][2] == false);
    }
    let (a0, e0) = filled(slots[0]);
    let (a2, e2) = filled(slots[2]);
    proof {
        assert(b.subrange(a0 as int, e0 as int) =~= window(buffer@, a0 as int, e0 as int));
        reveal_with_fuel(pow256, 3);
    }
    let no_asdu = match read_uint(buffer, a0, e0, 2) {
        Some(v) => v as u16,
        None => {
            return Err(DecodeError::new("noASDU has the wrong size", a0));
        },
    };
    let security = match slots[1] {
        Some((a, e)) => {
            proof {
                assert(b.subrange(a as int, e as int) =~= buffer@.subrange(a as int, e as int));
            }
            Some(vstd::slice::slice_to_vec(vstd::slice::slice_subrange(buffer, a, e)))
        },
        None => None,
    };
    let asdus = match decode_smv_asdus(buffer, a2, e2) {
        Ok(v) => v,
        Err(e) => {
            return Err(e);
        },
    };
    let sim = match decode_sim_bit(buffer) {
        Some(b) => b,
        None => false,
    };
    let pdu = SavPdu { sim, no_asdu, security, sav_asdu: asdus };
    proof {
        assert(pdu@ == parse_sav_pdu(buffer@, pos as nat)->Some_0);
    }
    Ok(pdu)
}

} // verus!
