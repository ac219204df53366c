//! GOOSE frames in: recognising them and reading the APDU.
use vstd::prelude::*;
use crate::decode_basics::{error_within, 
    decode_list, ether_type_is, ether_type_of, next_element, read_fields, slot_view, slots_view,
    text_from_utf8, uint_from_be, window, MAX_DEPTH,
};
use crate::grammar::{
    be_uint, lemma_be_uint_bound, lemma_be_uint_first, lemma_required_slots, parse_list, pow256, read_element,
    read_slots, text_of, uint32_ok,
};
use crate::types::{timestamp_of, DecodeError, GooseModel, IECGoosePdu, Timestamp};

verus! {

/// Tags of the GOOSE APDU fields, in order.
pub open spec fn goose_tags() -> Seq<u8> {
    seq![0x80u8, 0x81u8, 0x82u8, 0x83u8, 0x84u8, 0x85u8, 0x86u8, 0x87u8, 0x88u8, 0x89u8, 0x8Au8, 0xABu8]
}

/// `n` slots that must all be present.
pub open spec fn all_required(n: nat) -> Seq<bool> {
    Seq::new(n, |i: int| false)
}

/// The bytes a slot covers (none for an empty slot).
pub open spec fn slot_bytes(b: Seq<u8>, slot: Option<(nat, nat)>) -> Seq<u8> {
    match slot {
        Some((a, e)) => b.subrange(a as int, e as int),
        None => Seq::empty(),
    }
}

/// The APDU that twelve field contents, in tag order, describe.
pub open spec fn goose_of_fields(c: Seq<Seq<u8>>) -> Option<GooseModel> {
    if uint32_ok(c[1]) && c[4].len() == 8 && uint32_ok(c[5]) && uint32_ok(c[6]) && c[7].len() == 1 && uint32_ok(c[8])
        && c[9].len() == 1 && uint32_ok(c[10]) {
        match parse_list(c[11], MAX_DEPTH as nat) {
            Some(items) => Some(
                GooseModel {
                    go_cb_ref: text_of(c[0]),
                    time_allowed_to_live: be_uint(c[1]) as u32,
                    dat_set: text_of(c[2]),
                    go_id: text_of(c[3]),
                    t: timestamp_of(c[4]),
                    st_num: be_uint(c[5]) as u32,
                    sq_num: be_uint(c[6]) as u32,
                    simulation: c[7][0] != 0,
                    conf_rev: be_uint(c[8]) as u32,
                    nds_com: c[9][0] != 0,
                    num_dat_set_entries: be_uint(c[10]) as u32,
                    all_data: items,
                },
            ),
            None => None,
        }
    } else {
        None
    }
}

/// The bytes between each pair of positions.
pub open spec fn range_contents(s: Seq<u8>, r: Seq<(usize, usize)>) -> Seq<Seq<u8>> {
    Seq::new(r.len(), |i: int| window(s, r[i].0 as int, r[i].1 as int))
}

/// The GOOSE APDU that starts at `pos` in `s`: tag 0x61, the twelve fields in
/// order, anything after them up to the outer length ignored.
pub open spec fn parse_goose_pdu(s: Seq<u8>, pos: nat) -> Option<GooseModel> {
    match read_element(s, pos) {
        Some((t, cs, nx)) => {
            if t != 0x61 {
                None
            } else {
                let b = s.subrange(0, nx as int);
                match read_slots(b, cs, goose_tags(), all_required(12)) {
                    Some((slots, _)) => goose_of_fields(Seq::new(12, |i: int| slot_bytes(b, slots[i]))),
                    None => None,
                }
            }
        },
        None => None,
    }
}

/// Unsigned field of up to 32 bits with content between `a` and `e`.
pub fn read_uint32(buffer: &[u8], a: usize, e: usize) -> (r: Option<u32>)
    requires
        a <= e <= buffer@.len(),
    ensures
        uint32_ok(window(buffer@, a as int, e as int)) ==> r == Some(be_uint(window(buffer@, a as int, e as int)) as u32)
            && be_uint(window(buffer@, a as int, e as int)) < 0x1_0000_0000,
        !uint32_ok(window(buffer@, a as int, e as int)) ==> r is None,
{
    let ghost c = window(buffer@, a as int, e as int);
    let n = e - a;
    if 1 <= n && n <= 4 {
        let v = uint_from_be(buffer, a, n);
        proof {
            lemma_be_uint_bound(c);
            reveal_with_fuel(pow256, 5);
            crate::grammar::lemma_pow_le(n as nat, 4);
        }
        Some(v as u32)
    } else if n == 5 && buffer[a] == 0 {
        let v = uint_from_be(buffer, a, 5);
        proof {
            lemma_be_uint_first(c);
            lemma_be_uint_bound(c.drop_first());
            reveal_with_fuel(pow256, 5);
            assert(0nat * pow256(4) == 0);
        }
        Some(v as u32)
    } else {
        None
    }
}

/// Content range of a slot known to be filled.
fn slot_range(slots: &Vec<Option<(usize, usize)>>, i: usize) -> (r: (usize, usize))
    requires
        i < slots@.len(),
        slots@[i as int] is Some,
    ensures
        slots@[i as int] == Some(r),
{
    match slots[i] {
        Some(x) => x,
        None => (0, 0),
    }
}

/// Reads the GOOSE APDU that starts at `pos` (the first byte after the link header).
pub fn decode_goose_pdu(buffer: &[u8], pos: usize) -> (r: Result<IECGoosePdu, DecodeError>)
    ensures
        pos > buffer@.len() ==> r is Err,
        pos <= buffer@.len() ==> match parse_goose_pdu(buffer@, pos as nat) {
            Some(g) => r is Ok && r->Ok_0@ == g,
            None => r is Err,
        },
        error_within(r, pos as int, if pos <= buffer@.len() { buffer@.len() as int } else { pos as int }),
{
    if pos > buffer.len() {
        return Err(DecodeError::new("Out of bounds for buffer length", pos));
    }
    proof {
        assert(buffer@.subrange(0, buffer@.len() as int) =~= buffer@);
    }
    let (t, cs, nx) = match next_element(buffer, pos, buffer.len()) {
        Some(x) => x,
        None => {
            return Err(DecodeError::new("GOOSE PDU header is truncated", pos));
        },
    };
    if t != 0x61 {
        return Err(DecodeError::new("GOOSE PDU must start with tag 0x61", pos));
    }
    let tags: [u8; 12] = [0x80, 0x81, 0x82, 0x83, 0x84, 0x85, 0x86, 0x87, 0x88, 0x89, 0x8A, 0xAB];
    let optional: [bool; 12] = [false; 12];
    proof {
        assert(tags@ =~= goose_tags());
        assert(optional@ =~= all_required(12));
    }
    let ghost b = buffer@.subrange(0, nx as int);
    let (slots, _) = match read_fields(buffer, cs, nx, tags.as_slice(), optional.as_slice()) {
        Some(x) => x,
        None => {
            return Err(DecodeError::new("GOOSE PDU field missing or out of order", cs));
        },
    };
    let ghost gs = read_slots(b, cs as nat, goose_tags(), all_required(12))->Some_0.0;
    proof {
        lemma_required_slots(b, cs as nat, goose_tags(), all_required(12));
        crate::grammar::lemma_slots_facts(b, cs as nat, goose_tags(), all_required(12));
        assert forall|j: int| 0 <= j < 12 implies cs <= #[trigger] gs[j]->Some_0.0 by {
            assert(gs[j] is Some);
        }
        assert forall|i: int| 0 <= i < 12 implies (#[trigger] slots@[i]) is Some && slot_view(slots@[i]) == gs[i] by {
            assert(slots_view(slots@)[i] == gs[i]);
        }
    }
    let mut ranges: Vec<(usize, usize)> = Vec::new();
    let mut i: usize = 0;
    while i < 12
        invariant
            i <= 12,
            slots@.len() == 12,
            nx <= buffer@.len(),
            forall|j: int| 0 <= j < 12 ==> (#[trigger] slots@[j]) is Some && slot_view(slots@[j]) == gs[j],
            forall|j: int| 0 <= j < 12 ==> #[trigger] gs[j]->Some_0.0 <= gs[j]->Some_0.1 <= b.len(),
            forall|j: int| 0 <= j < 12 ==> cs <= #[trigger] gs[j]->Some_0.0,
            pos <= cs,
            b.len() == nx,
            ranges@.len() == i,
            forall|j: int| 0 <= j < i ==> Some(#[trigger] ranges@[j]) == slots@[j],
        decreases 12 - i,
    {
        ranges.push(slot_range(&slots, i));
        i = i + 1;
    }
    proof {
        assert forall|j: int| 0 <= j < 12 implies pos <= #[trigger] ranges@[j].0 <= ranges@[j].1 <= buffer@.len() by {
            assert(Some(ranges@[j]) == slots@[j]);
            assert(slot_view(slots@[j]) == gs[j]);
            assert(gs[j]->Some_0.0 <= gs[j]->Some_0.1 <= b.len());
        }
        assert forall|j: int| 0 <= j < 12 implies #[trigger] slot_bytes(b, gs[j]) == range_contents(buffer@, ranges@)[j] by {
            assert(Some(ranges@[j]) == slots@[j]);
            assert(slot_view(slots@[j]) == gs[j]);
            assert(gs[j]->Some_0.0 <= gs[j]->Some_0.1 <= b.len());
            assert(b.subrange(ranges@[j].0 as int, ranges@[j].1 as int)
                =~= window(buffer@, ranges@[j].0 as int, ranges@[j].1 as int));
        }
        assert(Seq::new(12, |j: int| slot_bytes(b, gs[j])) =~= range_contents(buffer@, ranges@));
    }
    goose_from_ranges(buffer, &ranges, pos)
}

/// The APDU whose twelve field contents lie between the given positions.
/// Errors report the start of the field at fault (all fields lie after `pos`).
fn goose_from_ranges(buffer: &[u8], ranges: &Vec<(usize, usize)>, pos: usize) -> (r: Result<IECGoosePdu, DecodeError>)
    requires
        ranges@.len() == 12,
        forall|j: int| 0 <= j < 12 ==> pos <= #[trigger] ranges@[j].0 <= ranges@[j].1 <= buffer@.len(),
    ensures
        error_within(r, pos as int, buffer@.len() as int),
        match goose_of_fields(range_contents(buffer@, ranges@)) {
            Some(g) => r is Ok && r->Ok_0@ == g,
            None => r is Err,
        },
{
    let ghost c = range_contents(buffer@, ranges@);
    let (a0, e0) = ranges[0];
    let (a1, e1) = ranges[1];
    let (a2, e2) = ranges[2];
    let (a3, e3) = ranges[3];
    let (a4, e4) = ranges[4];
    let (a5, e5) = ranges[5];
    let (a6, e6) = ranges[6];
    let (a7, e7) = ranges[7];
    let (a8, e8) = ranges[8];
    let (a9, e9) = ranges[9];
    let (a10, e10) = ranges[10];
    let (a11, e11) = ranges[11];
    let tal = read_uint32(buffer, a1, e1);
    let st = read_uint32(buffer, a5, e5);
    let sq = read_uint32(buffer, a6, e6);
    let conf = read_uint32(buffer, a8, e8);
    let entries = read_uint32(buffer, a10, e10);
    let fault: Option<usize> = if tal.is_none() {
        Some(a1)
    } else if e4 - a4 != 8 {
        Some(a4)
    } else if st.is_none() {
        Some(a5)
    } else if sq.is_none() {
        Some(a6)
    } else if e7 - a7 != 1 {
        Some(a7)
    } else if conf.is_none() {
        Some(a8)
    } else if e9 - a9 != 1 {
        Some(a9)
    } else if entries.is_none() {
        Some(a10)
    } else {
        None
    };
    if let Some(at) = fault {
        return Err(DecodeError::new("GOOSE PDU field has the wrong size", at));
    }
    let items = match decode_list(buffer, a11, e11, MAX_DEPTH) {
        Ok(v) => v,
        Err(e) => {
            return Err(e);
        },
    };
    let ts: [u8; 8] = [
        buffer[a4],
        buffer[a4 + 1],
        buffer[a4 + 2],
        buffer[a4 + 3],
        buffer[a4 + 4],
        buffer[a4 + 5],
        buffer[a4 + 6],
        buffer[a4 + 7],
    ];
    proof {
        assert(ts@ =~= c[4]);
    }
    let pdu = IECGoosePdu {
        go_cb_ref: text_from_utf8(vstd::slice::slice_subrange(buffer, a0, e0)),
        time_allowed_to_live: tal.unwrap(),
        dat_set: text_from_utf8(vstd::slice::slice_subrange(buffer, a2, e2)),
        go_id: text_from_utf8(vstd::slice::slice_subrange(buffer, a3, e3)),
        t: Timestamp::from_bytes(ts),
        st_num: st.unwrap(),
        sq_num: sq.unwrap(),
        simulation: buffer[a7] != 0,
        conf_rev: conf.unwrap(),
        nds_com: buffer[a9] != 0,
        num_dat_set_entries: entries.unwrap(),
        all_data: items,
    };
    proof {
        assert(pdu@ == goose_of_fields(c)->Some_0);
    }
    Ok(pdu)
}

/// The frame carries GOOSE: EtherType 0x88B8, or 0x88B9 for test frames,
/// after an 802.1Q tag if there is one.
pub fn is_goose_frame(buffer: &[u8]) -> (r: bool)
    ensures
        r == (ether_type_is(buffer@, 0x88, 0xB8) || ether_type_is(buffer@, 0x88, 0xB9)),
{
    match ether_type_of(buffer) {
        Some((a, b)) => a == 0x88 && (b == 0xB8 || b == 0xB9),
        None => false,
    }
}

} // verus!
