//! GOOSE frames out: the link header and the APDU (tag 0x61).
use vstd::prelude::*;
use vstd::utf8::encode_utf8;
use crate::encode_basics::{append_bytes, be_bytes_of, encode_values, push_bool, push_tlv, push_uint};
use crate::grammar::{enc_list, lemma_be_bytes_len, length_fits, list_fits, list_size, tlv, uint_content};
use crate::types::{
    header_bytes, lemma_list_view, list_view, timestamp_bytes, EncodeError, EthernetHeader, GooseModel,
    IECGoosePdu,
};

verus! {

/// Content of a BOOLEAN as this codec writes it.
pub open spec fn bool_content(b: bool) -> Seq<u8> {
    seq![if b { 0xFFu8 } else { 0x00u8 }]
}

/// The fields of a GOOSE APDU in order; the entry count is that of `all_data`.
pub open spec fn goose_body(g: GooseModel) -> Seq<u8> {
    tlv(0x80, encode_utf8(g.go_cb_ref)) + tlv(0x81, uint_content(g.time_allowed_to_live as nat))
        + tlv(0x82, encode_utf8(g.dat_set)) + tlv(0x83, encode_utf8(g.go_id)) + tlv(0x84, timestamp_bytes(g.t))
        + tlv(0x85, uint_content(g.st_num as nat)) + tlv(0x86, uint_content(g.sq_num as nat))
        + tlv(0x87, bool_content(g.simulation)) + tlv(0x88, uint_content(g.conf_rev as nat))
        + tlv(0x89, bool_content(g.nds_com)) + tlv(0x8A, uint_content(g.all_data.len()))
        + tlv(0xAB, enc_list(g.all_data))
}

/// The encoded GOOSE APDU.
pub open spec fn goose_pdu_bytes(g: GooseModel) -> Seq<u8> {
    tlv(0x61, goose_body(g))
}

/// The control block reference is not empty, and every length of the APDU
/// can be written.
pub open spec fn goose_fits(g: GooseModel) -> bool {
    &&& encode_utf8(g.go_cb_ref).len() > 0
    &&& length_fits(encode_utf8(g.go_cb_ref).len())
    &&& length_fits(encode_utf8(g.dat_set).len())
    &&& length_fits(encode_utf8(g.go_id).len())
    &&& list_fits(g.all_data)
    &&& length_fits(list_size(g.all_data))
    &&& length_fits(goose_body(g).len())
}

/// The link header of a frame: `length` counts from the APPID to the end of
/// the PDU; the reserved fields are zero.
pub fn encode_ethernet_header(header: &EthernetHeader, length: u16) -> (r: Vec<u8>)
    ensures
        r@ == header_bytes(*header, length, false),
{
    link_header(header, length, false, 26)
}

/// The link header with the simulation bit (top bit of the first reserved field).
/// The frame vector is allocated once, with room for `capacity` bytes.
pub fn link_header(header: &EthernetHeader, length: u16, sim: bool, capacity: usize) -> (r: Vec<u8>)
    ensures
        r@ == header_bytes(*header, length, sim),
{
    let mut out: Vec<u8> = Vec::with_capacity(capacity);
    append_bytes(&mut out, header.dst_addr.as_slice());
    append_bytes(&mut out, header.src_addr.as_slice());
    let ghost addrs = out@;
    match (&header.tpid, &header.tci) {
        (Some(tpid), Some(tci)) => {
            append_bytes(&mut out, tpid.as_slice());
            append_bytes(&mut out, tci.as_slice());
        },
        _ => {},
    }
    append_bytes(&mut out, header.ether_type.as_slice());
    append_bytes(&mut out, header.appid.as_slice());
    let len_bytes = be_bytes_of(length as u64, 2);
    append_bytes(&mut out, len_bytes.as_slice());
    out.push(if sim { 0x80 } else { 0x00 });
    out.push(0x00);
    out.push(0x00);
    out.push(0x00);
    proof {
        assert(out@ =~= header_bytes(*header, length, sim));
    }
    out
}

/// The GOOSE APDU of `pdu`.
pub fn encode_goose_pdu(pdu: &IECGoosePdu) -> (r: Result<Vec<u8>, EncodeError>)
    ensures
        r is Ok <==> goose_fits(pdu@),
        r is Ok ==> r->Ok_0@ == goose_pdu_bytes(pdu@),
{
    let g = Ghost(pdu@);
    proof {
        lemma_list_view(pdu.all_data@);
        crate::grammar::lemma_list_size_is_encoded_length(list_view(pdu.all_data@));
    }
    if pdu.go_cb_ref.as_str().as_bytes().len() == 0 {
        return Err(EncodeError::new("goCbRef must not be empty", 0));
    }
    let values = match encode_values(&pdu.all_data) {
        Ok(v) => v,
        Err(e) => {
            return Err(e);
        },
    };
    let mut body: Vec<u8> = Vec::new();
    match push_tlv(&mut body, 0x80, pdu.go_cb_ref.as_str().as_bytes()) {
        Ok(()) => {},
        Err(e) => {
            return Err(e);
        },
    }
    push_uint(&mut body, 0x81, pdu.time_allowed_to_live as u64);
    match push_tlv(&mut body, 0x82, pdu.dat_set.as_str().as_bytes()) {
        Ok(()) => {},
        Err(e) => {
            return Err(e);
        },
    }
    match push_tlv(&mut body, 0x83, pdu.go_id.as_str().as_bytes()) {
        Ok(()) => {},
        Err(e) => {
            return Err(e);
        },
    }
    let t = pdu.t.to_bytes();
    let r = push_tlv(&mut body, 0x84, t.as_slice());
    proof {
        lemma_be_bytes_len(pdu.t.seconds as nat, 4);
        lemma_be_bytes_len(pdu.t.fraction as nat % 0x100_0000, 3);
    }
    assert(r is Ok);
    push_uint(&mut body, 0x85, pdu.st_num as u64);
    push_uint(&mut body, 0x86, pdu.sq_num as u64);
    push_bool(&mut body, 0x87, pdu.simulation);
    push_uint(&mut body, 0x88, pdu.conf_rev as u64);
    push_bool(&mut body, 0x89, pdu.nds_com);
    push_uint(&mut body, 0x8A, pdu.all_data.len() as u64);
    match push_tlv(&mut body, 0xAB, values.as_slice()) {
        Ok(()) => {},
        Err(e) => {
            return Err(e);
        },
    }
    proof {
        assert(body@ =~= goose_body(g@));
    }
    let mut out: Vec<u8> = Vec::new();
    match push_tlv(&mut out, 0x61, body.as_slice()) {
        Ok(()) => {},
        Err(e) => {
            return Err(e);
        },
    }
    proof {
        assert(out@ =~= goose_pdu_bytes(g@));
    }
    Ok(out)
}

/// The whole GOOSE frame: link header, then the APDU.
pub fn encode_goose(header: &EthernetHeader, pdu: &IECGoosePdu) -> (r: Result<Vec<u8>, EncodeError>)
    ensures
        r is Ok <==> goose_fits(pdu@) && goose_pdu_bytes(pdu@).len() + 8 <= 0xFFFF,
        r is Ok ==> r->Ok_0@ == header_bytes(*header, (goose_pdu_bytes(pdu@).len() + 8) as u16, pdu.simulation)
            + goose_pdu_bytes(pdu@),
{
    let apdu = match encode_goose_pdu(pdu) {
        Ok(b) => b,
        Err(e) => {
            return Err(e);
        },
    };
    if apdu.len() > 0xFFFF - 8 {
        return Err(EncodeError::new("GOOSE PDU too long for the length field", 0));
    }
    let mut out = link_header(header, (apdu.len() + 8) as u16, pdu.simulation, apdu.len() + 26);
    append_bytes(&mut out, apdu.as_slice());
    Ok(out)
}

} // verus!
