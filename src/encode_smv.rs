//! Sampled Values frames out: the APDU (tag 0x60), its ASDUs and samples.
use vstd::prelude::*;
use vstd::utf8::encode_utf8;
use crate::encode_basics::{
    append_bytes, be_bytes_of, i64_be_bytes, minimal_twos_complement_bytes, push_tlv, push_uint,
};
use crate::encode_goose::link_header;
use crate::grammar::{
    be_bytes, lemma_be_bytes_len, lemma_enc_length, length_fits, length_size, sat, signed_content, tlv, twos,
    uint_content,
};
use crate::encode_basics::{minimal_integer_size, minimal_unsigned_size, size_length, write_bytes};
use crate::types::{
    asdus_view, header_bytes, quality_bits, AsduModel, EncodeError, EthernetHeader, Sample, SavAsdu, SavModel,
    SavPdu,
};

verus! {

/// The two elements of a sample: its value as INTEGER (0x83), its quality as
/// a BIT STRING of thirteen bits (0x84).
pub open spec fn sample_bytes(s: Sample) -> Seq<u8> {
    tlv(0x83, signed_content(s.value as int)) + tlv(0x84, seq![3u8] + be_bytes(quality_bits(s.quality) as nat, 2))
}

pub open spec fn samples_bytes(s: Seq<Sample>) -> Seq<u8>
    decreases s.len(),
{
    if s.len() == 0 {
        Seq::empty()
    } else {
        samples_bytes(s.drop_last()) + sample_bytes(s.last())
    }
}

/// An element that is there only when the field is.
pub open spec fn opt_tlv(tag: u8, content: Option<Seq<u8>>) -> Seq<u8> {
    match content {
        Some(c) => tlv(tag, c),
        None => Seq::empty(),
    }
}

pub open spec fn opt_uint(v: Option<u16>) -> Option<Seq<u8>> {
    match v {
        Some(x) => Some(uint_content(x as nat)),
        None => None,
    }
}

pub open spec fn opt_utf8(v: Option<Seq<char>>) -> Option<Seq<u8>> {
    match v {
        Some(t) => Some(encode_utf8(t)),
        None => None,
    }
}

/// The fields of an ASDU in tag order; optional ones only when present.
pub open spec fn asdu_body(a: AsduModel) -> Seq<u8> {
    tlv(0x80, encode_utf8(a.msv_id)) + opt_tlv(0x81, opt_utf8(a.dat_set)) + tlv(0x82, uint_content(a.smp_cnt as nat))
        + tlv(0x83, uint_content(a.conf_rev as nat)) + opt_tlv(0x84, a.refr_tm)
        + tlv(0x85, uint_content(a.smp_synch as nat)) + opt_tlv(0x86, opt_uint(a.smp_rate))
        + tlv(0x87, samples_bytes(a.all_data)) + opt_tlv(0x88, opt_uint(a.smp_mod)) + opt_tlv(0x89, a.gm_identity)
}

pub open spec fn asdu_bytes(a: AsduModel) -> Seq<u8> {
    tlv(0x30, asdu_body(a))
}

pub open spec fn asdus_bytes(s: Seq<AsduModel>) -> Seq<u8>
    decreases s.len(),
{
    if s.len() == 0 {
        Seq::empty()
    } else {
        asdus_bytes(s.drop_last()) + asdu_bytes(s.last())
    }
}

/// The encoded Sampled Values APDU.
pub open spec fn sav_pdu_bytes(p: SavModel) -> Seq<u8> {
    tlv(0x60, tlv(0x80, uint_content(p.no_asdu as nat)) + opt_tlv(0x81, p.security) + tlv(0xA2, asdus_bytes(p.sav_asdu)))
}

/// Every length inside an ASDU can be written.
pub open spec fn asdu_fits(a: AsduModel) -> bool {
    &&& length_fits(encode_utf8(a.msv_id).len())
    &&& (a.dat_set matches Some(t) ==> length_fits(encode_utf8(t).len()))
    &&& length_fits(samples_bytes(a.all_data).len())
    &&& length_fits(asdu_body(a).len())
}

/// Every length inside the APDU can be written.
pub open spec fn sav_fits(p: SavModel) -> bool {
    &&& (forall|i: int| 0 <= i < p.sav_asdu.len() ==> asdu_fits(#[trigger] p.sav_asdu[i]))
    &&& (p.security matches Some(s) ==> length_fits(s.len()))
    &&& length_fits(asdus_bytes(p.sav_asdu).len())
    &&& length_fits((tlv(0x80, uint_content(p.no_asdu as nat)) + opt_tlv(0x81, p.security) + tlv(0xA2, asdus_bytes(p.sav_asdu))).len())
}

/// Appends one sample.
pub fn push_sample(out: &mut Vec<u8>, sample: &Sample)
    ensures
        final(out)@ == old(out)@ + sample_bytes(*sample),
{
    let bytes = i64_be_bytes(sample.value as i64);
    proof {
        lemma_be_bytes_len(twos(sample.value as int, 8), 8);
        crate::grammar::lemma_strip_sign(bytes@);
    }
    let minimal = minimal_twos_complement_bytes(bytes.as_slice());
    let r1 = push_tlv(out, 0x83, minimal.as_slice());
    assert(r1 is Ok);
    let q = sample.quality.to_u16();
    let mut content: Vec<u8> = Vec::new();
    content.push(3);
    let qb = be_bytes_of(q as u64, 2);
    append_bytes(&mut content, qb.as_slice());
    proof {
        lemma_be_bytes_len(q as nat, 2);
    }
    let ghost mid = out@;
    let r2 = push_tlv(out, 0x84, content.as_slice());
    assert(r2 is Ok);
    proof {
        assert(out@ =~= old(out)@ + sample_bytes(*sample));
    }
}

/// The samples of an ASDU, one after the other.
pub fn encode_samples(samples: &Vec<Sample>) -> (r: Vec<u8>)
    ensures
        r@ == samples_bytes(samples@),
{
    let mut out: Vec<u8> = Vec::new();
    let mut i: usize = 0;
    while i < samples.len()
        invariant
            i <= samples@.len(),
            out@ == samples_bytes(samples@.subrange(0, i as int)),
        decreases samples@.len() - i,
    {
        push_sample(&mut out, &samples[i]);
        proof {
            assert(samples@.subrange(0, i + 1).drop_last() =~= samples@.subrange(0, i as int));
        }
        i = i + 1;
    }
    proof {
        assert(samples@.subrange(0, i as int) =~= samples@);
    }
    out
}

fn push_opt_uint(out: &mut Vec<u8>, tag: u8, v: Option<u16>)
    ensures
        final(out)@ == old(out)@ + opt_tlv(tag, opt_uint(v)),
{
    match v {
        Some(x) => push_uint(out, tag, x as u64),
        None => {
            assert(old(out)@ + Seq::<u8>::empty() =~= old(out)@);
        },
    }
}

fn push_opt_octets(out: &mut Vec<u8>, tag: u8, v: &Option<[u8; 8]>)
    ensures
        final(out)@ == old(out)@ + opt_tlv(tag, crate::types::opt_octets(*v)),
{
    match v {
        Some(a) => {
            let r = push_tlv(out, tag, a.as_slice());
            assert(r is Ok);
        },
        None => {
            assert(old(out)@ + Seq::<u8>::empty() =~= old(out)@);
        },
    }
}

/// The encoded ASDU (tag 0x30).
pub fn encode_sav_asdu(asdu: &SavAsdu) -> (r: Result<Vec<u8>, EncodeError>)
    ensures
        r is Ok <==> asdu_fits(asdu@),
        r is Ok ==> r->Ok_0@ == asdu_bytes(asdu@),
        r is Err ==> r->Err_0 is General,
{
    let ghost a = asdu@;
    let mut body: Vec<u8> = Vec::new();
    match push_tlv(&mut body, 0x80, asdu.msv_id.as_str().as_bytes()) {
        Ok(()) => {},
        Err(e) => {
            return Err(e);
        },
    }
    let ghost b1 = body@;
    match &asdu.dat_set {
        Some(t) => match push_tlv(&mut body, 0x81, t.as_str().as_bytes()) {
            Ok(()) => {},
            Err(e) => {
                return Err(e);
            },
        },
        None => {},
    }
    proof {
        assert(body@ =~= b1 + opt_tlv(0x81, opt_utf8(a.dat_set)));
    }
    push_uint(&mut body, 0x82, asdu.smp_cnt as u64);
    push_uint(&mut body, 0x83, asdu.conf_rev as u64);
    push_opt_octets(&mut body, 0x84, &asdu.refr_tm);
    push_uint(&mut body, 0x85, asdu.smp_synch as u64);
    push_opt_uint(&mut body, 0x86, asdu.smp_rate);
    let samples = encode_samples(&asdu.all_data);
    match push_tlv(&mut body, 0x87, samples.as_slice()) {
        Ok(()) => {},
        Err(e) => {
            return Err(e);
        },
    }
    push_opt_uint(&mut body, 0x88, asdu.smp_mod);
    push_opt_octets(&mut body, 0x89, &asdu.gm_identity);
    proof {
        assert(body@ =~= asdu_body(a));
    }
    let mut out: Vec<u8> = Vec::new();
    match push_tlv(&mut out, 0x30, body.as_slice()) {
        Ok(()) => {},
        Err(e) => {
            return Err(e);
        },
    }
    proof {
        assert(out@ =~= asdu_bytes(a));
    }
    Ok(out)
}

/// The encoded ASDUs, one after the other.
pub fn encode_sav_asdus(asdus: &Vec<SavAsdu>) -> (r: Result<Vec<u8>, EncodeError>)
    ensures
        r is Ok <==> forall|i: int| 0 <= i < asdus@.len() ==> asdu_fits(#[trigger] asdus_view(asdus@)[i]),
        r is Ok ==> r->Ok_0@ == asdus_bytes(asdus_view(asdus@)),
        r is Err ==> r->Err_0 is General,
{
    let ghost v = asdus_view(asdus@);
    let mut out: Vec<u8> = Vec::new();
    let mut i: usize = 0;
    while i < asdus.len()
        invariant
            i <= asdus@.len(),
            v == asdus_view(asdus@),
            v.len() == asdus@.len(),
            forall|j: int| 0 <= j < i ==> asdu_fits(#[trigger] v[j]),
            out@ == asdus_bytes(v.subrange(0, i as int)),
        decreases asdus@.len() - i,
    {
        assert(v[i as int] == asdus@[i as int]@);
        let bytes = match encode_sav_asdu(&asdus[i]) {
            Ok(b) => b,
            Err(e) => {
                return Err(e);
            },
        };
        append_bytes(&mut out, bytes.as_slice());
        proof {
            assert(v.subrange(0, i + 1).drop_last() =~= v.subrange(0, i as int));
        }
        i = i + 1;
    }
    proof {
        assert(v.subrange(0, i as int) =~= v);
    }
    Ok(out)
}

/// The encoded Sampled Values APDU (tag 0x60).
pub fn encode_sav_pdu(pdu: &SavPdu) -> (r: Result<Vec<u8>, EncodeError>)
    ensures
        r is Ok <==> sav_fits(pdu@),
        r is Ok ==> r->Ok_0@ == sav_pdu_bytes(pdu@),
        r is Err ==> r->Err_0 is General,
{
    let ghost p = pdu@;
    let asdus = match encode_sav_asdus(&pdu.sav_asdu) {
        Ok(b) => b,
        Err(e) => {
            return Err(e);
        },
    };
    let mut body: Vec<u8> = Vec::new();
    push_uint(&mut body, 0x80, pdu.no_asdu as u64);
    let ghost b1 = body@;
    match &pdu.security {
        Some(sec) => match push_tlv(&mut body, 0x81, sec.as_slice()) {
            Ok(()) => {},
            Err(e) => {
                return Err(e);
            },
        },
        None => {},
    }
    proof {
        assert(body@ =~= b1 + opt_tlv(0x81, p.security));
    }
    match push_tlv(&mut body, 0xA2, asdus.as_slice()) {
        Ok(()) => {},
        Err(e) => {
            return Err(e);
        },
    }
    let mut out: Vec<u8> = Vec::new();
    match push_tlv(&mut out, 0x60, body.as_slice()) {
        Ok(()) => {},
        Err(e) => {
            return Err(e);
        },
    }
    proof {
        assert(out@ =~= sav_pdu_bytes(p));
    }
    Ok(out)
}

/// The whole Sampled Values frame: link header with the simulation bit, then the APDU.
pub fn encode_smv(header: &EthernetHeader, pdu: &SavPdu) -> (r: Result<Vec<u8>, EncodeError>)
    ensures
        r is Ok <==> sav_fits(pdu@) && sav_pdu_bytes(pdu@).len() + 8 <= 0xFFFF,
        r is Ok ==> r->Ok_0@ == header_bytes(*header, (sav_pdu_bytes(pdu@).len() + 8) as u16, pdu.sim) + sav_pdu_bytes(pdu@),
        r is Err ==> r->Err_0 is General,
{
    let apdu = match encode_sav_pdu(pdu) {
        Ok(b) => b,
        Err(e) => {
            return Err(e);
        },
    };
    if apdu.len() > 0xFFFF - 8 {
        return Err(EncodeError::new("Sampled Values PDU too long for the length field", 0));
    }
    let mut out = link_header(header, (apdu.len() + 8) as u16, pdu.sim, apdu.len() + 26);
    append_bytes(&mut out, apdu.as_slice());
    Ok(out)
}

/// Bytes of an element whose content takes `n` bytes (capped at the largest `usize`).
pub fn tlv_size(n: usize) -> (r: usize)
    ensures
        r == sat(1 + length_size(n as nat) + n as nat),
{
    (1 + size_length(n)).saturating_add(n)
}

pub proof fn lemma_tlv_len(tag: u8, c: Seq<u8>)
    ensures
        tlv(tag, c).len() == 1 + length_size(c.len()) + c.len(),
{
    lemma_enc_length(c.len());
}

/// Bytes of the unsigned INTEGER content for `v`.
fn uint_size(v: u64) -> (r: usize)
    ensures
        r == uint_content(v as nat).len(),
        r <= 9,
{
    let b = be_bytes_of(v, 8);
    proof {
        lemma_be_bytes_len(v as nat, 8);
        crate::grammar::lemma_unsigned_content(b@);
    }
    minimal_unsigned_size(b.as_slice())
}

/// Bytes of one encoded sample.
pub fn sample_size(sample: &Sample) -> (r: usize)
    ensures
        r == sample_bytes(*sample).len(),
{
    let b = i64_be_bytes(sample.value as i64);
    proof {
        lemma_be_bytes_len(twos(sample.value as int, 8), 8);
        crate::grammar::lemma_strip_sign(b@);
        lemma_tlv_len(0x83, signed_content(sample.value as int));
        lemma_be_bytes_len(quality_bits(sample.quality) as nat, 2);
        lemma_tlv_len(0x84, seq![3u8] + be_bytes(quality_bits(sample.quality) as nat, 2));
    }
    let c = minimal_integer_size(b.as_slice());
    2 + c + 5
}

/// Bytes of the encoded samples (capped at the largest `usize`).
pub fn samples_size(samples: &Vec<Sample>) -> (r: usize)
    ensures
        r == sat(samples_bytes(samples@).len()),
{
    let mut acc: usize = 0;
    let mut i: usize = 0;
    while i < samples.len()
        invariant
            i <= samples@.len(),
            acc == sat(samples_bytes(samples@.subrange(0, i as int)).len()),
        decreases samples@.len() - i,
    {
        proof {
            assert(samples@.subrange(0, i + 1).drop_last() =~= samples@.subrange(0, i as int));
        }
        acc = acc.saturating_add(sample_size(&samples[i]));
        i = i + 1;
    }
    proof {
        assert(samples@.subrange(0, i as int) =~= samples@);
    }
    acc
}

fn opt_uint_size(v: Option<u16>) -> (r: usize)
    ensures
        r == opt_tlv(0, opt_uint(v)).len(),
{
    match v {
        Some(x) => {
            proof {
                lemma_tlv_len(0, uint_content(x as nat));
            }
            let n = uint_size(x as u64);
            2 + n
        },
        None => 0,
    }
}

/// The length of an ASDU body, field by field.
pub proof fn lemma_asdu_body_len(a: AsduModel)
    ensures
        asdu_body(a).len() == tlv(0x80, encode_utf8(a.msv_id)).len() + opt_tlv(0x81, opt_utf8(a.dat_set)).len()
            + tlv(0x82, uint_content(a.smp_cnt as nat)).len() + tlv(0x83, uint_content(a.conf_rev as nat)).len()
            + opt_tlv(0x84, a.refr_tm).len() + tlv(0x85, uint_content(a.smp_synch as nat)).len()
            + opt_tlv(0x86, opt_uint(a.smp_rate)).len() + tlv(0x87, samples_bytes(a.all_data)).len()
            + opt_tlv(0x88, opt_uint(a.smp_mod)).len() + opt_tlv(0x89, a.gm_identity).len(),
{
}

/// Bytes of an optional element with `n` content bytes, as `u128`.
fn opt_part(present: bool, n: usize) -> (r: u128)
    ensures
        r == (if present { 1 + length_size(n as nat) + n } else { 0 }),
{
    if present {
        (1 + size_length(n)) as u128 + n as u128
    } else {
        0
    }
}

/// Bytes of the encoded ASDU, tag 0x30 included (capped at the largest `usize`).
#[verifier::spinoff_prover]
#[verifier::rlimit(100)]
pub fn asdu_size(asdu: &SavAsdu) -> (r: usize)
    ensures
        r == sat(asdu_bytes(asdu@).len()),
{
    let ghost a = asdu@;
    let dat_len: usize = match &asdu.dat_set {
        Some(t) => t.as_str().as_bytes().len(),
        None => 0,
    };
    let rate_len: usize = match asdu.smp_rate {
        Some(x) => uint_size(x as u64),
        None => 0,
    };
    let mod_len: usize = match asdu.smp_mod {
        Some(x) => uint_size(x as u64),
        None => 0,
    };
    let smp = samples_size(&asdu.all_data);
    proof {
        lemma_asdu_body_len(a);
        lemma_tlv_len(0x80, encode_utf8(a.msv_id));
        if let Some(t) = a.dat_set {
            lemma_tlv_len(0x81, encode_utf8(t));
        }
        lemma_tlv_len(0x82, uint_content(a.smp_cnt as nat));
        lemma_tlv_len(0x83, uint_content(a.conf_rev as nat));
        if let Some(t) = a.refr_tm {
            lemma_tlv_len(0x84, t);
        }
        lemma_tlv_len(0x85, uint_content(a.smp_synch as nat));
        if let Some(x) = a.smp_rate {
            lemma_tlv_len(0x86, uint_content(x as nat));
        }
        lemma_tlv_len(0x87, samples_bytes(a.all_data));
        if let Some(x) = a.smp_mod {
            lemma_tlv_len(0x88, uint_content(x as nat));
        }
        if let Some(t) = a.gm_identity {
            lemma_tlv_len(0x89, t);
        }
        lemma_tlv_len(0x30, asdu_body(a));
    }
    let body: u128 = opt_part(true, asdu.msv_id.as_str().as_bytes().len()) + opt_part(asdu.dat_set.is_some(), dat_len)
        + opt_part(true, uint_size(asdu.smp_cnt as u64)) + opt_part(true, uint_size(asdu.conf_rev as u64))
        + opt_part(asdu.refr_tm.is_some(), 8) + opt_part(true, uint_size(asdu.smp_synch as u64))
        + opt_part(asdu.smp_rate.is_some(), rate_len) + opt_part(true, smp)
        + opt_part(asdu.smp_mod.is_some(), mod_len) + opt_part(asdu.gm_identity.is_some(), 8);
    if body > usize::MAX as u128 {
        usize::MAX
    } else {
        tlv_size(body as usize)
    }
}

/// Bytes of the encoded APDU, tag 0x60 included (capped at the largest `usize`).
pub fn sav_pdu_size(pdu: &SavPdu) -> (r: usize)
    ensures
        r == sat(sav_pdu_bytes(pdu@).len()),
{
    let ghost p = pdu@;
    let ghost v = p.sav_asdu;
    let mut asdus: usize = 0;
    let mut i: usize = 0;
    while i < pdu.sav_asdu.len()
        invariant
            i <= pdu.sav_asdu@.len(),
            v == asdus_view(pdu.sav_asdu@),
            v.len() == pdu.sav_asdu@.len(),
            asdus == sat(asdus_bytes(v.subrange(0, i as int)).len()),
        decreases pdu.sav_asdu@.len() - i,
    {
        proof {
            assert(v.subrange(0, i + 1).drop_last() =~= v.subrange(0, i as int));
            assert(v[i as int] == pdu.sav_asdu@[i as int]@);
        }
        asdus = asdus.saturating_add(asdu_size(&pdu.sav_asdu[i]));
        i = i + 1;
    }
    proof {
        assert(v.subrange(0, i as int) =~= v);
        lemma_tlv_len(0x80, uint_content(p.no_asdu as nat));
        if let Some(sec) = p.security {
            lemma_tlv_len(0x81, sec);
        }
        lemma_tlv_len(0xA2, asdus_bytes(v));
        lemma_tlv_len(
            0x60,
            tlv(0x80, uint_content(p.no_asdu as nat)) + opt_tlv(0x81, p.security) + tlv(0xA2, asdus_bytes(v)),
        );
    }
    let sec = match &pdu.security {
        Some(b) => tlv_size(b.len()),
        None => 0,
    };
    let body = (2 + uint_size(pdu.no_asdu as u64)).saturating_add(sec).saturating_add(tlv_size(asdus));
    tlv_size(body)
}

/// Bytes of the whole frame: link header (22 bytes, 26 with a tag) and APDU
/// (capped at the largest `usize`).
pub fn smv_size(header: &EthernetHeader, pdu: &SavPdu) -> (r: usize)
    ensures
        r == sat(header_bytes(*header, 0, pdu.sim).len() + sav_pdu_bytes(pdu@).len()),
{
    proof {
        lemma_be_bytes_len(0, 2);
    }
    let h: usize = if header.tpid.is_some() && header.tci.is_some() { 26 } else { 22 };
    h.saturating_add(sav_pdu_size(pdu))
}

/// Writes the whole Sampled Values frame at the start of `buffer`; returns its length.
pub fn encode_smv_into(header: &EthernetHeader, pdu: &SavPdu, buffer: &mut [u8]) -> (r: Result<usize, EncodeError>)
    ensures
        r is Ok <==> sav_fits(pdu@) && sav_pdu_bytes(pdu@).len() + 8 <= 0xFFFF
            && header_bytes(*header, 0, pdu.sim).len() + sav_pdu_bytes(pdu@).len() <= old(buffer)@.len(),
        r matches Ok(n) ==> {
            &&& n == header_bytes(*header, 0, pdu.sim).len() + sav_pdu_bytes(pdu@).len()
            &&& final(buffer)@ == crate::grammar::splice(
                old(buffer)@,
                0,
                header_bytes(*header, (sav_pdu_bytes(pdu@).len() + 8) as u16, pdu.sim) + sav_pdu_bytes(pdu@),
            )
        },
        r matches Err(e) ==> {
            &&& final(buffer)@ == old(buffer)@
            &&& if sav_fits(pdu@) && sav_pdu_bytes(pdu@).len() + 8 <= 0xFFFF {
                e == EncodeError::BufferTooSmall {
                    required: (header_bytes(*header, 0, pdu.sim).len() + sav_pdu_bytes(pdu@).len()) as usize,
                    available: old(buffer)@.len() as usize,
                }
            } else {
                e is General
            }
        },
{
    proof {
        assert forall|u: nat| #[trigger] be_bytes(u, 2).len() == 2 by {
            lemma_be_bytes_len(u, 2);
        }
    }
    let frame = match encode_smv(header, pdu) {
        Ok(f) => f,
        Err(e) => {
            return Err(e);
        },
    };
    if frame.len() > buffer.len() {
        return Err(EncodeError::BufferTooSmall { required: frame.len(), available: buffer.len() });
    }
    write_bytes(buffer, 0, frame.as_slice());
    Ok(frame.len())
}

} // verus!
