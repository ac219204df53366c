//! BER primitives of IEC 61850: tags and lengths, integers, strings, reals,
//! coded-enum bit strings, and the values of a data set.
use vstd::prelude::*;
use crate::grammar::{
    be_bytes, data_fits, data_size, data_tag, enc_data, enc_length, enc_list, lemma_be_bytes_len,
    lemma_enc_length, lemma_enc_list_split, lemma_list_fits_index, lemma_prefix_step, lemma_splice_twice,
    lemma_strip_sign, length_fits, length_size, list_fits, list_size, pow256, rev_bits, sat, splice,
    strip_sign, strip_zeros, tlv, twos, uint_content, unsigned_content, wire_bits,
};
use vstd::slice::{slice_subrange, slice_to_vec};
use vstd::utf8::encode_utf8;
use crate::types::{data_view, lemma_list_view, list_view, EncodeError, IECData};

verus! {

/// The error an encoder returns when `need` bytes do not fit from `at` on.
pub open spec fn too_small(e: EncodeError, len: nat, at: nat, need: nat) -> bool {
    e == EncodeError::BufferTooSmall {
        required: if at + need > usize::MAX { usize::MAX } else { (at + need) as usize },
        available: len as usize,
    }
}

/// Copies `bytes` into `buffer` from `at` on.
pub fn write_bytes(buffer: &mut [u8], at: usize, bytes: &[u8])
    requires
        at + bytes@.len() <= old(buffer)@.len(),
    ensures
        final(buffer)@ == splice(old(buffer)@, at as int, bytes@),
{
    let ghost start = buffer@;
    let blen = buffer.len();
    let mut i: usize = 0;
    while i < bytes.len()
        invariant
            i <= bytes@.len(),
            buffer@.len() == start.len(),
            start.len() == blen,
            at + bytes@.len() <= buffer@.len(),
            buffer@ =~= splice(start, at as int, bytes@.subrange(0, i as int)),
        decreases bytes@.len() - i,
    {
        buffer[at + i] = bytes[i];
        i = i + 1;
        assert(buffer@ =~= splice(start, at as int, bytes@.subrange(0, i as int)));
    }
    assert(bytes@.subrange(0, i as int) =~= bytes@);
}

/// Number of bytes that the BER length field takes for a content of `value` bytes.
pub fn size_length(value: usize) -> (r: usize)
    ensures
        r == length_size(value as nat),
{
    if value < 128 {
        1
    } else if value < 256 {
        2
    } else if value < 65536 {
        3
    } else {
        4
    }
}

/// Writes a tag and the definite length `value` at `buffer_index`.
pub fn encode_tag_length(tag: u8, value: usize, buffer: &mut [u8], buffer_index: usize) -> (r: Result<usize, EncodeError>)
    ensures
        match r {
            Ok(p) => {
                &&& length_fits(value as nat)
                &&& buffer_index + 1 + length_size(value as nat) <= old(buffer)@.len()
                &&& p == buffer_index + 1 + length_size(value as nat)
                &&& final(buffer)@ == splice(old(buffer)@, buffer_index as int, seq![tag] + enc_length(value as nat))
            },
            Err(e) => {
                &&& final(buffer)@ == old(buffer)@
                &&& if !length_fits(value as nat) {
                    e is General
                } else {
                    &&& buffer_index + 1 + length_size(value as nat) > old(buffer)@.len()
                    &&& too_small(e, old(buffer)@.len(), buffer_index as nat, 1 + length_size(value as nat))
                }
            },
        },
{
    if value >= 0x100_0000 {
        return Err(EncodeError::new("length of 2^24 or more cannot be encoded", buffer_index));
    }
    let required = 1 + size_length(value);
    if buffer_index > buffer.len() || buffer.len() - buffer_index < required {
        return Err(EncodeError::BufferTooSmall {
            required: buffer_index.saturating_add(required),
            available: buffer.len(),
        });
    }
    let ghost start = buffer@;
    buffer[buffer_index] = tag;
    if value < 128 {
        buffer[buffer_index + 1] = value as u8;
    } else if value < 256 {
        buffer[buffer_index + 1] = 0x81;
        buffer[buffer_index + 2] = value as u8;
    } else if value < 65536 {
        buffer[buffer_index + 1] = 0x82;
        buffer[buffer_index + 2] = (value / 256) as u8;
        buffer[buffer_index + 3] = (value % 256) as u8;
    } else {
        buffer[buffer_index + 1] = 0x83;
        buffer[buffer_index + 2] = (value / 65536) as u8;
        buffer[buffer_index + 3] = ((value / 256) % 256) as u8;
        buffer[buffer_index + 4] = (value % 256) as u8;
    }
    assert(buffer@ =~= splice(start, buffer_index as int, seq![tag] + enc_length(value as nat)));
    Ok(buffer_index + required)
}

/// Writes a whole element: tag, definite length and `value`.
pub fn encode_ber(tag: u8, value: &[u8], buffer: &mut [u8], buffer_index: usize) -> (r: Result<usize, EncodeError>)
    ensures
        match r {
            Ok(p) => {
                &&& length_fits(value@.len())
                &&& buffer_index + tlv(tag, value@).len() <= old(buffer)@.len()
                &&& p == buffer_index + tlv(tag, value@).len()
                &&& final(buffer)@ == splice(old(buffer)@, buffer_index as int, tlv(tag, value@))
            },
            Err(e) => {
                &&& final(buffer)@ == old(buffer)@
                &&& if !length_fits(value@.len()) {
                    e is General
                } else {
                    &&& buffer_index + tlv(tag, value@).len() > old(buffer)@.len()
                    &&& too_small(e, old(buffer)@.len(), buffer_index as nat, tlv(tag, value@).len())
                }
            },
        },
{
    proof {
        lemma_enc_length(value@.len());
    }
    if value.len() >= 0x100_0000 {
        return Err(EncodeError::new("length of 2^24 or more cannot be encoded", buffer_index));
    }
    let total = (1 + size_length(value.len())).saturating_add(value.len());
    if buffer_index > buffer.len() || buffer.len() - buffer_index < value.len()
        || buffer.len() - buffer_index - value.len() < 1 + size_length(value.len()) {
        return Err(EncodeError::BufferTooSmall {
            required: buffer_index.saturating_add(total),
            available: buffer.len(),
        });
    }
    let pos = match encode_tag_length(tag, value.len(), buffer, buffer_index) {
        Ok(p) => p,
        Err(e) => {
            return Err(e);
        },
    };
    proof {
        lemma_splice_twice(old(buffer)@, buffer_index as int, seq![tag] + enc_length(value@.len()), value@);
    }
    write_bytes(buffer, pos, value);
    Ok(pos + value.len())
}

/// The outcome of writing the element `bytes` at `at`: the position after it,
/// or the error that says why it does not fit.
pub open spec fn element_written(
    r: Result<usize, EncodeError>,
    before: Seq<u8>,
    after: Seq<u8>,
    at: usize,
    bytes: Seq<u8>,
    content_len: nat,
) -> bool {
    match r {
        Ok(p) => {
            &&& length_fits(content_len)
            &&& at + bytes.len() <= before.len()
            &&& p == at + bytes.len()
            &&& after == splice(before, at as int, bytes)
        },
        Err(e) => {
            &&& after == before
            &&& if !length_fits(content_len) {
                e is General
            } else {
                &&& at + bytes.len() > before.len()
                &&& too_small(e, before.len(), at as nat, bytes.len())
            }
        },
    }
}

/// Writes a BOOLEAN: one content byte, 0xFF for true and 0x00 for false.
pub fn encode_boolean(tag: u8, value: bool, buffer: &mut [u8], buffer_index: usize) -> (r: Result<usize, EncodeError>)
    ensures
        element_written(r, old(buffer)@, final(buffer)@, buffer_index, tlv(tag, seq![if value { 0xFFu8 } else { 0x00u8 }]), 1),
{
    let content: [u8; 1] = [if value { 0xFF } else { 0x00 }];
    assert(content@ =~= seq![if value { 0xFFu8 } else { 0x00u8 }]);
    encode_ber(tag, &content, buffer, buffer_index)
}

/// Writes a string as its UTF-8 bytes.
pub fn encode_string(tag: u8, value: &str, buffer: &mut [u8], buffer_index: usize) -> (r: Result<usize, EncodeError>)
    ensures
        element_written(r, old(buffer)@, final(buffer)@, buffer_index, tlv(tag, encode_utf8(value@)), encode_utf8(value@).len()),
{
    encode_ber(tag, value.as_bytes(), buffer, buffer_index)
}

/// Writes an OCTET STRING.
pub fn encode_octet_string(tag: u8, value: &[u8], buffer: &mut [u8], buffer_index: usize) -> (r: Result<usize, EncodeError>)
    ensures
        element_written(r, old(buffer)@, final(buffer)@, buffer_index, tlv(tag, value@), value@.len()),
{
    encode_ber(tag, value, buffer, buffer_index)
}

/// The minimal two's-complement form of a big-endian integer.
pub fn minimal_twos_complement_bytes(value: &[u8]) -> (r: Vec<u8>)
    requires
        value@.len() >= 1,
    ensures
        r@ == strip_sign(value@),
{
    let start = sign_bytes(value);
    slice_to_vec(slice_subrange(value, start, value.len()))
}

/// Number of leading bytes that only repeat the sign.
fn sign_bytes(value: &[u8]) -> (r: usize)
    requires
        value@.len() >= 1,
    ensures
        r < value@.len(),
        value@.subrange(r as int, value@.len() as int) == strip_sign(value@),
{
    let mut start: usize = 0;
    proof {
        assert(value@.subrange(0, value@.len() as int) =~= value@);
    }
    while start < value.len() - 1
        invariant
            start < value@.len(),
            strip_sign(value@.subrange(start as int, value@.len() as int)) == strip_sign(value@),
        decreases value@.len() - start,
    {
        let curr = value[start];
        let next = value[start + 1];
        let ghost rest = value@.subrange(start as int, value@.len() as int);
        if (curr == 0x00 && next < 0x80) || (curr == 0xFF && next >= 0x80) {
            assert(rest.drop_first() =~= value@.subrange(start + 1, value@.len() as int));
            start = start + 1;
        } else {
            return start;
        }
    }
    start
}

/// Number of content bytes of the minimal two's-complement form.
pub fn minimal_integer_size(value: &[u8]) -> (r: usize)
    requires
        value@.len() >= 1,
    ensures
        r == strip_sign(value@).len(),
{
    value.len() - sign_bytes(value)
}

/// Number of leading zero bytes that can go, keeping one byte.
fn zero_bytes(value: &[u8]) -> (r: usize)
    requires
        value@.len() >= 1,
    ensures
        r < value@.len(),
        value@.subrange(r as int, value@.len() as int) == strip_zeros(value@),
{
    let mut start: usize = 0;
    proof {
        assert(value@.subrange(0, value@.len() as int) =~= value@);
    }
    while start < value.len() - 1
        invariant
            start < value@.len(),
            strip_zeros(value@.subrange(start as int, value@.len() as int)) == strip_zeros(value@),
        decreases value@.len() - start,
    {
        let ghost rest = value@.subrange(start as int, value@.len() as int);
        if value[start] == 0 {
            assert(rest.drop_first() =~= value@.subrange(start + 1, value@.len() as int));
            start = start + 1;
        } else {
            return start;
        }
    }
    start
}

/// Content octets of a BER INTEGER for an unsigned big-endian number.
fn unsigned_bytes(value: &[u8]) -> (r: Vec<u8>)
    requires
        value@.len() >= 1,
    ensures
        r@ == unsigned_content(value@),
{
    let start = zero_bytes(value);
    let mut out: Vec<u8> = Vec::new();
    if value[start] >= 0x80 {
        out.push(0);
    }
    let mut i = start;
    while i < value.len()
        invariant
            start <= i <= value@.len(),
            value@.subrange(start as int, value@.len() as int) == strip_zeros(value@),
            out@ == (if value@[start as int] >= 0x80 { seq![0u8] } else { Seq::<u8>::empty() }) + value@.subrange(start as int, i as int),
        decreases value@.len() - i,
    {
        out.push(value[i]);
        i = i + 1;
        assert(out@ =~= (if value@[start as int] >= 0x80 { seq![0u8] } else { Seq::<u8>::empty() }) + value@.subrange(start as int, i as int));
    }
    assert(out@ =~= unsigned_content(value@));
    out
}

/// Number of content bytes of an unsigned number written as a BER INTEGER.
pub fn minimal_unsigned_size(bytes: &[u8]) -> (r: usize)
    requires
        1 <= bytes@.len() < usize::MAX,
    ensures
        r == unsigned_content(bytes@).len(),
{
    let start = zero_bytes(bytes);
    if bytes[start] >= 0x80 {
        bytes.len() - start + 1
    } else {
        bytes.len() - start
    }
}

/// Writes a signed INTEGER given big-endian, in its minimal form.
pub fn encode_integer(tag: u8, value: &[u8], buffer: &mut [u8], buffer_index: usize) -> (r: Result<usize, EncodeError>)
    requires
        value@.len() >= 1,
    ensures
        element_written(r, old(buffer)@, final(buffer)@, buffer_index, tlv(tag, strip_sign(value@)), strip_sign(value@).len()),
{
    let minimal = minimal_twos_complement_bytes(value);
    encode_ber(tag, minimal.as_slice(), buffer, buffer_index)
}

/// Writes an unsigned number given big-endian as a BER INTEGER: leading zeros
/// dropped, and one zero put back where the top bit would read as a sign.
pub fn encode_unsigned_integer(tag: u8, value: &[u8], buffer: &mut [u8], buffer_index: usize) -> (r: Result<usize, EncodeError>)
    requires
        value@.len() >= 1,
    ensures
        element_written(r, old(buffer)@, final(buffer)@, buffer_index, tlv(tag, unsigned_content(value@)), unsigned_content(value@).len()),
{
    let content = unsigned_bytes(value);
    encode_ber(tag, content.as_slice(), buffer, buffer_index)
}

/// Writes an IEC 61850-7-2 REAL: the descriptor byte 0x08, then the four or
/// eight IEEE-754 bytes.
pub fn encode_float(tag: u8, bytes: &[u8], buffer: &mut [u8], buffer_index: usize) -> (r: Result<usize, EncodeError>)
    ensures
        bytes@.len() == 4 || bytes@.len() == 8 ==> element_written(
            r,
            old(buffer)@,
            final(buffer)@,
            buffer_index,
            tlv(tag, seq![0x08u8] + bytes@),
            bytes@.len() + 1,
        ),
        !(bytes@.len() == 4 || bytes@.len() == 8) ==> r is Err && r->Err_0 is General && final(buffer)@ == old(buffer)@,
{
    if bytes.len() != 4 && bytes.len() != 8 {
        return Err(EncodeError::new("a REAL takes four or eight IEEE-754 bytes", buffer_index));
    }
    let mut content: Vec<u8> = Vec::new();
    content.push(0x08);
    let mut i: usize = 0;
    while i < bytes.len()
        invariant
            i <= bytes@.len(),
            content@ == seq![0x08u8] + bytes@.subrange(0, i as int),
        decreases bytes@.len() - i,
    {
        content.push(bytes[i]);
        i = i + 1;
        assert(content@ =~= seq![0x08u8] + bytes@.subrange(0, i as int));
    }
    assert(bytes@.subrange(0, i as int) =~= bytes@);
    encode_ber(tag, content.as_slice(), buffer, buffer_index)
}

/// The bits of a byte in reverse order.
pub fn reverse_bits(b: u8) -> (r: u8)
    ensures
        r == rev_bits(b),
{
    ((b & 0x01) << 7u8) | ((b & 0x02) << 5u8) | ((b & 0x04) << 3u8) | ((b & 0x08) << 1u8)
        | ((b & 0x10) >> 1u8) | ((b & 0x20) >> 3u8) | ((b & 0x40) >> 5u8) | ((b & 0x80) >> 7u8)
}

/// Coded-enum bytes in wire order: byte order reversed, and the bits of every byte.
pub fn coded_enum_bytes(value: &[u8]) -> (r: Vec<u8>)
    ensures
        r@ == wire_bits(value@),
{
    let mut out: Vec<u8> = Vec::new();
    let n = value.len();
    let mut i: usize = 0;
    while i < n
        invariant
            n == value@.len(),
            i <= n,
            out@ =~= wire_bits(value@).subrange(0, i as int),
        decreases n - i,
    {
        out.push(reverse_bits(value[n - 1 - i]));
        i = i + 1;
    }
    out
}

/// Writes a coded enum as a BIT STRING: the count of unused bits, then the
/// bytes with byte order and bit order reversed (IEC 61850-8-1).
pub fn encode_coded_enum(tag: u8, value: &[u8], padding: u8, buffer: &mut [u8], buffer_index: usize) -> (r: Result<usize, EncodeError>)
    ensures
        element_written(r, old(buffer)@, final(buffer)@, buffer_index, tlv(tag, seq![padding] + wire_bits(value@)), value@.len() + 1),
{
    let wire = coded_enum_bytes(value);
    let mut content: Vec<u8> = Vec::new();
    content.push(padding);
    let mut i: usize = 0;
    while i < wire.len()
        invariant
            i <= wire@.len(),
            wire@ == wire_bits(value@),
            content@ == seq![padding] + wire@.subrange(0, i as int),
        decreases wire@.len() - i,
    {
        content.push(wire[i]);
        i = i + 1;
        assert(content@ =~= seq![padding] + wire@.subrange(0, i as int));
    }
    assert(wire@.subrange(0, i as int) =~= wire@);
    encode_ber(tag, content.as_slice(), buffer, buffer_index)
}

/// The `n` low-order bytes of `u`, most significant first.
pub fn be_bytes_of(u: u64, n: usize) -> (r: Vec<u8>)
    ensures
        r@ == be_bytes(u as nat, n as nat),
    decreases n,
{
    if n == 0 {
        Vec::new()
    } else {
        let mut v = be_bytes_of(u / 256, n - 1);
        v.push((u % 256) as u8);
        v
    }
}

/// The eight bytes of a signed 64-bit integer in two's complement.
pub fn i64_be_bytes(x: i64) -> (r: Vec<u8>)
    ensures
        r@ == be_bytes(twos(x as int, 8), 8),
{
    proof {
        reveal_with_fuel(pow256, 9);
    }
    let u: u64 = if x < 0 {
        (x as i128 + 0x1_0000_0000_0000_0000i128) as u64
    } else {
        x as u64
    };
    be_bytes_of(u, 8)
}

/// The outcome of writing the value `m` at `at`.
pub open spec fn value_written(
    r: Result<usize, EncodeError>,
    before: Seq<u8>,
    after: Seq<u8>,
    at: usize,
    m: crate::types::DataModel,
) -> bool {
    &&& r is Ok <==> data_fits(m) && at + enc_data(m).len() <= before.len()
    &&& match r {
        Ok(p) => {
            &&& p == at + enc_data(m).len()
            &&& after == splice(before, at as int, enc_data(m))
        },
        Err(e) => {
            &&& after == before
            &&& if !data_fits(m) {
                e is General
            } else {
                e is BufferTooSmall && at + enc_data(m).len() > before.len()
            }
        },
    }
}

/// The outcome of writing the values `s` one after the other at `at`.
pub open spec fn list_written(
    r: Result<usize, EncodeError>,
    before: Seq<u8>,
    after: Seq<u8>,
    at: usize,
    s: Seq<crate::types::DataModel>,
) -> bool {
    &&& r is Ok <==> list_fits(s) && at + enc_list(s).len() <= before.len()
    &&& match r {
        Ok(p) => {
            &&& p == at + enc_list(s).len()
            &&& after == splice(before, at as int, enc_list(s))
        },
        Err(e) => {
            &&& after == before
            &&& if !list_fits(s) {
                e is General
            } else {
                e is BufferTooSmall && at + enc_list(s).len() > before.len()
            }
        },
    }
}

/// Bytes that the encoding of a value takes (capped at the largest `usize`).
pub fn size_iec_data_element(data: &IECData) -> (r: usize)
    ensures
        r == sat(data_size(data@)),
    decreases data,
{
    match data {
        IECData::Array(v) => {
            let c = size_iec_data(v);
            let r = (1 + size_length(c)).saturating_add(c);
            assert(r == sat(data_size(data@)));
            r
        },
        IECData::Structure(v) => {
            let c = size_iec_data(v);
            let r = (1 + size_length(c)).saturating_add(c);
            assert(r == sat(data_size(data@)));
            r
        },
        IECData::Boolean(_) => 3,
        IECData::BitString { padding: _, val } => {
            let c = val.len().saturating_add(1);
            let r = (1 + size_length(c)).saturating_add(c);
            assert(r == sat(data_size(data@)));
            r
        },
        IECData::Int(x) => {
            let c = minimal_integer_size(i64_be_bytes(*x).as_slice());
            proof {
                lemma_be_bytes_len(twos(*x as int, 8), 8);
                lemma_strip_sign(be_bytes(twos(*x as int, 8), 8));
            }
            1 + size_length(c) + c
        },
        IECData::UInt(u) => {
            let b = be_bytes_of(*u, 8);
            proof {
                lemma_be_bytes_len(*u as nat, 8);
                crate::grammar::lemma_unsigned_content(b@);
            }
            let c = minimal_unsigned_size(b.as_slice());
            1 + size_length(c) + c
        },
        IECData::Float32(b) => {
            proof {
                lemma_be_bytes_len(*b as nat, 4);
            }
            7
        },
        IECData::Float64(b) => {
            proof {
                lemma_be_bytes_len(*b as nat, 8);
            }
            11
        },
        IECData::OctetString(v) => (1 + size_length(v.len())).saturating_add(v.len()),
        IECData::VisibleString(t) => {
            let n = t.as_str().as_bytes().len();
            let r = (1 + size_length(n)).saturating_add(n);
            assert(r == sat(data_size(data@)));
            r
        },
        IECData::MmsString(t) => {
            let n = t.as_str().as_bytes().len();
            let r = (1 + size_length(n)).saturating_add(n);
            assert(r == sat(data_size(data@)));
            r
        },
        IECData::Timestamp(t) => {
            proof {
                lemma_be_bytes_len(t.seconds as nat, 4);
                lemma_be_bytes_len(t.fraction as nat % 0x100_0000, 3);
            }
            10
        },
    }
}

/// Bytes that the encodings of all values take (capped at the largest `usize`).
pub fn size_iec_data(all_data: &Vec<IECData>) -> (r: usize)
    ensures
        r == sat(list_size(list_view(all_data@))),
    decreases all_data,
{
    let ghost views = list_view(all_data@);
    proof {
        lemma_list_view(all_data@);
    }
    let mut acc: usize = 0;
    let mut i: usize = 0;
    while i < all_data.len()
        invariant
            i <= all_data@.len(),
            views == list_view(all_data@),
            views.len() == all_data@.len(),
            forall|j: int| 0 <= j < all_data@.len() ==> #[trigger] views[j] == data_view(all_data@[j]),
            acc == sat(list_size(views.subrange(0, i as int))),
        decreases all_data@.len() - i,
    {
        let s = size_iec_data_element(&all_data[i]);
        proof {
            lemma_prefix_step(views, i as int);
        }
        acc = acc.saturating_add(s);
        i = i + 1;
    }
    proof {
        assert(views.subrange(0, i as int) =~= views);
    }
    acc
}

/// Bytes that the encoding of a value takes, when every length inside it
/// can be written; None when one cannot.
pub fn checked_size(data: &IECData) -> (r: Option<usize>)
    ensures
        r == (if data_fits(data@) { Some(data_size(data@) as usize) } else { None::<usize> }),
        data_fits(data@) ==> data_size(data@) < 0x100_0005,
    decreases data,
{
    match data {
        IECData::Array(v) => {
            let (fits, total) = checked_list_size(v);
            if !fits || total >= 0x100_0000 {
                None
            } else {
                let c = total as usize;
                Some(1 + size_length(c) + c)
            }
        },
        IECData::Structure(v) => {
            let (fits, total) = checked_list_size(v);
            if !fits || total >= 0x100_0000 {
                None
            } else {
                let c = total as usize;
                Some(1 + size_length(c) + c)
            }
        },
        _ => {
            let s = size_iec_data_element(data);
            if s < 0x100_0005 {
                Some(s)
            } else {
                None
            }
        },
    }
}

/// Whether every length inside the values can be written, and if so the
/// bytes their encodings take together.
pub fn checked_list_size(all_data: &Vec<IECData>) -> (r: (bool, u128))
    ensures
        r.0 == list_fits(list_view(all_data@)),
        r.0 ==> r.1 == list_size(list_view(all_data@)),
        r.1 <= 0x1_0000_0000_0000_0000 * 0x100_0005,
    decreases all_data,
{
    let ghost views = list_view(all_data@);
    proof {
        lemma_list_view(all_data@);
        assert(views.subrange(0, 0) =~= Seq::<crate::types::DataModel>::empty());
    }
    let mut acc: u128 = 0;
    let mut i: usize = 0;
    while i < all_data.len()
        invariant
            i <= all_data@.len(),
            views == list_view(all_data@),
            views.len() == all_data@.len(),
            forall|j: int| 0 <= j < all_data@.len() ==> #[trigger] views[j] == data_view(all_data@[j]),
            list_fits(views.subrange(0, i as int)),
            acc == list_size(views.subrange(0, i as int)),
            acc <= i as nat * 0x100_0005,
        decreases all_data@.len() - i,
    {
        proof {
            lemma_prefix_step(views, i as int);
        }
        match checked_size(&all_data[i]) {
            Some(sz) => {
                assert(acc + sz <= (i as nat + 1) * 0x100_0005) by (nonlinear_arith)
                    requires acc <= i as nat * 0x100_0005, sz < 0x100_0005;
                assert((i as nat + 1) * 0x100_0005 <= 0x1_0000_0000_0000_0000 * 0x100_0005) by (nonlinear_arith)
                    requires i < 0x1_0000_0000_0000_0000;
                acc = acc + sz as u128;
            },
            None => {
                proof {
                    if list_fits(views) {
                        lemma_list_fits_index(views, i as int);
                    }
                }
                return (false, 0);
            },
        }
        i = i + 1;
    }
    proof {
        assert(views.subrange(0, i as int) =~= views);
        assert(acc <= 0x1_0000_0000_0000_0000 * 0x100_0005) by (nonlinear_arith)
            requires acc <= i as nat * 0x100_0005, i < 0x1_0000_0000_0000_0000;
    }
    (true, acc)
}

/// Writes one value of a data set with the tag of its kind (see `data_tag`).
pub fn encode_iec_data_element(data: &IECData, buffer: &mut [u8], buffer_index: usize) -> (r: Result<usize, EncodeError>)
    ensures
        value_written(r, old(buffer)@, final(buffer)@, buffer_index, data@),
    decreases data,
{
    proof {
        crate::grammar::lemma_size_is_encoded_length(data@);
    }
    let size = match checked_size(data) {
        Some(s) => s,
        None => {
            return Err(EncodeError::new("a length inside the value is 2^24 or more", buffer_index));
        },
    };
    if buffer_index > buffer.len() || size > buffer.len() - buffer_index {
        return Err(EncodeError::BufferTooSmall {
            required: buffer_index.saturating_add(size),
            available: buffer.len(),
        });
    }
    match data {
        IECData::Array(v) => encode_structure(0xA1, v, buffer, buffer_index),
        IECData::Structure(v) => encode_structure(0xA2, v, buffer, buffer_index),
        IECData::Boolean(b) => encode_boolean(0x83, *b, buffer, buffer_index),
        IECData::BitString { padding, val } => encode_coded_enum(0x84, val.as_slice(), *padding, buffer, buffer_index),
        IECData::Int(x) => {
            let bytes = i64_be_bytes(*x);
            proof {
                lemma_be_bytes_len(twos(*x as int, 8), 8);
            }
            encode_integer(0x85, bytes.as_slice(), buffer, buffer_index)
        },
        IECData::UInt(u) => {
            let bytes = be_bytes_of(*u, 8);
            proof {
                lemma_be_bytes_len(*u as nat, 8);
            }
            encode_unsigned_integer(0x86, bytes.as_slice(), buffer, buffer_index)
        },
        IECData::Float32(b) => {
            let bytes = be_bytes_of(*b as u64, 4);
            proof {
                lemma_be_bytes_len(*b as nat, 4);
            }
            encode_float(0x87, bytes.as_slice(), buffer, buffer_index)
        },
        IECData::Float64(b) => {
            let bytes = be_bytes_of(*b, 8);
            proof {
                lemma_be_bytes_len(*b as nat, 8);
            }
            encode_float(0x87, bytes.as_slice(), buffer, buffer_index)
        },
        IECData::OctetString(v) => encode_octet_string(0x89, v.as_slice(), buffer, buffer_index),
        IECData::VisibleString(t) => encode_string(0x8A, t.as_str(), buffer, buffer_index),
        IECData::MmsString(t) => encode_string(0x90, t.as_str(), buffer, buffer_index),
        IECData::Timestamp(t) => {
            let bytes = t.to_bytes();
            encode_octet_string(0x91, &bytes, buffer, buffer_index)
        },
    }
}

/// Writes a constructed value (array or structure): `tag`, the length of the
/// elements together, then each element.
pub fn encode_structure(tag: u8, value: &Vec<IECData>, buffer: &mut [u8], pos: usize) -> (r: Result<usize, EncodeError>)
    ensures
        r is Ok <==> list_fits(list_view(value@)) && length_fits(list_size(list_view(value@)))
            && pos + tlv(tag, enc_list(list_view(value@))).len() <= old(buffer)@.len(),
        match r {
            Ok(p) => {
                &&& p == pos + tlv(tag, enc_list(list_view(value@))).len()
                &&& final(buffer)@ == splice(old(buffer)@, pos as int, tlv(tag, enc_list(list_view(value@))))
            },
            Err(e) => {
                &&& final(buffer)@ == old(buffer)@
                &&& if !(list_fits(list_view(value@)) && length_fits(list_size(list_view(value@)))) {
                    e is General
                } else {
                    e is BufferTooSmall && pos + tlv(tag, enc_list(list_view(value@))).len() > old(buffer)@.len()
                }
            },
        },
    decreases value,
{
    let ghost views = list_view(value@);
    let ghost start = buffer@;
    proof {
        lemma_list_view(value@);
        crate::grammar::lemma_list_size_is_encoded_length(views);
        lemma_enc_length(list_size(views));
    }
    let (fits, total) = checked_list_size(value);
    if !fits || total >= 0x100_0000 {
        return Err(EncodeError::new("a length inside the value is 2^24 or more", pos));
    }
    let content = total as usize;
    let need = 1 + size_length(content) + content;
    if pos > buffer.len() || need > buffer.len() - pos {
        return Err(EncodeError::BufferTooSmall { required: pos.saturating_add(need), available: buffer.len() });
    }
    let mut new_pos = match encode_tag_length(tag, content, buffer, pos) {
        Ok(p) => p,
        Err(e) => {
            return Err(e);
        },
    };
    let ghost head = seq![tag] + enc_length(content as nat);
    let ghost header_end = new_pos;
    let mut i: usize = 0;
    proof {
        assert(views.subrange(0, 0) =~= Seq::<crate::types::DataModel>::empty());
        assert(head + enc_list(views.subrange(0, 0)) =~= head);
    }
    while i < value.len()
        invariant
            i <= value@.len(),
            views == list_view(value@),
            views.len() == value@.len(),
            forall|j: int| 0 <= j < value@.len() ==> #[trigger] views[j] == data_view(value@[j]),
            content == list_size(views),
            list_fits(views),
            length_fits(content as nat),
            enc_list(views).len() == list_size(views),
            head.len() == 1 + length_size(content as nat),
            header_end == pos + head.len(),
            pos + head.len() + content <= start.len(),
            start == old(buffer)@,
            buffer@.len() == start.len(),
            new_pos == header_end + enc_list(views.subrange(0, i as int)).len(),
            buffer@ == splice(start, pos as int, head + enc_list(views.subrange(0, i as int))),
        decreases value@.len() - i,
    {
        proof {
            lemma_enc_list_split(views, i as int + 1);
            lemma_prefix_step(views, i as int);
            crate::grammar::lemma_list_size_is_encoded_length(views.subrange(0, i as int + 1));
            lemma_list_fits_index(views, i as int);
            assert(views[i as int] == data_view(value@[i as int]));
        }
        match encode_iec_data_element(&value[i], buffer, new_pos) {
            Ok(p) => {
                proof {
                    lemma_splice_twice(start, pos as int, head + enc_list(views.subrange(0, i as int)), enc_data(views[i as int]));
                    assert(head + enc_list(views.subrange(0, i as int)) + enc_data(views[i as int])
                        =~= head + enc_list(views.subrange(0, i as int + 1)));
                }
                new_pos = p;
            },
            Err(e) => {
                return Err(e);
            },
        }
        i = i + 1;
    }
    proof {
        assert(views.subrange(0, i as int) =~= views);
    }
    Ok(new_pos)
}

/// Writes all values one after the other.
pub fn encode_iec_data(all_data: &Vec<IECData>, buffer: &mut [u8], buffer_index: usize) -> (r: Result<usize, EncodeError>)
    ensures
        list_written(r, old(buffer)@, final(buffer)@, buffer_index, list_view(all_data@)),
{
    let ghost views = list_view(all_data@);
    let ghost start = buffer@;
    proof {
        lemma_list_view(all_data@);
        crate::grammar::lemma_list_size_is_encoded_length(views);
    }
    let (fits, total) = checked_list_size(all_data);
    if !fits {
        return Err(EncodeError::new("a length inside the values is 2^24 or more", buffer_index));
    }
    if buffer_index as u128 + total > buffer.len() as u128 {
        let required: usize = if buffer_index as u128 + total > usize::MAX as u128 {
            usize::MAX
        } else {
            (buffer_index as u128 + total) as usize
        };
        return Err(EncodeError::BufferTooSmall { required, available: buffer.len() });
    }
    let mut new_pos = buffer_index;
    let mut i: usize = 0;
    proof {
        assert(views.subrange(0, 0) =~= Seq::<crate::types::DataModel>::empty());
        assert(splice(start, buffer_index as int, Seq::empty()) =~= start);
    }
    while i < all_data.len()
        invariant
            i <= all_data@.len(),
            views == list_view(all_data@),
            views.len() == all_data@.len(),
            forall|j: int| 0 <= j < all_data@.len() ==> #[trigger] views[j] == data_view(all_data@[j]),
            enc_list(views).len() == list_size(views),
            list_fits(views),
            buffer_index + list_size(views) <= start.len(),
            start == old(buffer)@,
            buffer@.len() == start.len(),
            new_pos == buffer_index + enc_list(views.subrange(0, i as int)).len(),
            buffer@ == splice(start, buffer_index as int, enc_list(views.subrange(0, i as int))),
        decreases all_data@.len() - i,
    {
        proof {
            lemma_enc_list_split(views, i as int + 1);
            lemma_prefix_step(views, i as int);
            crate::grammar::lemma_list_size_is_encoded_length(views.subrange(0, i as int + 1));
            lemma_list_fits_index(views, i as int);
            assert(views[i as int] == data_view(all_data@[i as int]));
        }
        match encode_iec_data_element(&all_data[i], buffer, new_pos) {
            Ok(p) => {
                proof {
                    lemma_splice_twice(start, buffer_index as int, enc_list(views.subrange(0, i as int)), enc_data(views[i as int]));
                }
                new_pos = p;
            },
            Err(e) => {
                return Err(e);
            },
        }
        i = i + 1;
    }
    proof {
        assert(views.subrange(0, i as int) =~= views);
    }
    Ok(new_pos)
}

/// Appends `bytes` to `out`.
pub fn append_bytes(out: &mut Vec<u8>, bytes: &[u8])
    ensures
        final(out)@ == old(out)@ + bytes@,
{
    let ghost start = out@;
    let mut i: usize = 0;
    while i < bytes.len()
        invariant
            i <= bytes@.len(),
            out@ == start + bytes@.subrange(0, i as int),
        decreases bytes@.len() - i,
    {
        out.push(bytes[i]);
        i = i + 1;
        assert(out@ =~= start + bytes@.subrange(0, i as int));
    }
    assert(bytes@.subrange(0, i as int) =~= bytes@);
}

/// Appends the element `tag`, length, `content`; fails when the length cannot be written.
pub fn push_tlv(out: &mut Vec<u8>, tag: u8, content: &[u8]) -> (r: Result<(), EncodeError>)
    ensures
        r is Ok <==> length_fits(content@.len()),
        r is Ok ==> final(out)@ == old(out)@ + tlv(tag, content@),
        r is Err ==> final(out)@ == old(out)@ && r->Err_0 is General,
{
    let n = content.len();
    if n >= 0x100_0000 {
        return Err(EncodeError::new("length of 2^24 or more cannot be encoded", out.len()));
    }
    let mut head: [u8; 5] = [tag, 0, 0, 0, 0];
    let used: usize = if n < 128 {
        head[1] = n as u8;
        2
    } else if n < 256 {
        head[1] = 0x81;
        head[2] = n as u8;
        3
    } else if n < 65536 {
        head[1] = 0x82;
        head[2] = (n / 256) as u8;
        head[3] = (n % 256) as u8;
        4
    } else {
        head[1] = 0x83;
        head[2] = (n / 65536) as u8;
        head[3] = ((n / 256) % 256) as u8;
        head[4] = (n % 256) as u8;
        5
    };
    let ghost start = out@;
    append_bytes(out, slice_subrange(head.as_slice(), 0, used));
    proof {
        assert(head@.subrange(0, used as int) =~= seq![tag] + enc_length(n as nat));
    }
    append_bytes(out, content);
    proof {
        assert(start + (seq![tag] + enc_length(n as nat)) + content@ =~= start + tlv(tag, content@));
    }
    Ok(())
}

/// Appends an unsigned INTEGER element holding `v`.
pub fn push_uint(out: &mut Vec<u8>, tag: u8, v: u64)
    ensures
        final(out)@ == old(out)@ + tlv(tag, uint_content(v as nat)),
{
    let bytes = be_bytes_of(v, 8);
    proof {
        lemma_be_bytes_len(v as nat, 8);
        crate::grammar::lemma_unsigned_content(bytes@);
    }
    let content = unsigned_bytes(bytes.as_slice());
    let r = push_tlv(out, tag, content.as_slice());
    assert(r is Ok);
}

/// Appends a BOOLEAN element.
pub fn push_bool(out: &mut Vec<u8>, tag: u8, b: bool)
    ensures
        final(out)@ == old(out)@ + tlv(tag, seq![if b { 0xFFu8 } else { 0x00u8 }]),
{
    let content: [u8; 1] = [if b { 0xFF } else { 0x00 }];
    proof {
        assert(content@ =~= seq![if b { 0xFFu8 } else { 0x00u8 }]);
    }
    let r = push_tlv(out, tag, content.as_slice());
    assert(r is Ok);
}

/// The encodings of `all_data`, one after the other, as a new vector.
pub fn encode_values(all_data: &Vec<IECData>) -> (r: Result<Vec<u8>, EncodeError>)
    ensures
        r is Ok <==> list_fits(list_view(all_data@)) && list_size(list_view(all_data@)) < usize::MAX,
        r is Ok ==> r->Ok_0@ == enc_list(list_view(all_data@)),
        r is Err ==> r->Err_0 is General,
{
    proof {
        crate::grammar::lemma_list_size_is_encoded_length(list_view(all_data@));
    }
    let size = size_iec_data(all_data);
    if size == usize::MAX {
        return Err(EncodeError::new("data set too long to encode", 0));
    }
    let mut buffer: Vec<u8> = Vec::new();
    let mut i: usize = 0;
    while i < size
        invariant
            i <= size,
            buffer@.len() == i,
        decreases size - i,
    {
        buffer.push(0);
        i = i + 1;
    }
    let ghost before = buffer@;
    match encode_iec_data(all_data, buffer.as_mut_slice(), 0) {
        Ok(_) => {
            proof {
                assert(buffer@ =~= enc_list(list_view(all_data@)));
            }
            Ok(buffer)
        },
        Err(_) => Err(EncodeError::new("a value of the data set cannot be encoded", 0)),
    }
}

impl IECData {
    /// For a bit string, its padding and its bytes as a standard BIT STRING
    /// carries them (the wire order); the value itself holds the coded-enum
    /// order. None for other values.
    pub fn bit_string_wire(&self) -> (r: Option<(u8, Vec<u8>)>)
        ensures
            match self@ {
                crate::types::DataModel::BitString { padding, val } => r is Some && r->Some_0.0 == padding
                    && r->Some_0.1@ == wire_bits(val),
                _ => r is None,
            },
    {
        match self {
            IECData::BitString { padding, val } => Some((*padding, coded_enum_bytes(val.as_slice()))),
            _ => None,
        }
    }
}

} // verus!
