//! BER readers: tags and lengths, numbers, and the values of a data set.
use vstd::prelude::*;
use vstd::slice::{slice_subrange, slice_to_vec};
use vstd::utf8::{decode_utf8, valid_utf8};
use crate::encode_basics::coded_enum_bytes;
use crate::grammar::{
    be_int, be_uint, lemma_be_uint_bound, lemma_be_uint_first, lemma_pow256_facts, parse_data, parse_leaf,
    parse_list, parse_tag_length, pow256, utf8_lossy,
};
use crate::grammar::{lemma_pow_le, read_element, read_slots, sign_extend};
use crate::types::{
    header_len, header_matches, list_view, DataModel, DecodeError, EthernetHeader, IECData, Timestamp,
};

verus! {

/// Deepest nesting of arrays and structures that the decoder follows.
pub const MAX_DEPTH: usize = 16;

/// An error, if that is what came back, reports an offset between `lo` and `hi`.
pub open spec fn error_within<T>(r: Result<T, DecodeError>, lo: int, hi: int) -> bool {
    r matches Err(e) ==> lo <= e.buffer_index <= hi
}

/// The bytes of `s` from `i` to `j`.
pub open spec fn window(s: Seq<u8>, i: int, j: int) -> Seq<u8> {
    s.subrange(i, j)
}

/// Relies on `String::from_utf8_lossy`: valid UTF-8 is decoded as it stands;
/// in other input each invalid sequence becomes U+FFFD.
#[verifier::external_body]
pub(crate) fn text_from_utf8(b: &[u8]) -> (r: String)
    ensures
        r@ == (if valid_utf8(b@) { decode_utf8(b@) } else { utf8_lossy(b@) }),
{
    String::from_utf8_lossy(b).into_owned()
}

/// Unsigned big-endian number of the `n` bytes from `start` on.
pub fn uint_from_be(buffer: &[u8], start: usize, n: usize) -> (r: u64)
    requires
        n <= 8,
        start + n <= buffer@.len(),
    ensures
        r as nat == be_uint(buffer@.subrange(start as int, start + n)),
{
    let blen = buffer.len();
    let mut acc: u64 = 0;
    let mut j: usize = 0;
    proof {
        assert(buffer@.subrange(start as int, start as int).len() == 0);
    }
    while j < n
        invariant
            j <= n <= 8,
            start + n <= buffer@.len(),
            blen == buffer@.len(),
            acc as nat == be_uint(buffer@.subrange(start as int, start + j)),
        decreases n - j,
    {
        let ghost prev = buffer@.subrange(start as int, start + j);
        let ghost next = buffer@.subrange(start as int, start + j + 1);
        proof {
            assert(next.drop_last() =~= prev);
            lemma_be_uint_bound(prev);
            reveal_with_fuel(pow256, 9);
            assert(pow256(j as nat) <= pow256(7)) by {
                lemma_pow_le(j as nat, 7);
            }
        }
        acc = acc * 256 + buffer[start + j] as u64;
        j = j + 1;
    }
    acc
}

/// Signed (two's-complement) big-endian number of the `n` bytes from `start` on.
pub fn int_from_be(buffer: &[u8], start: usize, n: usize) -> (r: i64)
    requires
        1 <= n <= 8,
        start + n <= buffer@.len(),
    ensures
        r as int == be_int(buffer@.subrange(start as int, start + n)),
{
    let ghost c = buffer@.subrange(start as int, start + n);
    let u = uint_from_be(buffer, start, n);
    proof {
        lemma_be_uint_first(c);
        lemma_be_uint_bound(c.drop_first());
        lemma_pow256_facts((n - 1) as nat);
        lemma_pow_le((n - 1) as nat, 7);
        reveal_with_fuel(pow256, 9);
        let p = pow256((n - 1) as nat);
        let a = c[0] as nat;
        if a >= 128 {
            assert(a * p >= 128 * p) by (nonlinear_arith)
                requires a >= 128;
        } else {
            assert(a * p + be_uint(c.drop_first()) < 128 * p) by (nonlinear_arith)
                requires a <= 127, be_uint(c.drop_first()) < p;
        }
        assert(be_uint(c) < 256 * p) by (nonlinear_arith)
            requires be_uint(c) == a * p + be_uint(c.drop_first()), a <= 255, be_uint(c.drop_first()) < p;
        assert(pow256(n as nat) == 256 * p);
    }
    if buffer[start] >= 128 {
        let mut p: u128 = 1;
        let mut j: usize = 0;
        while j < n
            invariant
                j <= n <= 8,
                p as nat == pow256(j as nat),
            decreases n - j,
        {
            proof {
                lemma_pow_le(j as nat, 7);
                reveal_with_fuel(pow256, 9);
            }
            p = p * 256;
            j = j + 1;
        }
        (u as i128 - p as i128) as i64
    } else {
        u as i64
    }
}

/// Reads a tag and a definite length from the bytes between `buffer_index` and `end`.
pub fn read_tag_length(buffer: &[u8], buffer_index: usize, end: usize) -> (r: Option<(u8, usize, usize)>)
    requires
        buffer_index <= end <= buffer@.len(),
    ensures
        match parse_tag_length(window(buffer@, buffer_index as int, end as int)) {
            Some((t, n, k)) => n < 0x100_0000 && 2 <= k <= 5 && r == Some((t, n as usize, (buffer_index + k) as usize)),
            None => r is None,
        },
{
    let ghost s = window(buffer@, buffer_index as int, end as int);
    if buffer_index >= end || end - buffer_index < 2 {
        return None;
    }
    let tag = buffer[buffer_index];
    let first = buffer[buffer_index + 1];
    let ghost t = s.drop_first();
    if first < 0x80 {
        return Some((tag, first as usize, buffer_index + 2));
    }
    let k = (first - 0x80) as usize;
    if k == 0 || k > 3 || end - buffer_index - 2 < k {
        return None;
    }
    let v = uint_from_be(buffer, buffer_index + 2, k);
    proof {
        assert(t.subrange(1, 1 + k as int) =~= buffer@.subrange(buffer_index + 2, buffer_index + 2 + k));
        lemma_be_uint_bound(t.subrange(1, 1 + k as int));
        lemma_pow_le(k as nat, 3);
        reveal_with_fuel(pow256, 4);
    }
    Some((tag, v as usize, buffer_index + 2 + k))
}

/// Reads a tag and a definite length at `buffer_index`; returns the position after them.
pub fn decode_tag_length(tag: &mut u8, length: &mut usize, buffer: &[u8], buffer_index: usize) -> (r: Result<usize, DecodeError>)
    ensures
        r matches Err(e) ==> e.buffer_index == buffer_index,
        buffer_index > buffer@.len() ==> r is Err,
        buffer_index <= buffer@.len() ==> match parse_tag_length(window(buffer@, buffer_index as int, buffer@.len() as int)) {
            Some((t, n, k)) => r == Ok::<usize, DecodeError>((buffer_index + k) as usize) && *final(tag) == t && *final(length) == n,
            None => r is Err,
        },
{
    if buffer_index >= buffer.len() {
        return Err(DecodeError::new("Out of bounds for buffer length", buffer_index));
    }
    match read_tag_length(buffer, buffer_index, buffer.len()) {
        Some((t, n, p)) => {
            *tag = t;
            *length = n;
            Ok(p)
        },
        None => Err(DecodeError::new("invalid or truncated tag and length", buffer_index)),
    }
}

/// The value held by a non-constructed element: `tag`, and `n` content bytes from `start` on.
fn decode_leaf(buffer: &[u8], tag: u8, start: usize, n: usize) -> (r: Result<IECData, DecodeError>)
    requires
        start + n <= buffer@.len(),
    ensures
        error_within(r, start as int, start + n),
        match parse_leaf(tag, window(buffer@, start as int, start + n)) {
            Some(m) => r is Ok && r->Ok_0@ == m,
            None => r is Err,
        },
{
    let ghost c = window(buffer@, start as int, start + n);
    let len = buffer.len();
    assert(start + n <= len);
    if tag == 0x83 {
        if n != 1 {
            return Err(DecodeError::new("a BOOLEAN has one content byte", start));
        }
        Ok(IECData::Boolean(buffer[start] != 0))
    } else if tag == 0x84 {
        if n < 1 {
            return Err(DecodeError::new("a BIT STRING starts with its count of unused bits", start));
        }
        let val = coded_enum_bytes(slice_subrange(buffer, start + 1, start + n));
        proof {
            assert(buffer@.subrange(start + 1, start + n) =~= c.subrange(1, n as int));
        }
        Ok(IECData::BitString { padding: buffer[start], val })
    } else if tag == 0x85 {
        if n < 1 || n > 8 {
            return Err(DecodeError::new("oversize signed integer", start));
        }
        Ok(IECData::Int(int_from_be(buffer, start, n)))
    } else if tag == 0x86 {
        if !((1 <= n && n <= 4) || (n == 5 && buffer[start] == 0)) {
            return Err(DecodeError::new("Unsigned integer exceeds supported size", start));
        }
        Ok(IECData::UInt(uint_from_be(buffer, start, n)))
    } else if tag == 0x87 {
        if n == 5 {
            let v = uint_from_be(buffer, start + 1, 4);
            proof {
                assert(buffer@.subrange(start + 1, start + 5) =~= c.subrange(1, 5));
                lemma_be_uint_bound(c.subrange(1, 5));
                reveal_with_fuel(pow256, 5);
            }
            Ok(IECData::Float32(v as u32))
        } else if n == 9 {
            let v = uint_from_be(buffer, start + 1, 8);
            proof {
                assert(buffer@.subrange(start + 1, start + 9) =~= c.subrange(1, 9));
            }
            Ok(IECData::Float64(v))
        } else {
            Err(DecodeError::new("Unexpected float size", start))
        }
    } else if tag == 0x89 {
        Ok(IECData::OctetString(slice_to_vec(slice_subrange(buffer, start, start + n))))
    } else if tag == 0x8A {
        Ok(IECData::VisibleString(text_from_utf8(slice_subrange(buffer, start, start + n))))
    } else if tag == 0x90 {
        Ok(IECData::MmsString(text_from_utf8(slice_subrange(buffer, start, start + n))))
    } else if tag == 0x91 {
        if n != 8 {
            return Err(DecodeError::new("a UtcTime has eight content bytes", start));
        }
        let bytes: [u8; 8] = [
            buffer[start],
            buffer[start + 1],
            buffer[start + 2],
            buffer[start + 3],
            buffer[start + 4],
            buffer[start + 5],
            buffer[start + 6],
            buffer[start + 7],
        ];
        proof {
            assert(bytes@ =~= c);
        }
        Ok(IECData::Timestamp(Timestamp::from_bytes(bytes)))
    } else {
        Err(DecodeError::new("Unknown data type", start))
    }
}

/// `done` in front of the values that `rest` holds, if it holds any.
pub open spec fn prepend(done: Seq<DataModel>, rest: Option<Seq<DataModel>>) -> Option<Seq<DataModel>> {
    match rest {
        Some(r) => Some(done + r),
        None => None,
    }
}

/// Reads one value from the bytes between `buffer_index` and `end`.
fn decode_element(buffer: &[u8], buffer_index: usize, end: usize, depth: usize) -> (r: Result<(IECData, usize), DecodeError>)
    requires
        buffer_index <= end <= buffer@.len(),
    ensures
        error_within(r, buffer_index as int, end as int),
        match parse_data(window(buffer@, buffer_index as int, end as int), depth as nat) {
            Some((m, k)) => r is Ok && r->Ok_0.0@ == m && r->Ok_0.1 == buffer_index + k,
            None => r is Err,
        },
    decreases depth, end - buffer_index, 0usize,
{
    let ghost s = window(buffer@, buffer_index as int, end as int);
    let (tag, n, p) = match read_tag_length(buffer, buffer_index, end) {
        Some(t) => t,
        None => {
            return Err(DecodeError::new("invalid or truncated tag and length", buffer_index));
        },
    };
    if n > end - p {
        return Err(DecodeError::new("element runs past the enclosing length", buffer_index));
    }
    proof {
        assert(s.subrange((p - buffer_index) as int, (p - buffer_index + n) as int) =~= window(buffer@, p as int, p + n));
    }
    if tag == 0xA1 || tag == 0xA2 {
        if depth == 0 {
            return Err(DecodeError::new("arrays and structures nest too deep", buffer_index));
        }
        let items = match decode_list(buffer, p, p + n, depth - 1) {
            Ok(v) => v,
            Err(e) => {
                return Err(e);
            },
        };
        if tag == 0xA1 {
            Ok((IECData::Array(items), p + n))
        } else {
            Ok((IECData::Structure(items), p + n))
        }
    } else {
        match decode_leaf(buffer, tag, p, n) {
            Ok(d) => Ok((d, p + n)),
            Err(e) => Err(e),
        }
    }
}

/// Reads values from `buffer_index` until `end`, which they must reach exactly.
pub(crate) fn decode_list(buffer: &[u8], buffer_index: usize, end: usize, depth: usize) -> (r: Result<Vec<IECData>, DecodeError>)
    requires
        buffer_index <= end <= buffer@.len(),
    ensures
        error_within(r, buffer_index as int, end as int),
        match parse_list(window(buffer@, buffer_index as int, end as int), depth as nat) {
            Some(items) => r is Ok && list_view(r->Ok_0@) == items,
            None => r is Err,
        },
    decreases depth, end - buffer_index, 1usize,
{
    let mut out: Vec<IECData> = Vec::new();
    let mut pos = buffer_index;
    proof {
        assert(list_view(out@) =~= Seq::<DataModel>::empty());
        match parse_list(window(buffer@, buffer_index as int, end as int), depth as nat) {
            Some(r) => {
                assert(Seq::<DataModel>::empty() + r =~= r);
            },
            None => {},
        }
    }
    while pos < end
        invariant
            buffer_index <= pos <= end <= buffer@.len(),
            parse_list(window(buffer@, buffer_index as int, end as int), depth as nat)
                == prepend(list_view(out@), parse_list(window(buffer@, pos as int, end as int), depth as nat)),
        decreases end - pos,
    {
        let ghost w = window(buffer@, pos as int, end as int);
        let (d, next) = match decode_element(buffer, pos, end, depth) {
            Ok(x) => x,
            Err(e) => {
                return Err(e);
            },
        };
        proof {
            assert(w.subrange((next - pos) as int, w.len() as int) =~= window(buffer@, next as int, end as int));
            let old_view = list_view(out@);
            match parse_list(window(buffer@, next as int, end as int), depth as nat) {
                Some(rest) => {
                    assert(old_view + (seq![d@] + rest) =~= old_view.push(d@) + rest);
                },
                None => {},
            }
        }
        let ghost prev = out@;
        out.push(d);
        proof {
            assert(out@.drop_last() =~= prev);
        }
        pos = next;
    }
    proof {
        assert(window(buffer@, pos as int, end as int).len() == 0);
        assert(list_view(out@) + Seq::<DataModel>::empty() =~= list_view(out@));
    }
    Ok(out)
}

/// Reads one value at `buffer_index`; returns it and the position after it.
pub fn decode_iec_data_element(buffer: &[u8], buffer_index: usize) -> (r: Result<(IECData, usize), DecodeError>)
    ensures
        error_within(r, buffer_index as int, if buffer_index <= buffer@.len() { buffer@.len() as int } else { buffer_index as int }),
        buffer_index > buffer@.len() ==> r is Err,
        buffer_index <= buffer@.len() ==> match parse_data(window(buffer@, buffer_index as int, buffer@.len() as int), MAX_DEPTH as nat) {
            Some((m, k)) => r is Ok && r->Ok_0.0@ == m && r->Ok_0.1 == buffer_index + k,
            None => r is Err,
        },
{
    if buffer_index > buffer.len() {
        return Err(DecodeError::new("Out of bounds for buffer length", buffer_index));
    }
    decode_element(buffer, buffer_index, buffer.len(), MAX_DEPTH)
}

/// Reads the values between `buffer_index` and `end`, which they must fill exactly.
pub fn decode_iec_data(buffer: &[u8], buffer_index: usize, end: usize) -> (r: Result<Vec<IECData>, DecodeError>)
    ensures
        error_within(r, buffer_index as int, if buffer_index <= end <= buffer@.len() { end as int } else { buffer_index as int }),
        !(buffer_index <= end <= buffer@.len()) ==> r is Err,
        buffer_index <= end <= buffer@.len() ==> match parse_list(window(buffer@, buffer_index as int, end as int), MAX_DEPTH as nat) {
            Some(items) => r is Ok && list_view(r->Ok_0@) == items,
            None => r is Err,
        },
{
    if buffer_index > end || end > buffer.len() {
        return Err(DecodeError::new("Out of bounds for buffer length", buffer_index));
    }
    decode_list(buffer, buffer_index, end, MAX_DEPTH)
}

/// Widens the `length`-byte integer at `buffer_index` to the width of `value`
/// by repeating its sign byte in front.
pub fn decompress_integer(value: &mut [u8], buffer: &[u8], buffer_index: usize, length: usize) -> (r: Result<(), DecodeError>)
    ensures
        r matches Err(e) ==> e.buffer_index == buffer_index,
        r is Ok <==> (1 <= length <= old(value)@.len() && buffer_index + length <= buffer@.len()),
        r is Ok ==> final(value)@ == sign_extend(window(buffer@, buffer_index as int, buffer_index + length), old(value)@.len() as nat),
        r is Err ==> final(value)@ == old(value)@,
{
    if buffer_index > buffer.len() || length > buffer.len() - buffer_index {
        return Err(DecodeError::new("Attempt to read past the end of the buffer", buffer_index));
    }
    if length == 0 || length > value.len() {
        return Err(DecodeError::new("Mismatch value length", buffer_index));
    }
    let ghost c = window(buffer@, buffer_index as int, buffer_index + length);
    let w = value.len();
    let blen = buffer.len();
    let fill: u8 = if buffer[buffer_index] >= 0x80 { 0xFF } else { 0x00 };
    let fill_length = w - length;
    let mut i: usize = 0;
    while i < w
        invariant
            w == value@.len(),
            fill_length + length == w,
            buffer_index + length <= buffer@.len(),
            c == window(buffer@, buffer_index as int, buffer_index + length),
            c.len() == length,
            1 <= length,
            blen == buffer@.len(),
            fill == (if c[0] >= 0x80 { 0xFFu8 } else { 0x00u8 }),
            i <= w,
            forall|j: int| 0 <= j < i ==> #[trigger] value@[j] == sign_extend(c, w as nat)[j],
        decreases w - i,
    {
        if i < fill_length {
            value[i] = fill;
        } else {
            value[i] = buffer[buffer_index + (i - fill_length)];
        }
        proof {
            let e = sign_extend(c, w as nat);
            let f = Seq::new((w - c.len()) as nat, |j: int| fill);
            assert(c.len() > 0 && c[0] == buffer@[buffer_index as int]);
            assert(e.len() == w);
            assert forall|j: int| 0 <= j < w implies e[j] == (f + c)[j] by {
                if j < f.len() {
                    assert(e[j] == fill);
                }
            }
            assert(e =~= f + c);
            if i >= fill_length {
                assert(e[i as int] == c[i - fill_length]);
            } else {
                assert(e[i as int] == f[i as int]);
            }
        }
        i = i + 1;
    }
    assert(value@ =~= sign_extend(c, w as nat));
    Ok(())
}

/// Reads the link header at the start of the frame; returns where the PDU starts.
pub fn decode_ethernet_header(header: &mut EthernetHeader, buffer: &[u8]) -> (r: Result<usize, DecodeError>)
    ensures
        r matches Err(e) ==> e.buffer_index == buffer@.len(),
        r is Ok <==> buffer@.len() >= header_len(buffer@),
        r is Ok ==> r->Ok_0 == header_len(buffer@) && header_matches(*final(header), buffer@),
        r is Err ==> *final(header) == *old(header),
{
    let tagged = buffer.len() >= 14 && buffer[12] == 0x81 && buffer[13] == 0x00;
    let o: usize = if tagged { 16 } else { 12 };
    if buffer.len() < o + 10 {
        return Err(DecodeError::new("frame too short for its link header", buffer.len()));
    }
    header.dst_addr = [buffer[0], buffer[1], buffer[2], buffer[3], buffer[4], buffer[5]];
    header.src_addr = [buffer[6], buffer[7], buffer[8], buffer[9], buffer[10], buffer[11]];
    if tagged {
        header.tpid = Some([buffer[12], buffer[13]]);
        header.tci = Some([buffer[14], buffer[15]]);
    } else {
        header.tpid = None;
        header.tci = None;
    }
    header.ether_type = [buffer[o], buffer[o + 1]];
    header.appid = [buffer[o + 2], buffer[o + 3]];
    header.length = [buffer[o + 4], buffer[o + 5]];
    proof {
        let s = buffer@;
        assert(header.dst_addr@ =~= s.subrange(0, 6));
        assert(header.src_addr@ =~= s.subrange(6, 12));
        if tagged {
            assert(header.tpid->Some_0@ =~= s.subrange(12, 14));
            assert(header.tci->Some_0@ =~= s.subrange(14, 16));
        }
        assert(header.ether_type@ =~= s.subrange(o as int, o + 2));
        assert(header.appid@ =~= s.subrange(o + 2, o + 4));
        assert(header.length@ =~= s.subrange(o + 4, o + 6));
    }
    Ok(o + 10)
}

/// The frame's EtherType is the pair `a`, `b`, after a tag if there is one.
pub open spec fn ether_type_is(s: Seq<u8>, a: u8, b: u8) -> bool {
    let o = crate::types::ether_type_offset(s);
    s.len() >= 14 && s.len() >= o + 2 && s[o] == a && s[o + 1] == b
}

/// The EtherType bytes, when the frame is long enough to hold them.
pub fn ether_type_of(buffer: &[u8]) -> (r: Option<(u8, u8)>)
    ensures
        match r {
            Some((a, b)) => ether_type_is(buffer@, a, b),
            None => forall|a: u8, b: u8| !ether_type_is(buffer@, a, b),
        },
{
    if buffer.len() < 14 {
        return None;
    }
    let o: usize = if buffer[12] == 0x81 && buffer[13] == 0x00 { 16 } else { 12 };
    if buffer.len() < o + 2 {
        return None;
    }
    Some((buffer[o], buffer[o + 1]))
}

/// A slot as positions in the frame.
pub open spec fn slot_view(o: Option<(usize, usize)>) -> Option<(nat, nat)> {
    match o {
        Some((a, b)) => Some((a as nat, b as nat)),
        None => None,
    }
}

pub open spec fn slots_view(v: Seq<Option<(usize, usize)>>) -> Seq<Option<(nat, nat)>> {
    v.map_values(|o: Option<(usize, usize)>| slot_view(o))
}

pub open spec fn prepend_slots(
    done: Seq<Option<(nat, nat)>>,
    rest: Option<(Seq<Option<(nat, nat)>>, nat)>,
) -> Option<(Seq<Option<(nat, nat)>>, nat)> {
    match rest {
        Some((r, e)) => Some((done + r, e)),
        None => None,
    }
}

/// The element at `pos`, read no further than `end`.
pub fn next_element(buffer: &[u8], pos: usize, end: usize) -> (r: Option<(u8, usize, usize)>)
    requires
        pos <= end <= buffer@.len(),
    ensures
        match read_element(buffer@.subrange(0, end as int), pos as nat) {
            Some((t, cs, nx)) => r == Some((t, cs as usize, nx as usize)),
            None => r is None,
        },
{
    proof {
        assert(buffer@.subrange(0, end as int).subrange(pos as int, end as int) =~= window(buffer@, pos as int, end as int));
    }
    match read_tag_length(buffer, pos, end) {
        Some((t, n, p)) => {
            if n > end - p {
                None
            } else {
                Some((t, p, p + n))
            }
        },
        None => None,
    }
}

/// Reads one element per slot from `pos` on, no further than `end` (see `read_slots`).
pub fn read_fields(buffer: &[u8], pos: usize, end: usize, tags: &[u8], optional: &[bool]) -> (r: Option<(Vec<Option<(usize, usize)>>, usize)>)
    requires
        pos <= end <= buffer@.len(),
        tags@.len() == optional@.len(),
    ensures
        match read_slots(buffer@.subrange(0, end as int), pos as nat, tags@, optional@) {
            Some((slots, e)) => r is Some && slots_view(r->Some_0.0@) == slots && r->Some_0.1 == e
                && r->Some_0.0@.len() == tags@.len(),
            None => r is None,
        },
{
    let ghost b = buffer@.subrange(0, end as int);
    let mut out: Vec<Option<(usize, usize)>> = Vec::new();
    let mut p = pos;
    let mut i: usize = 0;
    let n = tags.len();
    proof {
        assert(tags@.subrange(0, n as int) =~= tags@);
        assert(optional@.subrange(0, n as int) =~= optional@);
        match read_slots(b, pos as nat, tags@, optional@) {
            Some((r, e)) => {
                assert(slots_view(out@) + r =~= r);
            },
            None => {},
        }
        assert(slots_view(out@) =~= Seq::<Option<(nat, nat)>>::empty());
    }
    while i < n
        invariant
            n == tags@.len(),
            n == optional@.len(),
            i <= n,
            pos <= p <= end <= buffer@.len(),
            b == buffer@.subrange(0, end as int),
            out@.len() == i,
            read_slots(b, pos as nat, tags@, optional@) == prepend_slots(
                slots_view(out@),
                read_slots(b, p as nat, tags@.subrange(i as int, n as int), optional@.subrange(i as int, n as int)),
            ),
        decreases n - i,
    {
        let ghost ts = tags@.subrange(i as int, n as int);
        let ghost os = optional@.subrange(i as int, n as int);
        proof {
            assert(ts.drop_first() =~= tags@.subrange(i + 1, n as int));
            assert(os.drop_first() =~= optional@.subrange(i + 1, n as int));
            assert(ts[0] == tags@[i as int]);
            assert(os[0] == optional@[i as int]);
        }
        let ghost prev = out@;
        if p < end && buffer[p] == tags[i] {
            match next_element(buffer, p, end) {
                Some((_, cs, nx)) => {
                    proof {
                        assert(b[p as int] == buffer@[p as int]);
                    }
                    out.push(Some((cs, nx)));
                    proof {
                        assert(slots_view(out@) =~= slots_view(prev) + seq![Some((cs as nat, nx as nat))]);
                        match read_slots(b, nx as nat, tags@.subrange(i + 1, n as int), optional@.subrange(i + 1, n as int)) {
                            Some((r, e)) => {
                                assert(slots_view(prev) + (seq![Some((cs as nat, nx as nat))] + r)
                                    =~= slots_view(out@) + r);
                            },
                            None => {},
                        }
                    }
                    p = nx;
                },
                None => {
                    proof {
                        assert(b[p as int] == buffer@[p as int]);
                    }
                    return None;
                },
            }
        } else if optional[i] {
            proof {
                if p < end {
                    assert(b[p as int] == buffer@[p as int]);
                }
            }
            out.push(None);
            proof {
                assert(slots_view(out@) =~= slots_view(prev) + seq![None::<(nat, nat)>]);
                match read_slots(b, p as nat, tags@.subrange(i + 1, n as int), optional@.subrange(i + 1, n as int)) {
                    Some((r, e)) => {
                        assert(slots_view(prev) + (seq![None::<(nat, nat)>] + r) =~= slots_view(out@) + r);
                    },
                    None => {},
                }
            }
        } else {
            proof {
                if p < end {
                    assert(b[p as int] == buffer@[p as int]);
                }
            }
            return None;
        }
        i = i + 1;
    }
    proof {
        assert(tags@.subrange(n as int, n as int).len() == 0);
        assert(slots_view(out@) + Seq::<Option<(nat, nat)>>::empty() =~= slots_view(out@));
    }
    Some((out, p))
}

} // verus!
