//! The wire grammar as mathematics: big-endian numbers, BER lengths and the
//! minimal integer forms, with the facts the codecs rest on.
use vstd::prelude::*;
use vstd::utf8::{decode_utf8, encode_utf8, valid_utf8};
use crate::types::{timestamp_bytes, timestamp_of, DataModel};

verus! {

/// `256^n`.
pub open spec fn pow256(n: nat) -> nat
    decreases n,
{
    if n == 0 {
        1
    } else {
        256 * pow256((n - 1) as nat)
    }
}

/// Unsigned value of a big-endian byte sequence.
pub open spec fn be_uint(s: Seq<u8>) -> nat
    decreases s.len(),
{
    if s.len() == 0 {
        0
    } else {
        be_uint(s.drop_last()) * 256 + s.last() as nat
    }
}

/// Two's-complement value of a big-endian byte sequence.
pub open spec fn be_int(s: Seq<u8>) -> int {
    if s.len() > 0 && s[0] >= 128 {
        be_uint(s) - pow256(s.len())
    } else {
        be_uint(s) as int
    }
}

/// The `n` low-order bytes of `u`, most significant first.
pub open spec fn be_bytes(u: nat, n: nat) -> Seq<u8>
    decreases n,
{
    if n == 0 {
        Seq::empty()
    } else {
        be_bytes(u / 256, (n - 1) as nat).push((u % 256) as u8)
    }
}

/// The unsigned image of `x` in an `n`-byte two's-complement register.
pub open spec fn twos(x: int, n: nat) -> nat {
    if x < 0 {
        (x + pow256(n)) as nat
    } else {
        x as nat
    }
}

/// A leading byte that only repeats the sign of the byte after it.
pub open spec fn redundant_pair(first: u8, next: u8) -> bool {
    (first == 0x00 && next < 0x80) || (first == 0xFF && next >= 0x80)
}

/// The minimal two's-complement form: leading sign bytes removed.
pub open spec fn strip_sign(s: Seq<u8>) -> Seq<u8>
    decreases s.len(),
{
    if s.len() >= 2 && redundant_pair(s[0], s[1]) {
        strip_sign(s.drop_first())
    } else {
        s
    }
}

/// Leading zero bytes removed, keeping at least one byte.
pub open spec fn strip_zeros(s: Seq<u8>) -> Seq<u8>
    decreases s.len(),
{
    if s.len() >= 2 && s[0] == 0 {
        strip_zeros(s.drop_first())
    } else {
        s
    }
}

/// Content octets of a BER INTEGER that carries the unsigned number written in `s`.
pub open spec fn unsigned_content(s: Seq<u8>) -> Seq<u8> {
    let m = strip_zeros(s);
    if m.len() > 0 && m[0] >= 0x80 {
        seq![0u8] + m
    } else {
        m
    }
}

/// Content octets of a BER INTEGER holding the signed number `x` (at most 8 bytes).
pub open spec fn signed_content(x: int) -> Seq<u8> {
    strip_sign(be_bytes(twos(x, 8), 8))
}

/// Content octets of a BER INTEGER holding the unsigned number `u` (at most 8 bytes).
pub open spec fn uint_content(u: nat) -> Seq<u8> {
    unsigned_content(be_bytes(u, 8))
}

/// `s` widened to `w` bytes by repeating its sign byte in front.
pub open spec fn sign_extend(s: Seq<u8>, w: nat) -> Seq<u8> {
    let fill: u8 = if s.len() > 0 && s[0] >= 0x80 { 0xFF } else { 0x00 };
    Seq::new((w - s.len()) as nat, |i: int| fill) + s
}

/// The BER definite-length field for `n` (defined for `n < 2^24`).
pub open spec fn enc_length(n: nat) -> Seq<u8> {
    if n < 128 {
        seq![n as u8]
    } else if n < 256 {
        seq![0x81u8, n as u8]
    } else if n < 65536 {
        seq![0x82u8, (n / 256) as u8, (n % 256) as u8]
    } else {
        seq![0x83u8, (n / 65536) as u8, ((n / 256) % 256) as u8, (n % 256) as u8]
    }
}

/// Size of the BER length field for `n`.
pub open spec fn length_size(n: nat) -> nat {
    if n < 128 {
        1
    } else if n < 256 {
        2
    } else if n < 65536 {
        3
    } else {
        4
    }
}

/// Lengths that the definite form of this codec can carry.
pub open spec fn length_fits(n: nat) -> bool {
    n < 0x100_0000
}

/// A whole tag-length-value element.
pub open spec fn tlv(tag: u8, content: Seq<u8>) -> Seq<u8> {
    seq![tag] + enc_length(content.len()) + content
}

/// Reads a BER definite length at the start of `s`: the value and the bytes used.
pub open spec fn parse_length(s: Seq<u8>) -> Option<(nat, nat)> {
    if s.len() == 0 {
        None
    } else if s[0] < 0x80 {
        Some((s[0] as nat, 1))
    } else {
        let k = (s[0] - 0x80) as nat;
        if k == 0 || k > 3 || s.len() < 1 + k {
            None
        } else {
            Some((be_uint(s.subrange(1, 1 + k as int)), 1 + k))
        }
    }
}

/// Reads a tag and a definite length at the start of `s`: tag, length, bytes used.
pub open spec fn parse_tag_length(s: Seq<u8>) -> Option<(u8, nat, nat)> {
    if s.len() == 0 {
        None
    } else {
        match parse_length(s.drop_first()) {
            Some((n, k)) => Some((s[0], n, k + 1)),
            None => None,
        }
    }
}

/// `s` with the bytes from `at` on replaced by `bytes`.
pub open spec fn splice(s: Seq<u8>, at: int, bytes: Seq<u8>) -> Seq<u8> {
    s.subrange(0, at) + bytes + s.subrange(at + bytes.len(), s.len() as int)
}

pub proof fn lemma_pow256_facts(n: nat)
    ensures
        pow256(n) >= 1,
        pow256(n + 1) == 256 * pow256(n),
        n >= 1 ==> pow256(n) >= 256,
    decreases n,
{
    if n > 0 {
        lemma_pow256_facts((n - 1) as nat);
    }
}

pub proof fn lemma_pow_le(a: nat, b: nat)
    requires
        a <= b,
    ensures
        pow256(a) <= pow256(b),
    decreases b - a,
{
    if a < b {
        lemma_pow_le(a, (b - 1) as nat);
        lemma_pow256_facts((b - 1) as nat);
    }
}

pub proof fn lemma_be_uint_bound(s: Seq<u8>)
    ensures
        be_uint(s) < pow256(s.len()),
    decreases s.len(),
{
    if s.len() > 0 {
        let t = s.drop_last();
        lemma_be_uint_bound(t);
        lemma_pow256_facts(t.len());
        let a = be_uint(t);
        let p = pow256(t.len());
        let l = s.last() as nat;
        assert(a * 256 + l < 256 * p) by (nonlinear_arith)
            requires
                a < p,
                l < 256,
        ;
    }
}

pub proof fn lemma_be_bytes(u: nat, n: nat)
    requires
        u < pow256(n),
    ensures
        be_bytes(u, n).len() == n,
        be_uint(be_bytes(u, n)) == u,
    decreases n,
{
    if n > 0 {
        let m = (n - 1) as nat;
        lemma_pow256_facts(m);
        assert(u / 256 < pow256(m)) by (nonlinear_arith)
            requires
                u < 256 * pow256(m),
        ;
        lemma_be_bytes(u / 256, m);
        let s = be_bytes(u, n);
        assert(s.drop_last() =~= be_bytes(u / 256, m));
        assert(u == (u / 256) * 256 + u % 256) by (nonlinear_arith);
    }
}

pub proof fn lemma_be_uint_first(s: Seq<u8>)
    requires
        s.len() >= 1,
    ensures
        be_uint(s) == s[0] as nat * pow256((s.len() - 1) as nat) + be_uint(s.drop_first()),
    decreases s.len(),
{
    let t = s.drop_last();
    let u = s.drop_first();
    assert(be_uint(s) == be_uint(t) * 256 + s.last() as nat);
    if s.len() == 1 {
        assert(be_uint(t) == 0);
        assert(be_uint(u) == 0);
        assert(pow256(0) == 1);
        assert(s.last() == s[0]);
        assert(s[0] as nat * 1 == s[0] as nat);
    } else {
        lemma_be_uint_first(t);
        assert(t.drop_first() =~= u.drop_last());
        assert(u.last() == s.last());
        assert(t[0] == s[0]);
        assert(be_uint(u) == be_uint(u.drop_last()) * 256 + u.last() as nat);
        let m = (s.len() - 2) as nat;
        lemma_pow256_facts(m);
        assert(m + 1 == s.len() - 1);
        let a = s[0] as nat;
        let p = pow256(m);
        let b = be_uint(t.drop_first());
        assert(be_uint(t) == a * p + b);
        assert(pow256((s.len() - 1) as nat) == 256 * p);
        assert((a * p + b) * 256 == a * (256 * p) + b * 256) by (nonlinear_arith);
    }
}

pub proof fn lemma_redundant_pair(s: Seq<u8>)
    requires
        s.len() >= 2,
        redundant_pair(s[0], s[1]),
    ensures
        be_int(s) == be_int(s.drop_first()),
{
    let t = s.drop_first();
    lemma_be_uint_first(s);
    let m = t.len();
    lemma_pow256_facts(m);
    if s[0] == 0xFF {
        let p = pow256(m);
        assert(255 * p + be_uint(t) - 256 * p == be_uint(t) - p) by (nonlinear_arith);
    }
}

pub proof fn lemma_strip_sign(s: Seq<u8>)
    requires
        s.len() >= 1,
    ensures
        be_int(strip_sign(s)) == be_int(s),
        1 <= strip_sign(s).len() <= s.len(),
        strip_sign(s) =~= s.subrange(s.len() - strip_sign(s).len(), s.len() as int),
        strip_sign(s).len() >= 2 ==> !redundant_pair(strip_sign(s)[0], strip_sign(s)[1]),
    decreases s.len(),
{
    if s.len() >= 2 && redundant_pair(s[0], s[1]) {
        lemma_redundant_pair(s);
        lemma_strip_sign(s.drop_first());
    }
}

pub proof fn lemma_strip_zeros(s: Seq<u8>)
    requires
        s.len() >= 1,
    ensures
        be_uint(strip_zeros(s)) == be_uint(s),
        1 <= strip_zeros(s).len() <= s.len(),
        strip_zeros(s) =~= s.subrange(s.len() - strip_zeros(s).len(), s.len() as int),
        strip_zeros(s).len() >= 2 ==> strip_zeros(s)[0] != 0,
    decreases s.len(),
{
    if s.len() >= 2 && s[0] == 0 {
        lemma_be_uint_first(s);
        lemma_strip_zeros(s.drop_first());
    }
}

pub proof fn lemma_unsigned_content(s: Seq<u8>)
    requires
        s.len() >= 1,
    ensures
        be_uint(unsigned_content(s)) == be_uint(s),
        be_int(unsigned_content(s)) == be_uint(s),
        1 <= unsigned_content(s).len() <= s.len() + 1,
{
    lemma_strip_zeros(s);
    let m = strip_zeros(s);
    lemma_be_uint_bound(m);
    if m[0] >= 0x80 {
        let c = seq![0u8] + m;
        lemma_be_uint_first(c);
        assert(c.drop_first() =~= m);
        assert(c[0] == 0);
        let pc = pow256((c.len() - 1) as nat);
        assert(0nat * pc == 0) by (nonlinear_arith);
    } else {
        lemma_be_uint_first(m);
        lemma_pow256_facts((m.len() - 1) as nat);
    }
}

pub proof fn lemma_sign_extend(s: Seq<u8>, w: nat)
    requires
        1 <= s.len() <= w,
    ensures
        sign_extend(s, w).len() == w,
        be_int(sign_extend(s, w)) == be_int(s),
    decreases w - s.len(),
{
    let e = sign_extend(s, w);
    if w > s.len() {
        let w1 = (w - 1) as nat;
        lemma_sign_extend(s, w1);
        let e1 = sign_extend(s, w1);
        assert(e.drop_first() =~= e1);
        assert(e1[0] == e[1]);
        lemma_redundant_pair(e);
    } else {
        assert(e =~= s);
    }
}

pub proof fn lemma_splice_twice(s: Seq<u8>, at: int, x: Seq<u8>, y: Seq<u8>)
    requires
        0 <= at,
        at + x.len() + y.len() <= s.len(),
    ensures
        splice(splice(s, at, x), at + x.len(), y) =~= splice(s, at, x + y),
        splice(s, at, x).len() == s.len(),
{
}

pub proof fn lemma_enc_length(n: nat)
    ensures
        enc_length(n).len() == length_size(n),
{
}

/// The bits of a byte in reverse order.
pub open spec fn rev_bits(b: u8) -> u8 {
    (((b & 0x01) << 7u8) | ((b & 0x02) << 5u8) | ((b & 0x04) << 3u8) | ((b & 0x08) << 1u8)
        | ((b & 0x10) >> 1u8) | ((b & 0x20) >> 3u8) | ((b & 0x40) >> 5u8) | ((b & 0x80) >> 7u8)) as u8
}

/// Coded-enum bytes as they travel: byte order reversed, and the bits of every byte.
pub open spec fn wire_bits(val: Seq<u8>) -> Seq<u8> {
    Seq::new(val.len(), |i: int| rev_bits(val[val.len() - 1 - i]))
}

pub proof fn lemma_rev_bits_involution(b: u8)
    ensures
        rev_bits(rev_bits(b)) == b,
{
    let r = rev_bits(b);
    assert(r == (((b & 0x01) << 7u8) | ((b & 0x02) << 5u8) | ((b & 0x04) << 3u8) | ((b & 0x08) << 1u8)
        | ((b & 0x10) >> 1u8) | ((b & 0x20) >> 3u8) | ((b & 0x40) >> 5u8) | ((b & 0x80) >> 7u8)) ==>
        (((r & 0x01) << 7u8) | ((r & 0x02) << 5u8) | ((r & 0x04) << 3u8) | ((r & 0x08) << 1u8)
        | ((r & 0x10) >> 1u8) | ((r & 0x20) >> 3u8) | ((r & 0x40) >> 5u8) | ((r & 0x80) >> 7u8)) == b) by (bit_vector);
}

/// Reading coded-enum bytes back from the wire undoes writing them.
pub proof fn lemma_wire_bits_involution(val: Seq<u8>)
    ensures
        wire_bits(wire_bits(val)) =~= val,
{
    assert forall|i: int| 0 <= i < val.len() implies wire_bits(wire_bits(val))[i] == val[i] by {
        lemma_rev_bits_involution(val[i]);
    }
}

/// Tag of a data-set value on the wire.
pub open spec fn data_tag(m: DataModel) -> u8 {
    match m {
        DataModel::Array(_) => 0xA1,
        DataModel::Structure(_) => 0xA2,
        DataModel::Boolean(_) => 0x83,
        DataModel::BitString { .. } => 0x84,
        DataModel::Int(_) => 0x85,
        DataModel::UInt(_) => 0x86,
        DataModel::Float32(_) => 0x87,
        DataModel::Float64(_) => 0x87,
        DataModel::OctetString(_) => 0x89,
        DataModel::VisibleString(_) => 0x8A,
        DataModel::MmsString(_) => 0x90,
        DataModel::Timestamp(_) => 0x91,
    }
}

/// Content octets of a value that is not constructed.
pub open spec fn leaf_content(m: DataModel) -> Seq<u8> {
    match m {
        DataModel::Boolean(b) => seq![if b { 0xFFu8 } else { 0x00u8 }],
        DataModel::BitString { padding, val } => seq![padding] + wire_bits(val),
        DataModel::Int(x) => signed_content(x as int),
        DataModel::UInt(u) => uint_content(u as nat),
        DataModel::Float32(b) => seq![0x08u8] + be_bytes(b as nat, 4),
        DataModel::Float64(b) => seq![0x08u8] + be_bytes(b as nat, 8),
        DataModel::OctetString(v) => v,
        DataModel::VisibleString(t) => encode_utf8(t),
        DataModel::MmsString(t) => encode_utf8(t),
        DataModel::Timestamp(t) => timestamp_bytes(t),
        _ => Seq::empty(),
    }
}

/// The BER encoding of a data-set value.
pub open spec fn enc_data(m: DataModel) -> Seq<u8>
    decreases m,
{
    match m {
        DataModel::Array(s) => tlv(0xA1, enc_list(s)),
        DataModel::Structure(s) => tlv(0xA2, enc_list(s)),
        _ => tlv(data_tag(m), leaf_content(m)),
    }
}

/// The encodings of a sequence of values, one after the other.
pub open spec fn enc_list(s: Seq<DataModel>) -> Seq<u8>
    decreases s,
{
    if s.len() == 0 {
        Seq::empty()
    } else {
        enc_list(s.drop_last()) + enc_data(s.last())
    }
}

/// Every length inside the value can be written.
pub open spec fn data_fits(m: DataModel) -> bool
    decreases m,
{
    match m {
        DataModel::Array(s) => list_fits(s) && length_fits(list_size(s)),
        DataModel::Structure(s) => list_fits(s) && length_fits(list_size(s)),
        _ => length_fits(leaf_content(m).len()),
    }
}

pub open spec fn list_fits(s: Seq<DataModel>) -> bool
    decreases s,
{
    s.len() == 0 || (list_fits(s.drop_last()) && data_fits(s.last()))
}

/// Bytes a value takes on the wire: tag, length field and content.
pub open spec fn data_size(m: DataModel) -> nat
    decreases m,
{
    match m {
        DataModel::Array(s) => 1 + length_size(list_size(s)) + list_size(s),
        DataModel::Structure(s) => 1 + length_size(list_size(s)) + list_size(s),
        _ => 1 + length_size(leaf_content(m).len()) + leaf_content(m).len(),
    }
}

pub open spec fn list_size(s: Seq<DataModel>) -> nat
    decreases s,
{
    if s.len() == 0 {
        0
    } else {
        list_size(s.drop_last()) + data_size(s.last())
    }
}

/// `n` capped at the largest `usize`.
pub open spec fn sat(n: nat) -> nat {
    if n > usize::MAX {
        usize::MAX as nat
    } else {
        n
    }
}

/// The size of a value is the length of its encoding.
pub proof fn lemma_size_is_encoded_length(m: DataModel)
    ensures
        data_size(m) == enc_data(m).len(),
    decreases m,
{
    match m {
        DataModel::Array(s) => {
            lemma_list_size_is_encoded_length(s);
        },
        DataModel::Structure(s) => {
            lemma_list_size_is_encoded_length(s);
        },
        _ => {},
    }
}

pub proof fn lemma_list_size_is_encoded_length(s: Seq<DataModel>)
    ensures
        list_size(s) == enc_list(s).len(),
    decreases s,
{
    if s.len() > 0 {
        lemma_list_size_is_encoded_length(s.drop_last());
        lemma_size_is_encoded_length(s.last());
    }
}

pub proof fn lemma_enc_list_append(a: Seq<DataModel>, b: Seq<DataModel>)
    ensures
        enc_list(a + b) =~= enc_list(a) + enc_list(b),
        list_size(a + b) == list_size(a) + list_size(b),
        list_fits(a + b) == (list_fits(a) && list_fits(b)),
    decreases b.len(),
{
    if b.len() == 0 {
        assert(a + b =~= a);
    } else {
        lemma_enc_list_append(a, b.drop_last());
        assert((a + b).drop_last() =~= a + b.drop_last());
        assert((a + b).last() == b.last());
    }
}

/// Cutting a sequence of values after its `i`-th element.
pub proof fn lemma_enc_list_split(s: Seq<DataModel>, i: int)
    requires
        0 <= i <= s.len(),
    ensures
        enc_list(s) =~= enc_list(s.subrange(0, i)) + enc_list(s.subrange(i, s.len() as int)),
        list_size(s) == list_size(s.subrange(0, i)) + list_size(s.subrange(i, s.len() as int)),
        list_fits(s) == (list_fits(s.subrange(0, i)) && list_fits(s.subrange(i, s.len() as int))),
{
    assert(s =~= s.subrange(0, i) + s.subrange(i, s.len() as int));
    lemma_enc_list_append(s.subrange(0, i), s.subrange(i, s.len() as int));
}

pub proof fn lemma_list_fits_index(s: Seq<DataModel>, i: int)
    requires
        list_fits(s),
        0 <= i < s.len(),
    ensures
        data_fits(s[i]),
    decreases s.len(),
{
    if i < s.len() - 1 {
        lemma_list_fits_index(s.drop_last(), i);
    }
}

/// One more element at the end of a prefix.
pub proof fn lemma_prefix_step(s: Seq<DataModel>, i: int)
    requires
        0 <= i < s.len(),
    ensures
        enc_list(s.subrange(0, i + 1)) == enc_list(s.subrange(0, i)) + enc_data(s[i]),
        list_size(s.subrange(0, i + 1)) == list_size(s.subrange(0, i)) + data_size(s[i]),
        list_fits(s.subrange(0, i + 1)) == (list_fits(s.subrange(0, i)) && data_fits(s[i])),
{
    assert(s.subrange(0, i + 1).drop_last() =~= s.subrange(0, i));
}

pub proof fn lemma_be_bytes_len(u: nat, n: nat)
    ensures
        be_bytes(u, n).len() == n,
    decreases n,
{
    if n > 0 {
        lemma_be_bytes_len(u / 256, (n - 1) as nat);
    }
}

/// What `String::from_utf8_lossy` makes of bytes that are not valid UTF-8.
pub uninterp spec fn utf8_lossy(b: Seq<u8>) -> Seq<char>;

/// Text read from bytes: exact for valid UTF-8, with replacement characters otherwise.
pub open spec fn text_of(b: Seq<u8>) -> Seq<char> {
    if valid_utf8(b) {
        decode_utf8(b)
    } else {
        utf8_lossy(b)
    }
}

/// The value a non-constructed element with `tag` and content `c` holds.
pub open spec fn parse_leaf(tag: u8, c: Seq<u8>) -> Option<DataModel> {
    let n = c.len();
    if tag == 0x83 {
        if n == 1 { Some(DataModel::Boolean(c[0] != 0)) } else { None }
    } else if tag == 0x84 {
        if n >= 1 {
            Some(DataModel::BitString { padding: c[0], val: wire_bits(c.subrange(1, n as int)) })
        } else {
            None
        }
    } else if tag == 0x85 {
        if 1 <= n <= 8 { Some(DataModel::Int(be_int(c) as i64)) } else { None }
    } else if tag == 0x86 {
        if (1 <= n <= 4) || (n == 5 && c[0] == 0) { Some(DataModel::UInt(be_uint(c) as u64)) } else { None }
    } else if tag == 0x87 {
        if n == 5 {
            Some(DataModel::Float32(be_uint(c.subrange(1, 5)) as u32))
        } else if n == 9 {
            Some(DataModel::Float64(be_uint(c.subrange(1, 9)) as u64))
        } else {
            None
        }
    } else if tag == 0x89 {
        Some(DataModel::OctetString(c))
    } else if tag == 0x8A {
        Some(DataModel::VisibleString(text_of(c)))
    } else if tag == 0x90 {
        Some(DataModel::MmsString(text_of(c)))
    } else if tag == 0x91 {
        if n == 8 { Some(DataModel::Timestamp(timestamp_of(c))) } else { None }
    } else {
        None
    }
}

/// Reads one value at the start of `s`; arrays and structures may nest `depth` deep.
pub open spec fn parse_data(s: Seq<u8>, depth: nat) -> Option<(DataModel, nat)>
    decreases depth, s.len(), 0nat,
{
    match parse_tag_length(s) {
        None => None,
        Some((tag, n, h)) => {
            if h + n > s.len() {
                None
            } else {
                let c = s.subrange(h as int, (h + n) as int);
                if tag == 0xA1 || tag == 0xA2 {
                    if depth == 0 {
                        None
                    } else {
                        match parse_list(c, (depth - 1) as nat) {
                            Some(items) => Some(
                                (if tag == 0xA1 { DataModel::Array(items) } else { DataModel::Structure(items) }, h + n),
                            ),
                            None => None,
                        }
                    }
                } else {
                    match parse_leaf(tag, c) {
                        Some(m) => Some((m, h + n)),
                        None => None,
                    }
                }
            }
        },
    }
}

/// Reads values until `c` is used up exactly.
pub open spec fn parse_list(c: Seq<u8>, depth: nat) -> Option<Seq<DataModel>>
    decreases depth, c.len(), 1nat,
{
    if c.len() == 0 {
        Some(Seq::empty())
    } else {
        match parse_data(c, depth) {
            Some((m, k)) => {
                if k == 0 || k > c.len() {
                    None
                } else {
                    match parse_list(c.subrange(k as int, c.len() as int), depth) {
                        Some(rest) => Some(seq![m] + rest),
                        None => None,
                    }
                }
            },
            None => None,
        }
    }
}

/// Reading back a BER length gives the number written, for every length the
/// codec can carry.
pub proof fn lemma_length_round_trip(n: nat, rest: Seq<u8>)
    requires
        length_fits(n),
    ensures
        parse_length(enc_length(n) + rest) == Some((n, enc_length(n).len())),
{
    let s = enc_length(n) + rest;
    reveal_with_fuel(be_uint, 4);
    if n < 128 {
    } else if n < 256 {
        assert(s.subrange(1, 2) =~= seq![n as u8]);
        assert(seq![n as u8].drop_last() =~= Seq::<u8>::empty());
    } else if n < 65536 {
        let b = s.subrange(1, 3);
        assert(b =~= seq![(n / 256) as u8, (n % 256) as u8]);
        assert(b.drop_last() =~= seq![(n / 256) as u8]);
        assert(b.drop_last().drop_last() =~= Seq::<u8>::empty());
        assert(n == (n / 256) * 256 + n % 256) by (nonlinear_arith);
    } else {
        let b = s.subrange(1, 4);
        assert(b =~= seq![(n / 65536) as u8, ((n / 256) % 256) as u8, (n % 256) as u8]);
        assert(b.drop_last() =~= seq![(n / 65536) as u8, ((n / 256) % 256) as u8]);
        assert(b.drop_last().drop_last() =~= seq![(n / 65536) as u8]);
        assert(b.drop_last().drop_last().drop_last() =~= Seq::<u8>::empty());
        assert(n / 65536 < 256);
        assert(n == ((n / 65536) * 256 + (n / 256) % 256) * 256 + n % 256) by (nonlinear_arith)
            requires n < 0x100_0000;
    }
}

/// The same with the tag in front.
pub proof fn lemma_tag_length_round_trip(tag: u8, n: nat, rest: Seq<u8>)
    requires
        length_fits(n),
    ensures
        parse_tag_length(seq![tag] + enc_length(n) + rest) == Some((tag, n, enc_length(n).len() + 1)),
{
    let s = seq![tag] + enc_length(n) + rest;
    assert(s.drop_first() =~= enc_length(n) + rest);
    lemma_length_round_trip(n, rest);
}

/// `w` bytes of two's complement read back as the number written.
pub proof fn lemma_twos_round_trip(x: int, w: nat)
    requires
        w >= 1,
        -(pow256(w) as int) <= 2 * x < pow256(w),
    ensures
        be_bytes(twos(x, w), w).len() == w,
        be_int(be_bytes(twos(x, w), w)) == x,
{
    let u = twos(x, w);
    let b = be_bytes(u, w);
    lemma_pow256_facts((w - 1) as nat);
    let p = pow256((w - 1) as nat);
    assert(pow256(w) == 256 * p);
    lemma_be_bytes(u, w);
    lemma_be_uint_first(b);
    lemma_be_uint_bound(b.drop_first());
    let r = be_uint(b.drop_first());
    let b0 = b[0] as nat;
    assert(u == b0 * p + r);
    if x < 0 {
        assert(u >= 128 * p);
        assert(b0 >= 128) by (nonlinear_arith)
            requires u == b0 * p + r, r < p, u >= 128 * p, p >= 1;
    } else {
        assert(u < 128 * p);
        assert(b0 < 128) by (nonlinear_arith)
            requires u == b0 * p + r, r >= 0, u < 128 * p, p >= 1;
    }
}

/// Minimal two's-complement integers: widening the minimal form of a `w`-byte
/// number back to `w` bytes gives the number again, and the minimal form never
/// starts with a byte that only repeats the sign of the next one.
pub proof fn lemma_compress_decompress(x: int, w: nat)
    requires
        w == 1 || w == 2 || w == 4 || w == 8,
        -(pow256(w) as int) <= 2 * x < pow256(w),
    ensures
        be_int(sign_extend(strip_sign(be_bytes(twos(x, w), w)), w)) == x,
        sign_extend(strip_sign(be_bytes(twos(x, w), w)), w).len() == w,
        strip_sign(be_bytes(twos(x, w), w)).len() >= 2 ==> !redundant_pair(
            strip_sign(be_bytes(twos(x, w), w))[0],
            strip_sign(be_bytes(twos(x, w), w))[1],
        ),
{
    lemma_twos_round_trip(x, w);
    let b = be_bytes(twos(x, w), w);
    lemma_strip_sign(b);
    lemma_sign_extend(strip_sign(b), w);
}

/// The element at `pos` in `b`: its tag, where its content starts, and where it ends.
pub open spec fn read_element(b: Seq<u8>, pos: nat) -> Option<(u8, nat, nat)> {
    if pos > b.len() {
        None
    } else {
        match parse_tag_length(b.subrange(pos as int, b.len() as int)) {
            Some((t, n, h)) => {
                if pos + h + n <= b.len() {
                    Some((t, pos + h, pos + h + n))
                } else {
                    None
                }
            },
            None => None,
        }
    }
}

/// Reads elements from `pos` on, one per slot: a slot takes the next element
/// when it has the slot's tag; an optional slot is left empty otherwise, and a
/// required one fails. Each slot gives where its content starts and ends.
pub open spec fn read_slots(b: Seq<u8>, pos: nat, tags: Seq<u8>, optional: Seq<bool>) -> Option<(Seq<Option<(nat, nat)>>, nat)>
    decreases tags.len(),
{
    if tags.len() == 0 {
        Some((Seq::empty(), pos))
    } else if pos < b.len() && b[pos as int] == tags[0] {
        match read_element(b, pos) {
            Some((_, cs, nx)) => match read_slots(b, nx, tags.drop_first(), optional.drop_first()) {
                Some((r, end)) => Some((seq![Some((cs, nx))] + r, end)),
                None => None,
            },
            None => None,
        }
    } else if optional.len() > 0 && optional[0] {
        match read_slots(b, pos, tags.drop_first(), optional.drop_first()) {
            Some((r, end)) => Some((seq![None::<(nat, nat)>] + r, end)),
            None => None,
        }
    } else {
        None
    }
}

/// Content of a BER INTEGER that an unsigned field of up to 32 bits accepts.
pub open spec fn uint32_ok(c: Seq<u8>) -> bool {
    (1 <= c.len() <= 4) || (c.len() == 5 && c[0] == 0)
}

/// Slots that are all required come back filled.
pub proof fn lemma_required_slots(b: Seq<u8>, pos: nat, tags: Seq<u8>, optional: Seq<bool>)
    requires
        tags.len() == optional.len(),
        forall|i: int| 0 <= i < optional.len() ==> !optional[i],
        read_slots(b, pos, tags, optional) is Some,
    ensures
        read_slots(b, pos, tags, optional)->Some_0.0.len() == tags.len(),
        forall|i: int| 0 <= i < tags.len() ==> (#[trigger] read_slots(b, pos, tags, optional)->Some_0.0[i]) is Some,
        forall|i: int| 0 <= i < tags.len() ==> #[trigger] read_slots(b, pos, tags, optional)->Some_0.0[i]->Some_0.0
            <= read_slots(b, pos, tags, optional)->Some_0.0[i]->Some_0.1 <= b.len(),
    decreases tags.len(),
{
    if tags.len() > 0 {
        assert(!optional[0]);
        let (_, cs, nx) = read_element(b, pos)->Some_0;
        assert(forall|i: int| 0 <= i < optional.drop_first().len() ==> optional.drop_first()[i] == optional[i + 1]);
        lemma_required_slots(b, nx, tags.drop_first(), optional.drop_first());
        let rest = read_slots(b, nx, tags.drop_first(), optional.drop_first())->Some_0.0;
        let all = read_slots(b, pos, tags, optional)->Some_0.0;
        assert(all == seq![Some((cs, nx))] + rest);
        assert forall|i: int| 0 <= i < tags.len() implies (#[trigger] all[i]) is Some by {
            if i > 0 {
                assert(all[i] == rest[i - 1]);
            }
        }
        assert forall|i: int| 0 <= i < tags.len() implies #[trigger] all[i]->Some_0.0 <= all[i]->Some_0.1 <= b.len() by {
            if i > 0 {
                assert(all[i] == rest[i - 1]);
            }
        }
    }
}

/// Content of a BER INTEGER that an unsigned field of `w` bytes accepts.
pub open spec fn uint_ok(c: Seq<u8>, w: nat) -> bool {
    (1 <= c.len() <= w) || (c.len() == w + 1 && c[0] == 0)
}

/// Reading inside a window at `p - i` is reading the whole prefix at `p`, shifted.
pub proof fn lemma_read_element_shift(s: Seq<u8>, i: nat, end: nat, p: nat)
    requires
        i <= p <= end <= s.len(),
    ensures
        read_element(s.subrange(i as int, end as int), (p - i) as nat) == match read_element(s.subrange(0, end as int), p) {
            Some((t, cs, nx)) => Some((t, (cs - i) as nat, (nx - i) as nat)),
            None => None,
        },
{
    let w = s.subrange(i as int, end as int);
    let b = s.subrange(0, end as int);
    assert(w.subrange((p - i) as int, w.len() as int) =~= b.subrange(p as int, b.len() as int));
}

/// A two's-complement number of `n` bytes lies in `[-256^n / 2, 256^n / 2)`.
pub proof fn lemma_be_int_bound(s: Seq<u8>)
    requires
        s.len() >= 1,
    ensures
        -(pow256(s.len()) as int) <= 2 * be_int(s) < pow256(s.len()),
{
    lemma_be_uint_first(s);
    lemma_be_uint_bound(s.drop_first());
    lemma_pow256_facts((s.len() - 1) as nat);
    let p = pow256((s.len() - 1) as nat);
    let a = s[0] as nat;
    let r = be_uint(s.drop_first());
    assert(pow256(s.len()) == 256 * p);
    if a >= 128 {
        assert(a * p >= 128 * p) by (nonlinear_arith)
            requires a >= 128;
        assert(a * p + r < 256 * p) by (nonlinear_arith)
            requires a <= 255, r < p;
    } else {
        assert(a * p + r < 128 * p) by (nonlinear_arith)
            requires a <= 127, r < p;
    }
}

/// What reading slots gives: one entry per slot, required slots filled, and
/// every filled slot inside `b`.
pub proof fn lemma_slots_facts(b: Seq<u8>, pos: nat, tags: Seq<u8>, optional: Seq<bool>)
    requires
        tags.len() == optional.len(),
        read_slots(b, pos, tags, optional) is Some,
    ensures
        read_slots(b, pos, tags, optional)->Some_0.0.len() == tags.len(),
        forall|i: int| 0 <= i < tags.len() && !optional[i] ==> (#[trigger] read_slots(b, pos, tags, optional)->Some_0.0[i]) is Some,
        forall|i: int| 0 <= i < tags.len() && (#[trigger] read_slots(b, pos, tags, optional)->Some_0.0[i]) is Some
            ==> pos <= read_slots(b, pos, tags, optional)->Some_0.0[i]->Some_0.0 <= read_slots(b, pos, tags, optional)->Some_0.0[i]->Some_0.1 <= b.len(),
    decreases tags.len(),
{
    if tags.len() > 0 {
        let all = read_slots(b, pos, tags, optional)->Some_0.0;
        if pos < b.len() && b[pos as int] == tags[0] {
            let (_, cs, nx) = read_element(b, pos)->Some_0;
            lemma_slots_facts(b, nx, tags.drop_first(), optional.drop_first());
            let rest = read_slots(b, nx, tags.drop_first(), optional.drop_first())->Some_0.0;
            assert(all == seq![Some((cs, nx))] + rest);
            assert(pos <= cs <= nx);
            assert forall|i: int| 0 <= i < tags.len() && (#[trigger] all[i]) is Some implies pos <= all[i]->Some_0.0 <= all[i]->Some_0.1 <= b.len() by {
                if i > 0 {
                    assert(all[i] == rest[i - 1]);
                }
            }
            assert forall|i: int| 0 <= i < tags.len() && !optional[i] implies (#[trigger] all[i]) is Some by {
                if i > 0 {
                    assert(all[i] == rest[i - 1]);
                    assert(optional.drop_first()[i - 1] == optional[i]);
                }
            }
        } else {
            lemma_slots_facts(b, pos, tags.drop_first(), optional.drop_first());
            let rest = read_slots(b, pos, tags.drop_first(), optional.drop_first())->Some_0.0;
            assert(all == seq![None::<(nat, nat)>] + rest);
            assert forall|i: int| 0 <= i < tags.len() && (#[trigger] all[i]) is Some implies pos <= all[i]->Some_0.0 <= all[i]->Some_0.1 <= b.len() by {
                if i > 0 {
                    assert(all[i] == rest[i - 1]);
                }
            }
            assert forall|i: int| 0 <= i < tags.len() && !optional[i] implies (#[trigger] all[i]) is Some by {
                if i > 0 {
                    assert(all[i] == rest[i - 1]);
                    assert(optional.drop_first()[i - 1] == optional[i]);
                }
            }
        }
    }
}

} // verus!
