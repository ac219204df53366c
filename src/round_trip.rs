//! Reading back what the encoders write.
use vstd::prelude::*;
use vstd::utf8::{encode_utf8, encode_utf8_decode_utf8, encode_utf8_valid_utf8};
use crate::grammar::{
    be_bytes, be_int, be_uint, data_fits, data_tag, enc_data, enc_length, enc_list, leaf_content,
    lemma_be_bytes, lemma_be_bytes_len, lemma_be_uint_bound, lemma_be_uint_first, lemma_enc_list_append,
    lemma_pow256_facts, lemma_pow_le, lemma_strip_sign, lemma_strip_zeros, lemma_tag_length_round_trip,
    lemma_twos_round_trip, lemma_unsigned_content, lemma_wire_bits_involution, length_fits, list_fits,
    parse_data, parse_leaf, parse_list, pow256, signed_content, strip_zeros, text_of, tlv, twos, uint_content,
};
use crate::grammar::{read_element, read_slots};
use crate::decode_goose::{all_required, goose_of_fields, goose_tags, parse_goose_pdu, slot_bytes};
use crate::encode_goose::{bool_content, goose_body, goose_fits, goose_pdu_bytes};
use crate::decode_basics::MAX_DEPTH;
use crate::decode_smv::{
    asdu_optional, asdu_tags, first_sample, parse_asdu, parse_asdus, parse_samples, parse_sav_pdu, sim_bit,
};
use crate::encode_smv::{
    asdu_body, asdu_bytes, asdu_fits, asdus_bytes, opt_uint, opt_utf8, sample_bytes, samples_bytes, sav_fits,
    sav_pdu_bytes,
};
use crate::grammar::redundant_pair;
use crate::types::{
    header_bytes, lemma_quality_round_trip, quality_bits, AsduModel, EthernetHeader, Sample, SavModel,
};
use crate::types::{lemma_timestamp_round_trip, timestamp_bytes, DataModel, GooseModel};

verus! {

/// Values the decoder gives back as they were written: unsigned numbers of at
/// most 32 bits, well-formed timestamps, nesting at most `depth` deep.
pub open spec fn data_valid(m: DataModel, depth: nat) -> bool
    decreases m,
{
    match m {
        DataModel::Array(s) => depth > 0 && list_valid(s, (depth - 1) as nat),
        DataModel::Structure(s) => depth > 0 && list_valid(s, (depth - 1) as nat),
        DataModel::UInt(u) => u < 0x1_0000_0000,
        DataModel::Timestamp(t) => t.wf(),
        _ => true,
    }
}

pub open spec fn list_valid(s: Seq<DataModel>, depth: nat) -> bool
    decreases s,
{
    s.len() == 0 || (list_valid(s.drop_last(), depth) && data_valid(s.last(), depth))
}

/// An unsigned number below `256^k` keeps at most `k` bytes once its leading
/// zeros are gone.
pub proof fn lemma_strip_zeros_len(s: Seq<u8>, k: nat)
    requires
        s.len() >= 1,
        k >= 1,
        be_uint(s) < pow256(k),
    ensures
        strip_zeros(s).len() <= k,
{
    lemma_strip_zeros(s);
    let m = strip_zeros(s);
    if m.len() > k {
        lemma_be_uint_first(m);
        lemma_pow_le(k, (m.len() - 1) as nat);
        let p = pow256((m.len() - 1) as nat);
        assert(m[0] as nat * p >= p) by (nonlinear_arith)
            requires m[0] != 0;
    }
}

/// What an unsigned 32-bit field writes, it reads back.
pub proof fn lemma_uint_content(u: nat)
    requires
        u < 0x1_0000_0000,
    ensures
        crate::grammar::uint32_ok(uint_content(u)),
        crate::grammar::uint_ok(uint_content(u), 4),
        be_uint(uint_content(u)) == u,
{
    reveal_with_fuel(pow256, 9);
    lemma_be_bytes(u, 8);
    let b = be_bytes(u, 8);
    lemma_unsigned_content(b);
    lemma_strip_zeros_len(b, 4);
}

/// What an unsigned field of `w` bytes writes, it reads back.
pub proof fn lemma_uint_content_w(u: nat, w: nat)
    requires
        1 <= w <= 4,
        u < pow256(w),
    ensures
        crate::grammar::uint_ok(uint_content(u), w),
        be_uint(uint_content(u)) == u,
{
    reveal_with_fuel(pow256, 9);
    lemma_pow_le(w, 8);
    lemma_be_bytes(u, 8);
    let b = be_bytes(u, 8);
    lemma_unsigned_content(b);
    lemma_strip_zeros_len(b, w);
}

/// What a signed field writes, it reads back.
pub proof fn lemma_signed_content(x: int)
    requires
        -0x8000_0000_0000_0000 <= x < 0x8000_0000_0000_0000,
    ensures
        1 <= signed_content(x).len() <= 8,
        be_int(signed_content(x)) == x,
{
    reveal_with_fuel(pow256, 9);
    lemma_twos_round_trip(x, 8);
    lemma_strip_sign(be_bytes(twos(x, 8), 8));
}

/// Text survives its UTF-8 bytes.
pub proof fn lemma_text_round_trip(t: Seq<char>)
    ensures
        text_of(encode_utf8(t)) == t,
{
    encode_utf8_valid_utf8(t);
    encode_utf8_decode_utf8(t);
}

/// The encodings of a sequence of values: the first one, then the rest.
pub proof fn lemma_enc_list_first(s: Seq<DataModel>)
    requires
        s.len() > 0,
    ensures
        enc_list(s) == enc_data(s[0]) + enc_list(s.drop_first()),
        list_fits(s) == (data_fits(s[0]) && list_fits(s.drop_first())),
{
    let one = seq![s[0]];
    assert(s =~= one + s.drop_first());
    lemma_enc_list_append(one, s.drop_first());
    assert(one.drop_last() =~= Seq::<DataModel>::empty());
    assert(one.last() == s[0]);
    assert(enc_list(Seq::<DataModel>::empty()) == Seq::<u8>::empty());
    assert(list_fits(Seq::<DataModel>::empty()));
    assert(enc_list(one) == enc_list(one.drop_last()) + enc_data(one.last()));
    assert(enc_list(one) =~= enc_data(s[0]));
    assert(list_fits(one) == (list_fits(one.drop_last()) && data_fits(one.last())));
}

pub proof fn lemma_list_valid_first(s: Seq<DataModel>, depth: nat)
    requires
        s.len() > 0,
    ensures
        list_valid(s, depth) == (data_valid(s[0], depth) && list_valid(s.drop_first(), depth)),
    decreases s.len(),
{
    if s.len() > 1 {
        lemma_list_valid_first(s.drop_last(), depth);
        assert(s.drop_last().drop_first() =~= s.drop_first().drop_last());
        assert(s.drop_last()[0] == s[0]);
        assert(s.drop_first().last() == s.last());
        assert(list_valid(s.drop_first(), depth) == (list_valid(s.drop_first().drop_last(), depth) && data_valid(
            s.drop_first().last(),
            depth,
        )));
    } else {
        assert(s.drop_first().len() == 0);
        assert(s.drop_last().len() == 0);
        assert(s.last() == s[0]);
        assert(list_valid(s.drop_first(), depth));
        assert(list_valid(s.drop_last(), depth));
    }
}

/// A leaf reads back from its content.
pub proof fn lemma_leaf_round_trip(m: DataModel)
    requires
        !(m is Array) && !(m is Structure),
        data_valid(m, 0),
    ensures
        parse_leaf(data_tag(m), leaf_content(m)) == Some(m),
{
    match m {
        DataModel::BitString { padding, val } => {
            let c = seq![padding] + crate::grammar::wire_bits(val);
            assert(c.subrange(1, c.len() as int) =~= crate::grammar::wire_bits(val));
            lemma_wire_bits_involution(val);
        },
        DataModel::Int(x) => {
            lemma_signed_content(x as int);
        },
        DataModel::UInt(u) => {
            lemma_uint_content(u as nat);
        },
        DataModel::Float32(b) => {
            reveal_with_fuel(pow256, 5);
            lemma_be_bytes(b as nat, 4);
            let c = seq![0x08u8] + be_bytes(b as nat, 4);
            assert(c.subrange(1, 5) =~= be_bytes(b as nat, 4));
        },
        DataModel::Float64(b) => {
            reveal_with_fuel(pow256, 9);
            lemma_be_bytes(b as nat, 8);
            let c = seq![0x08u8] + be_bytes(b as nat, 8);
            assert(c.subrange(1, 9) =~= be_bytes(b as nat, 8));
        },
        DataModel::VisibleString(t) => {
            lemma_text_round_trip(t);
        },
        DataModel::MmsString(t) => {
            lemma_text_round_trip(t);
        },
        DataModel::Timestamp(t) => {
            lemma_timestamp_round_trip(t);
        },
        _ => {},
    }
}

/// A value reads back from its encoding, whatever follows it.
pub proof fn lemma_data_round_trip(m: DataModel, depth: nat, rest: Seq<u8>)
    requires
        data_fits(m),
        data_valid(m, depth),
    ensures
        parse_data(enc_data(m) + rest, depth) == Some((m, enc_data(m).len())),
    decreases m,
{
    let content = match m {
        DataModel::Array(s) => enc_list(s),
        DataModel::Structure(s) => enc_list(s),
        _ => leaf_content(m),
    };
    let tag = data_tag(m);
    let s = enc_data(m) + rest;
    match m {
        DataModel::Array(items) => {
            crate::grammar::lemma_list_size_is_encoded_length(items);
        },
        DataModel::Structure(items) => {
            crate::grammar::lemma_list_size_is_encoded_length(items);
        },
        _ => {},
    }
    assert(enc_data(m) == tlv(tag, content));
    assert(length_fits(content.len()));
    assert(s =~= seq![tag] + enc_length(content.len()) + (content + rest));
    lemma_tag_length_round_trip(tag, content.len(), content + rest);
    let h = enc_length(content.len()).len() + 1;
    assert(s.subrange(h as int, (h + content.len()) as int) =~= content);
    match m {
        DataModel::Array(items) => {
            lemma_list_round_trip(items, (depth - 1) as nat);
        },
        DataModel::Structure(items) => {
            lemma_list_round_trip(items, (depth - 1) as nat);
        },
        _ => {
            lemma_leaf_round_trip(m);
        },
    }
}

/// A sequence of values reads back from its encodings.
pub proof fn lemma_list_round_trip(s: Seq<DataModel>, depth: nat)
    requires
        list_fits(s),
        list_valid(s, depth),
    ensures
        parse_list(enc_list(s), depth) == Some(s),
    decreases s,
{
    if s.len() > 0 {
        lemma_enc_list_first(s);
        lemma_list_valid_first(s, depth);
        let rest = s.drop_first();
        let e = enc_list(s);
        let k = enc_data(s[0]).len();
        lemma_data_round_trip(s[0], depth, enc_list(rest));
        assert(e.subrange(k as int, e.len() as int) =~= enc_list(rest));
        assert(rest.len() < s.len());
        lemma_list_round_trip(rest, depth);
        assert(seq![s[0]] + rest =~= s);
        crate::grammar::lemma_size_is_encoded_length(s[0]);
        assert(k >= 2);
    } else {
        assert(enc_list(s).len() == 0);
    }
}

/// Elements one after the other; an absent one takes no bytes.
pub open spec fn opt_tlv_seq(tags: Seq<u8>, cs: Seq<Option<Seq<u8>>>) -> Seq<u8>
    decreases tags.len(),
{
    if tags.len() == 0 || cs.len() == 0 {
        Seq::empty()
    } else {
        (match cs[0] {
            Some(c) => tlv(tags[0], c),
            None => Seq::empty(),
        }) + opt_tlv_seq(tags.drop_first(), cs.drop_first())
    }
}

/// The first byte of a run of elements is the tag of one that is present.
pub proof fn lemma_opt_tlv_seq_first(tags: Seq<u8>, cs: Seq<Option<Seq<u8>>>)
    requires
        tags.len() == cs.len(),
        opt_tlv_seq(tags, cs).len() > 0,
    ensures
        exists|j: int| 0 <= j < tags.len() && cs[j] is Some && opt_tlv_seq(tags, cs)[0] == #[trigger] tags[j],
    decreases tags.len(),
{
    if cs[0] is Some {
        assert(opt_tlv_seq(tags, cs)[0] == tags[0]);
    } else {
        assert(opt_tlv_seq(tags, cs) =~= opt_tlv_seq(tags.drop_first(), cs.drop_first()));
        lemma_opt_tlv_seq_first(tags.drop_first(), cs.drop_first());
        let j = choose|j: int| 0 <= j < tags.drop_first().len() && cs.drop_first()[j] is Some
            && opt_tlv_seq(tags.drop_first(), cs.drop_first())[0] == #[trigger] tags.drop_first()[j];
        assert(tags[j + 1] == tags.drop_first()[j]);
    }
}

/// Reading slots over a run of elements with distinct tags that ends where the
/// bytes end finds each present element in its slot and leaves the others empty.
pub proof fn lemma_read_run(b: Seq<u8>, pos: nat, tags: Seq<u8>, cs: Seq<Option<Seq<u8>>>, optional: Seq<bool>)
    requires
        tags.len() == cs.len(),
        tags.len() == optional.len(),
        pos <= b.len(),
        b.subrange(pos as int, b.len() as int) == opt_tlv_seq(tags, cs),
        forall|i: int, j: int| 0 <= i < j < tags.len() ==> tags[i] != tags[j],
        forall|i: int| 0 <= i < cs.len() && (#[trigger] cs[i]) is Some ==> length_fits(cs[i]->Some_0.len()),
        forall|i: int| 0 <= i < cs.len() && (#[trigger] cs[i]) is None ==> optional[i],
    ensures
        read_slots(b, pos, tags, optional) is Some,
        read_slots(b, pos, tags, optional)->Some_0.0.len() == tags.len(),
        forall|i: int| 0 <= i < tags.len() ==> (#[trigger] read_slots(b, pos, tags, optional)->Some_0.0[i]) is Some
            == cs[i] is Some,
        forall|i: int| 0 <= i < tags.len() && (#[trigger] cs[i]) is Some ==> slot_bytes(
            b,
            read_slots(b, pos, tags, optional)->Some_0.0[i],
        ) == cs[i]->Some_0,
    decreases tags.len(),
{
    if tags.len() > 0 {
        let run = opt_tlv_seq(tags, cs);
        let tail = opt_tlv_seq(tags.drop_first(), cs.drop_first());
        assert forall|i: int, j: int| 0 <= i < j < tags.drop_first().len() implies tags.drop_first()[i]
            != tags.drop_first()[j] by {
            assert(tags[i + 1] != tags[j + 1]);
        }
        assert forall|i: int| 0 <= i < cs.drop_first().len() && (#[trigger] cs.drop_first()[i]) is Some implies length_fits(
            cs.drop_first()[i]->Some_0.len(),
        ) by {
            assert(cs.drop_first()[i] == cs[i + 1]);
        }
        assert forall|i: int| 0 <= i < cs.drop_first().len() && (#[trigger] cs.drop_first()[i]) is None implies optional.drop_first()[i] by {
            assert(cs.drop_first()[i] == cs[i + 1]);
        }
        match cs[0] {
            Some(c) => {
                let e = tlv(tags[0], c);
                assert(run == e + tail);
                let after = pos + e.len();
                let bs = b.subrange(pos as int, b.len() as int);
                assert(b[pos as int] == bs[0]);
                assert(bs =~= seq![tags[0]] + enc_length(c.len()) + (c + tail));
                lemma_tag_length_round_trip(tags[0], c.len(), c + tail);
                crate::grammar::lemma_enc_length(c.len());
                let h = enc_length(c.len()).len() + 1;
                assert(e.len() == h + c.len());
                assert(bs == e + tail);
                assert(bs.subrange(e.len() as int, bs.len() as int) =~= tail);
                assert(b.subrange(after as int, b.len() as int) =~= bs.subrange(e.len() as int, bs.len() as int));
                assert(e.subrange(h as int, e.len() as int) =~= c);
                assert(bs.subrange(h as int, e.len() as int) =~= e.subrange(h as int, e.len() as int));
                assert(b.subrange((pos + h) as int, after as int) =~= bs.subrange(h as int, e.len() as int));
                lemma_read_run(b, after, tags.drop_first(), cs.drop_first(), optional.drop_first());
                let all = read_slots(b, pos, tags, optional)->Some_0.0;
                let rest = read_slots(b, after, tags.drop_first(), optional.drop_first())->Some_0.0;
                assert(read_element(b, pos) == Some((tags[0], pos + h, after)));
                assert(all == seq![Some((pos + h, after))] + rest);
                assert(b.subrange((pos + h) as int, after as int) =~= c);
                assert forall|i: int| 0 <= i < tags.len() implies (#[trigger] all[i]) is Some == cs[i] is Some by {
                    if i > 0 {
                        assert(all[i] == rest[i - 1]);
                        assert(cs[i] == cs.drop_first()[i - 1]);
                    }
                }
                assert forall|i: int| 0 <= i < tags.len() && (#[trigger] cs[i]) is Some implies slot_bytes(b, all[i])
                    == cs[i]->Some_0 by {
                    if i > 0 {
                        assert(all[i] == rest[i - 1]);
                        assert(cs[i] == cs.drop_first()[i - 1]);
                    }
                }
            },
            None => {
                assert(run =~= tail);
                assert(optional[0]);
                if pos < b.len() {
                    let bs = b.subrange(pos as int, b.len() as int);
                    assert(bs.len() > 0);
                    lemma_opt_tlv_seq_first(tags.drop_first(), cs.drop_first());
                    let j = choose|j: int| 0 <= j < tags.drop_first().len() && cs.drop_first()[j] is Some
                        && tail[0] == #[trigger] tags.drop_first()[j];
                    assert(tags.drop_first()[j] == tags[j + 1]);
                    assert(b[pos as int] == bs[0]);
                    assert(b[pos as int] != tags[0]);
                }
                lemma_read_run(b, pos, tags.drop_first(), cs.drop_first(), optional.drop_first());
                let all = read_slots(b, pos, tags, optional)->Some_0.0;
                let rest = read_slots(b, pos, tags.drop_first(), optional.drop_first())->Some_0.0;
                assert(all == seq![None::<(nat, nat)>] + rest);
                assert forall|i: int| 0 <= i < tags.len() implies (#[trigger] all[i]) is Some == cs[i] is Some by {
                    if i > 0 {
                        assert(all[i] == rest[i - 1]);
                        assert(cs[i] == cs.drop_first()[i - 1]);
                    }
                }
                assert forall|i: int| 0 <= i < tags.len() && (#[trigger] cs[i]) is Some implies slot_bytes(b, all[i])
                    == cs[i]->Some_0 by {
                    if i > 0 {
                        assert(all[i] == rest[i - 1]);
                        assert(cs[i] == cs.drop_first()[i - 1]);
                    }
                }
            },
        }
    }
}

/// The field contents of a GOOSE APDU, in tag order.
pub open spec fn goose_contents(g: GooseModel) -> Seq<Option<Seq<u8>>> {
    seq![
        Some(encode_utf8(g.go_cb_ref)),
        Some(uint_content(g.time_allowed_to_live as nat)),
        Some(encode_utf8(g.dat_set)),
        Some(encode_utf8(g.go_id)),
        Some(timestamp_bytes(g.t)),
        Some(uint_content(g.st_num as nat)),
        Some(uint_content(g.sq_num as nat)),
        Some(bool_content(g.simulation)),
        Some(uint_content(g.conf_rev as nat)),
        Some(bool_content(g.nds_com)),
        Some(uint_content(g.all_data.len())),
        Some(enc_list(g.all_data)),
    ]
}

/// The same run, built from its last element backwards.
pub open spec fn run_back(tags: Seq<u8>, cs: Seq<Option<Seq<u8>>>) -> Seq<u8>
    decreases tags.len(),
{
    if tags.len() == 0 || cs.len() == 0 {
        Seq::empty()
    } else {
        run_back(tags.drop_last(), cs.drop_last()) + (match cs.last() {
            Some(c) => tlv(tags.last(), c),
            None => Seq::empty(),
        })
    }
}

pub proof fn lemma_run_append_one(tags: Seq<u8>, cs: Seq<Option<Seq<u8>>>, t: u8, c: Option<Seq<u8>>)
    requires
        tags.len() == cs.len(),
    ensures
        opt_tlv_seq(tags.push(t), cs.push(c)) =~= opt_tlv_seq(tags, cs) + (match c {
            Some(x) => tlv(t, x),
            None => Seq::empty(),
        }),
    decreases tags.len(),
{
    if tags.len() > 0 {
        assert(tags.push(t).drop_first() =~= tags.drop_first().push(t));
        assert(cs.push(c).drop_first() =~= cs.drop_first().push(c));
        lemma_run_append_one(tags.drop_first(), cs.drop_first(), t, c);
        assert(tags.push(t)[0] == tags[0]);
        assert(cs.push(c)[0] == cs[0]);
    } else {
        assert(tags.push(t).drop_first().len() == 0);
        assert(cs.push(c).drop_first().len() == 0);
        assert(tags.push(t)[0] == t);
        assert(cs.push(c)[0] == c);
        assert(opt_tlv_seq(tags.push(t).drop_first(), cs.push(c).drop_first()) == Seq::<u8>::empty());
        assert(opt_tlv_seq(tags, cs) == Seq::<u8>::empty());
    }
}

pub proof fn lemma_run_back(tags: Seq<u8>, cs: Seq<Option<Seq<u8>>>)
    requires
        tags.len() == cs.len(),
    ensures
        run_back(tags, cs) =~= opt_tlv_seq(tags, cs),
    decreases tags.len(),
{
    if tags.len() > 0 {
        lemma_run_back(tags.drop_last(), cs.drop_last());
        lemma_run_append_one(tags.drop_last(), cs.drop_last(), tags.last(), cs.last());
        assert(tags.drop_last().push(tags.last()) =~= tags);
        assert(cs.drop_last().push(cs.last()) =~= cs);
    }
}

pub proof fn lemma_goose_body_run(g: GooseModel)
    ensures
        goose_body(g) =~= opt_tlv_seq(goose_tags(), goose_contents(g)),
{
    reveal_with_fuel(run_back, 13);
    assert(goose_body(g) =~= run_back(goose_tags(), goose_contents(g)));
    lemma_run_back(goose_tags(), goose_contents(g));
}

pub proof fn lemma_goose_contents_fit(g: GooseModel)
    requires
        goose_fits(g),
        g.num_dat_set_entries == g.all_data.len(),
    ensures
        forall|i: int| 0 <= i < 12 && (#[trigger] goose_contents(g)[i]) is Some ==> length_fits(
            goose_contents(g)[i]->Some_0.len(),
        ),
        forall|i: int| 0 <= i < 12 ==> (#[trigger] goose_contents(g)[i]) is Some,
{
    lemma_be_bytes_len(g.t.seconds as nat, 4);
    lemma_be_bytes_len(g.t.fraction as nat % 0x100_0000, 3);
    lemma_uint_content(g.time_allowed_to_live as nat);
    lemma_uint_content(g.st_num as nat);
    lemma_uint_content(g.sq_num as nat);
    lemma_uint_content(g.conf_rev as nat);
    lemma_uint_content(g.all_data.len());
    crate::grammar::lemma_list_size_is_encoded_length(g.all_data);
}

/// The twelve contents of an APDU describe the APDU.
pub proof fn lemma_goose_fields(g: GooseModel, c: Seq<Seq<u8>>)
    requires
        list_fits(g.all_data),
        list_valid(g.all_data, MAX_DEPTH as nat),
        g.t.wf(),
        g.num_dat_set_entries == g.all_data.len(),
        c.len() == 12,
        forall|i: int| 0 <= i < 12 ==> #[trigger] c[i] == goose_contents(g)[i]->Some_0,
    ensures
        goose_of_fields(c) == Some(g),
{
    lemma_timestamp_round_trip(g.t);
    lemma_uint_content(g.time_allowed_to_live as nat);
    lemma_uint_content(g.st_num as nat);
    lemma_uint_content(g.sq_num as nat);
    lemma_uint_content(g.conf_rev as nat);
    lemma_uint_content(g.all_data.len());
    lemma_text_round_trip(g.go_cb_ref);
    lemma_text_round_trip(g.dat_set);
    lemma_text_round_trip(g.go_id);
    lemma_list_round_trip(g.all_data, MAX_DEPTH as nat);
    assert(c[0] == encode_utf8(g.go_cb_ref));
    assert(c[1] == uint_content(g.time_allowed_to_live as nat));
    assert(c[2] == encode_utf8(g.dat_set));
    assert(c[3] == encode_utf8(g.go_id));
    assert(c[4] == timestamp_bytes(g.t));
    assert(c[5] == uint_content(g.st_num as nat));
    assert(c[6] == uint_content(g.sq_num as nat));
    assert(c[7] == bool_content(g.simulation));
    assert(c[8] == uint_content(g.conf_rev as nat));
    assert(c[9] == bool_content(g.nds_com));
    assert(c[10] == uint_content(g.all_data.len()));
    assert(c[11] == enc_list(g.all_data));
}

/// An APDU whose body is the run of `g`'s fields reads back as `g`.
#[verifier::spinoff_prover]
proof fn lemma_goose_run_parses(s: Seq<u8>, p: nat, body: Seq<u8>, rest: Seq<u8>, g: GooseModel)
    requires
        p <= s.len(),
        s.subrange(p as int, s.len() as int) == seq![0x61u8] + enc_length(body.len()) + (body + rest),
        length_fits(body.len()),
        body == opt_tlv_seq(goose_tags(), goose_contents(g)),
        forall|i: int| 0 <= i < 12 && (#[trigger] goose_contents(g)[i]) is Some ==> length_fits(
            goose_contents(g)[i]->Some_0.len(),
        ),
        forall|i: int| 0 <= i < 12 ==> (#[trigger] goose_contents(g)[i]) is Some,
        list_fits(g.all_data),
        list_valid(g.all_data, MAX_DEPTH as nat),
        g.t.wf(),
        g.num_dat_set_entries == g.all_data.len(),
    ensures
        parse_goose_pdu(s, p) == Some(g),
{
    let cs = goose_contents(g);
    lemma_tag_length_round_trip(0x61, body.len(), body + rest);
    crate::grammar::lemma_enc_length(body.len());
    let h = enc_length(body.len()).len() + 1;
    let cstart = p + h;
    let nx = cstart + body.len();
    assert(read_element(s, p) == Some((0x61u8, cstart, nx)));
    let b = s.subrange(0, nx as int);
    let tail = s.subrange(p as int, s.len() as int);
    assert(tail.subrange(h as int, (h + body.len()) as int) =~= body);
    assert(b.subrange(cstart as int, b.len() as int) =~= tail.subrange(h as int, (h + body.len()) as int));
    assert forall|i: int, j: int| 0 <= i < j < 12 implies goose_tags()[i] != goose_tags()[j] by {}
    assert forall|i: int| 0 <= i < cs.len() && (#[trigger] cs[i]) is None implies all_required(12)[i] by {}
    lemma_read_run(b, cstart, goose_tags(), cs, all_required(12));
    let slots = read_slots(b, cstart, goose_tags(), all_required(12))->Some_0.0;
    let c = Seq::new(12, |i: int| slot_bytes(b, slots[i]));
    assert forall|i: int| 0 <= i < 12 implies #[trigger] c[i] == goose_contents(g)[i]->Some_0 by {
        assert(cs[i] is Some);
    }
    lemma_goose_fields(g, c);
}

/// GOOSE APDUs survive encoding: for every APDU whose lengths can be written,
/// whose values read back as written, and whose entry count is the number of
/// its values, reading the encoded APDU (wherever it stands in a frame) gives
/// the APDU again.
#[verifier::spinoff_prover]
#[verifier::rlimit(60)]
pub proof fn lemma_goose_round_trip(g: GooseModel, prefix: Seq<u8>, rest: Seq<u8>)
    requires
        goose_fits(g),
        list_valid(g.all_data, MAX_DEPTH as nat),
        g.t.wf(),
        g.num_dat_set_entries == g.all_data.len(),
    ensures
        parse_goose_pdu(prefix + goose_pdu_bytes(g) + rest, prefix.len()) == Some(g),
{
    let body = goose_body(g);
    let s = prefix + goose_pdu_bytes(g) + rest;
    lemma_goose_body_run(g);
    lemma_goose_contents_fit(g);
    assert(s.subrange(prefix.len() as int, s.len() as int) =~= seq![0x61u8] + enc_length(body.len()) + (body + rest));
    lemma_goose_run_parses(s, prefix.len(), body, rest, g);
}

/// A minimal two's-complement form needs all its bytes: the number lies
/// outside the range of one byte less.
pub proof fn lemma_minimal_needs_bytes(m: Seq<u8>)
    requires
        m.len() >= 2,
        !redundant_pair(m[0], m[1]),
    ensures
        2 * be_int(m) >= pow256((m.len() - 1) as nat) || 2 * be_int(m) < -(pow256((m.len() - 1) as nat) as int),
{
    let n = m.len();
    let t = m.drop_first();
    lemma_be_uint_first(m);
    lemma_be_uint_first(t);
    lemma_be_uint_bound(t);
    lemma_be_uint_bound(t.drop_first());
    lemma_pow256_facts((n - 2) as nat);
    lemma_pow256_facts((n - 1) as nat);
    let p = pow256((n - 2) as nat);
    let q = pow256((n - 1) as nat);
    assert(q == 256 * p);
    assert(pow256(n as nat) == 256 * q);
    let b0 = m[0] as nat;
    let b1 = t[0] as nat;
    let r = be_uint(t.drop_first());
    assert(be_uint(t) == b1 * p + r);
    assert(be_uint(m) == b0 * q + be_uint(t));
    if b0 == 0 {
        assert(b1 >= 128);
        assert(b1 * p >= 128 * p) by (nonlinear_arith)
            requires b1 >= 128;
    } else if b0 == 255 {
        assert(b1 < 128);
        assert(b1 * p + r < 128 * p) by (nonlinear_arith)
            requires b1 < 128, r < p;
        assert(255 * q + be_uint(t) - 256 * q < -(q as int) / 2 + 1);
    } else if b0 < 128 {
        assert(b0 * q >= q) by (nonlinear_arith)
            requires b0 >= 1;
    } else {
        assert(b0 * q <= 254 * q) by (nonlinear_arith)
            requires b0 <= 254;
    }
}

/// A 32-bit sample value takes at most four bytes.
pub proof fn lemma_i32_content(v: i32)
    ensures
        1 <= signed_content(v as int).len() <= 4,
        be_int(signed_content(v as int)) == v,
{
    lemma_signed_content(v as int);
    let m = signed_content(v as int);
    reveal_with_fuel(pow256, 9);
    lemma_be_bytes_len(twos(v as int, 8), 8);
    lemma_strip_sign(be_bytes(twos(v as int, 8), 8));
    if m.len() > 4 {
        lemma_minimal_needs_bytes(m);
        lemma_pow_le(4, (m.len() - 1) as nat);
    }
}

/// A sample reads back from its encoding, whatever follows it.
pub proof fn lemma_sample_round_trip(x: Sample, rest: Seq<u8>)
    ensures
        first_sample(sample_bytes(x) + rest) == Some((x, sample_bytes(x).len())),
{
    let v = signed_content(x.value as int);
    let qc = seq![3u8] + be_bytes(quality_bits(x.quality) as nat, 2);
    let e1 = tlv(0x83, v);
    let e2 = tlv(0x84, qc);
    let c = sample_bytes(x) + rest;
    lemma_i32_content(x.value);
    lemma_be_bytes_len(quality_bits(x.quality) as nat, 2);
    crate::grammar::lemma_enc_length(v.len());
    crate::grammar::lemma_enc_length(qc.len());
    assert(c.subrange(0, c.len() as int) =~= seq![0x83u8] + enc_length(v.len()) + (v + (e2 + rest)));
    lemma_tag_length_round_trip(0x83, v.len(), v + (e2 + rest));
    let h1 = enc_length(v.len()).len() + 1;
    assert(read_element(c, 0) == Some((0x83u8, h1, h1 + v.len())));
    let nx1 = h1 + v.len();
    assert(nx1 == e1.len());
    assert(c.subrange(nx1 as int, c.len() as int) =~= seq![0x84u8] + enc_length(qc.len()) + (qc + rest));
    lemma_tag_length_round_trip(0x84, qc.len(), qc + rest);
    let h2 = enc_length(qc.len()).len() + 1;
    assert(read_element(c, nx1) == Some((0x84u8, nx1 + h2, nx1 + h2 + qc.len())));
    assert(c.subrange(h1 as int, nx1 as int) =~= v);
    assert(c.subrange((nx1 + h2 + 1) as int, (nx1 + h2 + qc.len()) as int) =~= be_bytes(quality_bits(x.quality) as nat, 2));
    reveal_with_fuel(pow256, 3);
    lemma_be_bytes(quality_bits(x.quality) as nat, 2);
    lemma_quality_round_trip(x.quality);
}

pub proof fn lemma_samples_first(s: Seq<Sample>)
    requires
        s.len() > 0,
    ensures
        samples_bytes(s) =~= sample_bytes(s[0]) + samples_bytes(s.drop_first()),
    decreases s.len(),
{
    if s.len() > 1 {
        lemma_samples_first(s.drop_last());
        assert(s.drop_last().drop_first() =~= s.drop_first().drop_last());
        assert(s.drop_first().last() == s.last());
        assert(s.drop_last()[0] == s[0]);
        assert(samples_bytes(s) == samples_bytes(s.drop_last()) + sample_bytes(s.last()));
        assert(samples_bytes(s.drop_first()) == samples_bytes(s.drop_first().drop_last()) + sample_bytes(
            s.drop_first().last(),
        ));
    } else {
        assert(s.drop_first().len() == 0);
        assert(s.drop_last().len() == 0);
        assert(s.last() == s[0]);
        assert(samples_bytes(s) == samples_bytes(s.drop_last()) + sample_bytes(s.last()));
        assert(samples_bytes(s.drop_last()) == Seq::<u8>::empty());
        assert(samples_bytes(s.drop_first()) == Seq::<u8>::empty());
    }
}

/// Samples read back from their encodings.
pub proof fn lemma_samples_round_trip(s: Seq<Sample>)
    ensures
        parse_samples(samples_bytes(s)) == Some(s),
    decreases s.len(),
{
    if s.len() > 0 {
        lemma_samples_first(s);
        let rest = s.drop_first();
        lemma_sample_round_trip(s[0], samples_bytes(rest));
        let e = samples_bytes(s);
        let k = sample_bytes(s[0]).len();
        assert(e.subrange(k as int, e.len() as int) =~= samples_bytes(rest));
        lemma_samples_round_trip(rest);
        assert(seq![s[0]] + rest =~= s);
        assert(k > 0);
    } else {
        assert(samples_bytes(s).len() == 0);
    }
}

/// The field contents of an ASDU, in tag order; absent fields are `None`.
pub open spec fn asdu_contents(a: AsduModel) -> Seq<Option<Seq<u8>>> {
    seq![
        Some(encode_utf8(a.msv_id)),
        opt_utf8(a.dat_set),
        Some(uint_content(a.smp_cnt as nat)),
        Some(uint_content(a.conf_rev as nat)),
        a.refr_tm,
        Some(uint_content(a.smp_synch as nat)),
        opt_uint(a.smp_rate),
        Some(samples_bytes(a.all_data)),
        opt_uint(a.smp_mod),
        a.gm_identity,
    ]
}

/// The eight-octet fields hold eight octets.
pub open spec fn asdu_valid(a: AsduModel) -> bool {
    &&& (a.refr_tm matches Some(t) ==> t.len() == 8)
    &&& (a.gm_identity matches Some(t) ==> t.len() == 8)
}

pub proof fn lemma_asdu_body_run(a: AsduModel)
    ensures
        asdu_body(a) =~= opt_tlv_seq(asdu_tags(), asdu_contents(a)),
{
    reveal_with_fuel(run_back, 11);
    assert(asdu_body(a) =~= run_back(asdu_tags(), asdu_contents(a)));
    lemma_run_back(asdu_tags(), asdu_contents(a));
}

pub proof fn lemma_small_uints(a: AsduModel)
    ensures
        crate::grammar::uint_ok(uint_content(a.smp_cnt as nat), 2),
        be_uint(uint_content(a.smp_cnt as nat)) == a.smp_cnt,
        crate::grammar::uint_ok(uint_content(a.conf_rev as nat), 4),
        be_uint(uint_content(a.conf_rev as nat)) == a.conf_rev,
        crate::grammar::uint_ok(uint_content(a.smp_synch as nat), 1),
        be_uint(uint_content(a.smp_synch as nat)) == a.smp_synch,
        a.smp_rate matches Some(r) ==> crate::grammar::uint_ok(uint_content(r as nat), 2) && be_uint(uint_content(r as nat)) == r,
        a.smp_mod matches Some(r) ==> crate::grammar::uint_ok(uint_content(r as nat), 2) && be_uint(uint_content(r as nat)) == r,
        uint_content(a.smp_cnt as nat).len() <= 3,
        uint_content(a.conf_rev as nat).len() <= 5,
        uint_content(a.smp_synch as nat).len() <= 2,
{
    reveal_with_fuel(pow256, 5);
    lemma_uint_content_w(a.smp_cnt as nat, 2);
    lemma_uint_content_w(a.conf_rev as nat, 4);
    lemma_uint_content_w(a.smp_synch as nat, 1);
    if let Some(r) = a.smp_rate {
        lemma_uint_content_w(r as nat, 2);
    }
    if let Some(r) = a.smp_mod {
        lemma_uint_content_w(r as nat, 2);
    }
}

/// An ASDU whose body lies between `cs` and `nx` reads back.
#[verifier::spinoff_prover]
pub proof fn lemma_asdu_parses(s: Seq<u8>, cs: nat, nx: nat, a: AsduModel)
    requires
        cs <= nx <= s.len(),
        s.subrange(cs as int, nx as int) == asdu_body(a),
        asdu_fits(a),
        asdu_valid(a),
    ensures
        parse_asdu(s, cs, nx) == Some(a),
{
    let b = s.subrange(0, nx as int);
    let c = asdu_contents(a);
    lemma_asdu_body_run(a);
    lemma_small_uints(a);
    assert(b.subrange(cs as int, b.len() as int) =~= s.subrange(cs as int, nx as int));
    assert forall|i: int, j: int| 0 <= i < j < 10 implies asdu_tags()[i] != asdu_tags()[j] by {}
    assert forall|i: int| 0 <= i < c.len() && (#[trigger] c[i]) is Some implies length_fits(c[i]->Some_0.len()) by {}
    assert forall|i: int| 0 <= i < c.len() && (#[trigger] c[i]) is None implies asdu_optional()[i] by {}
    lemma_read_run(b, cs, asdu_tags(), c, asdu_optional());
    let sl = read_slots(b, cs, asdu_tags(), asdu_optional())->Some_0.0;
    assert forall|i: int| 0 <= i < 10 implies (#[trigger] sl[i]) is Some == c[i] is Some
        && (c[i] is Some ==> slot_bytes(b, sl[i]) == c[i]->Some_0) by {}
    lemma_samples_round_trip(a.all_data);
    lemma_text_round_trip(a.msv_id);
    if let Some(t) = a.dat_set {
        lemma_text_round_trip(t);
    }
    assert(sl[1] is Some == a.dat_set is Some);
    assert(sl[4] is Some == a.refr_tm is Some);
    assert(sl[6] is Some == a.smp_rate is Some);
    assert(sl[8] is Some == a.smp_mod is Some);
    assert(sl[9] is Some == a.gm_identity is Some);
    assert(crate::decode_smv::opt_slot_text(b, sl[1]) == a.dat_set);
    assert(crate::decode_smv::opt_slot_bytes(b, sl[4]) == a.refr_tm);
    assert(crate::decode_smv::opt_slot_u16(b, sl[6]) == a.smp_rate);
    assert(crate::decode_smv::opt_slot_u16(b, sl[8]) == a.smp_mod);
    assert(crate::decode_smv::opt_slot_bytes(b, sl[9]) == a.gm_identity);
}

pub proof fn lemma_asdus_first(s: Seq<AsduModel>)
    requires
        s.len() > 0,
    ensures
        asdus_bytes(s) =~= asdu_bytes(s[0]) + asdus_bytes(s.drop_first()),
    decreases s.len(),
{
    if s.len() > 1 {
        lemma_asdus_first(s.drop_last());
        assert(s.drop_last().drop_first() =~= s.drop_first().drop_last());
        assert(s.drop_first().last() == s.last());
        assert(s.drop_last()[0] == s[0]);
        assert(asdus_bytes(s) == asdus_bytes(s.drop_last()) + asdu_bytes(s.last()));
        assert(asdus_bytes(s.drop_first()) == asdus_bytes(s.drop_first().drop_last()) + asdu_bytes(s.drop_first().last()));
    } else {
        assert(s.drop_first().len() == 0);
        assert(s.drop_last().len() == 0);
        assert(s.last() == s[0]);
        assert(asdus_bytes(s) == asdus_bytes(s.drop_last()) + asdu_bytes(s.last()));
        assert(asdus_bytes(s.drop_last()) == Seq::<u8>::empty());
        assert(asdus_bytes(s.drop_first()) == Seq::<u8>::empty());
    }
}

/// An element with tag `tag` and content `body` at `pos`, inside the bytes up to `end`.
pub proof fn lemma_element_at(s: Seq<u8>, pos: nat, end: nat, tag: u8, body: Seq<u8>, after: Seq<u8>)
    requires
        pos <= end <= s.len(),
        s.subrange(pos as int, end as int) == tlv(tag, body) + after,
        length_fits(body.len()),
    ensures
        read_element(s.subrange(0, end as int), pos) == Some(
            (tag, pos + enc_length(body.len()).len() + 1, pos + tlv(tag, body).len()),
        ),
        s.subrange((pos + enc_length(body.len()).len() + 1) as int, (pos + tlv(tag, body).len()) as int) == body,
        s.subrange((pos + tlv(tag, body).len()) as int, end as int) == after,
{
    let w = s.subrange(0, end as int);
    let x = s.subrange(pos as int, end as int);
    assert(w.subrange(pos as int, w.len() as int) =~= x);
    assert(x =~= seq![tag] + enc_length(body.len()) + (body + after));
    lemma_tag_length_round_trip(tag, body.len(), body + after);
    crate::grammar::lemma_enc_length(body.len());
    let h = enc_length(body.len()).len() + 1;
    assert(x.subrange(h as int, (h + body.len()) as int) =~= body);
    assert(s.subrange((pos + h) as int, (pos + h + body.len()) as int) =~= x.subrange(h as int, (h + body.len()) as int));
    assert(x.subrange((h + body.len()) as int, x.len() as int) =~= after);
    assert(s.subrange((pos + h + body.len()) as int, end as int) =~= x.subrange((h + body.len()) as int, x.len() as int));
}

/// Where the simulation bit of a written header lies.
pub proof fn lemma_header_sim(h: EthernetHeader, length: u16, sim: bool, tail: Seq<u8>)
    requires
        header_ok(h),
    ensures
        sim_bit(header_bytes(h, length, sim) + tail) == Some(sim),
        header_bytes(h, length, sim).len() == (if h.tpid is Some && h.tci is Some { 26nat } else { 22nat }),
{
    let hb = header_bytes(h, length, sim);
    let f = hb + tail;
    lemma_be_bytes_len(length as nat, 2);
    if h.tpid is Some && h.tci is Some {
        assert(hb.len() == 26);
        assert(f[12] == h.tpid->Some_0@[0] && f[13] == h.tpid->Some_0@[1]);
        assert(f[22] == (if sim { 0x80u8 } else { 0x00u8 }));
    } else {
        assert(hb.len() == 22);
        assert(f[12] == h.ether_type@[0] && f[13] == h.ether_type@[1]);
        if f[12] == 0x81 && f[13] == 0x00 {
            assert(h.ether_type@ =~= seq![0x81u8, 0x00u8]);
        }
        assert(f[18] == (if sim { 0x80u8 } else { 0x00u8 }));
    }
}

/// ASDUs between `pos` and `end` read back.
#[verifier::spinoff_prover]
#[verifier::rlimit(60)]
pub proof fn lemma_asdus_parse(s: Seq<u8>, pos: nat, end: nat, list: Seq<AsduModel>)
    requires
        pos <= end <= s.len(),
        s.subrange(pos as int, end as int) == asdus_bytes(list),
        forall|i: int| 0 <= i < list.len() ==> asdu_fits(#[trigger] list[i]) && asdu_valid(list[i]),
    ensures
        parse_asdus(s, pos, end) == Some(list),
    decreases list.len(),
{
    if list.len() == 0 {
        assert(asdus_bytes(list).len() == 0);
    } else {
        lemma_asdus_first(list);
        let a = list[0];
        let rest = list.drop_first();
        let body = asdu_body(a);
        lemma_element_at(s, pos, end, 0x30, body, asdus_bytes(rest));
        let h = enc_length(body.len()).len() + 1;
        let nx = pos + tlv(0x30u8, body).len();
        lemma_asdu_parses(s, pos + h, nx, a);
        assert forall|i: int| 0 <= i < rest.len() implies asdu_fits(#[trigger] rest[i]) && asdu_valid(rest[i]) by {
            assert(rest[i] == list[i + 1]);
        }
        lemma_asdus_parse(s, nx, end, rest);
        assert(seq![a] + rest =~= list);
    }
}

/// Every ASDU's eight-octet fields hold eight octets.
pub open spec fn sav_valid(p: SavModel) -> bool {
    forall|i: int| 0 <= i < p.sav_asdu.len() ==> asdu_valid(#[trigger] p.sav_asdu[i])
}

/// The body of an APDU between `cs` and `nx` reads back, given the simulation bit.
#[verifier::spinoff_prover]
#[verifier::rlimit(60)]
proof fn lemma_sav_body_parses(s: Seq<u8>, pos: nat, body: Seq<u8>, rest: Seq<u8>, m: SavModel)
    requires
        pos <= s.len(),
        s.subrange(pos as int, s.len() as int) == seq![0x60u8] + enc_length(body.len()) + (body + rest),
        body == tlv(0x80, uint_content(m.no_asdu as nat)) + crate::encode_smv::opt_tlv(0x81, m.security) + tlv(
            0xA2,
            asdus_bytes(m.sav_asdu),
        ),
        sav_fits(m),
        sav_valid(m),
        sim_bit(s) == Some(m.sim),
    ensures
        parse_sav_pdu(s, pos) == Some(m),
{
    let tags = seq![0x80u8, 0x81u8, 0xA2u8];
    let opt = seq![false, true, false];
    let c = seq![Some(uint_content(m.no_asdu as nat)), m.security, Some(asdus_bytes(m.sav_asdu))];
    reveal_with_fuel(run_back, 4);
    assert(body =~= run_back(tags, c));
    lemma_run_back(tags, c);
    lemma_tag_length_round_trip(0x60, body.len(), body + rest);
    crate::grammar::lemma_enc_length(body.len());
    let h = enc_length(body.len()).len() + 1;
    let cs = pos + h;
    let nx = cs + body.len();
    assert(read_element(s, pos) == Some((0x60u8, cs, nx)));
    let b = s.subrange(0, nx as int);
    let tail = s.subrange(pos as int, s.len() as int);
    assert(tail.subrange(h as int, (h + body.len()) as int) =~= body);
    assert(b.subrange(cs as int, b.len() as int) =~= tail.subrange(h as int, (h + body.len()) as int));
    reveal_with_fuel(pow256, 3);
    lemma_uint_content_w(m.no_asdu as nat, 2);
    assert forall|i: int, j: int| 0 <= i < j < 3 implies tags[i] != tags[j] by {}
    assert forall|i: int| 0 <= i < c.len() && (#[trigger] c[i]) is Some implies length_fits(c[i]->Some_0.len()) by {}
    assert forall|i: int| 0 <= i < c.len() && (#[trigger] c[i]) is None implies opt[i] by {}
    lemma_read_run(b, cs, tags, c, opt);
    let sl = read_slots(b, cs, tags, opt)->Some_0.0;
    assert(sl[0] is Some && slot_bytes(b, sl[0]) == c[0]->Some_0);
    assert(sl[2] is Some && slot_bytes(b, sl[2]) == c[2]->Some_0);
    assert(sl[1] is Some == m.security is Some);
    if sl[1] is Some {
        assert(slot_bytes(b, sl[1]) == c[1]->Some_0);
    }
    assert(crate::decode_smv::opt_slot_bytes(b, sl[1]) == m.security);
    crate::grammar::lemma_slots_facts(b, cs, tags, opt);
    let (a2, e2) = sl[2]->Some_0;
    assert(a2 <= e2 <= b.len());
    assert(s.subrange(a2 as int, e2 as int) =~= b.subrange(a2 as int, e2 as int));
    lemma_asdus_parse(s, a2, e2, m.sav_asdu);
}

/// A frame header that its readers recognise: a tag, when there is one,
/// starts with 0x8100, and an untagged frame's EtherType is not 0x8100.
pub open spec fn header_ok(h: EthernetHeader) -> bool {
    if h.tpid is Some && h.tci is Some {
        h.tpid->Some_0@ == seq![0x81u8, 0x00u8]
    } else {
        h.ether_type@ != seq![0x81u8, 0x00u8]
    }
}

/// Sampled Values APDUs survive encoding: in a frame whose header its
/// readers recognise, the APDU read after the header is the APDU written,
/// simulation bit included, for every APDU whose lengths can be written and
/// whose eight-octet fields hold eight octets.
#[verifier::spinoff_prover]
#[verifier::rlimit(60)]
pub proof fn lemma_sav_round_trip(h: EthernetHeader, length: u16, m: SavModel, rest: Seq<u8>)
    requires
        header_ok(h),
        sav_fits(m),
        sav_valid(m),
    ensures
        parse_sav_pdu(header_bytes(h, length, m.sim) + sav_pdu_bytes(m) + rest, header_bytes(h, length, m.sim).len())
            == Some(m),
{
    let hb = header_bytes(h, length, m.sim);
    let pdu = sav_pdu_bytes(m);
    let f = hb + pdu + rest;
    let body = tlv(0x80, uint_content(m.no_asdu as nat)) + crate::encode_smv::opt_tlv(0x81, m.security) + tlv(
        0xA2,
        asdus_bytes(m.sav_asdu),
    );
    lemma_header_sim(h, length, m.sim, pdu + rest);
    assert(f =~= hb + (pdu + rest));
    assert(f.subrange(hb.len() as int, f.len() as int) =~= seq![0x60u8] + enc_length(body.len()) + (body + rest));
    lemma_sav_body_parses(f, hb.len(), body, rest, m);
}

} // verus!
