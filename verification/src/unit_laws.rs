//! What holds of NAL units and of what is found in them, byte by byte.
use crate::afgs1_read::parsed_payload;
use crate::afgs1_read_laws::{codes_match, number_at};
use crate::afgs1_write::afgs1_payload;
use crate::bits::{bits_of, byte_bit, law_numbers_join, lemma_byte_value, uint};
use crate::error::Error;
use crate::escape::{
    all_zero, ebsp_of, law_escape_round_trip, law_runs_counted, no_long_run, rbsp_of,
};
use crate::grain::GrainModel;
use crate::nal::{
    annex_b_from, be_bytes, be_number, be_value, code_len, flatten, is_sei, is_vcl, kind_of,
    lemma_next_code, length_prefixed, nals_of, next_code, NalModel, PacketFormat,
};
use crate::nal_laws::{
    all_coded, all_framed, framed, law_annex_b_lossless, law_length_round_trip, law_nals_lossless,
};
use crate::packet::{
    afgs1_nal, carries, edited, first_payload, has_vcl, holds_picture, law_readable_scannable,
    lemma_nal_sizes, modified, nal_payload, nal_readable, nals_payload, packet_grain, readable,
    scannable, sei_nal, with_prefix,
};
use crate::sei::{
    is_afgs1, law_short_messages_fit, lemma_unescaped_len, nal_messages, number_bytes,
};
use crate::video::ChromaSubsampling;
use vstd::arithmetic::power2::{lemma2_to64, pow2};
use vstd::prelude::*;

verus! {

/// Law: what a NAL unit is stands in six bits of its first byte. Coded picture data has the first
/// of them clear; SEI is 39 or 40. A NAL unit of fewer than two bytes is neither.
pub proof fn law_unit_kinds(nal: Seq<u8>)
    ensures
        nal.len() > 0 ==> 2 * kind_of(nal) == nal[0] & 0x7e,
        is_vcl(nal) <==> nal.len() >= 2 && nal[0] & 0x40 == 0,
        is_sei(nal) <==> nal.len() >= 2 && (nal[0] & 0x7e == 0x4e || nal[0] & 0x7e == 0x50),
{
    if nal.len() > 0 {
        let b = nal[0];
        assert(b & 0x7e == 2 * ((b / 2) % 64)) by (bit_vector);
        assert((b & 0x40 == 0) == ((b / 2) % 64 <= 31)) by (bit_vector);
        assert((b & 0x7e == 0x4e) == ((b / 2) % 64 == 39)) by (bit_vector);
        assert((b & 0x7e == 0x50) == ((b / 2) % 64 == 40)) by (bit_vector);
    }
}

/// Law: bytes are recognised as an AFGS1 payload by the same bits that make one readable: the
/// registration codes, and that grain is switched on.
pub proof fn law_recognised_by_codes(payload: Seq<u8>)
    ensures
        is_afgs1(payload) <==> payload.len() >= 5 && codes_match(bits_of(payload)) && bits_of(
            payload,
        )[32],
{
    let bits = bits_of(payload);
    if payload.len() >= 5 {
        lemma_byte_value(payload, 0);
        lemma_byte_value(payload, 1);
        lemma_byte_value(payload, 2);
        lemma_byte_value(payload, 3);
        assert(pow2(8) == 256) by {
            lemma2_to64();
        }
        let two = bits.subrange(8, 24);
        let (one, other) = (bits.subrange(8, 16), bits.subrange(16, 24));
        law_numbers_join(one, other);
        assert(one + other =~= two);
        assert(other.len() == 8);
        assert(uint(one) == payload[1] && uint(other) == payload[2]);
        let x = uint(one);
        let y = uint(other);
        let z = pow2(other.len());
        let w = uint(two);
        assert(w == 256 * x + y) by (nonlinear_arith)
            requires
                w == x * z + y,
                z == 256,
        ;
        let b = payload[4];
        assert(((b >> 7u8) & 1u8 == 1u8) == (b >= 0x80)) by (bit_vector);
        assert(bits[32] == byte_bit(b, 0));
        assert(number_at(bits, 8, 16) == uint(two));
    }
}

/// Law: the grain in a list of messages is the payload of the first that is registered user data,
/// type 4, and is recognised; `k` messages in front of it are not.
pub proof fn law_first_message_counts(list: Seq<(nat, Seq<u8>)>, k: int)
    requires
        0 <= k <= list.len(),
        forall|i: int| 0 <= i < k ==> (#[trigger] list[i]).0 != 4 || !is_afgs1(list[i].1),
    ensures
        k == list.len() ==> first_payload(list) is None,
        k < list.len() && list[k].0 == 4 && is_afgs1(list[k].1) ==> first_payload(list) == Some(
            list[k].1,
        ),
    decreases list.len(),
{
    if k > 0 {
        let rest = list.skip(1);
        assert forall|i: int| 0 <= i < k - 1 implies (#[trigger] rest[i]).0 != 4 || !is_afgs1(
            rest[i].1,
        ) by {
            assert(rest[i] == list[i + 1]);
        }
        assert(list[0].0 != 4 || !is_afgs1(list[0].1));
        law_first_message_counts(rest, k - 1);
        if k < list.len() {
            assert(rest[k - 1] == list[k]);
        }
    }
}

/// Law: a NAL unit carries grain only if it is SEI, and then the first of its messages that does
/// counts.
pub proof fn law_unit_grain(nal: Seq<u8>)
    ensures
        nal.len() >= 2 && (nal[0] & 0x7e == 0x4e || nal[0] & 0x7e == 0x50) ==> nal_payload(nal)
            == first_payload(nal_messages(nal)),
        nal.len() < 2 || (nal[0] & 0x7e != 0x4e && nal[0] & 0x7e != 0x50) ==> nal_payload(
            nal,
        ) is None,
{
    law_unit_kinds(nal);
}

/// Law: the grain in a list of NAL units is that of the first of them that carries any; `k` in
/// front of it carry none.
pub proof fn law_first_unit_counts(nals: Seq<NalModel>, k: int)
    requires
        0 <= k <= nals.len(),
        forall|i: int| 0 <= i < k ==> nal_payload((#[trigger] nals[i]).data) is None,
    ensures
        k == nals.len() ==> nals_payload(nals) is None,
        k < nals.len() && nal_payload(nals[k].data) is Some ==> nals_payload(nals) == nal_payload(
            nals[k].data,
        ),
    decreases nals.len(),
{
    if k > 0 {
        let rest = nals.skip(1);
        assert forall|i: int| 0 <= i < k - 1 implies nal_payload((#[trigger] rest[i]).data) is None
            by {
            assert(rest[i] == nals[i + 1]);
        }
        assert(nal_payload(nals[0].data) is None);
        law_first_unit_counts(rest, k - 1);
        if k < nals.len() {
            assert(rest[k - 1] == nals[k]);
        }
    }
}

/// Law: a packet carries grain if it can be taken apart and one of its NAL units does. The grain is
/// what the payload of the first of them describes, and a payload that is refused is told of.
pub proof fn law_packet_carries(data: Seq<u8>, k: int)
    requires
        nals_of(data) matches Ok(nals) ==> 0 <= k <= nals.len() && forall|i: int|
            0 <= i < k ==> nal_payload((#[trigger] nals[i]).data) is None,
    ensures
        match nals_of(data) {
            Err(e) => carries(data) == Err::<bool, Error>(e) && packet_grain(data) == Err::<
                Option<GrainModel>,
                Error,
            >(e),
            Ok(nals) => {
                &&& k == nals.len() ==> carries(data) == Ok::<bool, Error>(false) && packet_grain(
                    data,
                ) == Ok::<Option<GrainModel>, Error>(None)
                &&& k < nals.len() ==> (nal_payload(nals[k].data) matches Some(payload) ==> {
                    &&& carries(data) == Ok::<bool, Error>(true)
                    &&& match (parsed_payload(payload), packet_grain(data)) {
                        (Ok(p), Ok(Some(q))) => p == q,
                        (Err(e), Err(f)) => e == f,
                        _ => false,
                    }
                })
            },
        },
{
    if let Ok(nals) = nals_of(data) {
        law_first_unit_counts(nals, k);
    }
}

/// Law: a packet holds coded picture data if it can be taken apart and one of its NAL units, of
/// two bytes or more, says so in its first byte.
pub proof fn law_picture_held(data: Seq<u8>)
    ensures
        match (holds_picture(data), nals_of(data)) {
            (Ok(held), Ok(nals)) => held <==> exists|i: int|
                0 <= i < nals.len() && (#[trigger] nals[i]).data.len() >= 2 && nals[i].data[0]
                    & 0x40 == 0,
            (Err(e), Err(f)) => e == f,
            _ => false,
        },
{
    if let Ok(nals) = nals_of(data) {
        assert forall|i: int| 0 <= i < nals.len() implies is_vcl((#[trigger] nals[i]).data) == (
        nals[i].data.len() >= 2 && nals[i].data[0] & 0x40 == 0) by {
            law_unit_kinds(nals[i].data);
        }
        if has_vcl(nals) {
            let i = choose|i: int| 0 <= i < nals.len() && is_vcl((#[trigger] nals[i]).data);
            assert(nals[i].data.len() >= 2 && nals[i].data[0] & 0x40 == 0);
        }
        if exists|i: int|
            0 <= i < nals.len() && (#[trigger] nals[i]).data.len() >= 2 && nals[i].data[0] & 0x40
                == 0 {
            let i = choose|i: int|
                0 <= i < nals.len() && (#[trigger] nals[i]).data.len() >= 2 && nals[i].data[0]
                    & 0x40 == 0;
            assert(is_vcl(nals[i].data));
        }
    }
}

/// Law: a packet that can be read with lengths of four bytes is read so. One that cannot is read
/// with start codes if it begins with a start code, and refused as it was with lengths if not.
pub proof fn law_lengths_come_first(data: Seq<u8>)
    ensures
        length_prefixed(data, 4) is Ok ==> nals_of(data) == length_prefixed(data, 4),
        length_prefixed(data, 4) is Err ==> ({
            let coded = data.len() >= 3 && data[0] == 0 && data[1] == 0 && (data[2] == 1 || (
            data.len() >= 4 && data[2] == 0 && data[3] == 1));
            &&& coded ==> nals_of(data) == Ok::<Seq<NalModel>, Error>(annex_b_from(data, 0))
            &&& !coded ==> nals_of(data) == length_prefixed(data, 4)
        }),
{
}

/// Law: a length is the number that its bytes spell, the most significant one first.
pub proof fn law_length_spelled(a: u8, b: u8, c: u8, d: u8)
    ensures
        be_number(seq![a]) == a,
        be_number(seq![a, b]) == 0x100 * a + b,
        be_number(seq![a, b, c]) == 0x1_0000 * a + 0x100 * b + c,
        be_number(seq![a, b, c, d]) == 0x100_0000 * a + 0x1_0000 * b + 0x100 * c + d,
{
    let four = seq![a, b, c, d];
    let three = seq![a, b, c];
    let two = seq![a, b];
    let one = seq![a];
    assert(four.drop_last() =~= three);
    assert(three.drop_last() =~= two);
    assert(two.drop_last() =~= one);
    assert(one.drop_last() =~= Seq::empty());
    assert(be_value(Seq::<u8>::empty()) == 0);
    assert(be_value(one) == a);
    assert(be_value(two) == 0x100 * a + b);
    assert(be_value(three) == 0x1_0000 * a + 0x100 * b + c);
    assert(be_value(four) == 0x100_0000 * a + 0x1_0000 * b + 0x100 * c + d);
    assert(be_value(four) <= 0xffff_ffff <= usize::MAX);
}

/// Law: a packet with lengths is refused where bytes are left that are fewer than a length takes,
/// and where a length is zero or more than what is left.
pub proof fn law_broken_length(nals: Seq<NalModel>, rest: Seq<u8>, n: nat)
    requires
        all_framed(nals, n),
        n > 0,
        rest.len() > 0,
    ensures
        rest.len() < n ==> length_prefixed(flatten(nals) + rest, n) == Err::<Seq<NalModel>, Error>(
            Error::IncompleteNalLength,
        ),
        rest.len() >= n ==> ({
            let len = be_number(rest.take(n as int));
            len == 0 || len > rest.len() - n ==> length_prefixed(flatten(nals) + rest, n) == Err::<
                Seq<NalModel>,
                Error,
            >(Error::InvalidNalLength { len: len as usize })
        }),
    decreases nals.len(),
{
    let data = flatten(nals) + rest;
    if nals.len() == 0 {
        assert(data =~= rest);
    } else {
        let first = nals[0];
        assert(framed(first, n));
        let more = nals.skip(1);
        assert forall|i: int| 0 <= i < more.len() implies framed(#[trigger] more[i], n) by {
            assert(more[i] == nals[i + 1]);
        }
        law_broken_length(more, rest, n);
        let len = first.data.len() as int;
        assert(data.take(n as int) =~= first.prefix);
        assert(data.skip(n + len) =~= flatten(more) + rest);
    }
}

/// The NAL units that carry no grain.
pub open spec fn grainless(nals: Seq<NalModel>) -> Seq<NalModel> {
    nals.filter(|nal: NalModel| nal_payload(nal.data) is None)
}

/// The first NAL unit and the others that carry no grain.
proof fn lemma_grainless_first(nals: Seq<NalModel>)
    requires
        nals.len() > 0,
    ensures
        flatten(grainless(nals)) == (if nal_payload(nals[0].data) is None {
            nals[0].prefix + nals[0].data
        } else {
            Seq::empty()
        }) + flatten(grainless(nals.skip(1))),
    decreases nals.len(),
{
    let keep = |nal: NalModel| nal_payload(nal.data) is None;
    let one = seq![nals[0]];
    assert(nals =~= one + nals.skip(1));
    Seq::filter_distributes_over_add(one, nals.skip(1), keep);
    let rest = grainless(nals.skip(1));
    assert(one.filter(keep) =~= if keep(nals[0]) {
        one
    } else {
        Seq::empty()
    }) by {
        reveal(Seq::filter);
        assert(one.drop_last() =~= Seq::empty());
        assert(one.drop_last().filter(keep) =~= Seq::empty());
    }
    if keep(nals[0]) {
        assert((one + rest).skip(1) =~= rest);
        assert(flatten(one + rest) == nals[0].prefix + nals[0].data + flatten(rest));
    } else {
        assert(Seq::<NalModel>::empty() + rest =~= rest);
        assert(Seq::<u8>::empty() + flatten(rest) =~= flatten(rest));
    }
}

/// Without anything to put in, the NAL units that carry grain are left out.
proof fn lemma_edited_none(nals: Seq<NalModel>)
    ensures
        edited(nals, None) == flatten(grainless(nals)),
    decreases nals.len(),
{
    if nals.len() == 0 {
        assert(grainless(nals) =~= Seq::empty()) by {
            reveal(Seq::filter);
        }
    } else {
        lemma_edited_none(nals.skip(1));
        lemma_grainless_first(nals);
        assert(edited(nals, None) =~= flatten(grainless(nals)));
    }
}

/// Law: an edited packet holds the NAL units that carry no grain, in their order, each with its
/// prefix and its bytes as they were. What is put in stands directly in front of the first of the
/// NAL units with coded picture data, at `v`; without such a NAL unit nothing is put in.
pub proof fn law_units_edited(nals: Seq<NalModel>, sei: Seq<u8>, v: int)
    requires
        0 <= v <= nals.len(),
        forall|i: int| 0 <= i < v ==> !is_vcl((#[trigger] nals[i]).data),
        v < nals.len() ==> is_vcl(nals[v].data),
    ensures
        edited(nals, None) == flatten(grainless(nals)),
        v == nals.len() ==> edited(nals, Some(sei)) == flatten(grainless(nals)),
        v < nals.len() ==> edited(nals, Some(sei)) == flatten(grainless(nals.take(v))) + sei
            + flatten(grainless(nals.skip(v))),
    decreases nals.len(),
{
    lemma_edited_none(nals);
    if nals.len() > 0 {
        let rest = nals.skip(1);
        lemma_grainless_first(nals);
        if v == 0 {
            lemma_edited_none(rest);
            assert(nals.take(0) =~= Seq::empty());
            assert(grainless(nals.take(0)) =~= Seq::empty()) by {
                reveal(Seq::filter);
            }
            assert(nals.skip(0) =~= nals);
            assert(edited(nals, Some(sei)) =~= Seq::<u8>::empty() + sei + flatten(
                grainless(nals),
            ));
        } else {
            assert forall|i: int| 0 <= i < v - 1 implies !is_vcl((#[trigger] rest[i]).data) by {
                assert(rest[i] == nals[i + 1]);
            }
            if v < nals.len() {
                assert(rest[v - 1] == nals[v]);
            }
            assert(!is_vcl(nals[0].data));
            law_units_edited(rest, sei, v - 1);
            if v < nals.len() {
                let front = nals.take(v);
                lemma_grainless_first(front);
                assert(front.skip(1) =~= rest.take(v - 1));
                assert(rest.skip(v - 1) =~= nals.skip(v));
                assert(edited(nals, Some(sei)) =~= flatten(grainless(front)) + sei + flatten(
                    grainless(nals.skip(v)),
                ));
            } else {
                assert(edited(nals, Some(sei)) =~= flatten(grainless(nals)));
            }
        }
    } else {
        assert(grainless(nals) =~= Seq::empty()) by {
            reveal(Seq::filter);
        }
    }
}

/// Law: a packet that cannot be taken apart is refused for that reason. One that carries grain is
/// refused where other grain is to be put in without leave to replace it, and only there is grain
/// said to exist. Otherwise grain is refused where chroma is scaled by luma, or for the reason for
/// which no payload can be written. Taking grain out is never refused.
pub proof fn law_modification_refused(
    data: Seq<u8>,
    params: Option<GrainModel>,
    replace: bool,
    width: int,
    height: int,
    sampling: ChromaSubsampling,
)
    ensures
        ({
            let r = modified(data, params, replace, width, height, sampling);
            match nals_of(data) {
                Err(e) => r == Err::<Seq<u8>, Error>(e),
                Ok(nals) => {
                    let exists_already = nals_payload(nals) is Some && params is Some && !replace;
                    &&& params is None ==> r == Ok::<Seq<u8>, Error>(edited(nals, None))
                    &&& exists_already ==> r == Err::<Seq<u8>, Error>(Error::GrainExists)
                    &&& !exists_already && nals.len() > 0 ==> (params matches Some(p) ==> {
                        &&& p.chroma_scaling_from_luma ==> r == Err::<Seq<u8>, Error>(
                            Error::ChromaFromLuma,
                        )
                        &&& !p.chroma_scaling_from_luma ==> match afgs1_payload(
                            p,
                            width,
                            height,
                            sampling,
                        ) {
                            Err(e) => r == Err::<Seq<u8>, Error>(e),
                            Ok(payload) => match with_prefix(sei_nal(payload), nals[0].format) {
                                Err(e) => r == Err::<Seq<u8>, Error>(e),
                                Ok(sei) => r == Ok::<Seq<u8>, Error>(edited(nals, Some(sei))),
                            },
                        }
                    })
                    &&& nals.len() == 0 ==> r == Ok::<Seq<u8>, Error>(data)
                },
            }
        }),
{
    if let Ok(nals) = nals_of(data) {
        if nals.len() == 0 {
            law_nals_lossless(data);
            assert(edited(nals, None) =~= data);
            assert(nals_payload(nals) is None);
        }
    }
}

/// Law: the NAL unit that carries a payload begins with the two bytes of a prefix SEI header, and
/// holds a message of type 4 with the payload and then the stop bit.
pub proof fn law_unit_carries(payload: Seq<u8>)
    ensures
        sei_nal(payload).len() >= 2,
        sei_nal(payload)[0] == 0x4e,
        sei_nal(payload)[1] == 1,
        rbsp_of(sei_nal(payload).skip(2)) == seq![4u8] + number_bytes(payload.len()) + payload
            + seq![0x80u8],
{
    let rbsp = number_bytes(4) + number_bytes(payload.len()) + payload + seq![0x80u8];
    law_escape_round_trip(rbsp);
    assert(number_bytes(4) =~= seq![4u8]);
    assert(sei_nal(payload).skip(2) =~= ebsp_of(rbsp));
}

/// Law: a NAL unit goes behind a start code of four bytes, or behind its length in as many bytes
/// as are asked for, which are one to four that can hold it.
pub proof fn law_prefix_put_in_front(nal: Seq<u8>, length_size: usize)
    ensures
        with_prefix(nal, PacketFormat::AnnexB) == Ok::<Seq<u8>, Error>(
            seq![0u8, 0u8, 0u8, 1u8] + nal,
        ),
        ({
            let n = length_size as int;
            let r = with_prefix(nal, PacketFormat::LengthPrefixed { length_size });
            let fits = (n == 1 && nal.len() < 0x100) || (n == 2 && nal.len() < 0x1_0000) || (n == 3
                && nal.len() < 0x100_0000) || (n == 4 && nal.len() < 0x1_0000_0000);
            &&& !fits ==> r == Err::<Seq<u8>, Error>(Error::InvalidLengthPrefix { length_size })
            &&& fits ==> (r matches Ok(bytes) && bytes.len() == n + nal.len() && be_number(
                bytes.take(n),
            ) == nal.len() && bytes.skip(n) == nal)
        }),
{
    let n = length_size as int;
    if let Ok(bytes) = with_prefix(nal, PacketFormat::LengthPrefixed { length_size }) {
        law_length_round_trip(nal.len(), length_size as nat);
        assert(bytes.take(n) =~= be_bytes(nal.len(), length_size as nat));
        assert(bytes.skip(n) =~= nal);
    }
}

/// Law: the bytes that carry a grain description are the NAL unit with its payload, behind the
/// prefix that is asked for. They are refused where chroma is scaled by luma, where no payload can
/// be written, and where the prefix cannot be, in this order.
pub proof fn law_unit_built(
    p: GrainModel,
    format: PacketFormat,
    width: int,
    height: int,
    sampling: ChromaSubsampling,
)
    ensures
        ({
            let r = afgs1_nal(p, format, width, height, sampling);
            &&& p.chroma_scaling_from_luma ==> r == Err::<Seq<u8>, Error>(Error::ChromaFromLuma)
            &&& !p.chroma_scaling_from_luma ==> match afgs1_payload(p, width, height, sampling) {
                Err(e) => r == Err::<Seq<u8>, Error>(e),
                Ok(payload) => r == with_prefix(sei_nal(payload), format),
            }
        }),
{
}

/// Law: a packet of which 256 times the bytes can be counted, and in which no SEI NAL unit has 256
/// zeros in a row, can be read.
pub proof fn law_packet_readable(data: Seq<u8>)
    requires
        256 * data.len() + 4 <= usize::MAX,
        nals_of(data) matches Ok(nals) ==> forall|i: int|
            0 <= i < nals.len() && is_sei((#[trigger] nals[i]).data) ==> no_long_run(nals[i].data),
    ensures
        readable(data),
        scannable(data),
{
    if let Ok(nals) = nals_of(data) {
        lemma_nal_sizes(data);
        assert forall|i: int| 0 <= i < nals.len() implies nal_readable(
            (#[trigger] nals[i]).data,
        ) by {
            let nal = nals[i].data;
            if is_sei(nal) {
                let ebsp = nal.skip(2);
                assert forall|from: int| 0 <= from && from + 256 <= ebsp.len() implies
                    !#[trigger] all_zero(ebsp, from, from + 256) by {
                    let at = from + 2;
                    assert(!all_zero(nal, at, at + 256));
                    let k = choose|k: int| at <= k < at + 256 && #[trigger] nal[k] != 0;
                    assert(ebsp[k - 2] == nal[k]);
                }
                law_runs_counted(ebsp);
                lemma_unescaped_len(ebsp, ebsp.len());
                law_short_messages_fit(rbsp_of(ebsp), rbsp_of(ebsp).len());
            }
        }
    }
    law_readable_scannable(data);
}

/// A start code of three or four bytes stands at `i`.
pub open spec fn code_stands_at(data: Seq<u8>, i: int) -> bool {
    &&& i + 3 <= data.len()
    &&& data[i] == 0 && data[i + 1] == 0
    &&& data[i + 2] == 1 || (i + 4 <= data.len() && data[i + 2] == 0 && data[i + 3] == 1)
}

/// Law: bytes in front of the first start code, at `k`, are passed over, and without a start code
/// there are no NAL units.
pub proof fn law_first_code_found(data: Seq<u8>, k: int)
    requires
        0 <= k <= data.len(),
        forall|i: int| 0 <= i < k ==> !#[trigger] code_stands_at(data, i),
        k < data.len() ==> code_stands_at(data, k),
    ensures
        flatten(annex_b_from(data, 0)) == data.skip(k),
        k == data.len() ==> annex_b_from(data, 0).len() == 0,
        all_coded(annex_b_from(data, 0)),
{
    lemma_next_code(data, 0);
    let next = next_code(data, 0);
    assert(next == k) by {
        if next < k {
            assert(!code_stands_at(data, next));
        }
        if k < next {
            assert(code_stands_at(data, k));
            assert(code_len(data, k) == 0);
        }
    }
    law_annex_b_lossless(data, 0);
}

} // verus!
