//! What holds of the grain in packets: what was put in is read back, what was taken out is gone,
//! and the rest of a packet stays.
use crate::afgs1_laws::{carried, law_payload_accepts, law_payload_round_trip, writable};
use crate::afgs1_read::{
    afgs1_grain, lemma_stopped, parsed_payload, points_fit, read_functions, read_regression,
    read_signal, read_start, Cursor,
};
use crate::afgs1_write::{
    afgs1_payload, lemma_envelope, lemma_set_len, resolution, set_bits, stated_size,
};
use crate::bits::{bits_of, byte_bit, lemma_byte_value, uint};
use crate::error::Error;
use crate::escape::{
    ebsp_of, law_escape_round_trip, law_escaped_is_emulation_free, law_escaped_runs_countable,
    lemma_rbsp_push, rbsp_of, zero_run, zeros_before,
};
use crate::grain::GrainModel;
use crate::nal::{
    annex_b_from, be_bytes, code_len, flatten, is_sei, is_vcl, length_prefixed, long_code_at,
    nals_of, next_code, short_code_at, NalModel, PacketFormat,
};
use crate::nal_laws::{
    all_coded, code_free, coded, framed, law_annex_b_lossless, law_annex_b_settled,
    law_framed_read_back, law_length_prefixed_lossless, law_length_round_trip, law_nals_lossless,
    law_settled_read_back, lemma_annex_b_concat, lemma_annex_b_step, lemma_settled_step, settled,
    starts_coded,
};
use crate::packet::{
    afgs1_nal, edited, first_payload, grain_readable, has_vcl, holds_picture,
    law_readable_scannable, modified, nal_payload, nal_readable, nals_payload, packet_grain,
    readable, sei_nal,
};
use crate::sei::{
    is_afgs1, law_number_round_trip, lemma_read_number, lemma_unescaped_len, messages, messages_fit,
    nal_messages, number_bytes, read_number, spelled, zeros_from,
    SEI_USER_DATA_REGISTERED_ITU_T_T35,
};
use crate::video::ChromaSubsampling;
use vstd::arithmetic::power2::{lemma2_to64, lemma_pow2_unfold, pow2};
use vstd::prelude::*;

verus! {

/// The number that a bit string spells, taken together from two parts.
proof fn lemma_uint_split(s: Seq<bool>, k: nat)
    requires
        k <= s.len(),
    ensures
        uint(s) == uint(s.take(s.len() - k)) * pow2(k) + uint(s.skip(s.len() - k)),
    decreases k,
{
    let cut = s.len() - k;
    if k == 0 {
        lemma2_to64();
        assert(s.take(cut) =~= s);
    } else {
        let t = s.drop_last();
        lemma_uint_split(t, (k - 1) as nat);
        assert(t.take(cut) =~= s.take(cut));
        assert(s.skip(cut).drop_last() =~= t.skip(cut));
        lemma_pow2_unfold(k);
        let a = uint(s.take(cut)) as int;
        let x = pow2((k - 1) as nat) as int;
        assert(2 * (a * x) == a * (2 * x)) by (nonlinear_arith);
    }
}

/// Law: whatever is read as grain is recognised as a payload that carries grain.
pub proof fn law_parsed_is_recognised(payload: Seq<u8>)
    requires
        afgs1_grain(bits_of(payload)) is Ok,
    ensures
        is_afgs1(payload),
{
    let bits = bits_of(payload);
    let c = Cursor { rest: bits, fault: None };
    let (seed, c1) = read_start(c);
    let (only_luma, c2) = read_signal(c1);
    let (s, c3) = read_functions(c2, only_luma);
    let (r, c4) = read_regression(c3, s);
    assert(c1.fault is None) by {
        if c1.fault is Some {
            lemma_stopped(c1, only_luma, s);
            lemma_stopped(c2, only_luma, s);
            lemma_stopped(c3, only_luma, s);
            lemma_stopped(c4, only_luma, s);
        }
    }
    reveal(read_start);
    assert(bits.len() > 32);
    assert(bits.take(8) =~= bits.subrange(0, 8));
    lemma_byte_value(payload, 0);
    let two = bits.skip(8).take(16);
    lemma_uint_split(two, 8);
    assert(pow2(8) == 256) by {
        lemma2_to64();
    }
    assert(two.take(8) =~= bits.subrange(8, 16));
    assert(two.skip(8) =~= bits.subrange(16, 24));
    lemma_byte_value(payload, 1);
    lemma_byte_value(payload, 2);
    assert(bits.skip(8).skip(16).take(8) =~= bits.subrange(24, 32));
    lemma_byte_value(payload, 3);
    let one = bits.skip(8).skip(16).skip(8).take(1);
    assert(one[0] == bits[32]);
    assert(one.drop_last().len() == 0);
    reveal_with_fuel(uint, 2);
    let b = payload[4];
    assert(((b >> 7u8) & 1u8 == 1u8) == (b >= 0x80)) by (bit_vector);
    assert(bits[32] == byte_bit(b, 0));
}

/// Law: the payload in an SEI NAL unit that was made for it is read back, and reading it is
/// possible wherever there can be such a NAL unit.
pub proof fn law_sei_read_back(payload: Seq<u8>)
    requires
        is_afgs1(payload),
    ensures
        nal_payload(sei_nal(payload)) == Some(payload),
        sei_nal(payload).len() <= usize::MAX ==> nal_readable(sei_nal(payload)),
        !is_vcl(sei_nal(payload)),
{
    let size = number_bytes(payload.len());
    let kind = number_bytes(SEI_USER_DATA_REGISTERED_ITU_T_T35 as nat);
    let stop = seq![0x80u8];
    let rbsp = kind + size + payload + stop;
    let nal = sei_nal(payload);
    assert(kind =~= seq![4u8]);
    assert(nal[0] == 78);
    assert(nal.skip(2) =~= ebsp_of(rbsp));
    law_escape_round_trip(rbsp);
    law_escaped_runs_countable(rbsp);
    assert(rbsp =~= kind + (size + (payload + stop)));
    law_number_round_trip(4, size + (payload + stop));
    law_number_round_trip(payload.len(), payload + stop);
    let n = payload.len() as int;
    assert((payload + stop).take(n) =~= payload);
    assert(rbsp[0] == 4);
    let list = messages(rbsp);
    assert(list[0] == (4nat, payload));
    if nal.len() <= usize::MAX {
        let rest = size + (payload + stop);
        lemma_unescaped_len(nal.skip(2), nal.skip(2).len());
        lemma_read_number(rbsp);
        lemma_read_number(rest);
        assert((payload + stop).skip(n) =~= stop);
        assert(messages_fit(stop, rbsp.len()));
        assert(messages_fit(rbsp, rbsp.len()));
    }
}

/// The NAL unit that is made for a grain description can be read.
proof fn lemma_built_readable(p: GrainModel, width: int, height: int, sampling: ChromaSubsampling)
    requires
        p.in_capacity(),
        afgs1_payload(p, width, height, sampling) is Ok,
    ensures
        afgs1_payload(p, width, height, sampling)->Ok_0.len() * 8 + 64 <= usize::MAX,
        nal_readable(sei_nal(afgs1_payload(p, width, height, sampling)->Ok_0)),
{
    let payload = afgs1_payload(p, width, height, sampling)->Ok_0;
    let (log2, horz, vert) = resolution(width, height);
    let set = set_bits(p, log2, horz, vert, sampling)->Ok_0;
    lemma_set_len(p, log2, horz, vert, sampling);
    assert(stated_size(set.len(), 8) < pow2(8)) by {
        lemma2_to64();
    }
    lemma_envelope(stated_size(set.len(), 8), 8);
    assert(payload.len() <= 200);
    let kind = number_bytes(SEI_USER_DATA_REGISTERED_ITU_T_T35 as nat);
    lemma_escaped_len(kind + number_bytes(payload.len()) + payload + seq![0x80u8]);
    law_payload_round_trip(p, width, height, sampling);
    law_parsed_is_recognised(payload);
    law_sei_read_back(payload);
}

/// No start code is in an SEI NAL unit that was made for a payload, and it does not end in a
/// zero byte.
proof fn lemma_sei_code_free(payload: Seq<u8>)
    ensures
        code_free(sei_nal(payload)),
        sei_nal(payload).len() >= 3,
        sei_nal(payload).last() == 0x80,
{
    let rbsp = number_bytes(SEI_USER_DATA_REGISTERED_ITU_T_T35 as nat) + number_bytes(payload.len())
        + payload + seq![0x80u8];
    let ebsp = ebsp_of(rbsp);
    let nal = sei_nal(payload);
    law_escaped_is_emulation_free(rbsp);
    assert(ebsp.last() == 0x80 && ebsp.len() > 0);
    assert forall|i: int| 0 <= i < nal.len() implies !#[trigger] short_code_at(nal, i) by {
        if short_code_at(nal, i) {
            assert(nal[0] == 78 && nal[1] == 1);
            assert(ebsp[i - 2] == nal[i] && ebsp[i - 1] == nal[i + 1] && ebsp[i] == nal[i + 2]);
            assert(zeros_before(ebsp, i));
        }
    }
}

/// The NAL units of a packet without those that carry grain, and with `sei` in front of the
/// first one that holds coded picture data.
pub open spec fn edited_nals(nals: Seq<NalModel>, sei: Option<NalModel>) -> Seq<NalModel>
    decreases nals.len(),
{
    if nals.len() == 0 {
        Seq::empty()
    } else {
        let here = sei is Some && is_vcl(nals[0].data);
        let inserted = if here {
            seq![sei->0]
        } else {
            Seq::empty()
        };
        let kept = if nal_payload(nals[0].data) is Some {
            Seq::empty()
        } else {
            seq![nals[0]]
        };
        inserted + kept + edited_nals(
            nals.skip(1),
            if here {
                None
            } else {
                sei
            },
        )
    }
}

/// The bytes of an optional NAL unit.
pub open spec fn nal_bytes(nal: Option<NalModel>) -> Option<Seq<u8>> {
    match nal {
        Some(m) => Some(m.prefix + m.data),
        None => None,
    }
}

proof fn lemma_flatten_add(a: Seq<NalModel>, b: Seq<NalModel>)
    ensures
        flatten(a + b) == flatten(a) + flatten(b),
    decreases a.len(),
{
    if a.len() == 0 {
        assert(a + b =~= b);
        assert(flatten(a) + flatten(b) =~= flatten(b));
    } else {
        lemma_flatten_add(a.skip(1), b);
        assert((a + b).skip(1) =~= a.skip(1) + b);
        assert(flatten(a + b) =~= flatten(a) + flatten(b));
    }
}

proof fn lemma_flatten_one(nal: NalModel)
    ensures
        flatten(seq![nal]) == nal.prefix + nal.data,
{
    reveal_with_fuel(flatten, 2);
    assert(flatten(seq![nal]) =~= nal.prefix + nal.data);
}

/// The edited bytes are those of the edited list.
proof fn lemma_edited_bytes(nals: Seq<NalModel>, sei: Option<NalModel>)
    ensures
        edited(nals, nal_bytes(sei)) == flatten(edited_nals(nals, sei)),
    decreases nals.len(),
{
    if nals.len() > 0 {
        let here = sei is Some && is_vcl(nals[0].data);
        let left = if here {
            None
        } else {
            sei
        };
        lemma_edited_bytes(nals.skip(1), left);
        let inserted = if here {
            seq![sei->0]
        } else {
            Seq::empty()
        };
        let kept = if nal_payload(nals[0].data) is Some {
            Seq::empty()
        } else {
            seq![nals[0]]
        };
        lemma_flatten_add(inserted + kept, edited_nals(nals.skip(1), left));
        lemma_flatten_add(inserted, kept);
        lemma_flatten_one(nals[0]);
        if here {
            lemma_flatten_one(sei->0);
        }
    }
}

proof fn lemma_payload_add(a: Seq<NalModel>, b: Seq<NalModel>)
    ensures
        nals_payload(a + b) == if nals_payload(a) is Some {
            nals_payload(a)
        } else {
            nals_payload(b)
        },
    decreases a.len(),
{
    if a.len() == 0 {
        assert(a + b =~= b);
    } else {
        lemma_payload_add(a.skip(1), b);
        assert((a + b).skip(1) =~= a.skip(1) + b);
    }
}

proof fn lemma_payload_one(nal: NalModel)
    ensures
        nals_payload(seq![nal]) == nal_payload(nal.data),
{
    reveal_with_fuel(nals_payload, 2);
}

/// What the first payload in an edited list is, and what every unit in it comes from.
proof fn lemma_edited_payload(nals: Seq<NalModel>, sei: Option<NalModel>)
    requires
        sei matches Some(m) ==> nal_payload(m.data) is Some,
    ensures
        nals_payload(edited_nals(nals, sei)) == if sei is Some && has_vcl(nals) {
            nal_payload(sei->0.data)
        } else {
            None
        },
    decreases nals.len(),
{
    if nals.len() > 0 {
        let first = nals[0];
        let rest = nals.skip(1);
        let here = sei is Some && is_vcl(first.data);
        let left = if here {
            None
        } else {
            sei
        };
        lemma_edited_payload(rest, left);
        assert(has_vcl(nals) == (is_vcl(first.data) || has_vcl(rest))) by {
            if has_vcl(nals) {
                let i = choose|i: int| 0 <= i < nals.len() && is_vcl((#[trigger] nals[i]).data);
                if i > 0 {
                    assert(rest[i - 1] == nals[i]);
                }
            }
            if has_vcl(rest) {
                let i = choose|i: int| 0 <= i < rest.len() && is_vcl((#[trigger] rest[i]).data);
                assert(rest[i] == nals[i + 1]);
            }
        }
        let inserted = if here {
            seq![sei->0]
        } else {
            Seq::empty()
        };
        let kept = if nal_payload(first.data) is Some {
            Seq::empty()
        } else {
            seq![first]
        };
        lemma_payload_add(inserted + kept, edited_nals(rest, left));
        lemma_payload_add(inserted, kept);
        lemma_payload_one(first);
        if here {
            lemma_payload_one(sei->0);
        }
    }
}

/// Whatever holds of the units of a list and of the one that is put in holds of the edited list.
proof fn lemma_edited_all(
    nals: Seq<NalModel>,
    sei: Option<NalModel>,
    good: spec_fn(NalModel) -> bool,
)
    requires
        forall|i: int| 0 <= i < nals.len() ==> good(#[trigger] nals[i]),
        sei matches Some(m) ==> good(m),
    ensures
        forall|i: int|
            0 <= i < edited_nals(nals, sei).len() ==> good(#[trigger] edited_nals(nals, sei)[i]),
    decreases nals.len(),
{
    if nals.len() > 0 {
        let rest = nals.skip(1);
        let here = sei is Some && is_vcl(nals[0].data);
        let left = if here {
            None
        } else {
            sei
        };
        assert forall|i: int| 0 <= i < rest.len() implies good(#[trigger] rest[i]) by {
            assert(rest[i] == nals[i + 1]);
        }
        lemma_edited_all(rest, left, good);
        let all = edited_nals(nals, sei);
        let tail = edited_nals(rest, left);
        assert forall|i: int| 0 <= i < all.len() implies good(#[trigger] all[i]) by {
            let k = all.len() - tail.len();
            if i >= k {
                assert(all[i] == tail[i - k]);
            } else {
                assert(good(nals[0]));
            }
        }
    }
}

/// Taking grain out of what grain was put into is the same as taking it out at once.
proof fn lemma_edited_twice(nals: Seq<NalModel>, first: Option<NalModel>, second: Option<NalModel>)
    requires
        first matches Some(m) ==> nal_payload(m.data) is Some && !is_vcl(m.data),
    ensures
        edited_nals(edited_nals(nals, first), second) == edited_nals(nals, second),
    decreases nals.len(),
{
    if nals.len() > 0 {
        let head = nals[0];
        let rest = nals.skip(1);
        let vcl = is_vcl(head.data);
        let once = edited_nals(nals, first);
        let left1 = if first is Some && vcl {
            None
        } else {
            first
        };
        let left2 = if second is Some && vcl {
            None
        } else {
            second
        };
        lemma_edited_twice(rest, left1, left2);
        let tail = edited_nals(rest, left1);
        if first is Some && vcl {
            assert(once =~= seq![first->0, head] + tail);
            assert(once.skip(1) =~= seq![head] + tail);
            assert(once.skip(1).skip(1) =~= tail);
            assert(edited_nals(once, second) =~= edited_nals(once.skip(1), second));
        } else if nal_payload(head.data) is Some {
            assert(once =~= tail);
        } else {
            assert(once =~= seq![head] + tail);
            assert(once.skip(1) =~= tail);
        }
        assert(edited_nals(once, second) =~= edited_nals(nals, second));
    }
}

/// Without grain to take out or to put in nothing changes.
proof fn lemma_edited_same(nals: Seq<NalModel>)
    requires
        nals_payload(nals) is None,
    ensures
        edited_nals(nals, None) == nals,
    decreases nals.len(),
{
    if nals.len() > 0 {
        lemma_edited_same(nals.skip(1));
        assert(edited_nals(nals, None) =~= seq![nals[0]] + nals.skip(1));
        assert(seq![nals[0]] + nals.skip(1) =~= nals);
    }
}

/// The NAL unit that carries a grain description in a packet with lengths.
pub open spec fn framed_sei(payload: Seq<u8>) -> NalModel {
    NalModel {
        prefix: be_bytes(sei_nal(payload).len(), 4),
        data: sei_nal(payload),
        format: PacketFormat::LengthPrefixed { length_size: 4 },
    }
}

/// The NAL unit that carries a grain description in a packet with start codes.
pub open spec fn coded_sei(payload: Seq<u8>) -> NalModel {
    NalModel {
        prefix: seq![0u8, 0u8, 0u8, 1u8],
        data: sei_nal(payload),
        format: PacketFormat::AnnexB,
    }
}

/// What goes into a packet that grain is put into.
proof fn lemma_inserted(
    p: GrainModel,
    format: PacketFormat,
    width: int,
    height: int,
    sampling: ChromaSubsampling,
)
    requires
        p.in_capacity(),
        afgs1_nal(p, format, width, height, sampling) is Ok,
    ensures
        afgs1_payload(p, width, height, sampling) is Ok,
        ({
            let payload = afgs1_payload(p, width, height, sampling)->Ok_0;
            let bytes = afgs1_nal(p, format, width, height, sampling)->Ok_0;
            &&& is_afgs1(payload)
            &&& points_fit(payload)
            &&& parsed_payload(payload) == Ok::<GrainModel, Error>(carried(p))
            &&& format == PacketFormat::AnnexB ==> {
                &&& coded(coded_sei(payload))
                &&& nal_bytes(Some(coded_sei(payload))) == Some(bytes)
            }
            &&& format == (PacketFormat::LengthPrefixed { length_size: 4 }) ==> {
                &&& framed(framed_sei(payload), 4)
                &&& nal_bytes(Some(framed_sei(payload))) == Some(bytes)
            }
        }),
{
    let payload = afgs1_payload(p, width, height, sampling)->Ok_0;
    law_payload_round_trip(p, width, height, sampling);
    law_parsed_is_recognised(payload);
    lemma_sei_code_free(payload);
    if format == (PacketFormat::LengthPrefixed { length_size: 4 }) {
        law_length_round_trip(sei_nal(payload).len(), 4);
    }
}

/// Law: the NAL unit that is built for a grain description is read as what a payload keeps of
/// it, in either format.
pub proof fn law_built_nal_read_back(
    p: GrainModel,
    width: int,
    height: int,
    sampling: ChromaSubsampling,
)
    requires
        p.in_capacity(),
        afgs1_payload(p, width, height, sampling) is Ok,
    ensures
        ({
            let nal = sei_nal(afgs1_payload(p, width, height, sampling)->Ok_0);
            &&& nal_readable(nal)
            &&& nal_payload(nal) matches Some(payload) && points_fit(payload) && parsed_payload(
                payload,
            ) == Ok::<GrainModel, Error>(carried(p))
        }),
{
    let payload = afgs1_payload(p, width, height, sampling)->Ok_0;
    law_payload_round_trip(p, width, height, sampling);
    law_parsed_is_recognised(payload);
    law_sei_read_back(payload);
    lemma_built_readable(p, width, height, sampling);
}

/// Law: where lengths stand in front of the NAL units, the packet with other grain in it is
/// taken apart into the NAL units of the first one, without those that carry grain and with the
/// new one in front of the first coded picture data.
pub proof fn law_modified_units(
    data: Seq<u8>,
    p: GrainModel,
    replace: bool,
    width: int,
    height: int,
    sampling: ChromaSubsampling,
)
    requires
        p.in_capacity(),
        length_prefixed(data, 4) is Ok,
        data.len() > 0,
        modified(data, Some(p), replace, width, height, sampling) is Ok,
    ensures
        afgs1_payload(p, width, height, sampling) is Ok,
        nals_of(modified(data, Some(p), replace, width, height, sampling)->Ok_0) == Ok::<
            Seq<NalModel>,
            Error,
        >(
            edited_nals(
                nals_of(data)->Ok_0,
                Some(framed_sei(afgs1_payload(p, width, height, sampling)->Ok_0)),
            ),
        ),
{
    let nals = nals_of(data)->Ok_0;
    law_length_prefixed_lossless(data, 4);
    assert(framed(nals[0], 4));
    lemma_inserted(p, nals[0].format, width, height, sampling);
    let m = framed_sei(afgs1_payload(p, width, height, sampling)->Ok_0);
    lemma_edited_bytes(nals, Some(m));
    lemma_edited_all(nals, Some(m), |nal: NalModel| framed(nal, 4));
    let list = edited_nals(nals, Some(m));
    assert forall|i: int| 0 <= i < list.len() implies framed(#[trigger] list[i], 4) by {
        assert((|nal: NalModel| framed(nal, 4))(list[i]));
    }
    law_framed_read_back(list, 4);
}

/// Law: where lengths stand in front of the NAL units, the packet without grain is taken apart
/// into the NAL units of the first one that carry none.
pub proof fn law_stripped_units(data: Seq<u8>)
    requires
        length_prefixed(data, 4) is Ok,
    ensures
        forall|replace: bool, width: int, height: int, sampling: ChromaSubsampling|
            (#[trigger] modified(data, None, replace, width, height, sampling)) matches Ok(out)
                && nals_of(out) == Ok::<Seq<NalModel>, Error>(
                edited_nals(nals_of(data)->Ok_0, None),
            ),
{
    let nals = nals_of(data)->Ok_0;
    law_length_prefixed_lossless(data, 4);
    lemma_edited_bytes(nals, None);
    lemma_edited_all(nals, None, |nal: NalModel| framed(nal, 4));
    let list = edited_nals(nals, None);
    assert forall|i: int| 0 <= i < list.len() implies framed(#[trigger] list[i], 4) by {
        assert((|nal: NalModel| framed(nal, 4))(list[i]));
    }
    law_framed_read_back(list, 4);
    if nals.len() == 0 {
        assert(data =~= flatten(list));
    }
}

/// Law: a packet that carries no grain does not change when grain is taken out.
pub proof fn law_strip_keeps(
    data: Seq<u8>,
    replace: bool,
    width: int,
    height: int,
    sampling: ChromaSubsampling,
)
    requires
        nals_of(data) matches Ok(nals) && nals_payload(nals) is None,
    ensures
        modified(data, None, replace, width, height, sampling) == Ok::<Seq<u8>, Error>(data),
{
    let nals = nals_of(data)->Ok_0;
    law_nals_lossless(data);
    lemma_edited_bytes(nals, None);
    lemma_edited_same(nals);
}

/// A zero byte behind a number makes no difference to the number.
proof fn lemma_number_zero(bytes: Seq<u8>)
    ensures
        read_number(bytes) matches Some((v, rest)) ==> read_number(bytes.push(0)) == Some(
            (v, rest.push(0)),
        ),
    decreases bytes.len(),
{
    if bytes.len() > 0 {
        assert(bytes.push(0).skip(1) =~= bytes.skip(1).push(0));
        if bytes[0] == 255 {
            lemma_number_zero(bytes.skip(1));
        }
    }
}

/// A zero byte at the end takes no message away.
proof fn lemma_messages_zero(rbsp: Seq<u8>)
    ensures
        messages(rbsp).len() <= messages(rbsp.push(0)).len(),
        messages(rbsp) == messages(rbsp.push(0)).take(messages(rbsp).len() as int),
    decreases rbsp.len(),
{
    let longer = rbsp.push(0);
    let list = messages(rbsp);
    if list.len() > 0 {
        assert(!(longer[0] == 0x80 && zeros_from(longer, 1))) by {
            if longer[0] == 0x80 && zeros_from(longer, 1) {
                assert forall|i: int| 1 <= i < rbsp.len() implies rbsp[i] == 0 by {
                    assert(longer[i] == 0);
                }
                assert(zeros_from(rbsp, 1));
            }
        }
        lemma_number_zero(rbsp);
        lemma_read_number(rbsp);
        let (kind, rest) = read_number(rbsp)->0;
        lemma_number_zero(rest);
        lemma_read_number(rest);
        let (size, body) = read_number(rest)->0;
        lemma_messages_zero(body.skip(size as int));
        assert(body.push(0).take(size as int) =~= body.take(size as int));
        assert(body.push(0).skip(size as int) =~= body.skip(size as int).push(0));
        let more = messages(longer);
        let tail = messages(body.skip(size as int));
        let tail_more = messages(body.skip(size as int).push(0));
        assert(more =~= seq![(kind, body.take(size as int))] + tail_more);
        assert(list =~= seq![(kind, body.take(size as int))] + tail);
        assert(list =~= more.take(list.len() as int)) by {
            assert forall|i: int| 0 <= i < list.len() implies list[i] == more[i] by {
                if i > 0 {
                    assert(list[i] == tail[i - 1]);
                    assert(tail[i - 1] == tail_more.take(tail.len() as int)[i - 1]);
                    assert(more[i] == tail_more[i - 1]);
                }
            }
        }
    } else {
        assert(list =~= messages(longer).take(0));
    }
}

/// A list has no payload where a longer one has none.
proof fn lemma_first_payload_take(list: Seq<(nat, Seq<u8>)>, n: int)
    requires
        0 <= n <= list.len(),
        first_payload(list) is None,
    ensures
        first_payload(list.take(n)) is None,
    decreases n,
{
    if n > 0 {
        lemma_first_payload_take(list.skip(1), n - 1);
        assert(list.take(n).skip(1) =~= list.skip(1).take(n - 1));
    }
}

/// A number goes no further without a zero byte at its end.
proof fn lemma_spelled_zero(bytes: Seq<u8>)
    ensures
        spelled(bytes.push(0)) == spelled(bytes),
    decreases bytes.len(),
{
    let longer = bytes.push(0);
    if bytes.len() > 0 {
        assert(longer.skip(1) =~= bytes.skip(1).push(0));
        if bytes[0] == 255 {
            lemma_spelled_zero(bytes.skip(1));
        }
    }
}

/// Messages that run into no limits run into none without a zero byte at their end.
proof fn lemma_fit_zero(rbsp: Seq<u8>, total: nat)
    requires
        messages_fit(rbsp.push(0), total + 1),
    ensures
        messages_fit(rbsp, total),
    decreases rbsp.len(),
{
    let longer = rbsp.push(0);
    if rbsp.len() > 1 && !(rbsp[0] == 0x80 && zeros_from(rbsp, 1)) {
        assert(!(longer[0] == 0x80 && zeros_from(longer, 1))) by {
            if longer[0] == 0x80 && zeros_from(longer, 1) {
                assert forall|i: int| 1 <= i < rbsp.len() implies rbsp[i] == 0 by {
                    assert(longer[i] == 0);
                }
            }
        }
        lemma_spelled_zero(rbsp);
        lemma_number_zero(rbsp);
        lemma_read_number(rbsp);
        if let Some((_, rest)) = read_number(rbsp) {
            lemma_spelled_zero(rest);
            lemma_number_zero(rest);
            lemma_read_number(rest);
            if let Some((size, body)) = read_number(rest) {
                if size <= body.len() {
                    assert(body.push(0).skip(size as int) =~= body.skip(size as int).push(0));
                    lemma_fit_zero(body.skip(size as int), total);
                }
            }
        }
    }
}

/// A NAL unit that carries no grain carries none without a zero byte at its end.
proof fn lemma_trailing_zero(nal: Seq<u8>)
    ensures
        nal_payload(nal.push(0)) is None ==> nal_payload(nal) is None,
        nal_readable(nal.push(0)) ==> nal_readable(nal),
{
    if is_sei(nal) {
        let longer = nal.push(0);
        let body = nal.skip(2);
        assert(longer.skip(2) =~= body.push(0));
        lemma_rbsp_push(body, 0);
        lemma_messages_zero(rbsp_of(body));
        if nal_payload(longer) is None {
            lemma_first_payload_take(nal_messages(longer), nal_messages(nal).len() as int);
        }
        if nal_readable(longer) {
            assert forall|n: nat| n <= body.len() implies #[trigger] zero_run(body, n) <= 255 by {
                lemma_run_push(body, n);
                assert(zero_run(body.push(0), n) <= 255);
            }
            lemma_fit_zero(rbsp_of(body), rbsp_of(body).len());
        }
    }
}

proof fn lemma_run_push(bytes: Seq<u8>, n: nat)
    requires
        n <= bytes.len(),
    ensures
        zero_run(bytes.push(0), n) == zero_run(bytes, n),
    decreases n,
{
    if n > 0 {
        lemma_run_push(bytes, (n - 1) as nat);
    }
}

/// Coded picture data stays coded picture data.
proof fn lemma_vcl_kept(nals: Seq<NalModel>, sei: Option<NalModel>)
    requires
        sei matches Some(m) ==> !is_vcl(m.data),
    ensures
        has_vcl(edited_nals(nals, sei)) == has_vcl(nals),
    decreases nals.len(),
{
    let all = edited_nals(nals, sei);
    if nals.len() > 0 {
        let first = nals[0];
        let rest = nals.skip(1);
        let here = sei is Some && is_vcl(first.data);
        let left = if here {
            None
        } else {
            sei
        };
        lemma_vcl_kept(rest, left);
        let tail = edited_nals(rest, left);
        let k = all.len() - tail.len();
        if has_vcl(nals) {
            let i = choose|i: int| 0 <= i < nals.len() && is_vcl((#[trigger] nals[i]).data);
            if i == 0 {
                assert(nal_payload(first.data) is None);
                assert(all[k - 1] == first);
            } else {
                assert(rest[i - 1] == nals[i]);
                let j = choose|j: int| 0 <= j < tail.len() && is_vcl((#[trigger] tail[j]).data);
                assert(all[k + j] == tail[j]);
            }
        }
        if has_vcl(all) {
            let i = choose|i: int| 0 <= i < all.len() && is_vcl((#[trigger] all[i]).data);
            if i >= k {
                assert(all[i] == tail[i - k]);
                let j = choose|j: int| 0 <= j < rest.len() && is_vcl((#[trigger] rest[j]).data);
                assert(nals[j + 1] == rest[j]);
            } else {
                assert(all[i] == first || all[i] == sei->0);
                assert(is_vcl(nals[0].data));
            }
        }
    }
}

/// A NAL unit holds more than its header, or its header does not end in a zero byte, which could
/// go over to the start code behind it.
pub open spec fn has_body(data: Seq<u8>) -> bool {
    data.len() >= 3 || data.last() != 0
}

/// Every NAL unit with coded picture data has a body.
pub open spec fn pictures_have_bodies(nals: Seq<NalModel>) -> bool {
    forall|i: int|
        0 <= i < nals.len() && is_vcl((#[trigger] nals[i]).data) ==> has_body(nals[i].data)
}

/// Every SEI NAL unit can be read.
pub open spec fn all_readable(nals: Seq<NalModel>) -> bool {
    forall|i: int| 0 <= i < nals.len() ==> nal_readable((#[trigger] nals[i]).data)
}

/// What is found in a packet where a NAL unit stands in front of others.
proof fn lemma_annex_b_first(nal: NalModel, rest: Seq<u8>)
    requires
        coded(nal),
        starts_coded(rest),
    ensures
        code_len(nal.prefix + nal.data + rest, 0) > 0,
        nal_payload(nal.data) is None ==> nals_payload(
            annex_b_from(nal.prefix + nal.data + rest, 0),
        ) == nals_payload(annex_b_from(rest, 0)),
        nal.data.len() > 0 && nal.data.last() != 0 && nal_payload(nal.data) is Some
            ==> nals_payload(annex_b_from(nal.prefix + nal.data + rest, 0)) == nal_payload(
            nal.data,
        ),
        nal_readable(nal.data) && all_readable(annex_b_from(rest, 0)) ==> all_readable(
            annex_b_from(nal.prefix + nal.data + rest, 0),
        ),
        is_vcl(nal.data) ==> has_body(nal.data) ==> has_vcl(
            annex_b_from(nal.prefix + nal.data + rest, 0),
        ),
        !is_vcl(nal.data) ==> has_vcl(annex_b_from(nal.prefix + nal.data + rest, 0)) == has_vcl(
            annex_b_from(rest, 0),
        ),
{
    let all = nal.prefix + nal.data + rest;
    assert(code_len(all, 0) > 0) by {
        if nal.prefix == seq![0u8, 0u8, 1u8] {
            assert(all[0] == 0 && all[1] == 0 && all[2] == 1);
        } else {
            assert(all[0] == 0 && all[1] == 0 && all[2] == 0 && all[3] == 1);
        }
    }
    let found = annex_b_from(all, 0);
    let behind = annex_b_from(rest, 0);
    lemma_annex_b_step(nal, rest);
    lemma_trailing_zero(found[0].data);
    if behind.len() > 0 {
        assert(found.skip(1)[0] == found[1]);
        assert(found.skip(1).skip(1) =~= found.skip(2));
        assert(nals_payload(found.skip(1)) == nals_payload(behind));
    } else {
        assert(found.skip(1) =~= behind);
    }
    assert(found[0].data.len() > 0 ==> found[0].data[0] == nal.data[0]);
    if is_vcl(nal.data) && has_body(nal.data) {
        assert(is_vcl(found[0].data));
    }
    if !is_vcl(nal.data) {
        assert(!is_vcl(found[0].data));
        if has_vcl(found) {
            let i = choose|i: int| 0 <= i < found.len() && is_vcl((#[trigger] found[i]).data);
            if i == 1 {
                assert(is_vcl(behind[0].data));
            } else {
                assert(found[i] == found.skip(2)[i - 2]);
                assert(behind[i - 1] == behind.skip(1)[i - 2]);
                assert(is_vcl(behind[i - 1].data));
            }
        }
        if has_vcl(behind) {
            let i = choose|i: int| 0 <= i < behind.len() && is_vcl((#[trigger] behind[i]).data);
            if i == 0 {
                assert(is_vcl(found[1].data));
            } else {
                assert(behind[i] == behind.skip(1)[i - 1]);
                assert(found[i + 1] == found.skip(2)[i - 1]);
                assert(is_vcl(found[i + 1].data));
            }
        }
    }
    if nal_readable(nal.data) && all_readable(behind) {
        assert forall|i: int| 0 <= i < found.len() implies nal_readable(
            (#[trigger] found[i]).data,
        ) by {
            if i == 1 {
                assert(nal_readable(behind[0].data));
            } else if i > 1 {
                assert(found[i] == found.skip(2)[i - 2]);
                assert(behind[i - 1] == behind.skip(1)[i - 2]);
                assert(nal_readable(behind[i - 1].data));
            }
        }
    }
}

/// What is found in a packet with start codes once it has been edited.
proof fn lemma_annex_b_edited(nals: Seq<NalModel>, sei: Option<NalModel>)
    requires
        all_coded(nals),
        sei matches Some(m) ==> coded(m) && nal_payload(m.data) is Some && m.data.len() > 0
            && m.data.last() != 0 && !is_vcl(m.data),
    ensures
        starts_coded(edited(nals, nal_bytes(sei))),
        pictures_have_bodies(nals) ==> has_vcl(annex_b_from(edited(nals, nal_bytes(sei)), 0))
            == has_vcl(nals),
        nals_payload(annex_b_from(edited(nals, nal_bytes(sei)), 0)) == if sei is Some && has_vcl(
            nals,
        ) {
            nal_payload(sei->0.data)
        } else {
            None
        },
        all_readable(nals) && (sei matches Some(m) ==> nal_readable(m.data)) ==> all_readable(
            annex_b_from(edited(nals, nal_bytes(sei)), 0),
        ),
    decreases nals.len(),
{
    let out = edited(nals, nal_bytes(sei));
    if nals.len() == 0 {
        assert(annex_b_from(out, 0).len() == 0);
    } else {
        let first = nals[0];
        let rest = nals.skip(1);
        assert(coded(first));
        assert forall|i: int| 0 <= i < rest.len() implies coded(#[trigger] rest[i]) by {
            assert(rest[i] == nals[i + 1]);
        }
        if all_readable(nals) {
            assert forall|i: int| 0 <= i < rest.len() implies nal_readable(
                (#[trigger] rest[i]).data,
            ) by {
                assert(rest[i] == nals[i + 1]);
            }
            assert(nal_readable(first.data));
        }
        if pictures_have_bodies(nals) {
            assert forall|i: int| 0 <= i < rest.len() && is_vcl(
                (#[trigger] rest[i]).data,
            ) implies has_body(rest[i].data) by {
                assert(rest[i] == nals[i + 1]);
            }
            assert(is_vcl(nals[0].data) ==> has_body(nals[0].data));
        }
        let here = sei is Some && is_vcl(first.data);
        let left = if here {
            None
        } else {
            sei
        };
        lemma_annex_b_edited(rest, left);
        assert(has_vcl(nals) == (is_vcl(first.data) || has_vcl(rest))) by {
            if has_vcl(nals) {
                let i = choose|i: int| 0 <= i < nals.len() && is_vcl((#[trigger] nals[i]).data);
                if i > 0 {
                    assert(rest[i - 1] == nals[i]);
                }
            }
            if has_vcl(rest) {
                let i = choose|i: int| 0 <= i < rest.len() && is_vcl((#[trigger] rest[i]).data);
                assert(rest[i] == nals[i + 1]);
            }
        }
        let tail = edited(rest, nal_bytes(left));
        let kept = first.prefix + first.data + tail;
        lemma_annex_b_first(first, tail);
        if here {
            let m = sei->0;
            lemma_annex_b_first(m, kept);
            assert(out =~= m.prefix + m.data + kept);
        } else if nal_payload(first.data) is Some {
            assert(out =~= tail);
        } else {
            assert(out =~= kept);
        }
    }
}

/// Law: the grain that was put into a packet with coded picture data is read back, as far as a
/// payload keeps it, whether or not there was grain before. A packet with start codes must not
/// have come out in a way that it can be read as one with lengths too, for that comes first.
pub proof fn law_grain_read_back(
    data: Seq<u8>,
    p: GrainModel,
    replace: bool,
    width: int,
    height: int,
    sampling: ChromaSubsampling,
)
    requires
        p.in_capacity(),
        nals_of(data) matches Ok(nals) && has_vcl(nals),
        modified(data, Some(p), replace, width, height, sampling) matches Ok(out) && (
        length_prefixed(data, 4) is Err ==> length_prefixed(out, 4) is Err),
    ensures
        modified(data, Some(p), replace, width, height, sampling) matches Ok(out) && packet_grain(
            out,
        ) == Ok::<Option<GrainModel>, Error>(Some(carried(p))) && (readable(data) && out.len() + 4
            <= usize::MAX ==> grain_readable(out)),
{
    let nals = nals_of(data)->Ok_0;
    let out = modified(data, Some(p), replace, width, height, sampling)->Ok_0;
    lemma_inserted(p, nals[0].format, width, height, sampling);
    let payload = afgs1_payload(p, width, height, sampling)->Ok_0;
    law_sei_read_back(payload);
    lemma_built_readable(p, width, height, sampling);
    lemma_sei_code_free(payload);
    if length_prefixed(data, 4) is Ok {
        law_modified_units(data, p, replace, width, height, sampling);
        let m = framed_sei(payload);
        lemma_edited_payload(nals, Some(m));
        if readable(data) {
            let good = |nal: NalModel| nal_readable(nal.data);
            lemma_edited_all(nals, Some(m), good);
            let list = edited_nals(nals, Some(m));
            assert forall|i: int| 0 <= i < list.len() implies nal_readable(
                (#[trigger] list[i]).data,
            ) by {
                assert(good(list[i]));
            }
        }
    } else {
        law_annex_b_lossless(data, 0);
        assert(coded(nals[0]));
        let m = coded_sei(payload);
        lemma_annex_b_edited(nals, Some(m));
        assert(out.len() > 0) by {
            if out.len() == 0 {
                assert(nals_payload(annex_b_from(out, 0)) is None);
            }
        }
    }
    if readable(out) {
        law_readable_scannable(out);
    }
}

/// Law: an edited packet holds coded picture data if and only if it did before. Where start codes
/// tell the NAL units apart, those with coded picture data must have bodies, and the
/// packet must not have come out in a way that it can be read as one with lengths too.
pub proof fn law_picture_kept(
    data: Seq<u8>,
    params: Option<GrainModel>,
    replace: bool,
    width: int,
    height: int,
    sampling: ChromaSubsampling,
)
    requires
        params matches Some(p) ==> p.in_capacity(),
        nals_of(data) is Ok,
        modified(data, params, replace, width, height, sampling) matches Ok(out) && (
        length_prefixed(data, 4) is Err ==> pictures_have_bodies(nals_of(data)->Ok_0) && (out.len()
            == 0 || length_prefixed(out, 4) is Err)),
    ensures
        holds_picture(modified(data, params, replace, width, height, sampling)->Ok_0)
            == holds_picture(data),
{
    let nals = nals_of(data)->Ok_0;
    let out = modified(data, params, replace, width, height, sampling)->Ok_0;
    if data.len() > 0 {
        law_nals_lossless(data);
        assert(nals.len() > 0);
        let payload = match params {
            Some(p) => afgs1_payload(p, width, height, sampling)->Ok_0,
            None => Seq::empty(),
        };
        if let Some(p) = params {
            lemma_inserted(p, nals[0].format, width, height, sampling);
            law_sei_read_back(payload);
            lemma_sei_code_free(payload);
        }
        if length_prefixed(data, 4) is Ok {
            match params {
                Some(p) => {
                    law_modified_units(data, p, replace, width, height, sampling);
                    lemma_vcl_kept(nals, Some(framed_sei(payload)));
                },
                None => {
                    law_stripped_units(data);
                    assert(modified(data, None, replace, width, height, sampling) is Ok);
                    lemma_vcl_kept(nals, None);
                },
            }
        } else {
            law_annex_b_lossless(data, 0);
            assert(coded(nals[0]));
            match params {
                Some(p) => {
                    lemma_annex_b_edited(nals, Some(coded_sei(payload)));
                },
                None => {
                    lemma_annex_b_edited(nals, None);
                },
            }
            if out.len() == 0 {
                assert(annex_b_from(out, 0).len() == 0);
                assert(nals_of(out)->Ok_0 =~= annex_b_from(out, 0));
            }
        }
    }
}

/// Law: no grain is left in a packet that grain was taken out of, and every other NAL unit can
/// be read as before. A packet with start codes must not have come out in a way that it can be
/// read as one with lengths too.
pub proof fn law_grain_gone(
    data: Seq<u8>,
    replace: bool,
    width: int,
    height: int,
    sampling: ChromaSubsampling,
)
    requires
        nals_of(data) is Ok,
        modified(data, None, replace, width, height, sampling) matches Ok(out) && (length_prefixed(
            data,
            4,
        ) is Err ==> out.len() == 0 || length_prefixed(out, 4) is Err),
    ensures
        modified(data, None, replace, width, height, sampling) matches Ok(out) && packet_grain(out)
            == Ok::<Option<GrainModel>, Error>(None) && (readable(data) && out.len() + 4
            <= usize::MAX ==> grain_readable(out)),
{
    let nals = nals_of(data)->Ok_0;
    let out = modified(data, None, replace, width, height, sampling)->Ok_0;
    if length_prefixed(data, 4) is Ok {
        law_stripped_units(data);
        assert(modified(data, None, replace, width, height, sampling) is Ok);
        lemma_edited_payload(nals, None);
        if readable(data) {
            let good = |nal: NalModel| nal_readable(nal.data);
            lemma_edited_all(nals, None, good);
            let list = edited_nals(nals, None);
            assert forall|i: int| 0 <= i < list.len() implies nal_readable(
                (#[trigger] list[i]).data,
            ) by {
                assert(good(list[i]));
            }
        }
    } else {
        law_annex_b_lossless(data, 0);
        lemma_annex_b_edited(nals, None);
        assert(nals.len() > 0) by {
            assert(next_code(data, 0) == 0);
        }
    }
    if readable(out) {
        law_readable_scannable(out);
    }
}

/// NAL units in front that neither carry grain nor hold coded picture data stay in front.
proof fn lemma_edited_front(front: Seq<NalModel>, back: Seq<NalModel>, sei: Option<NalModel>)
    requires
        nals_payload(front) is None,
        !has_vcl(front),
    ensures
        edited_nals(front + back, sei) == front + edited_nals(back, sei),
    decreases front.len(),
{
    if front.len() == 0 {
        assert(front + back =~= back);
        assert(front + edited_nals(back, sei) =~= edited_nals(back, sei));
    } else {
        let rest = front.skip(1);
        assert(!is_vcl(front[0].data));
        assert(!has_vcl(rest)) by {
            if has_vcl(rest) {
                let i = choose|i: int| 0 <= i < rest.len() && is_vcl((#[trigger] rest[i]).data);
                assert(is_vcl(front[i + 1].data));
            }
        }
        lemma_edited_front(rest, back, sei);
        assert((front + back).skip(1) =~= rest + back);
        assert(edited_nals(front + back, sei) =~= front + edited_nals(back, sei));
    }
}

/// Where grain goes into a list with coded picture data.
proof fn lemma_edited_place(nals: Seq<NalModel>, one: NalModel, other: NalModel) -> (r: (
    Seq<NalModel>,
    Seq<NalModel>,
))
    requires
        has_vcl(nals),
        pictures_have_bodies(nals),
        all_coded(nals),
    ensures
        edited_nals(nals, Some(one)) == r.0 + (seq![one] + r.1),
        edited_nals(nals, Some(other)) == r.0 + (seq![other] + r.1),
        nals_payload(r.0) is None,
        !has_vcl(r.0),
        nals_payload(r.1) is None,
        r.1.len() > 0,
        is_vcl(r.1[0].data),
        has_body(r.1[0].data),
        all_coded(r.0),
        all_coded(r.1),
    decreases nals.len(),
{
    let first = nals[0];
    let rest = nals.skip(1);
    assert(coded(first));
    assert forall|k: int| 0 <= k < rest.len() implies coded(#[trigger] rest[k]) by {
        assert(rest[k] == nals[k + 1]);
    }
    if is_vcl(first.data) {
        let front = Seq::<NalModel>::empty();
        let tail = edited_nals(rest, None);
        let back = seq![first] + tail;
        lemma_edited_payload(rest, None);
        lemma_edited_all(rest, None, |nal: NalModel| coded(nal));
        assert(back.skip(1) =~= tail);
        assert forall|k: int| 0 <= k < back.len() implies coded(#[trigger] back[k]) by {
            if k > 0 {
                assert(back[k] == tail[k - 1]);
                assert((|nal: NalModel| coded(nal))(tail[k - 1]));
            }
        }
        assert(edited_nals(nals, Some(one)) =~= front + (seq![one] + back));
        assert(edited_nals(nals, Some(other)) =~= front + (seq![other] + back));
        (front, back)
    } else {
        assert(has_vcl(rest)) by {
            let i = choose|i: int| 0 <= i < nals.len() && is_vcl((#[trigger] nals[i]).data);
            assert(rest[i - 1] == nals[i]);
        }
        assert(pictures_have_bodies(rest)) by {
            assert forall|k: int| 0 <= k < rest.len() && is_vcl(
                (#[trigger] rest[k]).data,
            ) implies has_body(rest[k].data) by {
                assert(rest[k] == nals[k + 1]);
            }
        }
        let (front, back) = lemma_edited_place(rest, one, other);
        if nal_payload(first.data) is Some {
            assert(edited_nals(nals, Some(one)) =~= front + (seq![one] + back));
            assert(edited_nals(nals, Some(other)) =~= front + (seq![other] + back));
            (front, back)
        } else {
            let longer = seq![first] + front;
            assert(longer.skip(1) =~= front);
            assert(!has_vcl(longer)) by {
                if has_vcl(longer) {
                    let i = choose|i: int|
                        0 <= i < longer.len() && is_vcl((#[trigger] longer[i]).data);
                    assert(i > 0);
                    assert(is_vcl(front[i - 1].data));
                }
            }
            assert forall|k: int| 0 <= k < longer.len() implies coded(#[trigger] longer[k]) by {
                if k > 0 {
                    assert(longer[k] == front[k - 1]);
                }
            }
            assert(edited_nals(nals, Some(one)) =~= longer + (seq![one] + back));
            assert(edited_nals(nals, Some(other)) =~= longer + (seq![other] + back));
            (longer, back)
        }
    }
}

/// What is found of NAL units that carry no grain, and what it comes to.
proof fn lemma_found_plain(nals: Seq<NalModel>)
    requires
        all_coded(nals),
        nals_payload(nals) is None,
    ensures
        nals_payload(annex_b_from(flatten(nals), 0)) is None,
        !has_vcl(nals) ==> !has_vcl(annex_b_from(flatten(nals), 0)),
        flatten(annex_b_from(flatten(nals), 0)) == flatten(nals),
        starts_coded(flatten(nals)),
{
    lemma_edited_bytes(nals, None);
    lemma_edited_same(nals);
    lemma_annex_b_edited(nals, None);
    if !has_vcl(nals) {
        assert(pictures_have_bodies(nals)) by {
            assert forall|k: int| 0 <= k < nals.len() && is_vcl(
                (#[trigger] nals[k]).data,
            ) implies has_body(nals[k].data) by {
                assert(has_vcl(nals));
            }
        }
    }
    let data = flatten(nals);
    law_annex_b_lossless(data, 0);
    if data.len() > 0 {
        assert(next_code(data, 0) == 0);
    }
    assert(data.skip(0) =~= data);
}

/// What is found in a packet with start codes that grain was put into comes to the same as what
/// was put together, with other grain in its place.
proof fn lemma_annex_b_replaced(nals: Seq<NalModel>, one: NalModel, other: NalModel)
    requires
        all_coded(nals),
        pictures_have_bodies(nals),
        coded(one),
        one.prefix == seq![0u8, 0u8, 0u8, 1u8],
        nal_payload(one.data) is Some,
        !is_vcl(one.data),
        one.data.len() > 0,
        one.data.last() != 0,
    ensures
        flatten(
            edited_nals(annex_b_from(flatten(edited_nals(nals, Some(one))), 0), Some(other)),
        ) == flatten(edited_nals(nals, Some(other))),
{
    let list = edited_nals(nals, Some(one));
    let found = annex_b_from(flatten(list), 0);
    if has_vcl(nals) {
        let (front, back) = lemma_edited_place(nals, one, other);
        lemma_found_plain(front);
        lemma_found_plain(back);
        let a = annex_b_from(flatten(front), 0);
        let b = annex_b_from(flatten(back), 0);
        lemma_flatten_add(front, seq![one] + back);
        lemma_flatten_add(seq![one], back);
        lemma_flatten_one(one);
        let tail = one.prefix + one.data + flatten(back);
        assert(flatten(list) == flatten(front) + tail);
        assert(long_code_at(tail, 0) && !short_code_at(tail, 0)) by {
            assert(tail[0] == 0 && tail[1] == 0 && tail[2] == 0 && tail[3] == 1);
        }
        lemma_annex_b_concat(front, tail);
        lemma_settled_step(one, flatten(back));
        assert(found == a + (seq![one] + b));
        lemma_edited_front(a, seq![one] + b, Some(other));
        assert((seq![one] + b).skip(1) =~= b);
        assert(edited_nals(seq![one] + b, Some(other)) =~= edited_nals(b, Some(other)));
        lemma_annex_b_step(back[0], flatten(back.skip(1)));
        assert(starts_coded(flatten(back.skip(1)))) by {
            let rest = back.skip(1);
            if rest.len() > 0 {
                assert(rest[0] == back[1]);
                assert(coded(rest[0]));
                lemma_annex_b_first(rest[0], flatten(rest.skip(1)));
            }
        }
        assert(b.len() > 0 && is_vcl(b[0].data));
        assert(nal_payload(b[0].data) is None);
        lemma_edited_same(b.skip(1));
        assert(edited_nals(b, Some(other)) =~= seq![other] + b) by {
            assert(seq![b[0]] + b.skip(1) =~= b);
        }
        lemma_flatten_add(a, seq![other] + b);
        lemma_flatten_add(seq![other], b);
        lemma_flatten_add(front, seq![other] + back);
        lemma_flatten_add(seq![other], back);
    } else {
        lemma_edited_none(nals, one);
        lemma_edited_none(nals, other);
        lemma_edited_payload(nals, None);
        lemma_vcl_kept(nals, None);
        lemma_edited_all(nals, None, |nal: NalModel| coded(nal));
        assert forall|k: int| 0 <= k < list.len() implies coded(#[trigger] list[k]) by {
            assert((|nal: NalModel| coded(nal))(list[k]));
        }
        lemma_found_plain(list);
        lemma_edited_none(found, other);
        lemma_edited_same(found);
    }
}

/// Without coded picture data nothing is put in.
proof fn lemma_edited_none(nals: Seq<NalModel>, m: NalModel)
    requires
        !has_vcl(nals),
    ensures
        edited_nals(nals, Some(m)) == edited_nals(nals, None),
    decreases nals.len(),
{
    if nals.len() > 0 {
        let rest = nals.skip(1);
        assert(!is_vcl(nals[0].data));
        assert(!has_vcl(rest)) by {
            if has_vcl(rest) {
                let i = choose|i: int| 0 <= i < rest.len() && is_vcl((#[trigger] rest[i]).data);
                assert(is_vcl(nals[i + 1].data));
            }
        }
        lemma_edited_none(rest, m);
    }
}

/// Law: putting grain in and then other grain in its place is the same as putting in the other
/// grain at once. Where start codes tell the NAL units apart, those with coded picture data must
/// have bodies, and the packet must not have come out in a way that it can be read as one with
/// lengths too.
pub proof fn law_replacing_overrides(
    data: Seq<u8>,
    p: GrainModel,
    q: GrainModel,
    replace: bool,
    width: int,
    height: int,
    sampling: ChromaSubsampling,
)
    requires
        p.in_capacity(),
        q.in_capacity(),
        modified(data, Some(p), replace, width, height, sampling) matches Ok(out) && (
        length_prefixed(data, 4) is Err ==> pictures_have_bodies(nals_of(data)->Ok_0) && (out.len()
            == 0 || length_prefixed(out, 4) is Err)),
        modified(data, Some(q), true, width, height, sampling) is Ok,
    ensures
        modified(
            modified(data, Some(p), replace, width, height, sampling)->Ok_0,
            Some(q),
            true,
            width,
            height,
            sampling,
        ) == modified(data, Some(q), true, width, height, sampling),
{
    let nals = nals_of(data)->Ok_0;
    law_nals_lossless(data);
    if data.len() > 0 {
        assert(nals.len() > 0);
        let out = modified(data, Some(p), replace, width, height, sampling)->Ok_0;
        let payload = afgs1_payload(p, width, height, sampling)->Ok_0;
        let other = afgs1_payload(q, width, height, sampling)->Ok_0;
        lemma_inserted(p, nals[0].format, width, height, sampling);
        lemma_inserted(q, nals[0].format, width, height, sampling);
        law_sei_read_back(payload);
        lemma_sei_code_free(payload);
        if length_prefixed(data, 4) is Ok {
            law_modified_units(data, p, replace, width, height, sampling);
            law_length_prefixed_lossless(data, 4);
            assert(framed(nals[0], 4));
            let first = framed_sei(payload);
            let second = framed_sei(other);
            let once = edited_nals(nals, Some(first));
            lemma_edited_twice(nals, Some(first), Some(second));
            lemma_edited_bytes(nals, Some(second));
            lemma_edited_bytes(once, Some(second));
            lemma_edited_bytes(nals, Some(first));
            if once.len() > 0 {
                let good = |nal: NalModel| framed(nal, 4);
                lemma_edited_all(nals, Some(first), good);
                assert(good(once[0]));
            } else {
                assert(edited_nals(once, Some(second)) =~= Seq::empty());
                assert(out =~= Seq::empty());
            }
        } else {
            law_annex_b_lossless(data, 0);
            assert(coded(nals[0]));
            let first = coded_sei(payload);
            let second = coded_sei(other);
            lemma_edited_bytes(nals, Some(first));
            lemma_edited_bytes(nals, Some(second));
            lemma_annex_b_edited(nals, Some(first));
            lemma_annex_b_replaced(nals, first, second);
            let found = annex_b_from(out, 0);
            lemma_edited_bytes(found, Some(second));
            if out.len() > 0 {
                law_annex_b_lossless(out, 0);
                assert(next_code(out, 0) == 0);
                assert(found.len() > 0);
                assert(coded(found[0]));
            } else {
                assert(found.len() == 0);
                assert(edited_nals(found, Some(second)) =~= Seq::empty());
                assert(out =~= Seq::empty());
            }
        }
    }
}

/// A list that is settled stays so when a NAL unit is put in behind a long start code.
proof fn lemma_settled_insert(nals: Seq<NalModel>, m: NalModel)
    requires
        settled(nals),
        nals_payload(nals) is None,
        coded(m),
        m.prefix == seq![0u8, 0u8, 0u8, 1u8],
        m.data.len() > 0,
        m.data.last() != 0,
    ensures
        settled(edited_nals(nals, Some(m))),
        nals.len() > 0 ==> edited_nals(nals, Some(m)).len() > 0 && (edited_nals(nals, Some(m))[0]
            == nals[0] || edited_nals(nals, Some(m))[0] == m),
    decreases nals.len(),
{
    if nals.len() > 0 {
        let first = nals[0];
        let rest = nals.skip(1);
        let all = edited_nals(nals, Some(m));
        assert(coded(first));
        assert(settled(rest)) by {
            assert forall|k: int| 0 <= k < rest.len() implies coded(#[trigger] rest[k]) by {
                assert(rest[k] == nals[k + 1]);
            }
            assert forall|k: int|
                0 <= k < rest.len() - 1 && (#[trigger] rest[k]).data.len() > 0
                    && rest[k].data.last() == 0 implies rest[k + 1].prefix == seq![
                0u8,
                0u8,
                0u8,
                1u8,
            ] by {
                assert(rest[k] == nals[k + 1]);
            }
        }
        if is_vcl(first.data) {
            lemma_edited_same(rest);
            assert(all =~= seq![m] + nals);
            assert forall|k: int| 0 <= k < all.len() implies coded(#[trigger] all[k]) by {
                if k > 0 {
                    assert(all[k] == nals[k - 1]);
                }
            }
            assert forall|k: int|
                0 <= k < all.len() - 1 && (#[trigger] all[k]).data.len() > 0 && all[k].data.last()
                    == 0 implies all[k + 1].prefix == seq![0u8, 0u8, 0u8, 1u8] by {
                assert(k > 0);
                assert(all[k] == nals[k - 1]);
                assert(all[k + 1] == nals[k - 1 + 1]);
            }
        } else {
            lemma_settled_insert(rest, m);
            let tail = edited_nals(rest, Some(m));
            assert(all =~= seq![first] + tail);
            assert forall|k: int| 0 <= k < all.len() implies coded(#[trigger] all[k]) by {
                if k > 0 {
                    assert(all[k] == tail[k - 1]);
                }
            }
            assert forall|k: int|
                0 <= k < all.len() - 1 && (#[trigger] all[k]).data.len() > 0 && all[k].data.last()
                    == 0 implies all[k + 1].prefix == seq![0u8, 0u8, 0u8, 1u8] by {
                assert(all[k + 1] == tail[k]);
                if k == 0 {
                    assert(rest.len() > 0) by {
                        if rest.len() == 0 {
                            assert(tail.len() == 0);
                        }
                    }
                    assert(rest[0] == nals[1]);
                    assert(nals[0].data.last() == 0);
                } else {
                    assert(all[k] == tail[k - 1]);
                }
            }
        }
    }
}

/// Law: taking grain out undoes putting it into a packet that carried none. A packet with start
/// codes must not have come out in a way that it can be read as one with lengths too.
pub proof fn law_stripping_undoes(
    data: Seq<u8>,
    p: GrainModel,
    replace: bool,
    width: int,
    height: int,
    sampling: ChromaSubsampling,
)
    requires
        p.in_capacity(),
        nals_of(data) matches Ok(nals) && nals_payload(nals) is None,
        modified(data, Some(p), replace, width, height, sampling) matches Ok(out) && (
        length_prefixed(data, 4) is Err ==> length_prefixed(out, 4) is Err),
    ensures
        modified(
            modified(data, Some(p), replace, width, height, sampling)->Ok_0,
            None,
            replace,
            width,
            height,
            sampling,
        ) == Ok::<Seq<u8>, Error>(data),
{
    let nals = nals_of(data)->Ok_0;
    law_nals_lossless(data);
    if data.len() > 0 {
        let out = modified(data, Some(p), replace, width, height, sampling)->Ok_0;
        lemma_inserted(p, nals[0].format, width, height, sampling);
        let payload = afgs1_payload(p, width, height, sampling)->Ok_0;
        law_sei_read_back(payload);
        lemma_sei_code_free(payload);
        let first = if length_prefixed(data, 4) is Ok {
            framed_sei(payload)
        } else {
            coded_sei(payload)
        };
        let once = edited_nals(nals, Some(first));
        lemma_edited_bytes(nals, Some(first));
        if length_prefixed(data, 4) is Ok {
            law_modified_units(data, p, replace, width, height, sampling);
            law_length_prefixed_lossless(data, 4);
            assert(framed(nals[0], 4));
        } else {
            law_annex_b_settled(data, 0);
            assert(coded(nals[0]));
            lemma_settled_insert(nals, first);
            law_settled_read_back(once);
            assert(out == flatten(once));
            assert(coded(once[0]));
            assert(out.len() > 0);
            assert(nals_of(out) == Ok::<Seq<NalModel>, Error>(once));
        }
        lemma_edited_twice(nals, Some(first), None);
        lemma_edited_same(nals);
        lemma_edited_bytes(once, None);
        assert(once.len() > 0) by {
            if once.len() == 0 {
                assert(edited_nals(once, None) =~= Seq::empty());
            }
        }
    }
}

/// Putting in the bytes that prevent emulation at most doubles the length.
proof fn lemma_escaped_len(rbsp: Seq<u8>)
    ensures
        ebsp_of(rbsp).len() <= 2 * rbsp.len(),
    decreases rbsp.len(),
{
    if rbsp.len() > 0 {
        lemma_escaped_len(rbsp.drop_last());
    }
}

/// A number takes no more bytes than it counts, and one.
proof fn lemma_number_len(v: nat)
    ensures
        number_bytes(v).len() <= v + 1,
    decreases v,
{
    if v >= 255 {
        lemma_number_len((v - 255) as nat);
    }
}

/// The NAL unit for a grain description is short.
proof fn lemma_sei_len(p: GrainModel, width: int, height: int, sampling: ChromaSubsampling)
    requires
        p.in_capacity(),
        afgs1_payload(p, width, height, sampling) is Ok,
    ensures
        sei_nal(afgs1_payload(p, width, height, sampling)->Ok_0).len() < 1000,
{
    let payload = afgs1_payload(p, width, height, sampling)->Ok_0;
    let (log2, horz, vert) = resolution(width, height);
    let set = set_bits(p, log2, horz, vert, sampling)->Ok_0;
    lemma_set_len(p, log2, horz, vert, sampling);
    let size = stated_size(set.len(), 8);
    assert(size < pow2(8)) by {
        lemma2_to64();
    }
    lemma_envelope(size, 8);
    assert(payload.len() <= 200);
    lemma_number_len(payload.len());
    lemma_number_len(SEI_USER_DATA_REGISTERED_ITU_T_T35 as nat);
    lemma_escaped_len(
        number_bytes(SEI_USER_DATA_REGISTERED_ITU_T_T35 as nat) + number_bytes(payload.len())
            + payload + seq![0x80u8],
    );
}

/// Law: grain can be put into a packet if and only if the packet can be taken apart, the grain
/// and the picture fit into a payload without scaling chroma from luma, and there is either no
/// grain yet or leave to replace it.
pub proof fn law_modification_succeeds(
    data: Seq<u8>,
    p: GrainModel,
    replace: bool,
    width: int,
    height: int,
    sampling: ChromaSubsampling,
)
    requires
        p.in_capacity(),
        data.len() > 0,
        0 < width <= u64::MAX,
        0 < height <= u64::MAX,
    ensures
        modified(data, Some(p), replace, width, height, sampling) is Ok <==> {
            &&& nals_of(data) is Ok
            &&& replace || nals_payload(nals_of(data)->Ok_0) is None
            &&& !p.chroma_scaling_from_luma
            &&& writable(p, width, height, sampling)
        },
{
    law_payload_accepts(p, width, height, sampling);
    if nals_of(data) is Ok {
        let nals = nals_of(data)->Ok_0;
        law_length_prefixed_lossless(data, 4);
        law_annex_b_lossless(data, 0);
        law_nals_lossless(data);
        assert(nals.len() > 0);
        if length_prefixed(data, 4) is Ok {
            assert(framed(nals[0], 4));
        } else {
            assert(coded(nals[0]));
        }
        if afgs1_payload(p, width, height, sampling) is Ok {
            lemma_sei_len(p, width, height, sampling);
        }
    }
}

} // verus!
