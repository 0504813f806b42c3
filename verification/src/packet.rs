//! Grain in the packets of an HEVC stream.
use crate::afgs1_read::{decode_afgs1, parse_afgs1_payload, parsed_payload, points_fit, Fault};
use crate::afgs1_write::{afgs1_payload, build_afgs1_payload};
use crate::error::Error;
use crate::escape::{are_runs_countable, ebsp_of, ebsp_to_rbsp, rbsp_of, rbsp_to_ebsp};
use crate::grain::{FilmGrainParams, GrainModel};
use crate::nal::{
    annex_b_from, be_bytes, find_nals, is_sei, is_vcl, is_vcl_nal, lemma_next_code, length_limit,
    length_prefixed, nal_type, nals_of, nals_view, write_length_prefix, Nal, NalModel, PacketFormat,
    NAL_PREFIX_SEI, NAL_SUFFIX_SEI,
};
use crate::sei::{
    are_messages_fit, is_afgs1, is_afgs1_payload, lemma_read_number, lemma_unescaped_len, messages,
    messages_view, nal_countable, nal_messages, number_bytes, parse_sei_messages, read_number,
    write_sei_message_header, SEI_USER_DATA_REGISTERED_ITU_T_T35,
};
use crate::video::ChromaSubsampling;
use vstd::prelude::*;
use vstd::slice::{slice_subrange, slice_to_vec};

verus! {

/// A message carries an AFGS1 payload with grain switched on.
pub open spec fn carries_grain(message: (nat, Seq<u8>)) -> bool {
    message.0 == SEI_USER_DATA_REGISTERED_ITU_T_T35 && is_afgs1(message.1)
}

/// The first AFGS1 payload in a list of messages.
pub open spec fn first_payload(list: Seq<(nat, Seq<u8>)>) -> Option<Seq<u8>>
    decreases list.len(),
{
    if list.len() == 0 {
        None
    } else if carries_grain(list[0]) {
        Some(list[0].1)
    } else {
        first_payload(list.skip(1))
    }
}

/// The first AFGS1 payload in a NAL unit.
pub open spec fn nal_payload(nal: Seq<u8>) -> Option<Seq<u8>> {
    if is_sei(nal) {
        first_payload(nal_messages(nal))
    } else {
        None
    }
}

/// The first AFGS1 payload in a list of NAL units.
pub open spec fn nals_payload(nals: Seq<NalModel>) -> Option<Seq<u8>>
    decreases nals.len(),
{
    if nals.len() == 0 {
        None
    } else if nal_payload(nals[0].data) is Some {
        nal_payload(nals[0].data)
    } else {
        nals_payload(nals.skip(1))
    }
}

/// An SEI NAL unit can be read: the zeros in it can be counted, and its messages run into no
/// limits.
pub open spec fn nal_readable(nal: Seq<u8>) -> bool {
    is_sei(nal) ==> nal_countable(nal)
}

/// A packet can be read: its bytes can be counted, and its SEI NAL units can be read.
pub open spec fn readable(data: Seq<u8>) -> bool {
    &&& data.len() + 4 <= usize::MAX
    &&& nals_of(data) matches Ok(nals) ==> forall|i: int|
        0 <= i < nals.len() ==> nal_readable((#[trigger] nals[i]).data)
}

/// The NAL units of a list can be read up to the first that carries grain, behind which nothing is
/// looked at where grain is only looked for.
pub open spec fn nals_scannable(nals: Seq<NalModel>) -> bool
    decreases nals.len(),
{
    nals.len() == 0 || (nal_readable(nals[0].data) && (nal_payload(nals[0].data) is Some
        || nals_scannable(nals.skip(1))))
}

/// Grain can be looked for in a packet: its bytes can be counted, and its SEI NAL units up to the
/// first that carries grain can be read.
pub open spec fn scannable(data: Seq<u8>) -> bool {
    &&& data.len() + 4 <= usize::MAX
    &&& nals_of(data) matches Ok(nals) ==> nals_scannable(nals)
}

/// NAL units that can all be read can be read up to the first that carries grain.
proof fn lemma_nals_scannable(nals: Seq<NalModel>)
    requires
        forall|i: int| 0 <= i < nals.len() ==> nal_readable((#[trigger] nals[i]).data),
    ensures
        nals_scannable(nals),
    decreases nals.len(),
{
    if nals.len() > 0 {
        let rest = nals.skip(1);
        assert forall|i: int| 0 <= i < rest.len() implies nal_readable(
            (#[trigger] rest[i]).data,
        ) by {
            assert(rest[i] == nals[i + 1]);
        }
        lemma_nals_scannable(rest);
    }
}

/// Law: grain can be looked for in a packet that can be read.
pub proof fn law_readable_scannable(data: Seq<u8>)
    requires
        readable(data),
    ensures
        scannable(data),
{
    if let Ok(nals) = nals_of(data) {
        lemma_nals_scannable(nals);
    }
}

/// The grain in a packet can be read: its bits can be counted, and it has no more scaling points
/// than there is room for.
pub open spec fn grain_readable(data: Seq<u8>) -> bool {
    &&& scannable(data)
    &&& nals_of(data) matches Ok(nals) ==> (nals_payload(nals) matches Some(payload) ==> {
        &&& payload.len() * 8 + 64 <= usize::MAX
        &&& points_fit(payload)
    })
}

/// No NAL unit is longer than the packet it is in.
proof fn lemma_length_prefixed_sizes(data: Seq<u8>, n: nat)
    ensures
        length_prefixed(data, n) matches Ok(nals) ==> forall|i: int|
            0 <= i < nals.len() ==> (#[trigger] nals[i]).data.len() <= data.len(),
    decreases data.len(),
{
    if let Ok(nals) = length_prefixed(data, n) {
        if data.len() > 0 {
            let len = crate::nal::be_number(data.take(n as int));
            lemma_length_prefixed_sizes(data.skip(n + len), n);
            let rest = length_prefixed(data.skip(n + len), n)->Ok_0;
            assert forall|i: int| 0 <= i < nals.len() implies (#[trigger] nals[i]).data.len()
                <= data.len() by {
                if i > 0 {
                    assert(nals[i] == rest[i - 1]);
                }
            }
        }
    }
}

proof fn lemma_annex_b_sizes(data: Seq<u8>, from: int)
    requires
        0 <= from <= data.len(),
    ensures
        forall|i: int|
            0 <= i < annex_b_from(data, from).len() ==> (#[trigger] annex_b_from(
                data,
                from,
            )[i]).data.len() <= data.len(),
    decreases data.len() - from,
{
    lemma_next_code(data, from);
    let start = crate::nal::next_code(data, from);
    let nals = annex_b_from(data, from);
    if start < data.len() {
        let body = start + crate::nal::code_len(data, start);
        lemma_next_code(data, body);
        lemma_annex_b_sizes(data, body);
        assert forall|i: int| 0 <= i < nals.len() implies (#[trigger] nals[i]).data.len()
            <= data.len() by {
            if i > 0 {
                assert(nals[i] == annex_b_from(data, body)[i - 1]);
            }
        }
    }
}

pub proof fn lemma_nal_sizes(data: Seq<u8>)
    ensures
        nals_of(data) matches Ok(nals) ==> forall|i: int|
            0 <= i < nals.len() ==> (#[trigger] nals[i]).data.len() <= data.len(),
{
    lemma_length_prefixed_sizes(data, 4);
    lemma_annex_b_sizes(data, 0);
}

/// No message is longer than what it is in.
proof fn lemma_message_sizes(rbsp: Seq<u8>)
    ensures
        forall|i: int|
            0 <= i < messages(rbsp).len() ==> (#[trigger] messages(rbsp)[i]).1.len() <= rbsp.len(),
    decreases rbsp.len(),
{
    lemma_read_number(rbsp);
    if let Some((kind, rest)) = read_number(rbsp) {
        lemma_read_number(rest);
        if let Some((size, body)) = read_number(rest) {
            if size <= body.len() {
                lemma_message_sizes(body.skip(size as int));
                let list = messages(rbsp);
                assert forall|i: int| 0 <= i < list.len() implies (#[trigger] list[i]).1.len()
                    <= rbsp.len() by {
                    if i > 0 {
                        assert(list[i] == messages(body.skip(size as int))[i - 1]);
                    }
                }
            }
        }
    }
}

/// The first AFGS1 payload in a list of messages.
fn find_payload(list: &Vec<(u64, Vec<u8>)>) -> (r: Option<usize>)
    ensures
        match (r, first_payload(messages_view(list@))) {
            (Some(i), Some(payload)) => i < list@.len() && list@[i as int].1@ == payload,
            (None, None) => true,
            _ => false,
        },
{
    let ghost all = messages_view(list@);
    let mut i: usize = 0;
    assert(all.skip(0) =~= all);
    while i < list.len()
        invariant
            all == messages_view(list@),
            i <= list@.len(),
            first_payload(all) == first_payload(all.skip(i as int)),
        decreases list@.len() - i,
    {
        assert(all[i as int] == (list@[i as int].0 as nat, list@[i as int].1@));
        if list[i].0 == SEI_USER_DATA_REGISTERED_ITU_T_T35 && is_afgs1_payload(
            list[i].1.as_slice(),
        ) {
            return Some(i);
        }
        assert(all.skip(i as int).skip(1) =~= all.skip(i + 1));
        i = i + 1;
    }
    None
}

/// The first AFGS1 payload in a NAL unit.
fn find_nal_payload(nal: &[u8]) -> (r: Option<Vec<u8>>)
    requires
        nal_readable(nal@),
    ensures
        match (r, nal_payload(nal@)) {
            (Some(found), Some(payload)) => found@ == payload && payload.len() <= nal@.len(),
            (None, None) => true,
            _ => false,
        },
{
    let is_sei_nal: bool = match nal_type(nal) {
        Ok(t) => t == NAL_PREFIX_SEI || t == NAL_SUFFIX_SEI,
        Err(_) => false,
    };
    if !is_sei_nal {
        return None;
    }
    match parse_sei_messages(nal) {
        Ok(list) => match find_payload(&list) {
            Some(i) => {
                proof {
                    lemma_message_sizes(rbsp_of(nal@.skip(2)));
                    lemma_unescaped_len(nal@.skip(2), nal@.skip(2).len());
                    assert(messages_view(list@)[i as int].1 == list@[i as int].1@);
                }
                Some(slice_to_vec(list[i].1.as_slice()))
            },
            None => None,
        },
        Err(_) => None,
    }
}

/// Whether a NAL unit carries an AFGS1 payload with grain switched on.
pub fn is_afgs1_sei(nal: &[u8]) -> (r: bool)
    requires
        nal_readable(nal@),
    ensures
        r == (nal_payload(nal@) is Some),
{
    find_nal_payload(nal).is_some()
}

/// One of the NAL units holds coded picture data.
pub open spec fn has_vcl(nals: Seq<NalModel>) -> bool {
    exists|i: int| 0 <= i < nals.len() && is_vcl((#[trigger] nals[i]).data)
}

/// Whether a packet holds coded picture data, or why it cannot be taken apart.
pub open spec fn holds_picture(data: Seq<u8>) -> Result<bool, Error> {
    match nals_of(data) {
        Ok(nals) => Ok(has_vcl(nals)),
        Err(e) => Err(e),
    }
}

/// Whether a packet holds coded picture data.
pub fn packet_has_vcl(data: &[u8]) -> (r: Result<bool, Error>)
    requires
        data@.len() + 4 <= usize::MAX,
    ensures
        r == holds_picture(data@),
{
    let nals: Vec<Nal<'_>> = match find_nals(data) {
        Ok(nals) => nals,
        Err(e) => {
            return Err(e);
        },
    };
    let mut i: usize = 0;
    while i < nals.len()
        invariant
            i <= nals@.len(),
            nals_of(data@) == Ok::<Seq<NalModel>, Error>(nals_view(nals@)),
            forall|j: int| 0 <= j < i ==> !is_vcl((#[trigger] nals_view(nals@)[j]).data),
        decreases nals@.len() - i,
    {
        assert(nals_view(nals@)[i as int].data == nals@[i as int].data@);
        let vcl: bool = match nal_type(nals[i].data) {
            Ok(t) => is_vcl_nal(t),
            Err(_) => false,
        };
        if vcl {
            return Ok(true);
        }
        i = i + 1;
    }
    Ok(false)
}

/// Whether a NAL unit can be read.
fn is_nal_readable(nal: &[u8]) -> (r: bool)
    ensures
        r == nal_readable(nal@),
{
    let is_sei_nal: bool = match nal_type(nal) {
        Ok(t) => t == NAL_PREFIX_SEI || t == NAL_SUFFIX_SEI,
        Err(_) => false,
    };
    if !is_sei_nal {
        return true;
    }
    assert(nal@.subrange(2, nal@.len() as int) =~= nal@.skip(2));
    let body: &[u8] = slice_subrange(nal, 2, nal.len());
    are_runs_countable(body) && are_messages_fit(&ebsp_to_rbsp(body))
}

/// Whether a packet can be read.
pub fn is_packet_readable(data: &[u8]) -> (r: bool)
    ensures
        r == readable(data@),
{
    if data.len() > usize::MAX - 4 {
        return false;
    }
    let nals: Vec<Nal<'_>> = match find_nals(data) {
        Ok(nals) => nals,
        Err(_) => {
            return true;
        },
    };
    let mut i: usize = 0;
    while i < nals.len()
        invariant
            i <= nals@.len(),
            nals_of(data@) == Ok::<Seq<NalModel>, Error>(nals_view(nals@)),
            forall|j: int| 0 <= j < i ==> nal_readable((#[trigger] nals_view(nals@)[j]).data),
        decreases nals@.len() - i,
    {
        assert(nals_view(nals@)[i as int].data == nals@[i as int].data@);
        if !is_nal_readable(nals[i].data) {
            assert(!nal_readable(nals_view(nals@)[i as int].data));
            return false;
        }
        i = i + 1;
    }
    true
}

/// Whether grain can be looked for in a packet.
pub fn is_packet_scannable(data: &[u8]) -> (r: bool)
    ensures
        r == scannable(data@),
{
    if data.len() > usize::MAX - 4 {
        return false;
    }
    let nals: Vec<Nal<'_>> = match find_nals(data) {
        Ok(nals) => nals,
        Err(_) => {
            return true;
        },
    };
    let ghost all = nals_view(nals@);
    let mut i: usize = 0;
    assert(all.skip(0) =~= all);
    while i < nals.len()
        invariant
            all == nals_view(nals@),
            i <= nals@.len(),
            nals_of(data@) == Ok::<Seq<NalModel>, Error>(all),
            data@.len() + 4 <= usize::MAX,
            nals_scannable(all) == nals_scannable(all.skip(i as int)),
        decreases nals@.len() - i,
    {
        proof {
            assert(all[i as int].data == nals@[i as int].data@);
            assert(all.skip(i as int).skip(1) =~= all.skip(i + 1));
        }
        if !is_nal_readable(nals[i].data) {
            return false;
        }
        if is_afgs1_sei(nals[i].data) {
            return true;
        }
        i = i + 1;
    }
    true
}

/// The first AFGS1 payload in a packet, or why it cannot be taken apart.
fn find_packet_payload(data: &[u8]) -> (r: Result<Option<Vec<u8>>, Error>)
    requires
        scannable(data@),
    ensures
        match (r, nals_of(data@)) {
            (Ok(Some(found)), Ok(nals)) => nals_payload(nals) == Some(found@) && found@.len()
                <= data@.len(),
            (Ok(None), Ok(nals)) => nals_payload(nals) is None,
            (Err(e), Err(f)) => e == f,
            _ => false,
        },
{
    let nals: Vec<Nal<'_>> = match find_nals(data) {
        Ok(nals) => nals,
        Err(e) => {
            return Err(e);
        },
    };
    proof {
        lemma_nal_sizes(data@);
    }
    let ghost all = nals_view(nals@);
    let mut i: usize = 0;
    assert(all.skip(0) =~= all);
    while i < nals.len()
        invariant
            all == nals_view(nals@),
            i <= nals@.len(),
            nals_scannable(all.skip(i as int)),
            nals_of(data@) == Ok::<Seq<NalModel>, Error>(all),
            forall|j: int| 0 <= j < all.len() ==> (#[trigger] all[j]).data.len() <= data@.len(),
            nals_payload(all) == nals_payload(all.skip(i as int)),
        decreases nals@.len() - i,
    {
        assert(all[i as int].data == nals@[i as int].data@);
        assert(nal_readable(all.skip(i as int)[0].data));
        match find_nal_payload(nals[i].data) {
            Some(found) => {
                return Ok(Some(found));
            },
            None => {},
        }
        assert(all.skip(i as int).skip(1) =~= all.skip(i + 1));
        i = i + 1;
    }
    Ok(None)
}

/// Whether the grain in a packet can be read.
pub fn is_grain_readable(data: &[u8]) -> (r: bool)
    ensures
        r == grain_readable(data@),
{
    if !is_packet_scannable(data) {
        return false;
    }
    match find_packet_payload(data) {
        Ok(Some(payload)) => {
            if payload.len() > (usize::MAX - 64) / 8 {
                return false;
            }
            match decode_afgs1(payload.as_slice()) {
                Err(Fault::Overfull) => false,
                _ => true,
            }
        },
        _ => true,
    }
}

/// The grain in a packet.
pub open spec fn packet_grain(data: Seq<u8>) -> Result<Option<GrainModel>, Error> {
    match nals_of(data) {
        Err(e) => Err(e),
        Ok(nals) => match nals_payload(nals) {
            None => Ok(None),
            Some(payload) => match parsed_payload(payload) {
                Ok(p) => Ok(Some(p)),
                Err(e) => Err(e),
            },
        },
    }
}

/// Grain that may be missing, as specifications see it.
pub open spec fn grain_view(params: Option<FilmGrainParams>) -> Option<GrainModel> {
    match params {
        Some(p) => Some(p@),
        None => None,
    }
}

/// The grain in a packet: what its first AFGS1 payload describes.
pub fn parse_packet_afgs1_params(data: &[u8]) -> (r: Result<Option<FilmGrainParams>, Error>)
    requires
        grain_readable(data@),
    ensures
        match r {
            Ok(params) => packet_grain(data@) == Ok::<Option<GrainModel>, Error>(
                grain_view(params),
            ),
            Err(e) => packet_grain(data@) == Err::<Option<GrainModel>, Error>(e),
        },
{
    match find_packet_payload(data) {
        Ok(Some(payload)) => match parse_afgs1_payload(payload.as_slice()) {
            Ok(params) => Ok(Some(params)),
            Err(e) => Err(e),
        },
        Ok(None) => Ok(None),
        Err(e) => Err(e),
    }
}

/// The grain in each packet of a batch, in order.
pub fn parse_hevc_grain_batch(packet_data: &[Vec<u8>]) -> (r: Result<
    Vec<Option<FilmGrainParams>>,
    Error,
>)
    requires
        forall|i: int|
            0 <= i < packet_data@.len() ==> grain_readable((#[trigger] packet_data@[i])@),
    ensures
        match r {
            Ok(list) => {
                &&& list@.len() == packet_data@.len()
                &&& forall|i: int|
                    0 <= i < list@.len() ==> packet_grain((#[trigger] packet_data@[i])@) == Ok::<
                        Option<GrainModel>,
                        Error,
                    >(grain_view(list@[i]))
            },
            Err(e) => exists|i: int|
                0 <= i < packet_data@.len() && packet_grain((#[trigger] packet_data@[i])@) == Err::<
                    Option<GrainModel>,
                    Error,
                >(e),
        },
{
    let mut list: Vec<Option<FilmGrainParams>> = Vec::new();
    let mut i: usize = 0;
    while i < packet_data.len()
        invariant
            forall|j: int|
                0 <= j < packet_data@.len() ==> grain_readable((#[trigger] packet_data@[j])@),
            i <= packet_data@.len(),
            list@.len() == i,
            forall|j: int|
                0 <= j < i ==> packet_grain((#[trigger] packet_data@[j])@) == Ok::<
                    Option<GrainModel>,
                    Error,
                >(grain_view(list@[j])),
        decreases packet_data@.len() - i,
    {
        match parse_packet_afgs1_params(packet_data[i].as_slice()) {
            Ok(params) => {
                list.push(params);
            },
            Err(e) => {
                return Err(e);
            },
        }
        i = i + 1;
    }
    Ok(list)
}

/// Whether a packet carries grain, or why it cannot be taken apart.
pub open spec fn carries(data: Seq<u8>) -> Result<bool, Error> {
    match nals_of(data) {
        Ok(nals) => Ok(nals_payload(nals) is Some),
        Err(e) => Err(e),
    }
}

/// Whether a batch holds a packet that carries grain. All of it is looked at.
pub fn hevc_grain_batch_has_grain(packet_data: &[Vec<u8>]) -> (r: Result<bool, Error>)
    requires
        forall|i: int| 0 <= i < packet_data@.len() ==> scannable((#[trigger] packet_data@[i])@),
    ensures
        match r {
            Ok(found) => {
                &&& forall|i: int|
                    0 <= i < packet_data@.len() ==> carries((#[trigger] packet_data@[i])@) is Ok
                &&& found == exists|i: int|
                    0 <= i < packet_data@.len() && carries((#[trigger] packet_data@[i])@) == Ok::<
                        bool,
                        Error,
                    >(true)
            },
            Err(e) => exists|i: int|
                0 <= i < packet_data@.len() && carries((#[trigger] packet_data@[i])@) == Err::<
                    bool,
                    Error,
                >(e),
        },
{
    let mut found: bool = false;
    let mut i: usize = 0;
    while i < packet_data.len()
        invariant
            forall|j: int| 0 <= j < packet_data@.len() ==> scannable((#[trigger] packet_data@[j])@),
            i <= packet_data@.len(),
            forall|j: int| 0 <= j < i ==> carries((#[trigger] packet_data@[j])@) is Ok,
            found == exists|j: int|
                0 <= j < i && carries((#[trigger] packet_data@[j])@) == Ok::<bool, Error>(true),
        decreases packet_data@.len() - i,
    {
        match find_packet_payload(packet_data[i].as_slice()) {
            Ok(Some(_)) => {
                assert(carries(packet_data@[i as int]@) == Ok::<bool, Error>(true));
                found = true;
            },
            Ok(None) => {
                assert(carries(packet_data@[i as int]@) == Ok::<bool, Error>(false));
            },
            Err(e) => {
                assert(carries(packet_data@[i as int]@) == Err::<bool, Error>(e));
                return Err(e);
            },
        }
        i = i + 1;
    }
    Ok(found)
}

/// The SEI NAL unit that carries a payload, as it is in a packet without its prefix.
pub open spec fn sei_nal(payload: Seq<u8>) -> Seq<u8> {
    seq![78u8, 1u8] + ebsp_of(
        number_bytes(SEI_USER_DATA_REGISTERED_ITU_T_T35 as nat) + number_bytes(payload.len())
            + payload + seq![0x80u8],
    )
}

/// A NAL unit behind the prefix that a format asks for.
pub open spec fn with_prefix(nal: Seq<u8>, format: PacketFormat) -> Result<Seq<u8>, Error> {
    match format {
        PacketFormat::AnnexB => Ok(seq![0u8, 0u8, 0u8, 1u8] + nal),
        PacketFormat::LengthPrefixed { length_size } => if 1 <= length_size <= 4 && nal.len()
            < length_limit(length_size as int) {
            Ok(be_bytes(nal.len(), length_size as nat) + nal)
        } else {
            Err(Error::InvalidLengthPrefix { length_size })
        },
    }
}

/// The bytes that carry a grain description in a packet.
pub open spec fn afgs1_nal(
    p: GrainModel,
    format: PacketFormat,
    width: int,
    height: int,
    sampling: ChromaSubsampling,
) -> Result<Seq<u8>, Error> {
    if p.chroma_scaling_from_luma {
        Err(Error::ChromaFromLuma)
    } else {
        match afgs1_payload(p, width, height, sampling) {
            Err(e) => Err(e),
            Ok(payload) => with_prefix(sei_nal(payload), format),
        }
    }
}

/// Appends bytes.
fn append(out: &mut Vec<u8>, bytes: &[u8])
    ensures
        final(out)@ == old(out)@ + bytes@,
{
    let ghost before = out@;
    out.extend_from_slice(bytes);
    assert(out@ =~= before + bytes@);
}

/// The bytes that carry a grain description in a packet of the given format.
pub fn build_afgs1_nal(
    params: &FilmGrainParams,
    format: PacketFormat,
    width: usize,
    height: usize,
    chroma_sampling: ChromaSubsampling,
) -> (r: Result<Vec<u8>, Error>)
    ensures
        match r {
            Ok(nal) => afgs1_nal(params@, format, width as int, height as int, chroma_sampling)
                == Ok::<Seq<u8>, Error>(nal@),
            Err(e) => afgs1_nal(params@, format, width as int, height as int, chroma_sampling)
                == Err::<Seq<u8>, Error>(e),
        },
{
    if params.chroma_scaling_from_luma {
        return Err(Error::ChromaFromLuma);
    }
    let payload: Vec<u8> = match build_afgs1_payload(params, width, height, chroma_sampling) {
        Ok(payload) => payload,
        Err(e) => {
            return Err(e);
        },
    };
    let mut rbsp: Vec<u8> = Vec::new();
    match write_sei_message_header(SEI_USER_DATA_REGISTERED_ITU_T_T35, payload.len(), &mut rbsp) {
        Ok(()) => {},
        Err(e) => {
            return Err(e);
        },
    }
    append(&mut rbsp, payload.as_slice());
    rbsp.push(0x80);
    proof {
        assert(rbsp@ =~= number_bytes(SEI_USER_DATA_REGISTERED_ITU_T_T35 as nat) + number_bytes(
            payload@.len(),
        ) + payload@ + seq![0x80u8]);
    }
    let mut nal: Vec<u8> = Vec::new();
    nal.push(NAL_PREFIX_SEI * 2);
    nal.push(1);
    append(&mut nal, rbsp_to_ebsp(rbsp.as_slice()).as_slice());
    assert(nal@ =~= sei_nal(payload@));
    let mut out: Vec<u8> = Vec::new();
    match format {
        PacketFormat::AnnexB => {
            out.push(0);
            out.push(0);
            out.push(0);
            out.push(1);
            append(&mut out, nal.as_slice());
            assert(out@ =~= seq![0u8, 0u8, 0u8, 1u8] + nal@);
        },
        PacketFormat::LengthPrefixed { length_size } => {
            match write_length_prefix(nal.len(), length_size, &mut out) {
                Ok(()) => {},
                Err(e) => {
                    return Err(e);
                },
            }
            append(&mut out, nal.as_slice());
            assert(out@ =~= be_bytes(nal@.len(), length_size as nat) + nal@);
        },
    }
    Ok(out)
}

/// The bytes of a packet without the NAL units that carry grain, and with `sei` in front of the
/// first one that holds coded picture data.
pub open spec fn edited(nals: Seq<NalModel>, sei: Option<Seq<u8>>) -> Seq<u8>
    decreases nals.len(),
{
    if nals.len() == 0 {
        Seq::empty()
    } else {
        let here = sei is Some && is_vcl(nals[0].data);
        let inserted = if here {
            sei->0
        } else {
            Seq::empty()
        };
        let kept = if nal_payload(nals[0].data) is Some {
            Seq::empty()
        } else {
            nals[0].prefix + nals[0].data
        };
        inserted + kept + edited(
            nals.skip(1),
            if here {
                None
            } else {
                sei
            },
        )
    }
}

/// A packet with its grain taken out and, if there is any to put in, other grain put in.
pub open spec fn modified(
    data: Seq<u8>,
    params: Option<GrainModel>,
    replace: bool,
    width: int,
    height: int,
    sampling: ChromaSubsampling,
) -> Result<Seq<u8>, Error> {
    match nals_of(data) {
        Err(e) => Err(e),
        Ok(nals) => if nals.len() == 0 {
            Ok(data)
        } else if nals_payload(nals) is Some && params is Some && !replace {
            Err(Error::GrainExists)
        } else {
            match params {
                None => Ok(edited(nals, None)),
                Some(p) => match afgs1_nal(p, nals[0].format, width, height, sampling) {
                    Err(e) => Err(e),
                    Ok(sei) => Ok(edited(nals, Some(sei))),
                },
            }
        },
    }
}

/// The bytes in an optional vector.
pub open spec fn bytes_view(bytes: &Option<Vec<u8>>) -> Option<Seq<u8>> {
    match bytes {
        Some(b) => Some(b@),
        None => None,
    }
}

/// A packet can be modified without running into limits: grain can be looked for in it, and unless
/// it is refused, all of it can be read.
pub open spec fn modifiable(
    data: Seq<u8>,
    params: Option<GrainModel>,
    replace: bool,
    width: int,
    height: int,
    sampling: ChromaSubsampling,
) -> bool {
    &&& scannable(data)
    &&& modified(data, params, replace, width, height, sampling) is Ok ==> readable(data)
}

/// Whether a packet can be modified without running into limits.
pub fn is_packet_modifiable(
    data: &[u8],
    params: Option<&FilmGrainParams>,
    replace: bool,
    width: usize,
    height: usize,
    chroma_sampling: ChromaSubsampling,
) -> (r: bool)
    ensures
        r == modifiable(
            data@,
            match params {
                Some(p) => Some(p@),
                None => None,
            },
            replace,
            width as int,
            height as int,
            chroma_sampling,
        ),
{
    if is_packet_readable(data) {
        proof {
            law_readable_scannable(data@);
        }
        return true;
    }
    if !is_packet_scannable(data) {
        return false;
    }
    let nals: Vec<Nal<'_>> = match find_nals(data) {
        Ok(nals) => nals,
        Err(_) => {
            return true;
        },
    };
    if nals.len() == 0 {
        return false;
    }
    assert(nals_view(nals@)[0].format == nals@[0].format);
    let has_existing: bool = match find_packet_payload(data) {
        Ok(found) => found.is_some(),
        Err(_) => false,
    };
    match params {
        Some(params) => (has_existing && !replace) || build_afgs1_nal(
            params,
            nals[0].format,
            width,
            height,
            chroma_sampling,
        ).is_err(),
        None => false,
    }
}

/// Takes the grain out of a packet and, if there is any to put in, puts other grain in front of
/// the first coded picture data.
pub fn modify_packet(
    data: &[u8],
    params: Option<&FilmGrainParams>,
    replace: bool,
    width: usize,
    height: usize,
    chroma_sampling: ChromaSubsampling,
) -> (r: Result<Vec<u8>, Error>)
    requires
        modifiable(
            data@,
            match params {
                Some(p) => Some(p@),
                None => None,
            },
            replace,
            width as int,
            height as int,
            chroma_sampling,
        ),
    ensures
        match r {
            Ok(out) => modified(
                data@,
                match params {
                    Some(p) => Some(p@),
                    None => None,
                },
                replace,
                width as int,
                height as int,
                chroma_sampling,
            ) == Ok::<Seq<u8>, Error>(out@),
            Err(e) => modified(
                data@,
                match params {
                    Some(p) => Some(p@),
                    None => None,
                },
                replace,
                width as int,
                height as int,
                chroma_sampling,
            ) == Err::<Seq<u8>, Error>(e),
        },
{
    let nals: Vec<Nal<'_>> = match find_nals(data) {
        Ok(nals) => nals,
        Err(e) => {
            return Err(e);
        },
    };
    if nals.len() == 0 {
        return Ok(slice_to_vec(data));
    }
    let ghost all = nals_view(nals@);
    let mut has_existing: bool = false;
    let mut i: usize = 0;
    assert(all.skip(0) =~= all);
    while i < nals.len() && !has_existing
        invariant
            all == nals_view(nals@),
            i <= nals@.len(),
            !has_existing ==> nals_scannable(all.skip(i as int)),
            has_existing ==> nals_payload(all) is Some,
            !has_existing ==> nals_payload(all) == nals_payload(all.skip(i as int)),
        decreases nals@.len() - i,
    {
        assert(all[i as int].data == nals@[i as int].data@);
        assert(nal_readable(all.skip(i as int)[0].data));
        if is_afgs1_sei(nals[i].data) {
            has_existing = true;
        }
        assert(all.skip(i as int).skip(1) =~= all.skip(i + 1));
        i = i + 1;
    }
    if has_existing && params.is_some() && !replace {
        return Err(Error::GrainExists);
    }
    let format: PacketFormat = nals[0].format;
    assert(format == all[0].format);
    let sei: Option<Vec<u8>> = match params {
        Some(params) => match build_afgs1_nal(params, format, width, height, chroma_sampling) {
            Ok(sei) => Some(sei),
            Err(e) => {
                return Err(e);
            },
        },
        None => None,
    };
    let ghost wanted: Option<Seq<u8>> = bytes_view(&sei);
    let mut out: Vec<u8> = Vec::with_capacity(data.len().saturating_add(256));
    assert(readable(data@));
    let mut inserted: bool = false;
    let mut k: usize = 0;
    assert(out@ + edited(all, wanted) =~= edited(all, wanted));
    while k < nals.len()
        invariant
            all == nals_view(nals@),
            k <= nals@.len(),
            readable(data@),
            nals_of(data@) == Ok::<Seq<NalModel>, Error>(all),
            wanted == bytes_view(&sei),
            edited(all, wanted) == out@ + edited(
                all.skip(k as int),
                if inserted {
                    None
                } else {
                    wanted
                },
            ),
        decreases nals@.len() - k,
    {
        let nal: Nal<'_> = nals[k];
        let ghost sofar = out@;
        let ghost before = if inserted {
            None
        } else {
            wanted
        };
        proof {
            assert(all[k as int] == nal@);
            assert(all.skip(k as int)[0] == nal@);
            assert(nal_readable(all[k as int].data));
            assert(all.skip(k as int).skip(1) =~= all.skip(k + 1));
        }
        let vcl: bool = match nal_type(nal.data) {
            Ok(t) => is_vcl_nal(t),
            Err(_) => false,
        };
        let ghost here = before is Some && vcl;
        if !inserted && vcl {
            match &sei {
                Some(s) => {
                    append(&mut out, s.as_slice());
                    inserted = true;
                },
                None => {},
            }
        }
        let ghost head = if here {
            before->0
        } else {
            Seq::empty()
        };
        assert(out@ =~= sofar + head);
        let ghost middle = out@;
        if !is_afgs1_sei(nal.data) {
            append(&mut out, nal.prefix);
            append(&mut out, nal.data);
        }
        proof {
            let kept = if nal_payload(nal.data@) is Some {
                Seq::empty()
            } else {
                nal.prefix@ + nal.data@
            };
            assert(out@ =~= middle + kept);
            let next = if here {
                None
            } else {
                before
            };
            assert(sofar + (head + kept + edited(all.skip(k + 1), next)) =~= out@ + edited(
                all.skip(k + 1),
                next,
            ));
        }
        k = k + 1;
    }
    assert(out@ + Seq::<u8>::empty() =~= out@);
    Ok(out)
}

} // verus!
