//! What holds of edited streams: the grain that was put in is what inspection finds.
use crate::afgs1_laws::carried;
use crate::edit::{
    any_unknown, copied_streams, edit_time, is_frame, known_times, law_streams_placed, output_place,
    presentation_times, Medium, Request,
};
use crate::error::Error;
use crate::grain::{GrainModel, SegmentModel};
use crate::inspect::{frames_in, packet_fault, show_time, FrameModel};
use crate::nal::{length_prefixed, nals_of};
use crate::packet::{has_vcl, holds_picture, packet_grain};
use crate::packet_laws::{
    law_grain_gone, law_grain_read_back, law_picture_kept, pictures_have_bodies,
};
use crate::stream::{is_video, PacketModel};
use crate::table::{grain_at, shown_in_turn};
use crate::timing::{comes_before, frame_ts, law_rank_orders, rank, FrameRate, TimeBase};
use vstd::prelude::*;

verus! {

/// The packets of a stream once it has been edited.
pub open spec fn edited_packets(request: Request) -> Seq<PacketModel> {
    Seq::new(
        request.packets.len(),
        |i: int|
            PacketModel {
                data: if is_video(request.packets[i], request.stream.index) {
                    Some(request.edited(i)->Ok_0)
                } else {
                    request.packets[i].data
                },
                ..request.packets[i]
            },
    )
}

/// The table holds only grain that grain descriptions have room for.
pub open spec fn table_in_capacity(table: Seq<SegmentModel>) -> bool {
    forall|i: int| 0 <= i < table.len() ==> (#[trigger] table[i]).grain_params.in_capacity()
}

/// What a payload keeps of the grain, if there is any.
pub open spec fn carried_grain(grain: Option<GrainModel>) -> Option<GrainModel> {
    match grain {
        Some(g) => Some(carried(g)),
        None => None,
    }
}

/// The grain at a time is in the table.
proof fn lemma_grain_in_capacity(table: Seq<SegmentModel>, timestamp: int)
    requires
        table_in_capacity(table),
    ensures
        grain_at(table, timestamp) matches Some(g) ==> g.in_capacity(),
    decreases table.len(),
{
    if table.len() > 0 {
        let rest = table.skip(1);
        assert forall|i: int| 0 <= i < rest.len() implies (
        #[trigger] rest[i]).grain_params.in_capacity() by {
            assert(rest[i] == table[i + 1]);
        }
        assert(table[0].grain_params.in_capacity());
        lemma_grain_in_capacity(rest, timestamp);
    }
}

/// The packet at `i` can be told from what it becomes: either it has lengths in front of its NAL
/// units, or its NAL units with coded picture data have bodies and it does not come out in a way
/// that it can be read as one with lengths.
pub open spec fn stays_apart(request: Request, i: int) -> bool {
    let data = request.packets[i].data->0;
    let out = request.edited(i)->Ok_0;
    length_prefixed(data, 4) is Ok || {
        &&& pictures_have_bodies(nals_of(data)->Ok_0)
        &&& out.len() == 0 || length_prefixed(out, 4) is Err
    }
}

/// Law: an edited packet holds a frame if and only if it did before, and its grain is the one that
/// was to be put in, as far as a payload keeps it.
pub proof fn law_edited_packet(request: Request, i: int)
    requires
        0 <= i < request.packets.len(),
        is_video(request.packets[i], request.stream.index),
        request.fault(i) is None,
        stays_apart(request, i),
        request.segments matches Some(table) ==> table_in_capacity(table),
    ensures
        is_frame(edited_packets(request)[i], request.stream.index) == is_frame(
            request.packets[i],
            request.stream.index,
        ),
        packet_fault(edited_packets(request)[i], request.stream.index) is None,
        is_frame(request.packets[i], request.stream.index) ==> packet_grain(
            edited_packets(request)[i].data->0,
        ) == Ok::<Option<GrainModel>, Error>(carried_grain(request.grain(i))),
{
    let data = request.packets[i].data->0;
    let details = request.stream.details;
    let (w, h) = (details.width as int, details.height as int);
    let sampling = details.chroma_sampling;
    let nals = nals_of(data)->Ok_0;
    let out = request.edited(i)->Ok_0;
    assert(edited_packets(request)[i].data == Some(out));
    match request.grain(i) {
        Some(g) => {
            let table = request.segments->0;
            let frame = request.frames_before(i as nat) as int;
            lemma_grain_in_capacity(
                table,
                edit_time(request.timestamps, frame, request.packets[i], request.stream),
            );
            assert(has_vcl(nals));
            law_picture_kept(data, Some(g), request.replace, w, h, sampling);
            assert(length_prefixed(data, 4) is Err ==> length_prefixed(out, 4) is Err) by {
                assert(holds_picture(Seq::empty()) == Ok::<bool, Error>(false));
                if out.len() == 0 {
                    assert(out =~= Seq::empty());
                }
            }
            law_grain_read_back(data, g, request.replace, w, h, sampling);
        },
        None => {
            law_picture_kept(data, None, request.replace, w, h, sampling);
            law_grain_gone(data, request.replace, w, h, sampling);
        },
    }
}

/// The frames that inspection is to find in the first `n` packets of an edited stream.
pub open spec fn wanted_frames(request: Request, n: nat) -> Seq<FrameModel>
    decreases n,
{
    if n == 0 {
        Seq::empty()
    } else {
        let sofar = wanted_frames(request, (n - 1) as nat);
        let packet = request.packets[n - 1];
        if is_frame(packet, request.stream.index) {
            sofar.push(
                (
                    show_time(packet.pts, request.stream.time_base),
                    carried_grain(request.grain(n - 1)),
                ),
            )
        } else {
            sofar
        }
    }
}

/// The frames in packets, and in one more behind them.
proof fn lemma_frames_push(
    packets: Seq<PacketModel>,
    packet: PacketModel,
    index: usize,
    time_base: TimeBase,
)
    ensures
        frames_in(packets.push(packet), index, time_base) == frames_in(packets, index, time_base)
            + frames_in(seq![packet], index, time_base),
    decreases packets.len(),
{
    let all = packets.push(packet);
    if packets.len() == 0 {
        assert(all =~= seq![packet]);
        assert(frames_in(packets, index, time_base) + frames_in(seq![packet], index, time_base)
            =~= frames_in(seq![packet], index, time_base));
    } else {
        lemma_frames_push(packets.skip(1), packet, index, time_base);
        assert(all.skip(1) =~= packets.skip(1).push(packet));
        assert(frames_in(all, index, time_base) =~= frames_in(packets, index, time_base)
            + frames_in(seq![packet], index, time_base));
    }
}

/// The frames in one packet.
proof fn lemma_frames_one(packet: PacketModel, index: usize, time_base: TimeBase)
    ensures
        frames_in(seq![packet], index, time_base) == if is_frame(packet, index) {
            seq![(show_time(packet.pts, time_base), packet_grain(packet.data->0)->Ok_0)]
        } else {
            Seq::empty()
        },
{
    reveal_with_fuel(frames_in, 2);
    let none = Seq::<FrameModel>::empty();
    let one = seq![(show_time(packet.pts, time_base), packet_grain(packet.data->0)->Ok_0)];
    assert(seq![packet].skip(1) =~= Seq::empty());
    assert(one + none =~= one);
}

/// Law: inspecting an edited stream finds the frames that were there before, at the same times,
/// each with the grain that the table had for it, as far as a payload keeps it.
pub proof fn law_edited_stream(request: Request, n: nat)
    requires
        n <= request.packets.len(),
        forall|i: int|
            0 <= i < n && is_video(#[trigger] request.packets[i], request.stream.index)
                ==> stays_apart(request, i),
        forall|i: int| 0 <= i < n ==> (#[trigger] request.fault(i)) is None,
        request.segments matches Some(table) ==> table_in_capacity(table),
    ensures
        frames_in(
            edited_packets(request).take(n as int),
            request.stream.index,
            request.stream.time_base,
        ) == wanted_frames(request, n),
    decreases n,
{
    let index = request.stream.index;
    let time_base = request.stream.time_base;
    let all = edited_packets(request);
    if n > 0 {
        let i = n - 1;
        law_edited_stream(request, (n - 1) as nat);
        assert(all.take(n as int) =~= all.take(i).push(all[i]));
        lemma_frames_push(all.take(i), all[i], index, time_base);
        lemma_frames_one(all[i], index, time_base);
        assert(request.fault(i) is None);
        if is_video(request.packets[i], index) {
            law_edited_packet(request, i);
        } else {
            assert(!is_video(all[i], index));
        }
        let sofar = wanted_frames(request, i as nat);
        assert(frames_in(all.take(n as int), index, time_base) =~= wanted_frames(request, n));
    }
}

/// Law: every packet of a stream of audio, video or subtitles is in the output exactly once, no
/// other packet is, and packets keep their order. A packet goes to the place of its stream. Only
/// the packets of the video stream that hold bytes get others.
pub proof fn law_every_packet_copied(request: Request, media: Seq<Medium>, n: nat)
    requires
        n <= request.packets.len(),
        forall|i: int|
            0 <= i < n ==> (#[trigger] request.packets[i]).stream_index < media.len(),
    ensures
        forall|k: int|
            0 <= k < request.output(media, n).len() ==> {
                let out = #[trigger] request.output(media, n)[k];
                let packet = request.packets[out.source];
                &&& 0 <= out.source < n
                &&& !(media[packet.stream_index as int] is Other)
                &&& out.stream_index == copied_streams(
                    media.take(packet.stream_index as int),
                ).len()
                &&& out.data is Some <==> packet.stream_index == request.stream.index
                    && packet.data is Some
                &&& out.data matches Some(bytes) ==> bytes == request.edited(out.source)->Ok_0
            },
        forall|k: int, l: int|
            0 <= k < l < request.output(media, n).len() ==> (#[trigger] request.output(
                media,
                n,
            )[k]).source < (#[trigger] request.output(media, n)[l]).source,
        forall|i: int|
            0 <= i < n && !(media[(#[trigger] request.packets[i]).stream_index as int] is Other)
                ==> exists|k: int|
                0 <= k < request.output(media, n).len() && (#[trigger] request.output(
                    media,
                    n,
                )[k]).source == i,
    decreases n,
{
    if n > 0 {
        law_every_packet_copied(request, media, (n - 1) as nat);
        law_streams_placed(media);
        let before = request.output(media, (n - 1) as nat);
        let after = request.output(media, n);
        let last = request.packets[n - 1];
        let index = last.stream_index as int;
        assert(output_place(media, index) < 0 <==> media[index] is Other);
        assert forall|k: int| 0 <= k < before.len() implies #[trigger] after[k] == before[k] by {}
        assert forall|i: int|
            0 <= i < n && !(media[(#[trigger] request.packets[i]).stream_index as int] is Other)
            implies exists|k: int| 0 <= k < after.len() && (#[trigger] after[k]).source == i by {
            if i < n - 1 {
                let k = choose|k: int| 0 <= k < before.len() && (#[trigger] before[k]).source == i;
                assert(after[k].source == i);
            } else {
                assert(after[before.len() as int].source == i);
            }
        }
        assert forall|k: int, l: int| 0 <= k < l < after.len() implies (#[trigger] after[k]).source
            < (#[trigger] after[l]).source by {
            assert(after[k] == before[k]);
            assert(before[k].source < n - 1);
            if l < before.len() {
                assert(after[l] == before[l]);
            }
        }
    }
}

/// Law: of two frames whose timestamps are known, the one with the smaller timestamp is shown
/// first, and of two with the same timestamp the one that was decoded first.
pub proof fn law_presentation_in_order(
    times: Seq<Option<i64>>,
    rate: FrameRate,
    i: int,
    j: int,
)
    requires
        !any_unknown(times),
        shown_in_turn(rate, times.len()),
        0 <= i < times.len(),
        0 <= j < times.len(),
        comes_before(known_times(times), i, j),
    ensures
        presentation_times(times, rate)[i] matches Some(a) && presentation_times(
            times,
            rate,
        )[j] matches Some(b) && a < b,
{
    let keys = known_times(times);
    law_rank_orders(keys, i, j);
    let (a, b) = (rank(keys, i) as int, rank(keys, j) as int);
    assert(frame_ts(a, rate) < frame_ts(b, rate));
    assert(frame_ts(b, rate) < i64::MAX);
    lemma_frame_ts_range(a, rate);
}

/// The time of a frame is not negative.
proof fn lemma_frame_ts_range(frame: int, rate: FrameRate)
    ensures
        0 <= frame_ts(frame, rate) <= u64::MAX,
{
}

} // verus!
