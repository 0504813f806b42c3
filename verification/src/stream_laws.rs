//! What holds of the packets of a whole stream: which of them count, and in which order.
use crate::edit::{
    edit_time_fits, edit_timestamps, is_frame, known_times, picture_times, presentation_times,
    request_for, GrainEditor, Request,
};
use crate::error::Error;
use crate::grain::SegmentModel;
use crate::inspect::{
    any_timed, at_rank, frames_in, packet_fault, show_times, shown, FrameModel,
};
use crate::packet::{
    carries, holds_picture, law_readable_scannable, modifiable, modified, packet_grain, readable,
};
use crate::stream::{
    any_faulty, any_grain, batch_answer, is_video, search_answer, stream_data, PacketModel,
    VideoStream,
};
use crate::table::grain_at;
use crate::timing::{
    comes_before, earlier, frame_ts, grain_ts_of_pts, law_rank_orders, pts_fits, rank,
    FrameRate, TimeBase,
};
use vstd::prelude::*;
use vstd::set_lib::{lemma_int_range, set_int_range};

verus! {

/// The packets of a stream that hold bytes.
pub open spec fn video_packets(packets: Seq<PacketModel>, index: usize) -> Seq<PacketModel> {
    packets.filter(|p: PacketModel| p.stream_index == index && p.data is Some)
}

/// A packet of a stream that holds coded picture data.
pub open spec fn shows_picture(packet: PacketModel, index: usize) -> bool {
    packet.stream_index == index && (packet.data matches Some(data) && holds_picture(data) == Ok::<
        bool,
        Error,
    >(true))
}

/// The packets of a stream that hold coded picture data.
pub open spec fn picture_packets(packets: Seq<PacketModel>, index: usize) -> Seq<PacketModel> {
    packets.filter(|p: PacketModel| shows_picture(p, index))
}

/// One packet in front of others.
proof fn lemma_filters(packets: Seq<PacketModel>, index: usize)
    ensures
        packets.len() == 0 ==> video_packets(packets, index).len() == 0 && picture_packets(
            packets,
            index,
        ).len() == 0,
        packets.len() > 0 ==> ({
            let rest = packets.skip(1);
            let first = packets[0];
            &&& video_packets(packets, index) == (if is_video(first, index) {
                seq![first]
            } else {
                Seq::empty()
            }) + video_packets(rest, index)
            &&& picture_packets(packets, index) == (if shows_picture(first, index) {
                seq![first]
            } else {
                Seq::empty()
            }) + picture_packets(rest, index)
        }),
{
    let a = |p: PacketModel| p.stream_index == index && p.data is Some;
    let b = |p: PacketModel| shows_picture(p, index);
    if packets.len() == 0 {
        reveal(Seq::filter);
    } else {
        let one = seq![packets[0]];
        assert(packets =~= one + packets.skip(1));
        Seq::filter_distributes_over_add(one, packets.skip(1), a);
        Seq::filter_distributes_over_add(one, packets.skip(1), b);
        reveal(Seq::filter);
        assert(one.drop_last() =~= Seq::empty());
        assert(one.drop_last().filter(a) =~= Seq::empty());
        assert(one.drop_last().filter(b) =~= Seq::empty());
        assert(one.filter(a) =~= if a(packets[0]) {
            one
        } else {
            Seq::empty()
        });
        assert(one.filter(b) =~= if b(packets[0]) {
            one
        } else {
            Seq::empty()
        });
    }
}

/// Law: the bytes that are looked at in a stream are those of all its packets that hold any, in
/// their order, and of no others.
pub proof fn law_stream_bytes(packets: Seq<PacketModel>, index: usize, i: int)
    ensures
        stream_data(packets, index).len() == video_packets(packets, index).len(),
        0 <= i < packets.len() && packets[i].stream_index == index && packets[i].data is Some ==> ({
            let k = video_packets(packets.take(i), index).len() as int;
            k < stream_data(packets, index).len() && stream_data(packets, index)[k]
                == packets[i].data->0
        }),
    decreases packets.len(),
{
    lemma_filters(packets, index);
    if packets.len() > 0 {
        let rest = packets.skip(1);
        law_stream_bytes(rest, index, i - 1);
        if 0 < i < packets.len() {
            lemma_filters(packets.take(i), index);
            assert(packets.take(i).skip(1) =~= rest.take(i - 1));
            assert(rest[i - 1] == packets[i]);
        } else if i == 0 {
            lemma_filters(packets.take(0), index);
        }
    }
}

/// Law: inspection finds a frame in every packet of the stream with coded picture data, in their
/// order, and in no others: when the packet is shown, and its grain.
pub proof fn law_frames_found(
    packets: Seq<PacketModel>,
    index: usize,
    time_base: TimeBase,
    i: int,
)
    ensures
        frames_in(packets, index, time_base).len() == picture_packets(packets, index).len(),
        0 <= i < packets.len() && shows_picture(packets[i], index) ==> ({
            let k = picture_packets(packets.take(i), index).len() as int;
            let frames = frames_in(packets, index, time_base);
            let packet = packets[i];
            &&& k < frames.len()
            &&& frames[k].0 is Some <==> packet.pts is Some
            &&& packet.pts matches Some(pts) ==> (0 <= grain_ts_of_pts(pts, time_base) <= u64::MAX
                ==> frames[k].0 == Some(grain_ts_of_pts(pts, time_base) as u64))
            &&& packet_grain(packet.data->0) matches Ok(grain) ==> frames[k].1 == grain
        }),
    decreases packets.len(),
{
    lemma_filters(packets, index);
    if packets.len() > 0 {
        let rest = packets.skip(1);
        law_frames_found(rest, index, time_base, i - 1);
        if 0 < i < packets.len() {
            lemma_filters(packets.take(i), index);
            assert(packets.take(i).skip(1) =~= rest.take(i - 1));
            assert(rest[i - 1] == packets[i]);
        } else if i == 0 {
            lemma_filters(packets.take(0), index);
        }
    }
}

/// A packet of a stream cannot be taken apart.
pub open spec fn cannot_be_taken_apart(packet: PacketModel, index: usize) -> bool {
    packet.stream_index == index && (packet.data matches Some(data) && holds_picture(data) is Err)
}

/// Law: the timestamps of the frames of a stream are those of its packets with coded picture data,
/// in their order. The first packet that cannot be taken apart, at `k`, is told of instead.
pub proof fn law_times_collected(packets: Seq<PacketModel>, index: usize, k: int, i: int)
    requires
        0 <= k <= packets.len(),
        forall|j: int| 0 <= j < k ==> !cannot_be_taken_apart(#[trigger] packets[j], index),
    ensures
        k < packets.len() && cannot_be_taken_apart(packets[k], index) ==> (
        holds_picture(packets[k].data->0) matches Err(e) && picture_times(packets, index) == Err::<
            Seq<Option<i64>>,
            Error,
        >(e)),
        k == packets.len() ==> (picture_times(packets, index) matches Ok(times) && {
            let n = picture_packets(packets.take(i), index).len() as int;
            &&& times.len() == picture_packets(packets, index).len()
            &&& 0 <= i < packets.len() && shows_picture(packets[i], index) ==> n < times.len()
                && times[n] == packets[i].pts
        }),
    decreases packets.len(),
{
    lemma_filters(packets, index);
    if packets.len() > 0 && k > 0 {
        let rest = packets.skip(1);
        assert forall|j: int| 0 <= j < k - 1 implies !cannot_be_taken_apart(
            #[trigger] rest[j],
            index,
        ) by {
            assert(rest[j] == packets[j + 1]);
        }
        assert(!cannot_be_taken_apart(packets[0], index));
        law_times_collected(rest, index, k - 1, i - 1);
        if k < packets.len() {
            assert(rest[k - 1] == packets[k]);
        }
        if 0 < i < packets.len() {
            lemma_filters(packets.take(i), index);
            assert(packets.take(i).skip(1) =~= rest.take(i - 1));
            assert(rest[i - 1] == packets[i]);
        } else if i == 0 {
            lemma_filters(packets.take(0), index);
        }
    }
}

/// The number of times that come before the one at `i`: the smaller ones, and the same ones in
/// front of it.
pub open spec fn number_before(times: Seq<int>, i: int) -> nat {
    Set::new(
        |j: int| 0 <= j < times.len() && (times[j] < times[i] || (times[j] == times[i] && j < i)),
    ).len()
}

proof fn lemma_number_before(times: Seq<int>, i: int)
    ensures
        number_before(times, i) == rank(times, i),
{
    assert(Set::new(
        |j: int| 0 <= j < times.len() && (times[j] < times[i] || (times[j] == times[i] && j < i)),
    ) =~= earlier(times, i));
}

/// Law: where the timestamps of all frames are known, a frame is shown behind as many frames as
/// have smaller timestamps, or the same one and came earlier. Where one is not known, nothing is
/// known of any.
pub proof fn law_shown_behind(times: Seq<Option<i64>>, rate: FrameRate, i: int)
    requires
        0 <= i < times.len(),
    ensures
        presentation_times(times, rate).len() == times.len(),
        (forall|j: int| 0 <= j < times.len() ==> (#[trigger] times[j]) is Some) ==> ({
            let numbers = times.map_values(|t: Option<i64>| t->0 as int);
            presentation_times(times, rate)[i] == Some(
                frame_ts(number_before(numbers, i) as int, rate) as u64,
            )
        }),
        (exists|j: int| 0 <= j < times.len() && (#[trigger] times[j]) is None)
            ==> presentation_times(times, rate)[i] is None,
{
    let numbers = times.map_values(|t: Option<i64>| t->0 as int);
    assert(numbers =~= known_times(times));
    lemma_number_before(numbers, i);
}

/// When a frame is shown, or the start.
pub open spec fn time_or_start(frame: FrameModel) -> int {
    match frame.0 {
        Some(time) => time as int,
        None => 0,
    }
}

/// Law: frames are put into the order of their times, and those with the same time into the order
/// in which they came; what is not known of a time counts as the start.
pub proof fn law_shown_in_order(frames: Seq<FrameModel>, i: int)
    requires
        0 <= i < frames.len(),
    ensures
        ({
            let times = frames.map_values(|f: FrameModel| time_or_start(f));
            let k = number_before(times, i) as int;
            &&& shown(frames).len() == frames.len()
            &&& k < frames.len()
            &&& shown(frames)[k] == frames[i].1
        }),
{
    let times = frames.map_values(|f: FrameModel| time_or_start(f));
    let keys = show_times(frames);
    assert(times =~= keys);
    lemma_number_before(times, i);
    let k = rank(keys, i) as int;
    lemma_rank_in_range(keys, i);
    if any_timed(frames) {
        let j = at_rank(keys, k);
        assert(0 <= j < keys.len() && rank(keys, j) == k);
        if j != i {
            if comes_before(keys, i, j) {
                law_rank_orders(keys, i, j);
            } else {
                law_rank_orders(keys, j, i);
            }
        }
    } else {
        assert forall|j: int| 0 <= j < frames.len() implies #[trigger] keys[j] == 0 by {
            assert(frames[j].0 is None);
        }
        assert(earlier(keys, i) =~= set_int_range(0, i));
        lemma_int_range(0, i);
    }
}

/// Fewer items come before one than there are.
proof fn lemma_rank_in_range(keys: Seq<int>, i: int)
    requires
        0 <= i < keys.len(),
    ensures
        rank(keys, i) < keys.len(),
{
    let all = set_int_range(0, keys.len() as int);
    lemma_int_range(0, keys.len() as int);
    let others = all.remove(i);
    assert(earlier(keys, i).subset_of(others));
    vstd::set_lib::lemma_len_subset(earlier(keys, i), others);
}

/// The packet that a search ends at, at `i`: no packet of an earlier batch of 256 carries grain or
/// cannot be taken apart, and where grain is found, every packet of its batch can be taken apart.
pub open spec fn search_ends_at(list: Seq<Seq<u8>>, answer: Result<bool, Error>, i: int) -> bool {
    &&& 0 <= i < list.len()
    &&& forall|j: int|
        0 <= j < 256 * (i / 256) ==> carries(#[trigger] list[j]) == Ok::<bool, Error>(false)
    &&& match answer {
        Ok(found) => {
            &&& found
            &&& carries(list[i]) == Ok::<bool, Error>(true)
            &&& forall|j: int|
                0 <= j < list.len() && j < 256 * (i / 256) + 256 ==> carries(
                    #[trigger] list[j],
                ) is Ok
        },
        Err(e) => carries(list[i]) == Err::<bool, Error>(e),
    }
}

/// Law: packets are searched in batches of 256. Without grain in any of them the answer is that
/// there is none. Otherwise the search ends with the first batch that holds a packet that carries
/// grain or cannot be taken apart: with an error of one of its packets if there is one, and with
/// grain if not.
pub proof fn law_searched_in_batches(list: Seq<Seq<u8>>, answer: Result<bool, Error>)
    requires
        search_answer(list, answer),
    ensures
        (answer == Ok::<bool, Error>(false) && forall|j: int|
            0 <= j < list.len() ==> carries(#[trigger] list[j]) == Ok::<bool, Error>(false)) || (
        exists|i: int| #[trigger] search_ends_at(list, answer, i)),
    decreases list.len(),
{
    if list.len() < 256 {
        assert(list.take(list.len() as int) =~= list);
        lemma_batch_ends(list, list, answer);
    } else {
        let batch = list.take(256);
        if any_faulty(batch) || any_grain(batch) {
            lemma_batch_ends(batch, list, answer);
        } else {
            let rest = list.skip(256);
            assert forall|j: int| 0 <= j < 256 implies carries(#[trigger] list[j]) == Ok::<
                bool,
                Error,
            >(false) by {
                assert(batch[j] == list[j]);
                assert(carries(batch[j]) is Ok);
                assert(carries(batch[j]) != Ok::<bool, Error>(true));
            }
            law_searched_in_batches(rest, answer);
            if exists|i: int| #[trigger] search_ends_at(rest, answer, i) {
                let i = choose|i: int| #[trigger] search_ends_at(rest, answer, i);
                lemma_search_shift(list, answer, i);
                assert(search_ends_at(list, answer, i + 256));
            } else {
                assert forall|j: int| 0 <= j < list.len() implies carries(#[trigger] list[j])
                    == Ok::<bool, Error>(false) by {
                    if j >= 256 {
                        assert(rest[j - 256] == list[j]);
                    }
                }
            }
        }
    }
}

/// A search goes on behind a batch in which nothing is found.
proof fn lemma_search_shift(list: Seq<Seq<u8>>, answer: Result<bool, Error>, i: int)
    requires
        list.len() >= 256,
        forall|j: int| 0 <= j < 256 ==> carries(#[trigger] list[j]) == Ok::<bool, Error>(false),
        search_ends_at(list.skip(256), answer, i),
    ensures
        search_ends_at(list, answer, i + 256),
{
    let rest = list.skip(256);
    assert((i + 256) / 256 == i / 256 + 1);
    assert(rest[i] == list[i + 256]);
    assert forall|j: int| 0 <= j < 256 * ((i + 256) / 256) implies carries(#[trigger] list[j])
        == Ok::<bool, Error>(false) by {
        if j >= 256 {
            assert(rest[j - 256] == list[j]);
        }
    }
    if answer is Ok {
        assert forall|j: int|
            0 <= j < list.len() && j < 256 * ((i + 256) / 256) + 256 implies carries(
            #[trigger] list[j],
        ) is Ok by {
            if j >= 256 {
                assert(rest[j - 256] == list[j]);
            }
        }
    }
}

/// What is said of the first batch.
proof fn lemma_batch_ends(batch: Seq<Seq<u8>>, list: Seq<Seq<u8>>, answer: Result<bool, Error>)
    requires
        batch_answer(batch, answer),
        batch.len() <= 256,
        batch.len() < 256 ==> batch == list,
        batch.len() <= list.len(),
        batch == list.take(batch.len() as int),
    ensures
        (answer == Ok::<bool, Error>(false) && !any_faulty(batch) && !any_grain(batch) && forall|
            j: int,
        |
            0 <= j < batch.len() ==> carries(#[trigger] batch[j]) == Ok::<bool, Error>(false)) || (
        exists|i: int| #[trigger] search_ends_at(list, answer, i)),
{
    match answer {
        Ok(found) => {
            assert forall|j: int| 0 <= j < batch.len() implies carries(#[trigger] batch[j]) is Ok
                by {}
            if found {
                let i = choose|i: int|
                    0 <= i < batch.len() && carries(#[trigger] batch[i]) == Ok::<bool, Error>(true);
                assert(list[i] == batch[i]);
                assert forall|j: int|
                    0 <= j < list.len() && j < 256 * (i / 256) + 256 implies carries(
                    #[trigger] list[j],
                ) is Ok by {
                    assert(batch[j] == list[j]);
                }
                assert(search_ends_at(list, answer, i));
            } else {
                assert forall|j: int| 0 <= j < batch.len() implies carries(#[trigger] batch[j])
                    == Ok::<bool, Error>(false) by {
                    assert(carries(batch[j]) is Ok);
                    assert(carries(batch[j]) != Ok::<bool, Error>(true));
                }
            }
        },
        Err(e) => {
            let i = choose|i: int|
                0 <= i < batch.len() && carries(#[trigger] batch[i]) == Err::<bool, Error>(e);
            assert(list[i] == batch[i]);
            assert(search_ends_at(list, answer, i));
        },
    }
}

/// The frames in front of a packet.
proof fn lemma_frames_before(request: Request, n: nat)
    requires
        n <= request.packets.len(),
    ensures
        request.frames_before(n) == picture_packets(
            request.packets.take(n as int),
            request.stream.index,
        ).len(),
    decreases n,
{
    reveal(Seq::filter);
    if n > 0 {
        lemma_frames_before(request, (n - 1) as nat);
        let front = request.packets.take(n as int);
        assert(front.drop_last() =~= request.packets.take(n - 1));
    } else {
        assert(request.packets.take(0) =~= Seq::empty());
    }
}

/// Law: a packet gets the grain that the table has for its frame: at the time that is known of the
/// frame by its number among the frames, and otherwise at the timestamp of the packet, or at the
/// start if it has none. Without a table, and without a frame in the packet, it gets none.
pub proof fn law_grain_chosen(request: Request, i: int)
    requires
        0 <= i < request.packets.len(),
    ensures
        ({
            let packet = request.packets[i];
            let index = request.stream.index;
            let times = request.timestamps;
            let frame = picture_packets(request.packets.take(i), index).len() as int;
            let pts = match packet.pts {
                Some(pts) => pts,
                None => 0,
            };
            match request.segments {
                None => request.grain(i) is None,
                Some(table) => {
                    &&& !shows_picture(packet, index) ==> request.grain(i) is None
                    &&& shows_picture(packet, index) && frame < times.len() && times[frame] is Some
                        ==> request.grain(i) == grain_at(table, times[frame]->0 as int)
                    &&& shows_picture(packet, index) && (frame >= times.len()
                        || times[frame] is None) ==> request.grain(i) == grain_at(
                        table,
                        grain_ts_of_pts(pts, request.stream.time_base),
                    )
                },
            }
        }),
{
    lemma_frames_before(request, i as nat);
}

/// Law: packets are edited in batches of 256, and those of a batch are looked at once all packets
/// of the batches in front of it could be edited.
pub proof fn law_edited_in_batches(request: Request, i: int)
    requires
        0 <= i,
    ensures
        request.reached(i) <==> forall|j: int|
            0 <= j < 256 * (i / 256) ==> (#[trigger] request.fault(j)) is None,
{
    assert(i - i % 256 == 256 * (i / 256));
}

/// Law: without a table nothing is known of when frames are shown, for it does not matter. With
/// one it is what the timestamps of all frames say, and a packet that cannot be taken apart is
/// told of.
pub proof fn law_times_for_editing(
    packets: Seq<PacketModel>,
    stream: VideoStream,
    segments: Option<Seq<SegmentModel>>,
)
    ensures
        segments is None ==> (edit_timestamps(packets, stream, segments) matches Ok(times)
            && times.len() == 0),
        segments is Some ==> match (
            picture_times(packets, stream.index),
            edit_timestamps(packets, stream, segments),
        ) {
            (Ok(times), Ok(shown)) => shown == presentation_times(times, stream.details.frame_rate),
            (Err(e), Err(f)) => e == f,
            _ => false,
        },
{
}

/// Law: a packet of another stream, or one without bytes, is never the reason why a stream cannot
/// be inspected or edited. Otherwise it is one where it cannot be taken apart, where it is a frame
/// whose grain cannot be parsed, or where it cannot be edited.
pub proof fn law_faults(request: Request, i: int)
    requires
        0 <= i < request.packets.len(),
    ensures
        ({
            let packet = request.packets[i];
            let index = request.stream.index;
            let counts = packet.stream_index == index && packet.data is Some;
            &&& !counts ==> packet_fault(packet, index) is None && request.fault(i) is None
            &&& counts ==> match holds_picture(packet.data->0) {
                Err(e) => packet_fault(packet, index) == Some(e),
                Ok(false) => packet_fault(packet, index) is None,
                Ok(true) => match packet_grain(packet.data->0) {
                    Err(e) => packet_fault(packet, index) == Some(e),
                    Ok(_) => packet_fault(packet, index) is None,
                },
            }
            &&& counts ==> match request.edited(i) {
                Err(e) => request.fault(i) == Some(e),
                Ok(_) => request.fault(i) is None,
            }
        }),
{
}

/// Law: a packet of a stream is edited with the grain that was chosen for it, for the size and the
/// sampling of the stream's own pictures, and with leave to replace grain exactly where the request
/// gives it.
pub proof fn law_packet_edited(
    packets: Seq<PacketModel>,
    stream: VideoStream,
    segments: Option<Seq<SegmentModel>>,
    replace: bool,
    i: int,
)
    requires
        edit_timestamps(packets, stream, segments) is Ok,
    ensures
        ({
            let request = request_for(packets, stream, segments, replace);
            &&& request.packets == packets
            &&& request.stream == stream
            &&& request.segments == segments
            &&& edit_timestamps(packets, stream, segments) == Ok::<Seq<Option<u64>>, Error>(
                request.timestamps,
            )
            &&& request.edited(i) == modified(
                packets[i].data->0,
                request.grain(i),
                replace,
                stream.details.width as int,
                stream.details.height as int,
                stream.details.chroma_sampling,
            )
        }),
{
}

/// Law: a stream of packets that can all be read, with timestamps that can be expressed in the units
/// of grain tables, can be edited without running into limits, whatever is to be put in.
pub proof fn law_readable_stream_feasible(request: Request)
    requires
        request.packets.len() <= usize::MAX,
        forall|i: int|
            0 <= i < request.packets.len() && is_video(
                #[trigger] request.packets[i],
                request.stream.index,
            ) ==> readable(request.packets[i].data->0) && pts_fits(
                match request.packets[i].pts {
                    Some(pts) => pts,
                    None => 0,
                },
                request.stream.time_base,
            ),
    ensures
        request.feasible(),
{
    assert forall|i: int|
        0 <= i < request.packets.len() && is_video(request.packets[i], request.stream.index)
            && request.reached(i) implies {
        &&& modifiable(
            (#[trigger] request.packets[i]).data->0,
            request.grain(i),
            request.replace,
            request.stream.details.width as int,
            request.stream.details.height as int,
            request.stream.details.chroma_sampling,
        )
        &&& is_frame(request.packets[i], request.stream.index) ==> edit_time_fits(
            request.timestamps,
            request.frames_before(i as nat) as int,
            request.packets[i],
            request.stream,
        )
    } by {
        law_readable_scannable(request.packets[i].data->0);
    }
}

/// Law: a packet of another stream, or one without bytes, can always be planned. Another one can be
/// planned where its bytes can be counted and its timestamp can be expressed in the units of grain
/// tables, as long as frames can be counted.
pub proof fn law_packet_plannable(editor: GrainEditor<'_>, packet: PacketModel)
    ensures
        packet.stream_index != editor.stream.index || packet.data is None ==> editor.plannable(
            packet,
        ),
        packet.data matches Some(data) ==> (data.len() + 4 <= usize::MAX && editor.frames
            < usize::MAX && pts_fits(
            match packet.pts {
                Some(pts) => pts,
                None => 0,
            },
            editor.stream.time_base,
        ) ==> editor.plannable(packet)),
{
}

} // verus!
