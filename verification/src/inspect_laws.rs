//! What is told when a stream cannot be inspected.
use crate::error::Error;
use crate::grain::GrainModel;
use crate::inspect::{any_unparsed, batch_fault, inspection_fault};
use crate::packet::{holds_picture, packet_grain};
use crate::stream::PacketModel;
use crate::stream_laws::{cannot_be_taken_apart, picture_packets, shows_picture};
use vstd::prelude::*;

verus! {

/// The number of frames in front of the packet at `i`.
pub open spec fn frame_number(packets: Seq<PacketModel>, index: usize, i: int) -> int {
    picture_packets(packets.take(i), index).len() as int
}

/// The frames of all batches of 256 in front of the one that begins with frame `base` have grain
/// that can be parsed.
pub open spec fn parsed_before(packets: Seq<PacketModel>, index: usize, base: int) -> bool {
    forall|j: int|
        0 <= j < packets.len() && shows_picture(#[trigger] packets[j], index) && frame_number(
            packets,
            index,
            j,
        ) < base ==> packet_grain(packets[j].data->0) is Ok
}

/// The packet at `i` is the reason why a stream cannot be inspected: it is the first that cannot be
/// taken apart, and all complete batches of 256 frames in front of it can be parsed; or its grain
/// cannot be parsed, that of all batches in front of its own can be, and no packet that cannot be
/// taken apart comes before its batch is complete.
pub open spec fn stops_inspection(
    packets: Seq<PacketModel>,
    index: usize,
    e: Error,
    i: int,
) -> bool {
    let base = 256 * (frame_number(packets, index, i) / 256);
    &&& 0 <= i < packets.len()
    &&& {
        ||| {
            &&& cannot_be_taken_apart(packets[i], index)
            &&& holds_picture(packets[i].data->0) == Err::<bool, Error>(e)
            &&& forall|j: int| 0 <= j < i ==> !cannot_be_taken_apart(#[trigger] packets[j], index)
            &&& forall|j: int|
                0 <= j < i && shows_picture(#[trigger] packets[j], index) && frame_number(
                    packets,
                    index,
                    j,
                ) < base ==> packet_grain(packets[j].data->0) is Ok
        }
        ||| {
            &&& shows_picture(packets[i], index)
            &&& packet_grain(packets[i].data->0) == Err::<Option<GrainModel>, Error>(e)
            &&& parsed_before(packets, index, base)
            &&& forall|j: int|
                0 <= j < packets.len() && cannot_be_taken_apart(#[trigger] packets[j], index)
                    ==> frame_number(packets, index, j) >= base + 256
        }
    }
}

/// One more packet in front.
proof fn lemma_frame_number_step(packets: Seq<PacketModel>, index: usize, i: int)
    requires
        0 <= i < packets.len(),
    ensures
        frame_number(packets, index, i + 1) == frame_number(packets, index, i) + if shows_picture(
            packets[i],
            index,
        ) {
            1int
        } else {
            0int
        },
{
    reveal(Seq::filter);
    let front = packets.take(i + 1);
    assert(front.drop_last() =~= packets.take(i));
}

/// No frames in front of the first packet, and no fewer in front of a later one.
proof fn lemma_frame_number_grows(packets: Seq<PacketModel>, index: usize, i: int, j: int)
    requires
        0 <= i <= j <= packets.len(),
    ensures
        0 <= frame_number(packets, index, i) <= frame_number(packets, index, j),
        frame_number(packets, index, 0) == 0,
    decreases j - i,
{
    if i < j {
        lemma_frame_number_grows(packets, index, i, j - 1);
        lemma_frame_number_step(packets, index, j - 1);
    } else {
        reveal(Seq::filter);
        assert(packets.take(0) =~= Seq::empty());
    }
}

/// The frames of the batch so far, which begins with frame `base`, come from these packets.
spec fn batch_from(
    packets: Seq<PacketModel>,
    index: usize,
    batch: Seq<Seq<u8>>,
    sources: Seq<int>,
    base: int,
    k: int,
) -> bool {
    &&& sources.len() == batch.len()
    &&& forall|t: int|
        0 <= t < batch.len() ==> {
            &&& 0 <= #[trigger] sources[t] < k
            &&& shows_picture(packets[sources[t]], index)
            &&& frame_number(packets, index, sources[t]) == base + t
            &&& packets[sources[t]].data->0 == batch[t]
        }
    &&& forall|j: int|
        0 <= j < k && shows_picture(#[trigger] packets[j], index) && frame_number(packets, index, j)
            >= base ==> frame_number(packets, index, j) < base + batch.len()
            && sources[frame_number(packets, index, j) - base] == j
}

/// A batch that cannot be parsed is a reason.
proof fn lemma_batch_stops(
    packets: Seq<PacketModel>,
    index: usize,
    batch: Seq<Seq<u8>>,
    sources: Seq<int>,
    base: int,
    k: int,
    e: Error,
)
    requires
        0 <= k <= packets.len(),
        base >= 0,
        base % 256 == 0,
        batch.len() <= 256,
        batch_from(packets, index, batch, sources, base, k),
        frame_number(packets, index, k) == base + batch.len(),
        forall|j: int| 0 <= j < k ==> !cannot_be_taken_apart(#[trigger] packets[j], index),
        forall|j: int|
            0 <= j < k && shows_picture(#[trigger] packets[j], index) && frame_number(
                packets,
                index,
                j,
            ) < base ==> packet_grain(packets[j].data->0) is Ok,
        batch.len() < 256 ==> k == packets.len(),
        batch_fault(batch, e),
    ensures
        exists|i: int| #[trigger] stops_inspection(packets, index, e, i),
{
    let t = choose|t: int|
        0 <= t < batch.len() && packet_grain(#[trigger] batch[t]) == Err::<
            Option<GrainModel>,
            Error,
        >(e);
    let i = sources[t];
    assert(frame_number(packets, index, i) == base + t);
    assert(256 * ((base + t) / 256) == base);
    assert forall|j: int|
        0 <= j < packets.len() && shows_picture(#[trigger] packets[j], index) && frame_number(
            packets,
            index,
            j,
        ) < base implies packet_grain(packets[j].data->0) is Ok by {
        if j >= k {
            lemma_frame_number_grows(packets, index, k, j);
        }
    }
    assert forall|j: int|
        0 <= j < packets.len() && cannot_be_taken_apart(
            #[trigger] packets[j],
            index,
        ) implies frame_number(packets, index, j) >= base + 256 by {
        lemma_frame_number_grows(packets, index, k, j);
    }
    assert(stops_inspection(packets, index, e, i));
}

/// The reason is among the packets.
proof fn lemma_inspection_stops(
    packets: Seq<PacketModel>,
    index: usize,
    batch: Seq<Seq<u8>>,
    sources: Seq<int>,
    base: int,
    k: int,
    e: Error,
)
    requires
        0 <= k <= packets.len(),
        base >= 0,
        base % 256 == 0,
        batch.len() < 256,
        batch_from(packets, index, batch, sources, base, k),
        frame_number(packets, index, k) == base + batch.len(),
        forall|j: int| 0 <= j < k ==> !cannot_be_taken_apart(#[trigger] packets[j], index),
        forall|j: int|
            0 <= j < k && shows_picture(#[trigger] packets[j], index) && frame_number(
                packets,
                index,
                j,
            ) < base ==> packet_grain(packets[j].data->0) is Ok,
        inspection_fault(packets.skip(k), index, batch, e),
    ensures
        exists|i: int| #[trigger] stops_inspection(packets, index, e, i),
    decreases packets.len() - k,
{
    if k == packets.len() {
        lemma_batch_stops(packets, index, batch, sources, base, k, e);
    } else {
        let packet = packets[k];
        let rest = packets.skip(k);
        assert(rest[0] == packet);
        assert(rest.skip(1) =~= packets.skip(k + 1));
        lemma_frame_number_step(packets, index, k);
        if cannot_be_taken_apart(packet, index) {
            assert(256 * ((base + batch.len()) / 256) == base);
            assert(stops_inspection(packets, index, e, k));
        } else if !shows_picture(packet, index) {
            lemma_inspection_stops(packets, index, batch, sources, base, k + 1, e);
        } else {
            let more = batch.push(packet.data->0);
            let froms = sources.push(k);
            assert(batch_from(packets, index, more, froms, base, k + 1)) by {
                assert forall|t: int| 0 <= t < more.len() implies {
                    &&& 0 <= #[trigger] froms[t] < k + 1
                    &&& shows_picture(packets[froms[t]], index)
                    &&& frame_number(packets, index, froms[t]) == base + t
                    &&& packets[froms[t]].data->0 == more[t]
                } by {
                    if t < batch.len() {
                        assert(froms[t] == sources[t]);
                    }
                }
                assert forall|j: int|
                    0 <= j < k + 1 && shows_picture(#[trigger] packets[j], index) && frame_number(
                        packets,
                        index,
                        j,
                    ) >= base implies frame_number(packets, index, j) < base + more.len()
                    && froms[frame_number(packets, index, j) - base] == j by {}
            }
            if more.len() < 256 {
                lemma_inspection_stops(packets, index, more, froms, base, k + 1, e);
            } else if any_unparsed(more) {
                lemma_batch_stops(packets, index, more, froms, base, k + 1, e);
            } else {
                let none = Seq::<Seq<u8>>::empty();
                assert forall|j: int|
                    0 <= j < k + 1 && shows_picture(#[trigger] packets[j], index) && frame_number(
                        packets,
                        index,
                        j,
                    ) < base + 256 implies packet_grain(packets[j].data->0) is Ok by {
                    let t = frame_number(packets, index, j) - base;
                    if t >= 0 {
                        assert(froms[t] == j);
                        assert(packet_grain(more[t]) is Ok);
                    }
                }
                assert forall|j: int|
                    0 <= j < k + 1 && shows_picture(
                        #[trigger] packets[j],
                        index,
                    ) implies frame_number(packets, index, j) < base + 256 by {
                    lemma_frame_number_step(packets, index, j);
                    lemma_frame_number_grows(packets, index, j + 1, k + 1);
                }
                assert(batch_from(packets, index, none, Seq::empty(), base + 256, k + 1));
                lemma_inspection_stops(
                    packets,
                    index,
                    none,
                    Seq::empty(),
                    base + 256,
                    k + 1,
                    e,
                );
            }
        }
    }
}

/// Law: what is told of a stream that cannot be inspected is told of one of its packets. A packet
/// that cannot be taken apart is told of at once; grain that cannot be parsed once its batch of
/// 256 frames is complete, or at the end of the stream.
pub proof fn law_inspection_stops(packets: Seq<PacketModel>, index: usize, e: Error)
    requires
        inspection_fault(packets, index, Seq::empty(), e),
    ensures
        exists|i: int| #[trigger] stops_inspection(packets, index, e, i),
{
    lemma_frame_number_grows(packets, index, 0, 0);
    assert(packets.skip(0) =~= packets);
    assert(batch_from(packets, index, Seq::empty(), Seq::empty(), 0, 0));
    lemma_inspection_stops(packets, index, Seq::empty(), Seq::empty(), 0, 0, e);
}

} // verus!
