//! Grain in the packets of a whole stream.
use crate::error::Error;
use crate::packet::{carries, hevc_grain_batch_has_grain, scannable};
use crate::timing::TimeBase;
use crate::video::{ensure_hevc, VideoCodec, VideoDetails};
use vstd::prelude::*;
use vstd::slice::slice_to_vec;

verus! {

/// As many packets are looked at together.
pub const HEVC_PACKET_BATCH: usize = 256;

/// A packet as it comes out of a container.
#[derive(Debug)]
pub struct DemuxedPacket {
    /// The stream that it belongs to.
    pub stream_index: usize,
    /// Its bytes.
    pub data: Option<Vec<u8>>,
    /// When it is shown, in the time base of its stream.
    pub pts: Option<i64>,
}

/// A packet as it comes out of a container, as specifications see it.
#[verifier::ext_equal]
pub struct PacketModel {
    pub stream_index: usize,
    pub data: Option<Seq<u8>>,
    pub pts: Option<i64>,
}

impl View for DemuxedPacket {
    type V = PacketModel;

    open spec fn view(&self) -> PacketModel {
        PacketModel {
            stream_index: self.stream_index,
            data: match self.data {
                Some(data) => Some(data@),
                None => None,
            },
            pts: self.pts,
        }
    }
}

/// Packets, as specifications see them.
pub open spec fn packets_view(packets: Seq<DemuxedPacket>) -> Seq<PacketModel> {
    packets.map_values(|packet: DemuxedPacket| packet@)
}

/// A video stream in a container.
#[derive(Debug, Clone, Copy, PartialEq, Eq, Structural)]
pub struct VideoStream {
    pub codec: VideoCodec,
    /// Its place among the streams.
    pub index: usize,
    pub time_base: TimeBase,
    pub details: VideoDetails,
}

/// A packet of the stream at `index` that holds bytes.
pub open spec fn is_video(packet: PacketModel, index: usize) -> bool {
    packet.stream_index == index && packet.data is Some
}

/// The bytes of the packets of a stream.
pub open spec fn stream_data(packets: Seq<PacketModel>, index: usize) -> Seq<Seq<u8>>
    decreases packets.len(),
{
    if packets.len() == 0 {
        Seq::empty()
    } else if is_video(packets[0], index) {
        seq![packets[0].data->0] + stream_data(packets.skip(1), index)
    } else {
        stream_data(packets.skip(1), index)
    }
}

/// A packet among these cannot be taken apart.
pub open spec fn any_faulty(list: Seq<Seq<u8>>) -> bool {
    exists|i: int| 0 <= i < list.len() && carries(#[trigger] list[i]) is Err
}

/// A packet among these carries grain.
pub open spec fn any_grain(list: Seq<Seq<u8>>) -> bool {
    exists|i: int| 0 <= i < list.len() && carries(#[trigger] list[i]) == Ok::<bool, Error>(true)
}

/// What may be said of packets that are looked at together: whether one of them carries grain,
/// or why one of them cannot be taken apart.
pub open spec fn batch_answer(list: Seq<Seq<u8>>, answer: Result<bool, Error>) -> bool {
    match answer {
        Ok(found) => !any_faulty(list) && found == any_grain(list),
        Err(e) => exists|i: int|
            0 <= i < list.len() && carries(#[trigger] list[i]) == Err::<bool, Error>(e),
    }
}

/// What may be said of packets that are looked at batch by batch until grain is found.
pub open spec fn search_answer(list: Seq<Seq<u8>>, answer: Result<bool, Error>) -> bool
    decreases list.len(),
{
    if list.len() < HEVC_PACKET_BATCH {
        batch_answer(list, answer)
    } else {
        let batch = list.take(HEVC_PACKET_BATCH as int);
        if any_faulty(batch) || any_grain(batch) {
            batch_answer(batch, answer)
        } else {
            search_answer(list.skip(HEVC_PACKET_BATCH as int), answer)
        }
    }
}

/// The packets that are looked at, batch by batch until grain is found or one cannot be taken
/// apart, can be looked at without running into limits.
pub open spec fn searchable(list: Seq<Seq<u8>>) -> bool
    decreases list.len(),
{
    if list.len() < HEVC_PACKET_BATCH {
        all_scannable(list)
    } else {
        let batch = list.take(HEVC_PACKET_BATCH as int);
        &&& all_scannable(batch)
        &&& any_faulty(batch) || any_grain(batch) || searchable(
            list.skip(HEVC_PACKET_BATCH as int),
        )
    }
}

/// Each of these packets can be looked at without running into limits.
pub open spec fn all_scannable(list: Seq<Seq<u8>>) -> bool {
    forall|i: int| 0 <= i < list.len() ==> scannable(#[trigger] list[i])
}

/// Law: packets that can each be looked at without running into limits can be searched.
pub proof fn law_scannable_searchable(list: Seq<Seq<u8>>)
    requires
        all_scannable(list),
    ensures
        searchable(list),
    decreases list.len(),
{
    if list.len() >= HEVC_PACKET_BATCH {
        let n = HEVC_PACKET_BATCH as int;
        assert(all_scannable(list.take(n)));
        assert(all_scannable(list.skip(n)));
        law_scannable_searchable(list.skip(n));
    }
}

/// The bytes of packets.
pub open spec fn bytes_list(list: Seq<Vec<u8>>) -> Seq<Seq<u8>> {
    list.map_values(|bytes: Vec<u8>| bytes@)
}

/// Packets that are to be looked at together.
#[derive(Debug)]
pub struct PacketBatch {
    pub packets: Vec<Vec<u8>>,
}

impl PacketBatch {
    /// No packets yet.
    pub fn new() -> (r: Self)
        ensures
            r.packets@.len() == 0,
    {
        PacketBatch { packets: Vec::with_capacity(HEVC_PACKET_BATCH) }
    }

    /// Adds a packet, and says whether the batch is complete.
    pub fn add_packet(&mut self, data: &[u8]) -> (full: bool)
        ensures
            bytes_list(final(self).packets@) == bytes_list(old(self).packets@).push(data@),
            full == (final(self).packets@.len() >= HEVC_PACKET_BATCH),
    {
        let ghost before = self.packets@;
        self.packets.push(slice_to_vec(data));
        assert(bytes_list(self.packets@) =~= bytes_list(before).push(data@));
        self.packets.len() >= HEVC_PACKET_BATCH
    }

    /// Starts again without packets.
    pub fn clear(&mut self)
        ensures
            final(self).packets@.len() == 0,
    {
        self.packets.clear();
    }
}

/// What is said of a batch.
proof fn lemma_batch_answer(batch: Seq<Vec<u8>>, answer: Result<bool, Error>)
    requires
        match answer {
            Ok(found) => {
                &&& forall|i: int| 0 <= i < batch.len() ==> carries((#[trigger] batch[i])@) is Ok
                &&& found == exists|i: int|
                    0 <= i < batch.len() && carries((#[trigger] batch[i])@) == Ok::<bool, Error>(
                        true,
                    )
            },
            Err(e) => exists|i: int|
                0 <= i < batch.len() && carries((#[trigger] batch[i])@) == Err::<bool, Error>(e),
        },
    ensures
        batch_answer(bytes_list(batch), answer),
{
    let list = bytes_list(batch);
    assert forall|i: int| 0 <= i < list.len() implies #[trigger] list[i] == batch[i]@ by {}
    match answer {
        Ok(found) => {
            if found {
                let i = choose|i: int|
                    0 <= i < batch.len() && carries((#[trigger] batch[i])@) == Ok::<bool, Error>(
                        true,
                    );
                assert(carries(list[i]) == Ok::<bool, Error>(true));
            }
            assert forall|i: int| 0 <= i < list.len() implies carries(#[trigger] list[i]) is Ok by {
                assert(carries(batch[i]@) is Ok);
            }
            if any_grain(list) {
                let i = choose|i: int|
                    0 <= i < list.len() && carries(#[trigger] list[i]) == Ok::<bool, Error>(true);
                assert(carries(batch[i]@) == Ok::<bool, Error>(true));
            }
        },
        Err(e) => {
            let i = choose|i: int|
                0 <= i < batch.len() && carries((#[trigger] batch[i])@) == Err::<bool, Error>(e);
            assert(carries(list[i]) == Err::<bool, Error>(e));
        },
    }
}

/// Whether an HEVC stream carries grain. Packets are looked at batch by batch, and those behind
/// the first batch with grain in it are not looked at.
pub fn has_hevc_grain(packets: &[DemuxedPacket], stream: &VideoStream) -> (r: Result<bool, Error>)
    requires
        stream.codec is Hevc ==> searchable(stream_data(packets_view(packets@), stream.index)),
    ensures
        match stream.codec {
            VideoCodec::Other => r == Err::<bool, Error>(Error::NotHevc),
            VideoCodec::Hevc => search_answer(
                stream_data(packets_view(packets@), stream.index),
                r,
            ),
        },
{
    match ensure_hevc(stream.codec) {
        Ok(()) => {},
        Err(e) => {
            return Err(e);
        },
    }
    let ghost all = packets_view(packets@);
    let ghost wanted = stream_data(all, stream.index);
    let mut batch: PacketBatch = PacketBatch::new();
    let mut i: usize = 0;
    proof {
        assert(all.skip(0) =~= all);
        assert(bytes_list(batch.packets@) + wanted =~= wanted);
    }
    while i < packets.len()
        invariant
            stream.codec is Hevc,
            all == packets_view(packets@),
            wanted == stream_data(all, stream.index),
            i <= packets@.len(),
            batch.packets@.len() < HEVC_PACKET_BATCH,
            searchable(
                bytes_list(batch.packets@) + stream_data(all.skip(i as int), stream.index),
            ),
            forall|answer: Result<bool, Error>|
                #[trigger] search_answer(wanted, answer) == search_answer(
                    bytes_list(batch.packets@) + stream_data(all.skip(i as int), stream.index),
                    answer,
                ),
        decreases packets@.len() - i,
    {
        let packet: &DemuxedPacket = &packets[i];
        let ghost rest = stream_data(all.skip(i + 1), stream.index);
        proof {
            assert(all.skip(i as int)[0] == packet@);
            assert(all.skip(i as int).skip(1) =~= all.skip(i + 1));
        }
        if packet.stream_index == stream.index {
            match &packet.data {
                Some(data) => {
                    let ghost before = batch.packets@;
                    let full: bool = batch.add_packet(data.as_slice());
                    proof {
                        let after = batch.packets@;
                        assert(bytes_list(before) + (seq![data@] + rest) =~= bytes_list(after)
                            + rest);
                    }
                    if full {
                        let ghost list = bytes_list(batch.packets@);
                        proof {
                            assert((list + rest).take(HEVC_PACKET_BATCH as int) =~= list);
                            assert((list + rest).skip(HEVC_PACKET_BATCH as int) =~= rest);
                            assert forall|j: int| 0 <= j < list.len() implies scannable(
                                (#[trigger] batch.packets@[j])@,
                            ) by {
                                assert(scannable(list[j]));
                            }
                        }
                        let answer: Result<bool, Error> = hevc_grain_batch_has_grain(
                            batch.packets.as_slice(),
                        );
                        proof {
                            lemma_batch_answer(batch.packets@, answer);
                        }
                        match answer {
                            Ok(found) => {
                                if found {
                                    assert(search_answer(wanted, answer));
                                    return Ok(true);
                                }
                            },
                            Err(e) => {
                                assert(search_answer(wanted, answer));
                                return Err(e);
                            },
                        }
                        batch.clear();
                        assert(bytes_list(batch.packets@) + rest =~= rest);
                    }
                },
                None => {},
            }
        }
        i = i + 1;
    }
    proof {
        let list = bytes_list(batch.packets@);
        assert(list + stream_data(all.skip(i as int), stream.index) =~= list);
        assert forall|j: int| 0 <= j < list.len() implies scannable(
            (#[trigger] batch.packets@[j])@,
        ) by {
            assert(scannable(list[j]));
        }
    }
    let answer: Result<bool, Error> = hevc_grain_batch_has_grain(batch.packets.as_slice());
    proof {
        lemma_batch_answer(batch.packets@, answer);
        assert(search_answer(wanted, answer));
    }
    answer
}

/// Law: where every packet can be taken apart, the search finds grain if and only if a packet
/// carries it.
pub proof fn law_search_finds(list: Seq<Seq<u8>>, answer: Result<bool, Error>)
    requires
        search_answer(list, answer),
        !any_faulty(list),
    ensures
        answer == Ok::<bool, Error>(any_grain(list)),
    decreases list.len(),
{
    if list.len() >= HEVC_PACKET_BATCH {
        let n = HEVC_PACKET_BATCH as int;
        let batch = list.take(n);
        let rest = list.skip(n);
        assert(!any_faulty(batch)) by {
            if any_faulty(batch) {
                let i = choose|i: int| 0 <= i < batch.len() && carries(#[trigger] batch[i]) is Err;
                assert(carries(list[i]) is Err);
            }
        }
        assert(!any_faulty(rest)) by {
            if any_faulty(rest) {
                let i = choose|i: int| 0 <= i < rest.len() && carries(#[trigger] rest[i]) is Err;
                assert(carries(list[i + n]) is Err);
            }
        }
        if any_grain(batch) {
            let i = choose|i: int|
                0 <= i < batch.len() && carries(#[trigger] batch[i]) == Ok::<bool, Error>(true);
            assert(carries(list[i]) == Ok::<bool, Error>(true));
        } else {
            law_search_finds(rest, answer);
            if any_grain(rest) {
                let i = choose|i: int|
                    0 <= i < rest.len() && carries(#[trigger] rest[i]) == Ok::<bool, Error>(true);
                assert(carries(list[i + n]) == Ok::<bool, Error>(true));
            }
            if any_grain(list) {
                let i = choose|i: int|
                    0 <= i < list.len() && carries(#[trigger] list[i]) == Ok::<bool, Error>(true);
                if i < n {
                    assert(batch[i] == list[i]);
                } else {
                    assert(rest[i - n] == list[i]);
                }
            }
        }
    }
}

/// Law: specifications see every part of a packet as it is, and packets in their order.
pub proof fn law_packets_seen(packets: Seq<DemuxedPacket>, i: int)
    requires
        0 <= i < packets.len(),
    ensures
        packets_view(packets).len() == packets.len(),
        ({
            let seen = packets_view(packets)[i];
            &&& seen.stream_index == packets[i].stream_index
            &&& seen.pts == packets[i].pts
            &&& match (seen.data, packets[i].data) {
                (Some(bytes), Some(data)) => bytes == data@,
                (None, None) => true,
                _ => false,
            }
        }),
{
}

} // verus!
