//! Reading the grain table of a stream.
use crate::error::Error;
use crate::grain::{FilmGrainParams, GrainModel, GrainTableSegment};
use crate::packet::{
    grain_readable, grain_view, holds_picture, packet_grain, packet_has_vcl, parse_hevc_grain_batch,
};
use crate::stream::{
    bytes_list, is_video, packets_view, DemuxedPacket, PacketModel, VideoStream, HEVC_PACKET_BATCH,
};
use crate::table::{aggregate_hevc_grain, frames_view, grain_table, table_view};
use crate::timing::{
    ffmpeg_pts_to_grain_ts, grain_ts_of_pts, ints, is_pts_in_range, pts_fits, rank, sorted_places,
    FrameRate, TimeBase,
};
use crate::video::ensure_hevc;
use vstd::prelude::*;
use vstd::slice::slice_to_vec;

verus! {

/// The grain of a frame and when the frame is shown, as far as that is known.
pub type FrameModel = (Option<u64>, Option<GrainModel>);

/// The grain of frames and when they are shown, as specifications see them.
pub open spec fn found_view(frames: Seq<(Option<u64>, Option<FilmGrainParams>)>) -> Seq<
    FrameModel,
> {
    frames.map_values(|f: (Option<u64>, Option<FilmGrainParams>)| (f.0, grain_view(f.1)))
}

/// It is known of some frame when it is shown.
pub open spec fn any_timed(frames: Seq<FrameModel>) -> bool {
    exists|i: int| 0 <= i < frames.len() && (#[trigger] frames[i]).0 is Some
}

/// When frames are shown, as far as that is known, and at the start otherwise.
pub open spec fn show_times(frames: Seq<FrameModel>) -> Seq<int> {
    frames.map_values(
        |f: FrameModel|
            match f.0 {
                Some(ts) => ts as int,
                None => 0,
            },
    )
}

/// The item that comes behind exactly `k` others in the order of keys and then of places.
pub open spec fn at_rank(keys: Seq<int>, k: int) -> int {
    choose|i: int| 0 <= i < keys.len() && #[trigger] rank(keys, i) == k
}

/// The grain of frames in the order in which they are shown: by their times, and frames with the
/// same time as they were decoded. Where no times are known it is the order of decoding.
pub open spec fn shown(frames: Seq<FrameModel>) -> Seq<Option<GrainModel>> {
    if any_timed(frames) {
        Seq::new(frames.len(), |k: int| frames[at_rank(show_times(frames), k)].1)
    } else {
        frames.map_values(|f: FrameModel| f.1)
    }
}

/// When a packet is shown, in the units of grain tables.
pub open spec fn show_time(pts: Option<i64>, time_base: TimeBase) -> Option<u64> {
    match pts {
        Some(p) => Some(grain_ts_of_pts(p, time_base) as u64),
        None => None,
    }
}

/// The timestamp of a packet, if it has one, can be expressed in the units of grain tables.
pub open spec fn time_fits(pts: Option<i64>, time_base: TimeBase) -> bool {
    pts matches Some(p) ==> pts_fits(p, time_base)
}

/// The frames in the packets of a stream.
pub open spec fn frames_in(packets: Seq<PacketModel>, index: usize, time_base: TimeBase) -> Seq<
    FrameModel,
>
    decreases packets.len(),
{
    if packets.len() == 0 {
        Seq::empty()
    } else {
        let rest = frames_in(packets.skip(1), index, time_base);
        let packet = packets[0];
        if is_video(packet, index) && holds_picture(packet.data->0) == Ok::<bool, Error>(true) {
            seq![(show_time(packet.pts, time_base), packet_grain(packet.data->0)->Ok_0)] + rest
        } else {
            rest
        }
    }
}

/// Why a packet cannot be inspected.
pub open spec fn packet_fault(packet: PacketModel, index: usize) -> Option<Error> {
    if !is_video(packet, index) {
        None
    } else {
        match holds_picture(packet.data->0) {
            Err(e) => Some(e),
            Ok(false) => None,
            Ok(true) => match packet_grain(packet.data->0) {
                Err(e) => Some(e),
                Ok(_) => None,
            },
        }
    }
}

/// Collects the grain of frames. The packets of a batch are parsed together, by the caller.
#[derive(Debug)]
pub struct GrainInspector {
    /// The frames of which the grain is known.
    pub frames: Vec<(Option<u64>, Option<FilmGrainParams>)>,
    /// The packets that are to be parsed next.
    pub batch: Vec<Vec<u8>>,
    /// When the frames in these packets are shown.
    pub batch_times: Vec<Option<u64>>,
}

impl GrainInspector {
    /// There is a time for each packet.
    pub open spec fn wf(&self) -> bool {
        self.batch@.len() == self.batch_times@.len()
    }

    /// Nothing was collected yet.
    pub fn new() -> (r: Self)
        ensures
            r.wf(),
            r.frames@.len() == 0,
            r.batch@.len() == 0,
    {
        GrainInspector {
            frames: Vec::new(),
            batch: Vec::with_capacity(HEVC_PACKET_BATCH),
            batch_times: Vec::with_capacity(HEVC_PACKET_BATCH),
        }
    }

    /// Whether a packet can be taken without running into limits.
    pub fn can_accept(&self, data: &[u8], pts: Option<i64>, time_base: TimeBase) -> (r: bool)
        ensures
            r == {
                &&& data@.len() + 4 <= usize::MAX
                &&& holds_picture(data@) == Ok::<bool, Error>(true) ==> time_fits(pts, time_base)
            },
    {
        if data.len() > usize::MAX - 4 {
            return false;
        }
        match pts {
            Some(p) => is_pts_in_range(p, time_base) || match packet_has_vcl(data) {
                Ok(b) => !b,
                Err(_) => true,
            },
            None => true,
        }
    }

    /// Takes a packet of the video stream, and says whether the batch is complete. Packets without
    /// coded picture data are passed over.
    pub fn accept(&mut self, data: &[u8], pts: Option<i64>, time_base: TimeBase) -> (r: Result<
        bool,
        Error,
    >)
        requires
            old(self).wf(),
            data@.len() + 4 <= usize::MAX,
            holds_picture(data@) == Ok::<bool, Error>(true) ==> time_fits(pts, time_base),
        ensures
            final(self).wf(),
            final(self).frames@ == old(self).frames@,
            match holds_picture(data@) {
                Err(e) => {
                    &&& r == Err::<bool, Error>(e)
                    &&& final(self).batch@ == old(self).batch@
                    &&& final(self).batch_times@ == old(self).batch_times@
                },
                Ok(false) => {
                    &&& r == Ok::<bool, Error>(final(self).batch@.len() >= HEVC_PACKET_BATCH)
                    &&& final(self).batch@ == old(self).batch@
                    &&& final(self).batch_times@ == old(self).batch_times@
                },
                Ok(true) => {
                    &&& r == Ok::<bool, Error>(final(self).batch@.len() >= HEVC_PACKET_BATCH)
                    &&& bytes_list(final(self).batch@) == bytes_list(old(self).batch@).push(data@)
                    &&& final(self).batch_times@ == old(self).batch_times@.push(
                        show_time(pts, time_base),
                    )
                },
            },
    {
        match packet_has_vcl(data) {
            Err(e) => {
                return Err(e);
            },
            Ok(false) => {},
            Ok(true) => {
                let ghost before = self.batch@;
                let time: Option<u64> = match pts {
                    Some(p) => Some(ffmpeg_pts_to_grain_ts(p, time_base)),
                    None => None,
                };
                self.batch.push(slice_to_vec(data));
                self.batch_times.push(time);
                assert(bytes_list(self.batch@) =~= bytes_list(before).push(data@));
            },
        }
        Ok(self.batch.len() >= HEVC_PACKET_BATCH)
    }

    /// Takes the grain that was found in the packets of the batch, and starts the next one.
    pub fn absorb(&mut self, grain: &[Option<FilmGrainParams>])
        requires
            old(self).wf(),
            grain@.len() == old(self).batch@.len(),
        ensures
            final(self).wf(),
            final(self).batch@.len() == 0,
            found_view(final(self).frames@) == found_view(old(self).frames@) + Seq::new(
                grain@.len(),
                |i: int| (old(self).batch_times@[i], grain_view(grain@[i])),
            ),
    {
        let ghost before = found_view(self.frames@);
        let ghost times = self.batch_times@;
        let ghost wanted = Seq::new(grain@.len(), |i: int| (times[i], grain_view(grain@[i])));
        let mut i: usize = 0;
        assert(before + wanted.take(0) =~= before);
        while i < grain.len()
            invariant
                i <= grain@.len(),
                self.batch_times@ == times,
                times.len() == grain@.len(),
                wanted == Seq::new(grain@.len(), |i: int| (times[i], grain_view(grain@[i]))),
                found_view(self.frames@) == before + wanted.take(i as int),
            decreases grain@.len() - i,
        {
            let ghost sofar = self.frames@;
            let time: Option<u64> = self.batch_times[i];
            self.frames.push((time, copied(&grain[i])));
            proof {
                assert(found_view(self.frames@) =~= found_view(sofar).push(wanted[i as int]));
                assert(wanted.take(i + 1) =~= wanted.take(i as int).push(wanted[i as int]));
                assert(found_view(self.frames@) =~= before + wanted.take(i + 1));
            }
            i = i + 1;
        }
        assert(wanted.take(i as int) =~= wanted);
        self.batch.clear();
        self.batch_times.clear();
    }

    /// The grain table of all frames.
    pub fn finish(&self, frame_rate: FrameRate) -> (r: Vec<GrainTableSegment>)
        ensures
            table_view(r@) == grain_table(shown(found_view(self.frames@)), frame_rate),
    {
        let ghost frames = found_view(self.frames@);
        let mut timed: bool = false;
        let mut keys: Vec<i128> = Vec::with_capacity(self.frames.len());
        let mut i: usize = 0;
        while i < self.frames.len()
            invariant
                frames == found_view(self.frames@),
                i <= self.frames@.len(),
                keys@.len() == i,
                forall|j: int| 0 <= j < i ==> keys@[j] == show_times(frames)[j],
                timed == exists|j: int| 0 <= j < i && (#[trigger] frames[j]).0 is Some,
            decreases self.frames@.len() - i,
        {
            assert(frames[i as int].0 == self.frames@[i as int].0);
            match self.frames[i].0 {
                Some(ts) => {
                    timed = true;
                    keys.push(ts as i128);
                },
                None => {
                    keys.push(0);
                },
            }
            i = i + 1;
        }
        assert(ints(keys@) =~= show_times(frames));
        let places: Vec<usize> = sorted_places(&keys);
        let mut list: Vec<Option<FilmGrainParams>> = Vec::with_capacity(self.frames.len());
        let mut k: usize = 0;
        while k < self.frames.len()
            invariant
                frames == found_view(self.frames@),
                timed == any_timed(frames),
                keys@.len() == frames.len(),
                ints(keys@) == show_times(frames),
                places@.len() == keys@.len(),
                forall|j: int| 0 <= j < places@.len() ==> (#[trigger] places@[j]) < keys@.len(),
                forall|j: int|
                    0 <= j < places@.len() ==> rank(ints(keys@), #[trigger] places@[j] as int) == j,
                forall|j: int|
                    0 <= j < keys@.len() ==> (#[trigger] rank(ints(keys@), j)) < keys@.len()
                        && places@[rank(ints(keys@), j) as int] == j,
                k <= frames.len(),
                list@.len() == k,
                forall|j: int| 0 <= j < k ==> #[trigger] grain_view(list@[j]) == shown(frames)[j],
            decreases frames.len() - k,
        {
            let place: usize = if timed {
                places[k]
            } else {
                k
            };
            proof {
                assert(place < frames.len());
                if timed {
                    let keys = show_times(frames);
                    assert(rank(keys, place as int) == k);
                    let other = at_rank(keys, k as int);
                    assert(0 <= other < keys.len() && rank(keys, other) == k);
                    assert(other == place);
                }
                assert(frames[place as int].1 == grain_view(self.frames@[place as int].1));
                assert(shown(frames)[k as int] == frames[place as int].1);
            }
            list.push(copied(&self.frames[place].1));
            k = k + 1;
        }
        proof {
            assert(frames_view(list@) =~= shown(frames)) by {
                assert forall|j: int| 0 <= j < list@.len() implies frames_view(list@)[j] == shown(
                    frames,
                )[j] by {
                    assert(grain_view(list@[j]) == shown(frames)[j]);
                }
            }
        }
        aggregate_hevc_grain(list.as_slice(), frame_rate)
    }
}

/// The same grain, or none.
fn copied(grain: &Option<FilmGrainParams>) -> (r: Option<FilmGrainParams>)
    ensures
        grain_view(r) == grain_view(*grain),
{
    match grain {
        Some(params) => Some(params.clone()),
        None => None,
    }
}

/// A packet in a batch has grain that cannot be parsed.
pub open spec fn any_unparsed(batch: Seq<Seq<u8>>) -> bool {
    exists|i: int| 0 <= i < batch.len() && packet_grain(#[trigger] batch[i]) is Err
}

/// What may be said to be wrong with a batch: why the grain of one of its packets cannot be parsed.
pub open spec fn batch_fault(batch: Seq<Seq<u8>>, e: Error) -> bool {
    exists|i: int|
        0 <= i < batch.len() && packet_grain(#[trigger] batch[i]) == Err::<
            Option<GrainModel>,
            Error,
        >(e)
}

/// What may be said to be wrong with packets, with those in `batch` in front that are still to be
/// parsed. A packet that cannot be taken apart is told of at once. Frames are parsed batch by
/// batch, and grain that cannot be parsed is told of the first batch that has some.
pub open spec fn inspection_fault(
    packets: Seq<PacketModel>,
    index: usize,
    batch: Seq<Seq<u8>>,
    e: Error,
) -> bool
    decreases packets.len(),
{
    if packets.len() == 0 {
        batch_fault(batch, e)
    } else if !is_video(packets[0], index) {
        inspection_fault(packets.skip(1), index, batch, e)
    } else {
        match holds_picture(packets[0].data->0) {
            Err(f) => e == f,
            Ok(false) => inspection_fault(packets.skip(1), index, batch, e),
            Ok(true) => {
                let more = batch.push(packets[0].data->0);
                if more.len() < HEVC_PACKET_BATCH {
                    inspection_fault(packets.skip(1), index, more, e)
                } else if any_unparsed(more) {
                    batch_fault(more, e)
                } else {
                    inspection_fault(packets.skip(1), index, Seq::empty(), e)
                }
            },
        }
    }
}

/// The grain of every packet in a batch can be parsed without running into limits.
pub open spec fn batch_parsable(batch: Seq<Seq<u8>>) -> bool {
    forall|i: int| 0 <= i < batch.len() ==> grain_readable(#[trigger] batch[i])
}

/// Packets, with those in `batch` in front that are still to be parsed, can be inspected without
/// running into limits, as far as they are looked at.
pub open spec fn inspectable(
    packets: Seq<PacketModel>,
    stream: VideoStream,
    batch: Seq<Seq<u8>>,
) -> bool
    decreases packets.len(),
{
    if packets.len() == 0 {
        batch_parsable(batch)
    } else if !is_video(packets[0], stream.index) {
        inspectable(packets.skip(1), stream, batch)
    } else {
        let data = packets[0].data->0;
        &&& data.len() + 4 <= usize::MAX
        &&& match holds_picture(data) {
            Err(_) => true,
            Ok(false) => inspectable(packets.skip(1), stream, batch),
            Ok(true) => {
                let more = batch.push(data);
                &&& time_fits(packets[0].pts, stream.time_base)
                &&& if more.len() < HEVC_PACKET_BATCH {
                    inspectable(packets.skip(1), stream, more)
                } else {
                    batch_parsable(more) && (any_unparsed(more) || inspectable(
                        packets.skip(1),
                        stream,
                        Seq::empty(),
                    ))
                }
            },
        }
    }
}

/// A packet can be inspected without running into limits, if it is one of the stream.
pub open spec fn packet_inspectable(packet: PacketModel, stream: VideoStream) -> bool {
    is_video(packet, stream.index) ==> {
        &&& packet.data->0.len() + 4 <= usize::MAX
        &&& holds_picture(packet.data->0) == Ok::<bool, Error>(true) ==> grain_readable(
            packet.data->0,
        ) && time_fits(packet.pts, stream.time_base)
    }
}

/// Law: packets that can each be inspected without running into limits can be inspected together.
pub proof fn law_inspectable(
    packets: Seq<PacketModel>,
    stream: VideoStream,
    batch: Seq<Seq<u8>>,
)
    requires
        forall|i: int| 0 <= i < packets.len() ==> packet_inspectable(#[trigger] packets[i], stream),
        batch_parsable(batch),
    ensures
        inspectable(packets, stream, batch),
    decreases packets.len(),
{
    if packets.len() > 0 {
        let rest = packets.skip(1);
        assert(packet_inspectable(packets[0], stream));
        assert forall|i: int| 0 <= i < rest.len() implies packet_inspectable(
            #[trigger] rest[i],
            stream,
        ) by {
            assert(rest[i] == packets[i + 1]);
        }
        law_inspectable(rest, stream, batch);
        law_inspectable(rest, stream, Seq::empty());
        if holds_picture(packets[0].data->0) == Ok::<bool, Error>(true) && is_video(
            packets[0],
            stream.index,
        ) {
            law_inspectable(rest, stream, batch.push(packets[0].data->0));
        }
    }
}

/// The frames in the packets of a batch.
spec fn batch_frames(batch: Seq<Seq<u8>>, times: Seq<Option<u64>>) -> Seq<FrameModel> {
    Seq::new(batch.len(), |i: int| (times[i], packet_grain(batch[i])->Ok_0))
}

/// Every packet in a batch is one of the stream.
spec fn batch_sources(
    batch: Seq<Vec<u8>>,
    sources: Seq<int>,
    packets: Seq<PacketModel>,
    index: usize,
    n: int,
) -> bool {
    &&& sources.len() == batch.len()
    &&& forall|j: int|
        0 <= j < sources.len() ==> {
            &&& 0 <= (#[trigger] sources[j]) < n
            &&& is_video(packets[sources[j]], index)
            &&& packets[sources[j]].data->0 == batch[j]@
            &&& holds_picture(batch[j]@) == Ok::<bool, Error>(true)
        }
}

/// Every packet so far can be inspected, or is still in the batch.
spec fn sound_so_far(packets: Seq<PacketModel>, sources: Seq<int>, index: usize, n: int) -> bool {
    forall|i: int|
        0 <= i < n ==> packet_fault(#[trigger] packets[i], index) is None || sources.contains(i)
}

/// Parses the batch, and takes what was found.
fn flush(inspector: &mut GrainInspector) -> (r: Result<(), Error>)
    requires
        old(inspector).wf(),
        forall|j: int|
            0 <= j < old(inspector).batch@.len() ==> grain_readable(
                (#[trigger] old(inspector).batch@[j])@,
            ),
    ensures
        match r {
            Ok(()) => {
                &&& final(inspector).wf()
                &&& final(inspector).batch@.len() == 0
                &&& found_view(final(inspector).frames@) == found_view(old(inspector).frames@)
                    + batch_frames(bytes_list(old(inspector).batch@), old(inspector).batch_times@)
                &&& forall|j: int|
                    0 <= j < old(inspector).batch@.len() ==> packet_grain(
                        (#[trigger] old(inspector).batch@[j])@,
                    ) is Ok
            },
            Err(e) => exists|j: int|
                0 <= j < old(inspector).batch@.len() && packet_grain(
                    (#[trigger] old(inspector).batch@[j])@,
                ) == Err::<Option<GrainModel>, Error>(e),
        },
{
    let ghost batch = inspector.batch@;
    let ghost times = inspector.batch_times@;
    match parse_hevc_grain_batch(inspector.batch.as_slice()) {
        Ok(grain) => {
            inspector.absorb(grain.as_slice());
            proof {
                let a = Seq::new(grain@.len(), |i: int| (times[i], grain_view(grain@[i])));
                let b = batch_frames(bytes_list(batch), times);
                assert(a =~= b) by {
                    assert forall|i: int| 0 <= i < a.len() implies a[i] == b[i] by {
                        assert(bytes_list(batch)[i] == batch[i]@);
                        assert(packet_grain(batch[i]@) == Ok::<Option<GrainModel>, Error>(
                            grain_view(grain@[i]),
                        ));
                    }
                }
            }
            Ok(())
        },
        Err(e) => Err(e),
    }
}

/// The grain table of an HEVC stream.
pub fn inspect_hevc_grain_table(packets: &[DemuxedPacket], stream: &VideoStream) -> (r: Result<
    Vec<GrainTableSegment>,
    Error,
>)
    requires
        stream.codec is Hevc ==> inspectable(packets_view(packets@), *stream, Seq::empty()),
    ensures
        match r {
            Ok(table) => {
                &&& stream.codec is Hevc
                &&& forall|i: int|
                    0 <= i < packets@.len() ==> packet_fault(
                        (#[trigger] packets@[i])@,
                        stream.index,
                    ) is None
                &&& table_view(table@) == grain_table(
                    shown(frames_in(packets_view(packets@), stream.index, stream.time_base)),
                    stream.details.frame_rate,
                )
            },
            Err(e) => if stream.codec is Other {
                e == Error::NotHevc
            } else {
                &&& inspection_fault(packets_view(packets@), stream.index, Seq::empty(), e)
                &&& exists|i: int|
                    0 <= i < packets@.len() && packet_fault(
                        (#[trigger] packets@[i])@,
                        stream.index,
                    ) == Some(e)
            },
        },
{
    match ensure_hevc(stream.codec) {
        Ok(()) => {},
        Err(e) => {
            return Err(e);
        },
    }
    let ghost all = packets_view(packets@);
    let ghost index = stream.index;
    let ghost wanted = frames_in(all, index, stream.time_base);
    let ghost mut sources: Seq<int> = Seq::empty();
    let mut inspector: GrainInspector = GrainInspector::new();
    let mut i: usize = 0;
    proof {
        assert(all.skip(0) =~= all);
        assert(bytes_list(inspector.batch@) =~= Seq::empty());
        assert(found_view(inspector.frames@) + batch_frames(
            bytes_list(inspector.batch@),
            inspector.batch_times@,
        ) + wanted =~= wanted);
    }
    while i < packets.len()
        invariant
            stream.codec is Hevc,
            all == packets_view(packets@),
            index == stream.index,
            wanted == frames_in(all, index, stream.time_base),
            inspectable(all.skip(i as int), *stream, bytes_list(inspector.batch@)),
            forall|e: Error|
                #[trigger] inspection_fault(all, index, Seq::empty(), e) == inspection_fault(
                    all.skip(i as int),
                    index,
                    bytes_list(inspector.batch@),
                    e,
                ),
            inspector.batch@.len() < HEVC_PACKET_BATCH,
            i <= packets@.len(),
            inspector.wf(),
            batch_sources(inspector.batch@, sources, all, index, i as int),
            sound_so_far(all, sources, index, i as int),
            wanted == found_view(inspector.frames@) + batch_frames(
                bytes_list(inspector.batch@),
                inspector.batch_times@,
            ) + frames_in(all.skip(i as int), index, stream.time_base),
        decreases packets@.len() - i,
    {
        let packet: &DemuxedPacket = &packets[i];
        let ghost rest = frames_in(all.skip(i + 1), index, stream.time_base);
        proof {
            assert(all.skip(i as int)[0] == packet@);
            assert(all.skip(i as int).skip(1) =~= all.skip(i + 1));
            assert(all[i as int] == packet@);
        }
        let mut full: bool = false;
        if packet.stream_index == stream.index {
            match &packet.data {
                Some(data) => {
                    assert(is_video(all[i as int], index));
                    let ghost frames = found_view(inspector.frames@);
                    let ghost batch = inspector.batch@;
                    let ghost times = inspector.batch_times@;
                    match inspector.accept(data.as_slice(), packet.pts, stream.time_base) {
                        Ok(complete) => {
                            full = complete;
                        },
                        Err(e) => {
                            assert(packet_fault(packets@[i as int]@, index) == Some(e));
                            assert(inspection_fault(all, index, Seq::empty(), e));
                            return Err(e);
                        },
                    }
                    proof {
                        if holds_picture(data@) == Ok::<bool, Error>(true) {
                            let next = (
                                show_time(packet.pts, stream.time_base),
                                packet_grain(data@)->Ok_0,
                            );
                            let after = inspector.batch@;
                            let more = batch_frames(bytes_list(after), inspector.batch_times@);
                            assert(more =~= batch_frames(bytes_list(batch), times).push(next));
                            assert(frames + batch_frames(bytes_list(batch), times) + (seq![next]
                                + rest) =~= frames + more + rest);
                            let old_sources = sources;
                            sources = sources.push(i as int);
                            assert forall|j: int| 0 <= j < sources.len() implies {
                                &&& 0 <= (#[trigger] sources[j]) < i + 1
                                &&& is_video(all[sources[j]], index)
                                &&& all[sources[j]].data->0 == after[j]@
                                &&& holds_picture(after[j]@) == Ok::<bool, Error>(true)
                            } by {
                                assert(bytes_list(after)[j] == after[j]@);
                                if j < old_sources.len() {
                                    assert(sources[j] == old_sources[j]);
                                    assert(bytes_list(batch)[j] == batch[j]@);
                                }
                            }
                            assert forall|k: int| 0 <= k < i + 1 implies packet_fault(
                                #[trigger] all[k],
                                index,
                            ) is None || sources.contains(k) by {
                                if k < i {
                                    if old_sources.contains(k) {
                                        let q = choose|q: int|
                                            0 <= q < old_sources.len() && old_sources[q] == k;
                                        assert(sources[q] == k);
                                    }
                                } else {
                                    assert(sources[sources.len() - 1] == k);
                                }
                            }
                        }
                    }
                },
                None => {},
            }
        }
        assert(batch_sources(inspector.batch@, sources, all, index, i + 1));
        assert(sound_so_far(all, sources, index, i + 1));
        if full {
            let ghost batch = inspector.batch@;
            proof {
                assert forall|j: int| 0 <= j < batch.len() implies grain_readable(
                    (#[trigger] batch[j])@,
                ) by {
                    assert(grain_readable(bytes_list(batch)[j]));
                }
            }
            match flush(&mut inspector) {
                Ok(()) => {},
                Err(e) => {
                    proof {
                        let j = choose|j: int|
                            0 <= j < batch.len() && packet_grain((#[trigger] batch[j])@) == Err::<
                                Option<GrainModel>,
                                Error,
                            >(e);
                        assert(packet_fault(packets@[sources[j]]@, index) == Some(e));
                        assert(packet_grain(bytes_list(batch)[j]) == Err::<
                            Option<GrainModel>,
                            Error,
                        >(e));
                        assert(inspection_fault(all, index, Seq::empty(), e));
                    }
                    return Err(e);
                },
            }
            proof {
                assert forall|k: int| 0 <= k < i + 1 implies packet_fault(
                    #[trigger] all[k],
                    index,
                ) is None by {
                    if sources.contains(k) {
                        let q = choose|q: int| 0 <= q < sources.len() && sources[q] == k;
                        assert(packet_grain(batch[q]@) is Ok);
                    }
                }
                assert(!any_unparsed(bytes_list(batch))) by {
                    assert forall|j: int| 0 <= j < batch.len() implies packet_grain(
                        #[trigger] bytes_list(batch)[j],
                    ) is Ok by {
                        assert(packet_grain(batch[j]@) is Ok);
                    }
                }
                assert(bytes_list(inspector.batch@) =~= Seq::empty());
                sources = Seq::empty();
                assert(batch_frames(bytes_list(inspector.batch@), inspector.batch_times@)
                    =~= Seq::empty());
                assert(found_view(inspector.frames@) + Seq::<FrameModel>::empty()
                    =~= found_view(inspector.frames@));
            }
        }
        i = i + 1;
    }
    let ghost batch = inspector.batch@;
    proof {
        assert forall|j: int| 0 <= j < batch.len() implies grain_readable(
            (#[trigger] batch[j])@,
        ) by {
            assert(grain_readable(bytes_list(batch)[j]));
        }
    }
    match flush(&mut inspector) {
        Ok(()) => {},
        Err(e) => {
            proof {
                let j = choose|j: int|
                    0 <= j < batch.len() && packet_grain((#[trigger] batch[j])@) == Err::<
                        Option<GrainModel>,
                        Error,
                    >(e);
                assert(packet_fault(packets@[sources[j]]@, index) == Some(e));
                assert(packet_grain(bytes_list(batch)[j]) == Err::<Option<GrainModel>, Error>(e));
                assert(inspection_fault(all, index, Seq::empty(), e));
            }
            return Err(e);
        },
    }
    proof {
        assert(found_view(inspector.frames@) =~= wanted);
        assert forall|k: int| 0 <= k < packets@.len() implies packet_fault(
            (#[trigger] packets@[k])@,
            index,
        ) is None by {
            assert(all[k] == packets@[k]@);
            if sources.contains(k) {
                let q = choose|q: int| 0 <= q < sources.len() && sources[q] == k;
                assert(packet_grain(batch[q]@) is Ok);
            }
        }
    }
    Ok(inspector.finish(stream.details.frame_rate))
}

/// Law: specifications see the times and the grain of frames as they are, in their order.
pub proof fn law_frames_seen(frames: Seq<(Option<u64>, Option<FilmGrainParams>)>, i: int)
    requires
        0 <= i < frames.len(),
    ensures
        found_view(frames).len() == frames.len(),
        found_view(frames)[i].0 == frames[i].0,
        match (found_view(frames)[i].1, frames[i].1) {
            (Some(grain), Some(params)) => grain == params@,
            (None, None) => true,
            _ => false,
        },
{
}

} // verus!
