//! Putting grain into the packets of a stream, and taking it out.
use crate::error::Error;
use crate::grain::{FilmGrainParams, GrainModel, GrainTableSegment, SegmentModel};
use crate::packet::{
    bytes_view, grain_view, holds_picture, is_packet_modifiable, modifiable, modified,
    modify_packet, packet_has_vcl,
};
use crate::stream::{
    is_video, packets_view, DemuxedPacket, PacketModel, VideoStream, HEVC_PACKET_BATCH,
};
use crate::table::{grain_at, segment_for_ts, table_view};
use crate::timing::{
    ffmpeg_pts_to_grain_ts, frame_index_to_grain_ts, frame_ts, grain_ts_of_pts, ints,
    is_pts_in_range, pts_fits, rank, sorted_places, FrameRate,
};
use crate::video::{ensure_hevc, VideoCodec};
use vstd::prelude::*;
use vstd::slice::slice_to_vec;

verus! {

/// The timestamps of the packets of a stream that hold coded picture data, as they come; or why
/// the first packet that cannot be taken apart cannot be.
pub open spec fn picture_times(packets: Seq<PacketModel>, index: usize) -> Result<
    Seq<Option<i64>>,
    Error,
>
    decreases packets.len(),
{
    if packets.len() == 0 {
        Ok(Seq::empty())
    } else {
        let rest = picture_times(packets.skip(1), index);
        if is_video(packets[0], index) {
            match holds_picture(packets[0].data->0) {
                Err(e) => Err(e),
                Ok(false) => rest,
                Ok(true) => match rest {
                    Err(e) => Err(e),
                    Ok(list) => Ok(seq![packets[0].pts] + list),
                },
            }
        } else {
            rest
        }
    }
}

/// Numbers that stand for timestamps, which are all known.
pub open spec fn known_times(times: Seq<Option<i64>>) -> Seq<int> {
    times.map_values(|pts: Option<i64>| pts->0 as int)
}

/// A timestamp is not known.
pub open spec fn any_unknown(times: Seq<Option<i64>>) -> bool {
    exists|i: int| 0 <= i < times.len() && (#[trigger] times[i]) is None
}

/// When the frames of packets are shown, in the units of grain tables: as many frames are shown
/// before a frame as come before it by their timestamps, and where these are the same by their
/// places. Nothing is known of any of them where a timestamp is not known.
pub open spec fn presentation_times(times: Seq<Option<i64>>, rate: FrameRate) -> Seq<Option<u64>> {
    if any_unknown(times) {
        Seq::new(times.len(), |i: int| None)
    } else {
        Seq::new(
            times.len(),
            |i: int| Some(frame_ts(rank(known_times(times), i) as int, rate) as u64),
        )
    }
}

/// When the frames of packets are shown.
pub fn presentation_timestamps(times: &Vec<Option<i64>>, frame_rate: FrameRate) -> (r: Vec<
    Option<u64>,
>)
    ensures
        r@ == presentation_times(times@, frame_rate),
{
    let mut keys: Vec<i128> = Vec::with_capacity(times.len());
    let mut timestamps: Vec<Option<u64>> = Vec::with_capacity(times.len());
    let mut unknown: bool = false;
    let mut i: usize = 0;
    while i < times.len()
        invariant
            i <= times@.len(),
            keys@.len() == i,
            timestamps@.len() == i,
            forall|j: int| 0 <= j < i ==> (#[trigger] timestamps@[j]) is None,
            forall|j: int| 0 <= j < i && times@[j] is Some ==> keys@[j] == times@[j]->0,
            unknown == exists|j: int| 0 <= j < i && (#[trigger] times@[j]) is None,
        decreases times@.len() - i,
    {
        match times[i] {
            Some(pts) => {
                keys.push(pts as i128);
            },
            None => {
                unknown = true;
                keys.push(0);
            },
        }
        timestamps.push(None);
        i = i + 1;
    }
    if unknown {
        assert(timestamps@ =~= presentation_times(times@, frame_rate));
        return timestamps;
    }
    proof {
        assert forall|j: int| 0 <= j < times@.len() implies times@[j] is Some by {}
        assert(ints(keys@) =~= known_times(times@));
    }
    let places: Vec<usize> = sorted_places(&keys);
    let ghost order = known_times(times@);
    let mut k: usize = 0;
    while k < places.len()
        invariant
            order == known_times(times@),
            order == ints(keys@),
            keys@.len() == times@.len(),
            places@.len() == keys@.len(),
            timestamps@.len() == keys@.len(),
            forall|j: int| 0 <= j < places@.len() ==> (#[trigger] places@[j]) < keys@.len(),
            forall|j: int|
                0 <= j < places@.len() ==> rank(ints(keys@), #[trigger] places@[j] as int) == j,
            forall|j: int|
                0 <= j < keys@.len() ==> (#[trigger] rank(ints(keys@), j)) < keys@.len()
                    && places@[rank(ints(keys@), j) as int] == j,
            k <= places@.len(),
            forall|j: int|
                0 <= j < timestamps@.len() && rank(order, j) < k ==> (#[trigger] timestamps@[j])
                    == Some(frame_ts(rank(order, j) as int, frame_rate) as u64),
        decreases places@.len() - k,
    {
        let place: usize = places[k];
        assert(rank(order, place as int) == k);
        timestamps.set(place, Some(frame_index_to_grain_ts(k, frame_rate)));
        k = k + 1;
    }
    assert(timestamps@ =~= presentation_times(times@, frame_rate)) by {
        assert forall|j: int| 0 <= j < timestamps@.len() implies timestamps@[j]
            == presentation_times(times@, frame_rate)[j] by {
            assert(rank(ints(keys@), j) < keys@.len());
        }
    }
    timestamps
}

/// When the frames of the packets of a stream are shown, packet by packet.
pub fn presentation_timestamps_by_decode_index(
    packets: &[DemuxedPacket],
    stream: &VideoStream,
) -> (r: Result<Vec<Option<u64>>, Error>)
    requires
        stream.codec is Hevc ==> forall|i: int|
            0 <= i < packets@.len() && is_video(packets@[i]@, stream.index) ==> (
            #[trigger] packets@[i]@).data->0.len() + 4 <= usize::MAX,
    ensures
        match stream.codec {
            VideoCodec::Other => r == Err::<Vec<Option<u64>>, Error>(Error::NotHevc),
            VideoCodec::Hevc => match (
                r,
                picture_times(packets_view(packets@), stream.index),
            ) {
                (Ok(timestamps), Ok(times)) => timestamps@ == presentation_times(
                    times,
                    stream.details.frame_rate,
                ),
                (Err(e), Err(f)) => e == f,
                _ => false,
            },
        },
{
    match ensure_hevc(stream.codec) {
        Ok(()) => {},
        Err(e) => {
            return Err(e);
        },
    }
    let ghost all = packets_view(packets@);
    let mut times: Vec<Option<i64>> = Vec::new();
    let mut i: usize = 0;
    proof {
        assert(all.skip(0) =~= all);
        if let Ok(list) = picture_times(all, stream.index) {
            assert(times@ + list =~= list);
        }
    }
    while i < packets.len()
        invariant
            stream.codec is Hevc,
            all == packets_view(packets@),
            forall|j: int|
                0 <= j < packets@.len() && is_video(packets@[j]@, stream.index) ==> (
                #[trigger] packets@[j]@).data->0.len() + 4 <= usize::MAX,
            i <= packets@.len(),
            picture_times(all, stream.index) == match picture_times(
                all.skip(i as int),
                stream.index,
            ) {
                Ok(list) => Ok(times@ + list),
                Err(e) => Err(e),
            },
        decreases packets@.len() - i,
    {
        let packet: &DemuxedPacket = &packets[i];
        proof {
            assert(all.skip(i as int)[0] == packet@);
            assert(all.skip(i as int).skip(1) =~= all.skip(i + 1));
        }
        if packet.stream_index == stream.index {
            match &packet.data {
                Some(data) => {
                    assert(is_video(packets@[i as int]@, stream.index));
                    assert(packets@[i as int]@.data->0.len() + 4 <= usize::MAX);
                    match packet_has_vcl(data.as_slice()) {
                        Err(e) => {
                            return Err(e);
                        },
                        Ok(true) => {
                            let ghost before = times@;
                            times.push(packet.pts);
                            proof {
                                if let Ok(list) = picture_times(all.skip(i + 1), stream.index) {
                                    assert(before + (seq![packet.pts] + list) =~= times@ + list);
                                }
                            }
                        },
                        Ok(false) => {},
                    }
                },
                None => {},
            }
        }
        i = i + 1;
    }
    assert(times@ + Seq::<Option<i64>>::empty() =~= times@);
    Ok(presentation_timestamps(&times, stream.details.frame_rate))
}

/// When a frame is shown, in the units of grain tables: at the time that is known of it, and
/// otherwise at the timestamp of its packet, or at the start.
pub open spec fn edit_time(
    timestamps: Seq<Option<u64>>,
    frame: int,
    packet: PacketModel,
    stream: VideoStream,
) -> int {
    if frame < timestamps.len() && timestamps[frame] is Some {
        timestamps[frame]->0 as int
    } else {
        grain_ts_of_pts(packet_pts(packet), stream.time_base)
    }
}

/// The timestamp of a packet, or zero.
pub open spec fn packet_pts(packet: PacketModel) -> i64 {
    match packet.pts {
        Some(pts) => pts,
        None => 0,
    }
}

/// The time of a frame can be expressed in the units of grain tables.
pub open spec fn edit_time_fits(
    timestamps: Seq<Option<u64>>,
    frame: int,
    packet: PacketModel,
    stream: VideoStream,
) -> bool {
    (frame < timestamps.len() && timestamps[frame] is Some) || pts_fits(
        packet_pts(packet),
        stream.time_base,
    )
}

/// A packet of the video stream holds coded picture data.
pub open spec fn is_frame(packet: PacketModel, index: usize) -> bool {
    is_video(packet, index) && holds_picture(packet.data->0) == Ok::<bool, Error>(true)
}

/// The grain that is to be put into a packet, which is the frame at `frame`: what the table has
/// for its time.
pub open spec fn wanted_grain(
    packet: PacketModel,
    frame: int,
    timestamps: Seq<Option<u64>>,
    segments: Option<Seq<SegmentModel>>,
    stream: VideoStream,
) -> Option<GrainModel> {
    match segments {
        Some(table) => if is_frame(packet, stream.index) {
            grain_at(table, edit_time(timestamps, frame, packet, stream))
        } else {
            None
        },
        None => None,
    }
}

/// A packet of the video stream and the grain that is to be put into it.
#[derive(Debug)]
pub struct VideoPacketJob {
    pub data: Vec<u8>,
    pub params: Option<FilmGrainParams>,
}

/// An optional table, as specifications see it.
pub open spec fn segments_view(segments: Option<&[GrainTableSegment]>) -> Option<
    Seq<SegmentModel>,
> {
    match segments {
        Some(table) => Some(table_view(table@)),
        None => None,
    }
}

/// Decides packet by packet which grain goes where.
#[derive(Debug)]
pub struct GrainEditor<'a> {
    pub stream: VideoStream,
    /// When the frames are shown, as far as that is known.
    pub timestamps: Vec<Option<u64>>,
    /// The grain that is to be put in; without it grain is only taken out.
    pub segments: Option<&'a [GrainTableSegment]>,
    /// Grain that is there already is to be replaced.
    pub replace: bool,
    /// The number of frames so far.
    pub frames: usize,
}

impl<'a> GrainEditor<'a> {
    /// No packet was seen yet.
    pub fn new(
        stream: VideoStream,
        timestamps: Vec<Option<u64>>,
        segments: Option<&'a [GrainTableSegment]>,
        replace: bool,
    ) -> (r: Self)
        ensures
            r.stream == stream,
            r.timestamps@ == timestamps@,
            r.segments == segments,
            r.replace == replace,
            r.frames == 0,
    {
        GrainEditor { stream, timestamps, segments, replace, frames: 0 }
    }

    /// The next packet can be planned without running into limits.
    pub open spec fn plannable(&self, packet: PacketModel) -> bool {
        &&& is_video(packet, self.stream.index) ==> packet.data->0.len() + 4 <= usize::MAX
        &&& is_frame(packet, self.stream.index) ==> self.frames < usize::MAX && edit_time_fits(
            self.timestamps@,
            self.frames as int,
            packet,
            self.stream,
        )
    }

    /// Whether the next packet can be planned without running into limits.
    pub fn can_plan(&self, packet: &DemuxedPacket) -> (r: bool)
        ensures
            r == self.plannable(packet@),
    {
        if packet.stream_index != self.stream.index {
            return true;
        }
        let data: &Vec<u8> = match &packet.data {
            Some(data) => data,
            None => {
                return true;
            },
        };
        if data.len() > usize::MAX - 4 {
            return false;
        }
        let has_vcl: bool = match packet_has_vcl(data.as_slice()) {
            Ok(b) => b,
            Err(_) => false,
        };
        if !has_vcl {
            return true;
        }
        let known: bool = self.frames < self.timestamps.len()
            && self.timestamps[self.frames].is_some();
        let pts: i64 = match packet.pts {
            Some(pts) => pts,
            None => 0,
        };
        self.frames < usize::MAX && (known || is_pts_in_range(pts, self.stream.time_base))
    }

    /// What is to be done to the next packet; nothing, unless it is one of the video stream.
    pub fn plan(&mut self, packet: &DemuxedPacket) -> (r: Option<VideoPacketJob>)
        requires
            old(self).plannable(packet@),
        ensures
            final(self).stream == old(self).stream,
            final(self).timestamps@ == old(self).timestamps@,
            final(self).segments == old(self).segments,
            final(self).replace == old(self).replace,
            final(self).frames == old(self).frames + if is_frame(packet@, old(self).stream.index) {
                1int
            } else {
                0int
            },
            match r {
                Some(job) => {
                    &&& is_video(packet@, old(self).stream.index)
                    &&& job.data@ == packet@.data->0
                    &&& grain_view(job.params) == wanted_grain(
                        packet@,
                        old(self).frames as int,
                        old(self).timestamps@,
                        segments_view(old(self).segments),
                        old(self).stream,
                    )
                },
                None => !is_video(packet@, old(self).stream.index),
            },
    {
        if packet.stream_index != self.stream.index {
            return None;
        }
        let data: &Vec<u8> = match &packet.data {
            Some(data) => data,
            None => {
                return None;
            },
        };
        let has_vcl: bool = match packet_has_vcl(data.as_slice()) {
            Ok(b) => b,
            Err(_) => false,
        };
        let mut params: Option<FilmGrainParams> = None;
        if has_vcl {
            let known: Option<u64> = if self.frames < self.timestamps.len() {
                self.timestamps[self.frames]
            } else {
                None
            };
            let time: u64 = match known {
                Some(time) => time,
                None => {
                    let pts: i64 = match packet.pts {
                        Some(pts) => pts,
                        None => 0,
                    };
                    ffmpeg_pts_to_grain_ts(pts, self.stream.time_base)
                },
            };
            self.frames = self.frames + 1;
            params = match self.segments {
                Some(segments) => match segment_for_ts(segments, time) {
                    Some(found) => Some(found.clone()),
                    None => None,
                },
                None => None,
            };
        }
        Some(VideoPacketJob { data: slice_to_vec(data.as_slice()), params })
    }

    /// A packet of the video stream can be edited without running into limits.
    pub open spec fn editable(&self, job: VideoPacketJob) -> bool {
        modifiable(
            job.data@,
            grain_view(job.params),
            self.replace,
            self.stream.details.width as int,
            self.stream.details.height as int,
            self.stream.details.chroma_sampling,
        )
    }

    /// Whether a packet of the video stream can be edited without running into limits.
    pub fn can_edit(&self, job: &VideoPacketJob) -> (r: bool)
        ensures
            r == self.editable(*job),
    {
        let params: Option<&FilmGrainParams> = match &job.params {
            Some(params) => Some(params),
            None => None,
        };
        is_packet_modifiable(
            job.data.as_slice(),
            params,
            self.replace,
            self.stream.details.width,
            self.stream.details.height,
            self.stream.details.chroma_sampling,
        )
    }

    /// The bytes that a packet of the video stream becomes.
    pub fn edit(&self, job: &VideoPacketJob) -> (r: Result<Vec<u8>, Error>)
        requires
            self.editable(*job),
        ensures
            match r {
                Ok(out) => modified(
                    job.data@,
                    grain_view(job.params),
                    self.replace,
                    self.stream.details.width as int,
                    self.stream.details.height as int,
                    self.stream.details.chroma_sampling,
                ) == Ok::<Seq<u8>, Error>(out@),
                Err(e) => modified(
                    job.data@,
                    grain_view(job.params),
                    self.replace,
                    self.stream.details.width as int,
                    self.stream.details.height as int,
                    self.stream.details.chroma_sampling,
                ) == Err::<Seq<u8>, Error>(e),
            },
    {
        let params: Option<&FilmGrainParams> = match &job.params {
            Some(params) => Some(params),
            None => None,
        };
        modify_packet(
            job.data.as_slice(),
            params,
            self.replace,
            self.stream.details.width,
            self.stream.details.height,
            self.stream.details.chroma_sampling,
        )
    }
}

/// What a stream holds.
#[derive(Debug, Clone, Copy, PartialEq, Eq, Structural)]
pub enum Medium {
    Audio,
    Video,
    Subtitle,
    Other,
}

/// Streams of this kind are kept.
pub open spec fn kept(medium: Medium) -> bool {
    !(medium is Other)
}

/// The number of streams among the first `n` that are kept.
pub open spec fn kept_before(media: Seq<Medium>, n: nat) -> nat
    decreases n,
{
    if n == 0 {
        0
    } else {
        kept_before(media, (n - 1) as nat) + if kept(media[n - 1]) {
            1nat
        } else {
            0nat
        }
    }
}

/// The place of a stream in the output, or minus one where it is left out.
pub open spec fn output_place(media: Seq<Medium>, i: int) -> int {
    if kept(media[i]) {
        kept_before(media, i as nat) as int
    } else {
        -1
    }
}

/// No more streams are kept than there are.
proof fn lemma_kept(media: Seq<Medium>, n: nat)
    ensures
        kept_before(media, n) <= n,
    decreases n,
{
    if n > 0 {
        lemma_kept(media, (n - 1) as nat);
    }
}

/// The streams of audio, video and subtitles.
pub open spec fn copied_streams(media: Seq<Medium>) -> Seq<Medium> {
    media.filter(|medium: Medium| medium is Audio || medium is Video || medium is Subtitle)
}

/// One of the first `n` streams goes to the place.
pub open spec fn place_taken(media: Seq<Medium>, place: int, n: nat) -> bool {
    exists|i: int| 0 <= i < n && #[trigger] output_place(media, i) == place
}

/// The place of a stream that is kept is the number of streams of audio, video and subtitles in
/// front of it.
proof fn lemma_copied(media: Seq<Medium>, n: nat)
    requires
        n <= media.len(),
    ensures
        kept_before(media, n) == copied_streams(media.take(n as int)).len(),
        forall|k: int| 0 <= k < kept_before(media, n) ==> #[trigger] place_taken(media, k, n),
        forall|i: int|
            0 <= i < n && !(media[i] is Other) ==> 0 <= #[trigger] output_place(media, i)
                < kept_before(media, n),
    decreases n,
{
    if n == 0 {
        assert(media.take(0) =~= Seq::empty());
        reveal(Seq::filter);
    } else {
        lemma_copied(media, (n - 1) as nat);
        let front = media.take(n as int);
        assert(front.drop_last() =~= media.take(n - 1));
        reveal(Seq::filter);
        assert forall|k: int| 0 <= k < kept_before(media, n) implies #[trigger] place_taken(
            media,
            k,
            n,
        ) by {
            if k < kept_before(media, (n - 1) as nat) {
                assert(place_taken(media, k, (n - 1) as nat));
                let i = choose|i: int| 0 <= i < n - 1 && #[trigger] output_place(media, i) == k;
                assert(0 <= i < n && output_place(media, i) == k);
            } else {
                assert(output_place(media, n - 1) == k);
            }
        }
    }
}

/// Law: the streams of audio, video and subtitles are copied, each of them, and no other stream
/// is. They keep their order, and the places that they go to are those from zero to their number.
pub proof fn law_streams_placed(media: Seq<Medium>)
    ensures
        forall|i: int|
            0 <= i < media.len() ==> (#[trigger] output_place(media, i) < 0 <==> media[i] is Other),
        forall|i: int, j: int|
            0 <= i < j < media.len() && !(media[i] is Other) && !(media[j] is Other)
                ==> #[trigger] output_place(media, i) < #[trigger] output_place(media, j),
        forall|i: int|
            0 <= i < media.len() && !(media[i] is Other) ==> #[trigger] output_place(media, i)
                == copied_streams(media.take(i)).len(),
        forall|k: int|
            0 <= k < copied_streams(media).len() ==> #[trigger] place_taken(media, k, media.len()),
{
    lemma_copied(media, media.len());
    assert(media.take(media.len() as int) =~= media);
    assert forall|i: int| 0 <= i < media.len() && !(media[i] is Other) implies 0
        <= #[trigger] output_place(media, i) && output_place(media, i) == copied_streams(
        media.take(i),
    ).len() by {
        lemma_copied(media, i as nat);
    }
    assert forall|i: int, j: int|
        0 <= i < j < media.len() && !(media[i] is Other) && !(media[j] is Other) implies
        #[trigger] output_place(media, i) < #[trigger] output_place(media, j) by {
        lemma_copied(media, j as nat);
    }
}

/// The places of streams in the output: those of audio, video and subtitles are kept in order.
pub fn map_streams(media: &[Medium]) -> (r: Vec<isize>)
    requires
        media@.len() <= isize::MAX,
    ensures
        r@.len() == media@.len(),
        forall|i: int| 0 <= i < r@.len() ==> #[trigger] r@[i] == output_place(media@, i),
        forall|i: int| 0 <= i < r@.len() ==> (#[trigger] r@[i] < 0 <==> media@[i] is Other),
        forall|i: int|
            0 <= i < r@.len() && !(media@[i] is Other) ==> #[trigger] r@[i] == copied_streams(
                media@.take(i),
            ).len(),
{
    proof {
        law_streams_placed(media@);
    }
    let mut mapping: Vec<isize> = Vec::with_capacity(media.len());
    let mut next: isize = 0;
    let mut i: usize = 0;
    while i < media.len()
        invariant
            media@.len() <= isize::MAX,
            i <= media@.len(),
            mapping@.len() == i,
            next == kept_before(media@, i as nat),
            forall|j: int| 0 <= j < i ==> #[trigger] mapping@[j] == output_place(media@, j),
        decreases media@.len() - i,
    {
        proof {
            lemma_kept(media@, i as nat);
        }
        match media[i] {
            Medium::Other => {
                mapping.push(-1);
            },
            _ => {
                mapping.push(next);
                next = next + 1;
            },
        }
        i = i + 1;
    }
    mapping
}

/// How a packet's buffer is made to hold other bytes.
#[derive(Debug, Clone, Copy, PartialEq, Eq, Structural)]
pub enum Resize {
    Grow { by: usize },
    Shrink { to: usize },
    Keep,
}

/// How a buffer of `size` bytes is made to hold `len` bytes.
pub fn resize_for(len: usize, size: usize) -> (r: Resize)
    ensures
        match r {
            Resize::Grow { by } => len > size && size + by == len,
            Resize::Shrink { to } => len < size && to == len,
            Resize::Keep => len == size,
        },
{
    if len > size {
        Resize::Grow { by: len - size }
    } else if len < size {
        Resize::Shrink { to: len }
    } else {
        Resize::Keep
    }
}

/// Where the packets of a stream go, if anywhere.
pub fn output_stream(mapping: &[isize], stream_index: usize) -> (r: Option<usize>)
    requires
        stream_index < mapping@.len(),
    ensures
        match r {
            Some(place) => mapping@[stream_index as int] == place,
            None => mapping@[stream_index as int] < 0,
        },
{
    let place: isize = mapping[stream_index];
    if place < 0 {
        None
    } else {
        Some(place as usize)
    }
}

/// A packet that goes into the output.
#[derive(Debug)]
pub struct OutputPacket {
    /// The packet that it comes from.
    pub source: usize,
    /// The stream of the output that it goes to.
    pub stream_index: usize,
    /// Its bytes, where they are others than those it had.
    pub data: Option<Vec<u8>>,
}

/// A packet that goes into the output, as specifications see it.
#[verifier::ext_equal]
pub struct OutputModel {
    pub source: int,
    pub stream_index: int,
    pub data: Option<Seq<u8>>,
}

impl View for OutputPacket {
    type V = OutputModel;

    open spec fn view(&self) -> OutputModel {
        OutputModel {
            source: self.source as int,
            stream_index: self.stream_index as int,
            data: bytes_view(&self.data),
        }
    }
}

/// The output, as specifications see it.
pub open spec fn output_view(output: Seq<OutputPacket>) -> Seq<OutputModel> {
    output.map_values(|packet: OutputPacket| packet@)
}

/// What a request to edit a stream says.
pub struct Request {
    pub packets: Seq<PacketModel>,
    pub stream: VideoStream,
    pub timestamps: Seq<Option<u64>>,
    pub segments: Option<Seq<SegmentModel>>,
    pub replace: bool,
}

impl Request {
    /// The number of frames in the first `n` packets.
    pub open spec fn frames_before(self, n: nat) -> nat
        decreases n,
    {
        if n == 0 {
            0
        } else {
            self.frames_before((n - 1) as nat) + if is_frame(
                self.packets[n - 1],
                self.stream.index,
            ) {
                1nat
            } else {
                0nat
            }
        }
    }

    /// The grain that is to be put into the packet at `i`.
    pub open spec fn grain(self, i: int) -> Option<GrainModel> {
        wanted_grain(
            self.packets[i],
            self.frames_before(i as nat) as int,
            self.timestamps,
            self.segments,
            self.stream,
        )
    }

    /// What the packet at `i` of the video stream becomes.
    pub open spec fn edited(self, i: int) -> Result<Seq<u8>, Error> {
        modified(
            self.packets[i].data->0,
            self.grain(i),
            self.replace,
            self.stream.details.width as int,
            self.stream.details.height as int,
            self.stream.details.chroma_sampling,
        )
    }

    /// Why the packet at `i` cannot be edited.
    pub open spec fn fault(self, i: int) -> Option<Error> {
        if is_video(self.packets[i], self.stream.index) {
            match self.edited(i) {
                Ok(_) => None,
                Err(e) => Some(e),
            }
        } else {
            None
        }
    }

    /// The bytes of the packet at `i`, where they are others than those it had.
    pub open spec fn new_data(self, i: int) -> Option<Seq<u8>> {
        if is_video(self.packets[i], self.stream.index) {
            Some(self.edited(i)->Ok_0)
        } else {
            None
        }
    }

    /// What the first `n` packets become.
    pub open spec fn output(self, media: Seq<Medium>, n: nat) -> Seq<OutputModel>
        decreases n,
    {
        if n == 0 {
            Seq::empty()
        } else {
            let sofar = self.output(media, (n - 1) as nat);
            let place = output_place(media, self.packets[n - 1].stream_index as int);
            if place < 0 {
                sofar
            } else {
                sofar.push(
                    OutputModel { source: n - 1, stream_index: place, data: self.new_data(n - 1) },
                )
            }
        }
    }

    /// The packets of all batches in front of the one that the packet at `i` is in can be edited,
    /// so that this one is looked at too.
    pub open spec fn reached(self, i: int) -> bool {
        forall|j: int|
            0 <= j < i - i % HEVC_PACKET_BATCH as int ==> (#[trigger] self.fault(j)) is None
    }

    /// Every packet that is looked at can be edited without running into limits.
    pub open spec fn feasible(self) -> bool {
        &&& self.packets.len() <= usize::MAX
        &&& forall|i: int|
            0 <= i < self.packets.len() && is_video(self.packets[i], self.stream.index)
                && self.reached(i) ==> {
                &&& modifiable(
                    (#[trigger] self.packets[i]).data->0,
                    self.grain(i),
                    self.replace,
                    self.stream.details.width as int,
                    self.stream.details.height as int,
                    self.stream.details.chroma_sampling,
                )
                &&& is_frame(self.packets[i], self.stream.index) ==> edit_time_fits(
                    self.timestamps,
                    self.frames_before(i as nat) as int,
                    self.packets[i],
                    self.stream,
                )
            }
    }
}

/// There are no more frames than packets.
proof fn lemma_frames(request: Request, n: nat)
    ensures
        request.frames_before(n) <= n,
    decreases n,
{
    if n > 0 {
        lemma_frames(request, (n - 1) as nat);
    }
}

/// Edits the packets of a stream; where streams are left out, so are their packets. Packets are
/// edited batch by batch, whatever stream they are of, and what is wrong with one is said of the
/// first batch that holds such a packet.
pub fn edit_packets(
    packets: &[DemuxedPacket],
    media: &[Medium],
    stream: &VideoStream,
    timestamps: Vec<Option<u64>>,
    segments: Option<&[GrainTableSegment]>,
    replace: bool,
) -> (r: Result<Vec<OutputPacket>, Error>)
    requires
        media@.len() <= isize::MAX,
        forall|i: int|
            0 <= i < packets@.len() ==> (#[trigger] packets@[i]@).stream_index < media@.len(),
        (Request {
            packets: packets_view(packets@),
            stream: *stream,
            timestamps: timestamps@,
            segments: segments_view(segments),
            replace,
        }).feasible(),
    ensures
        ({
            let request = Request {
                packets: packets_view(packets@),
                stream: *stream,
                timestamps: timestamps@,
                segments: segments_view(segments),
                replace,
            };
            match r {
                Ok(output) => {
                    &&& forall|i: int|
                        0 <= i < packets@.len() ==> (#[trigger] request.fault(i)) is None
                    &&& output_view(output@) == request.output(media@, packets@.len())
                },
                Err(e) => exists|i: int|
                    0 <= i < packets@.len() && (#[trigger] request.fault(i)) == Some(e)
                        && request.reached(i),
            }
        }),
{
    let ghost request = Request {
        packets: packets_view(packets@),
        stream: *stream,
        timestamps: timestamps@,
        segments: segments_view(segments),
        replace,
    };
    let mapping: Vec<isize> = map_streams(media);
    let mut editor: GrainEditor<'_> = GrainEditor::new(*stream, timestamps, segments, replace);
    let mut output: Vec<OutputPacket> = Vec::new();
    let mut i: usize = 0;
    assert(output_view(output@) =~= Seq::empty());
    while i < packets.len()
        invariant
            forall|j: int|
                0 <= j < packets@.len() ==> (#[trigger] packets@[j]@).stream_index < media@.len(),
            request.packets == packets_view(packets@),
            request.timestamps == timestamps@,
            request.stream == *stream,
            request.segments == segments_view(segments),
            request.replace == replace,
            request.feasible(),
            mapping@.len() == media@.len(),
            forall|j: int|
                0 <= j < mapping@.len() ==> #[trigger] mapping@[j] == output_place(media@, j),
            editor.stream == *stream,
            editor.timestamps@ == request.timestamps,
            editor.segments == segments,
            editor.replace == replace,
            editor.frames == request.frames_before(i as nat),
            i <= packets@.len(),
            forall|j: int| 0 <= j < i ==> (#[trigger] request.fault(j)) is None,
            output_view(output@) == request.output(media@, i as nat),
        decreases packets@.len() - i,
    {
        let packet: &DemuxedPacket = &packets[i];
        proof {
            assert(request.packets[i as int] == packet@);
            assert(packets@[i as int]@.stream_index < media@.len());
            lemma_frames(request, i as nat);
            assert(request.reached(i as int));
        }
        let data: Option<Vec<u8>> = match editor.plan(packet) {
            Some(job) => {
                match editor.edit(&job) {
                    Ok(out) => Some(out),
                    Err(e) => {
                        assert(request.fault(i as int) == Some(e));
                        return Err(e);
                    },
                }
            },
            None => None,
        };
        assert(bytes_view(&data) == request.new_data(i as int));
        assert(request.fault(i as int) is None);
        match output_stream(mapping.as_slice(), packet.stream_index) {
            Some(place) => {
                let ghost before = output@;
                output.push(OutputPacket { source: i, stream_index: place, data });
                assert(output_view(output@) =~= output_view(before).push(output@.last()@));
            },
            None => {},
        }
        i = i + 1;
    }
    Ok(output)
}

/// When the frames of a stream are shown, as far as that matters: without grain to put in it
/// does not.
pub open spec fn edit_timestamps(
    packets: Seq<PacketModel>,
    stream: VideoStream,
    segments: Option<Seq<SegmentModel>>,
) -> Result<Seq<Option<u64>>, Error> {
    if segments is None {
        Ok(Seq::empty())
    } else {
        match picture_times(packets, stream.index) {
            Err(e) => Err(e),
            Ok(times) => Ok(presentation_times(times, stream.details.frame_rate)),
        }
    }
}

/// The request to edit a stream, once it is known when its frames are shown.
pub open spec fn request_for(
    packets: Seq<PacketModel>,
    stream: VideoStream,
    segments: Option<Seq<SegmentModel>>,
    replace: bool,
) -> Request {
    Request {
        packets,
        stream,
        timestamps: edit_timestamps(packets, stream, segments)->Ok_0,
        segments,
        replace,
    }
}

/// Takes the grain out of an HEVC stream and, if there is a table, puts in what the table has for
/// each frame.
pub fn modify_hevc_grain(
    packets: &[DemuxedPacket],
    media: &[Medium],
    stream: &VideoStream,
    segments: Option<&[GrainTableSegment]>,
    replace: bool,
) -> (r: Result<Vec<OutputPacket>, Error>)
    requires
        stream.codec is Hevc ==> {
            &&& media@.len() <= isize::MAX
            &&& forall|i: int|
                0 <= i < packets@.len() ==> (#[trigger] packets@[i]@).stream_index < media@.len()
            &&& segments is Some ==> forall|i: int|
                0 <= i < packets@.len() && is_video(packets@[i]@, stream.index) ==> (
                #[trigger] packets@[i]@).data->0.len() + 4 <= usize::MAX
            &&& edit_timestamps(packets_view(packets@), *stream, segments_view(segments)) is Ok
                ==> request_for(
                packets_view(packets@),
                *stream,
                segments_view(segments),
                replace,
            ).feasible()
        },
    ensures
        ({
            let all = packets_view(packets@);
            let request = request_for(all, *stream, segments_view(segments), replace);
            match r {
                Ok(output) => {
                    &&& stream.codec is Hevc
                    &&& edit_timestamps(all, *stream, segments_view(segments)) is Ok
                    &&& forall|i: int|
                        0 <= i < packets@.len() ==> (#[trigger] request.fault(i)) is None
                    &&& output_view(output@) == request.output(media@, packets@.len())
                },
                Err(e) => if stream.codec is Other {
                    e == Error::NotHevc
                } else if edit_timestamps(all, *stream, segments_view(segments)) is Err {
                    edit_timestamps(all, *stream, segments_view(segments)) == Err::<
                        Seq<Option<u64>>,
                        Error,
                    >(e)
                } else {
                    exists|i: int|
                        0 <= i < packets@.len() && (#[trigger] request.fault(i)) == Some(e)
                            && request.reached(i)
                },
            }
        }),
{
    match ensure_hevc(stream.codec) {
        Ok(()) => {},
        Err(e) => {
            return Err(e);
        },
    }
    let timestamps: Vec<Option<u64>> = if segments.is_some() {
        match presentation_timestamps_by_decode_index(packets, stream) {
            Ok(timestamps) => timestamps,
            Err(e) => {
                return Err(e);
            },
        }
    } else {
        Vec::new()
    };
    edit_packets(packets, media, stream, timestamps, segments, replace)
}

/// Law: specifications see every part of the output as it is, in its order.
pub proof fn law_output_seen(output: Seq<OutputPacket>, i: int)
    requires
        0 <= i < output.len(),
    ensures
        output_view(output).len() == output.len(),
        ({
            let seen = output_view(output)[i];
            &&& seen.source == output[i].source
            &&& seen.stream_index == output[i].stream_index
            &&& match (seen.data, output[i].data) {
                (Some(bytes), Some(data)) => bytes == data@,
                (None, None) => true,
                _ => false,
            }
        }),
{
}

} // verus!
