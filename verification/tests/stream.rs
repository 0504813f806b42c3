use arrayvec::ArrayVec;
use hevc_grain::edit::{
    map_streams, modify_hevc_grain, output_stream, presentation_timestamps,
    presentation_timestamps_by_decode_index, resize_for, GrainEditor, Medium, OutputPacket, Resize,
};
use hevc_grain::error::Error;
use hevc_grain::grain::{FilmGrainParams, GrainTableSegment};
use hevc_grain::inspect::{inspect_hevc_grain_table, GrainInspector};
use hevc_grain::nal::PacketFormat;
use hevc_grain::packet::{build_afgs1_nal, parse_packet_afgs1_params};
use hevc_grain::stream::{has_hevc_grain, DemuxedPacket, PacketBatch, VideoStream, HEVC_PACKET_BATCH};
use hevc_grain::timing::{FrameRate, TimeBase};
use hevc_grain::video::{ensure_hevc, ChromaSubsampling, VideoCodec, VideoDetails};

fn plain() -> FilmGrainParams {
    FilmGrainParams {
        grain_seed: 0x1234,
        scaling_points_y: ArrayVec::new(),
        scaling_points_cb: ArrayVec::new(),
        scaling_points_cr: ArrayVec::new(),
        scaling_shift: 8,
        ar_coeff_lag: 0,
        ar_coeffs_y: ArrayVec::new(),
        ar_coeffs_cb: ArrayVec::new(),
        ar_coeffs_cr: ArrayVec::new(),
        ar_coeff_shift: 6,
        cb_mult: 0,
        cb_luma_mult: 0,
        cb_offset: 0,
        cr_mult: 0,
        cr_luma_mult: 0,
        cr_offset: 0,
        chroma_scaling_from_luma: false,
        grain_scale_shift: 0,
        overlap_flag: true,
        clip_to_restricted_range: false,
    }
}

fn seeded(seed: u16) -> FilmGrainParams {
    FilmGrainParams {
        grain_seed: seed,
        ..plain()
    }
}

const END: u64 = i64::MAX as u64;
const VIDEO: usize = 1;
const MEDIA: [Medium; 3] = [Medium::Other, Medium::Video, Medium::Audio];

fn stream() -> VideoStream {
    VideoStream {
        codec: VideoCodec::Hevc,
        index: VIDEO,
        time_base: TimeBase { num: 1, den: 10 },
        details: VideoDetails {
            width: 1920,
            height: 1080,
            bit_depth: 8,
            chroma_sampling: ChromaSubsampling::Yuv420,
            frame_rate: FrameRate::new(10, 1),
        },
    }
}

fn picture() -> Vec<u8> {
    vec![0, 0, 0, 3, 0x02, 1, 8]
}

fn grained(seed: u16) -> Vec<u8> {
    let format = PacketFormat::LengthPrefixed { length_size: 4 };
    let mut data =
        build_afgs1_nal(&seeded(seed), format, 1920, 1080, ChromaSubsampling::Yuv420).unwrap();
    data.extend(picture());
    data
}

fn video(data: Vec<u8>, pts: Option<i64>) -> DemuxedPacket {
    DemuxedPacket { stream_index: VIDEO, data: Some(data), pts }
}

fn audio(data: Vec<u8>) -> DemuxedPacket {
    DemuxedPacket { stream_index: 2, data: Some(data), pts: None }
}

fn segment(start_time: u64, end_time: u64, seed: u16) -> GrainTableSegment {
    GrainTableSegment { start_time, end_time, grain_params: seeded(seed) }
}

fn summary(table: &[GrainTableSegment]) -> Vec<(u64, u64, u16)> {
    table
        .iter()
        .map(|s| (s.start_time, s.end_time, s.grain_params.grain_seed))
        .collect()
}

fn seed_of(data: &[u8]) -> Option<u16> {
    parse_packet_afgs1_params(data).unwrap().map(|p| p.grain_seed)
}

#[test]
fn only_hevc_is_accepted() {
    assert_eq!(ensure_hevc(VideoCodec::Hevc), Ok(()));
    assert_eq!(ensure_hevc(VideoCodec::Other), Err(Error::NotHevc));
    let other = VideoStream { codec: VideoCodec::Other, ..stream() };
    assert_eq!(has_hevc_grain(&[], &other), Err(Error::NotHevc));
    assert_eq!(inspect_hevc_grain_table(&[], &other).err(), Some(Error::NotHevc));
    assert_eq!(
        modify_hevc_grain(&[], &MEDIA, &other, None, false).err(),
        Some(Error::NotHevc)
    );
}

#[test]
fn grain_is_found_in_the_video_stream_only() {
    let packets = vec![video(picture(), None), audio(grained(1))];
    assert_eq!(has_hevc_grain(&packets, &stream()), Ok(false));
    let packets = vec![audio(vec![1]), video(picture(), None), video(grained(1), None)];
    assert_eq!(has_hevc_grain(&packets, &stream()), Ok(true));
    assert_eq!(has_hevc_grain(&[], &stream()), Ok(false));
}

#[test]
fn packets_behind_the_first_batch_with_grain_are_not_looked_at() {
    let mut packets: Vec<DemuxedPacket> =
        (0..HEVC_PACKET_BATCH).map(|_| video(picture(), None)).collect();
    packets[7] = video(grained(1), None);
    packets.push(video(vec![1], None));
    assert_eq!(has_hevc_grain(&packets, &stream()), Ok(true));
    packets[7] = video(picture(), None);
    assert_eq!(has_hevc_grain(&packets, &stream()), Err(Error::IncompleteNalLength));
    packets[7] = video(vec![2], None);
    packets[8] = video(grained(1), None);
    assert_eq!(has_hevc_grain(&packets, &stream()), Err(Error::IncompleteNalLength));
}

fn unreadable() -> Vec<u8> {
    let mut data = vec![0, 0, 1, 4, 0x4e, 1];
    data.resize(4 + 260, 0);
    data
}

#[test]
fn packets_that_are_not_looked_at_need_not_be_readable() {
    let packet = video(unreadable(), Some(0));
    let one = std::slice::from_ref(&packet);
    let other = VideoStream { codec: VideoCodec::Other, ..stream() };
    assert_eq!(has_hevc_grain(one, &other), Err(Error::NotHevc));
    assert_eq!(inspect_hevc_grain_table(one, &other).err(), Some(Error::NotHevc));
    assert_eq!(modify_hevc_grain(one, &[], &other, None, false).err(), Some(Error::NotHevc));
    assert_eq!(
        presentation_timestamps_by_decode_index(one, &other),
        Err(Error::NotHevc)
    );
    let mut packets: Vec<DemuxedPacket> =
        (0..HEVC_PACKET_BATCH).map(|_| video(grained(1), None)).collect();
    packets.push(packet);
    assert_eq!(has_hevc_grain(&packets, &stream()), Ok(true));
}

#[test]
fn batches_say_when_they_are_complete() {
    let mut batch = PacketBatch::new();
    for i in 1..=HEVC_PACKET_BATCH {
        assert_eq!(batch.add_packet(&[1]), i == HEVC_PACKET_BATCH);
    }
    batch.clear();
    assert!(batch.packets.is_empty());
}

#[test]
fn frames_are_inspected_in_the_order_in_which_they_are_shown() {
    let packets = vec![
        video(grained(1), Some(0)),
        video(grained(3), Some(3)),
        audio(vec![1]),
        video(grained(1), Some(1)),
        video(vec![0, 0, 0, 3, 0x40, 1, 5], Some(9)),
        video(grained(2), Some(2)),
        DemuxedPacket { stream_index: VIDEO, data: None, pts: None },
    ];
    let table = inspect_hevc_grain_table(&packets, &stream()).unwrap();
    assert_eq!(
        summary(&table),
        vec![(0, 2_000_000, 1), (2_000_000, 3_000_000, 2), (3_000_000, END, 3)]
    );
}

#[test]
fn frames_without_times_stay_in_the_order_of_decoding() {
    let packets = vec![video(grained(1), None), video(picture(), None), video(grained(2), None)];
    let table = inspect_hevc_grain_table(&packets, &stream()).unwrap();
    assert_eq!(summary(&table), vec![(0, 1_000_000, 1), (2_000_000, END, 2)]);
}

#[test]
fn frames_without_a_time_come_first_where_others_have_one() {
    let packets = vec![video(grained(1), Some(4)), video(grained(2), None), video(grained(3), Some(0))];
    let table = inspect_hevc_grain_table(&packets, &stream()).unwrap();
    assert_eq!(
        summary(&table),
        vec![(0, 1_000_000, 2), (1_000_000, 2_000_000, 3), (2_000_000, END, 1)]
    );
}

#[test]
fn long_streams_are_inspected_batch_by_batch() {
    let packets: Vec<DemuxedPacket> = (0..600)
        .map(|i| video(grained(if i < 300 { 1 } else { 2 }), Some(i)))
        .collect();
    let table = inspect_hevc_grain_table(&packets, &stream()).unwrap();
    assert_eq!(summary(&table), vec![(0, 300_000_000, 1), (300_000_000, END, 2)]);
}

#[test]
fn a_stream_with_a_broken_packet_is_not_inspected() {
    let packets = vec![video(grained(1), Some(0)), video(vec![1], Some(1))];
    assert_eq!(
        inspect_hevc_grain_table(&packets, &stream()).err(),
        Some(Error::IncompleteNalLength)
    );
}

fn ungrained() -> Vec<u8> {
    let mut data = vec![0, 0, 0, 14, 0x4e, 1, 4, 9];
    data.extend([0xb5, 0x58, 0x90, 0x01, 0x81, 0xff, 0xff, 0xff, 0xff, 0x80]);
    data.extend(picture());
    data
}

#[test]
fn a_packet_that_cannot_be_taken_apart_is_told_of_before_its_batch_is_parsed() {
    let grain = Some(Error::MultipleGrainSets);
    let split = Some(Error::IncompleteNalLength);
    let mut packets = vec![video(ungrained(), None), video(vec![1], None)];
    assert_eq!(inspect_hevc_grain_table(&packets, &stream()).err(), split);
    packets.pop();
    assert_eq!(inspect_hevc_grain_table(&packets, &stream()).err(), grain);
    for _ in 1..HEVC_PACKET_BATCH {
        packets.push(video(picture(), None));
    }
    packets.push(video(vec![1], None));
    assert_eq!(inspect_hevc_grain_table(&packets, &stream()).err(), grain);
    packets[0] = video(picture(), None);
    assert_eq!(inspect_hevc_grain_table(&packets, &stream()).err(), split);
}

#[test]
fn the_first_batch_with_a_packet_that_cannot_be_edited_is_told_of() {
    let table = [segment(0, END, 9)];
    let mut packets = vec![video(grained(1), None)];
    for _ in 1..HEVC_PACKET_BATCH {
        packets.push(audio(vec![1]));
    }
    packets.push(video(vec![1], None));
    assert_eq!(
        modify_hevc_grain(&packets, &MEDIA, &stream(), None, false).err(),
        Some(Error::IncompleteNalLength)
    );
    packets.pop();
    packets.push(video(grained(1), None));
    assert_eq!(
        modify_hevc_grain(&packets, &MEDIA, &stream(), Some(&table), false).err(),
        Some(Error::GrainExists)
    );
    let mut small = stream();
    small.details.width = 0;
    packets[0] = video(picture(), None);
    assert_eq!(
        modify_hevc_grain(&packets, &MEDIA, &small, Some(&table), false).err(),
        Some(Error::ZeroSizedPicture)
    );
}

#[test]
fn an_inspector_takes_packets_one_by_one() {
    let mut inspector = GrainInspector::new();
    let base = TimeBase { num: 1, den: 10 };
    assert_eq!(inspector.accept(&picture(), Some(1), base), Ok(false));
    assert_eq!(inspector.accept(&[0, 0, 0, 3, 0x40, 1, 5], Some(9), base), Ok(false));
    assert_eq!(inspector.accept(&picture(), Some(0), base), Ok(false));
    assert_eq!(inspector.accept(&[1], None, base), Err(Error::IncompleteNalLength));
    assert_eq!(inspector.batch.len(), 2);
    inspector.absorb(&[Some(seeded(7)), None]);
    assert!(inspector.batch.is_empty());
    assert!(inspector.can_accept(&picture(), Some(1), base));
    assert!(!inspector.can_accept(&picture(), Some(i64::MAX), base));
    assert!(inspector.can_accept(&[1], Some(i64::MAX), base));
    assert_eq!(summary(&inspector.finish(FrameRate::new(10, 1))), vec![(1_000_000, END, 7)]);
}

#[test]
fn presentation_times_follow_the_timestamps() {
    let rate = FrameRate::new(10, 1);
    assert_eq!(
        presentation_timestamps(&vec![Some(40), Some(-3), Some(40), Some(7)], rate),
        vec![Some(2_000_000), Some(0), Some(3_000_000), Some(1_000_000)]
    );
    assert_eq!(presentation_timestamps(&vec![Some(40), None], rate), vec![None, None]);
    let packets = vec![video(picture(), Some(5)), audio(vec![1]), video(picture(), Some(2))];
    assert_eq!(
        presentation_timestamps_by_decode_index(&packets, &stream()),
        Ok(vec![Some(1_000_000), Some(0)])
    );
    let broken = vec![video(vec![1], None), video(vec![0, 0, 0, 0], None)];
    assert_eq!(
        presentation_timestamps_by_decode_index(&broken, &stream()),
        Err(Error::IncompleteNalLength)
    );
}

#[test]
fn each_frame_gets_the_grain_of_its_time() {
    let packets = vec![
        video(picture(), Some(0)),
        video(picture(), Some(30)),
        audio(vec![1]),
        video(picture(), Some(10)),
        DemuxedPacket { stream_index: 0, data: Some(vec![3]), pts: None },
    ];
    let table = vec![segment(0, 1_000_000, 1), segment(2_000_000, 3_000_000, 2)];
    let output = modify_hevc_grain(&packets, &MEDIA, &stream(), Some(&table), false).unwrap();
    let places: Vec<(usize, usize)> = output.iter().map(|p| (p.source, p.stream_index)).collect();
    assert_eq!(places, vec![(0, 0), (1, 0), (2, 1), (3, 0)]);
    assert_eq!(seed_of(output[0].data.as_ref().unwrap()), Some(1));
    assert_eq!(seed_of(output[1].data.as_ref().unwrap()), Some(2));
    assert!(output[2].data.is_none());
    assert_eq!(output[3].data, Some(picture()));
}

fn again(packets: &[DemuxedPacket], output: &[OutputPacket]) -> Vec<DemuxedPacket> {
    output
        .iter()
        .map(|p| DemuxedPacket {
            stream_index: packets[p.source].stream_index,
            data: p.data.clone().or_else(|| packets[p.source].data.clone()),
            pts: packets[p.source].pts,
        })
        .collect()
}

#[test]
fn inspection_finds_what_was_put_in() {
    let packets = vec![
        video(grained(9), Some(0)),
        video(picture(), Some(2)),
        video(picture(), Some(1)),
        video(picture(), Some(3)),
    ];
    let table = vec![segment(0, 2_000_000, 1), segment(3_000_000, END, 2)];
    let output = modify_hevc_grain(&packets, &MEDIA, &stream(), Some(&table), true).unwrap();
    let edited = again(&packets, &output);
    let found = inspect_hevc_grain_table(&edited, &stream()).unwrap();
    assert_eq!(summary(&found), summary(&table));
    assert_eq!(has_hevc_grain(&edited, &stream()), Ok(true));
    let output = modify_hevc_grain(&edited, &MEDIA, &stream(), None, false).unwrap();
    let stripped = again(&edited, &output);
    assert_eq!(has_hevc_grain(&stripped, &stream()), Ok(false));
    assert!(stripped.iter().all(|p| p.data == Some(picture())));
}

#[test]
fn grain_that_is_there_is_kept_from_being_overwritten() {
    let packets = vec![video(grained(9), Some(0))];
    let table = vec![segment(0, END, 1)];
    assert_eq!(
        modify_hevc_grain(&packets, &MEDIA, &stream(), Some(&table), false).err(),
        Some(Error::GrainExists)
    );
}

#[test]
fn frames_without_known_times_go_by_their_own_timestamps() {
    let packets = vec![video(picture(), Some(5)), video(picture(), None)];
    let table = vec![segment(0, 1, 1), segment(5_000_000, 5_000_001, 2)];
    let output = modify_hevc_grain(&packets, &MEDIA, &stream(), Some(&table), false).unwrap();
    assert_eq!(seed_of(output[0].data.as_ref().unwrap()), Some(2));
    assert_eq!(seed_of(output[1].data.as_ref().unwrap()), Some(1));
}

#[test]
fn a_broken_packet_stops_the_edit() {
    let packets = vec![video(picture(), Some(0)), video(vec![1], Some(1))];
    let error = Error::IncompleteNalLength;
    assert_eq!(modify_hevc_grain(&packets, &MEDIA, &stream(), None, false).err(), Some(error));
    assert_eq!(modify_hevc_grain(&packets, &MEDIA, &stream(), Some(&[]), false).err(), Some(error));
}

#[test]
fn an_editor_takes_packets_one_by_one() {
    let table = vec![segment(0, 1, 1), segment(1, END, 2)];
    let mut editor = GrainEditor::new(stream(), vec![Some(0), None], Some(&table), false);
    assert!(editor.plan(&audio(vec![1])).is_none());
    let job = editor.plan(&video(picture(), Some(9))).unwrap();
    assert_eq!(seed_of(&editor.edit(&job).unwrap()), Some(1));
    assert!(!editor.can_plan(&video(picture(), Some(i64::MAX))));
    assert!(editor.can_plan(&video(picture(), Some(9))));
    let job = editor.plan(&video(picture(), Some(9))).unwrap();
    assert_eq!(seed_of(&editor.edit(&job).unwrap()), Some(2));
    let job = editor.plan(&video(vec![0, 0, 0, 3, 0x40, 1, 5], None)).unwrap();
    assert!(job.params.is_none());
    assert_eq!(editor.frames, 2);
}

#[test]
fn streams_of_other_kinds_are_left_out() {
    let media = [Medium::Video, Medium::Other, Medium::Subtitle, Medium::Audio];
    let mapping = map_streams(&media);
    assert_eq!(mapping, vec![0, -1, 1, 2]);
    assert_eq!(output_stream(&mapping, 1), None);
    assert_eq!(output_stream(&mapping, 3), Some(2));
}

#[test]
fn buffers_are_resized_as_needed() {
    assert_eq!(resize_for(10, 7), Resize::Grow { by: 3 });
    assert_eq!(resize_for(7, 10), Resize::Shrink { to: 7 });
    assert_eq!(resize_for(7, 7), Resize::Keep);
}
