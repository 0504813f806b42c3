use arrayvec::ArrayVec;
use hevc_grain::grain::{FilmGrainParams, GrainTableSegment};
use hevc_grain::table::{aggregate_hevc_grain, segment_for_ts};
use hevc_grain::timing::{frame_index_to_grain_ts, FrameRate};

fn plain() -> FilmGrainParams {
    FilmGrainParams {
        grain_seed: 0x1234,
        scaling_points_y: ArrayVec::new(),
        scaling_points_cb: ArrayVec::new(),
        scaling_points_cr: ArrayVec::new(),
        scaling_shift: 8,
        ar_coeff_lag: 0,
        ar_coeffs_y: ArrayVec::new(),
        ar_coeffs_cb: ArrayVec::new(),
        ar_coeffs_cr: ArrayVec::new(),
        ar_coeff_shift: 6,
        cb_mult: 0,
        cb_luma_mult: 0,
        cb_offset: 0,
        cr_mult: 0,
        cr_luma_mult: 0,
        cr_offset: 0,
        chroma_scaling_from_luma: false,
        grain_scale_shift: 0,
        overlap_flag: true,
        clip_to_restricted_range: false,
    }
}

fn seeded(seed: u16) -> FilmGrainParams {
    FilmGrainParams {
        grain_seed: seed,
        ..plain()
    }
}

fn summary(table: &[GrainTableSegment]) -> Vec<(u64, u64, u16)> {
    table
        .iter()
        .map(|s| (s.start_time, s.end_time, s.grain_params.grain_seed))
        .collect()
}

const END: u64 = i64::MAX as u64;

#[test]
fn frames_with_the_same_grain_share_a_segment() {
    let rate = FrameRate::new(10, 1);
    let frames = vec![
        Some(seeded(1)),
        Some(seeded(1)),
        None,
        Some(seeded(1)),
        Some(seeded(2)),
        None,
    ];
    let table = aggregate_hevc_grain(&frames, rate);
    assert_eq!(
        summary(&table),
        vec![(0, 2_000_000, 1), (3_000_000, 4_000_000, 1), (4_000_000, END, 2)]
    );
}

#[test]
fn a_stream_without_grain_has_an_empty_table() {
    let rate = FrameRate::new(25, 1);
    assert!(aggregate_hevc_grain(&[], rate).is_empty());
    assert!(aggregate_hevc_grain(&[None, None], rate).is_empty());
}

#[test]
fn a_table_gives_back_the_grain_of_every_frame() {
    let rate = FrameRate::new(24_000, 1_001);
    let frames: Vec<Option<FilmGrainParams>> = [Some(1), Some(1), None, Some(2), None, Some(1)]
        .iter()
        .map(|s| s.map(seeded))
        .collect();
    let table = aggregate_hevc_grain(&frames, rate);
    for (i, frame) in frames.iter().enumerate() {
        let ts = frame_index_to_grain_ts(i, rate);
        assert_eq!(segment_for_ts(&table, ts), frame.as_ref());
    }
    for pair in table.windows(2) {
        assert!(pair[0].start_time < pair[0].end_time);
        assert!(pair[0].end_time <= pair[1].start_time);
    }
}

#[test]
fn the_first_segment_that_covers_a_time_counts() {
    let table = vec![
        GrainTableSegment { start_time: 5, end_time: 10, grain_params: seeded(1) },
        GrainTableSegment { start_time: 0, end_time: 20, grain_params: seeded(2) },
    ];
    assert_eq!(segment_for_ts(&table, 5).unwrap().grain_seed, 1);
    assert_eq!(segment_for_ts(&table, 10).unwrap().grain_seed, 2);
    assert_eq!(segment_for_ts(&table, 20), None);
    assert_eq!(segment_for_ts(&[], 0), None);
}

#[test]
fn without_a_frame_rate_all_grain_is_at_the_start() {
    let rate = FrameRate { numer: 0, denom: 1 };
    let table = aggregate_hevc_grain(&[Some(seeded(1)), Some(seeded(1)), Some(seeded(2))], rate);
    assert_eq!(summary(&table), vec![(0, 0, 1), (0, END, 2)]);
}
