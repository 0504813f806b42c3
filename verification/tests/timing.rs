use hevc_grain::timing::{
    ffmpeg_pts_to_grain_ts, frame_index_to_grain_ts, is_frame_rate, is_pts_in_range,
    sorted_places, FrameRate, TimeBase,
};

#[test]
fn frame_index_timestamps_match_x265_aom_floor_mapping() {
    let frame_rate = FrameRate::new(24_000, 1_001);

    assert_eq!(frame_index_to_grain_ts(27, frame_rate), 11_261_250);
    assert_eq!(frame_index_to_grain_ts(28, frame_rate), 11_678_333);
}

#[test]
fn frame_rates_are_kept_in_lowest_terms() {
    assert_eq!(FrameRate::new(50, 2), FrameRate { numer: 25, denom: 1 });
    assert_eq!(FrameRate::new(-30, -4), FrameRate { numer: 15, denom: 2 });
    assert_eq!(FrameRate::new(6, -4), FrameRate { numer: -3, denom: 2 });
    assert_eq!(FrameRate::new(0, -7), FrameRate { numer: 0, denom: 1 });
    assert_eq!(FrameRate::new(i32::MIN, i32::MIN), FrameRate { numer: 1, denom: 1 });
    assert_eq!(FrameRate::new(2, i32::MIN), FrameRate { numer: -1, denom: 1 << 30 });
}

#[test]
fn fractions_without_lowest_terms_are_told_apart() {
    assert!(is_frame_rate(24_000, 1_001));
    assert!(!is_frame_rate(1, 0));
    assert!(!is_frame_rate(1, i32::MIN));
    assert!(is_frame_rate(2, i32::MIN));
    assert!(!is_frame_rate(i32::MIN, -1));
    assert!(is_frame_rate(i32::MIN, -2));
    assert!(is_frame_rate(i32::MIN, 1));
}

#[test]
fn without_a_frame_rate_there_is_no_time() {
    assert_eq!(frame_index_to_grain_ts(5, FrameRate { numer: 0, denom: 1 }), 0);
    assert_eq!(frame_index_to_grain_ts(5, FrameRate { numer: -1, denom: 1 }), 0);
    assert_eq!(frame_index_to_grain_ts(5, FrameRate { numer: 1, denom: 0 }), 0);
}

#[test]
fn frames_advance() {
    let rate = FrameRate::new(60_000, 1_001);
    let mut last = frame_index_to_grain_ts(0, rate);
    assert_eq!(last, 0);
    for i in 1..100 {
        let next = frame_index_to_grain_ts(i, rate);
        assert!(last < next);
        last = next;
    }
}

#[test]
fn packet_times_are_rounded_up() {
    let base = TimeBase { num: 1, den: 90_000 };
    assert_eq!(ffmpeg_pts_to_grain_ts(1, base), 112);
    assert_eq!(ffmpeg_pts_to_grain_ts(9, base), 1_000);
    assert_eq!(ffmpeg_pts_to_grain_ts(0, base), 0);
    assert_eq!(ffmpeg_pts_to_grain_ts(-5, base), 0);
    assert_eq!(ffmpeg_pts_to_grain_ts(5, TimeBase { num: 1, den: 0 }), 0);
}

#[test]
fn packet_times_out_of_range_are_told_apart() {
    let base = TimeBase { num: 1, den: 1 };
    assert!(is_pts_in_range(1_844_674_407_370, base));
    assert!(!is_pts_in_range(1_844_674_407_371, base));
    assert!(!is_pts_in_range(1, TimeBase { num: -1, den: 1 }));
    assert!(is_pts_in_range(i64::MIN, TimeBase { num: i32::MAX, den: 1 }));
    assert!(is_pts_in_range(i64::MAX, TimeBase { num: 1, den: 0 }));
    assert_eq!(ffmpeg_pts_to_grain_ts(0, TimeBase { num: -1, den: -1 }), 0);
}

#[test]
fn places_are_ordered_by_key_and_then_by_place() {
    assert_eq!(sorted_places(&vec![5, -1, 5, 0, -1]), vec![1, 4, 3, 0, 2]);
    assert_eq!(sorted_places(&Vec::new()), Vec::<usize>::new());
}
