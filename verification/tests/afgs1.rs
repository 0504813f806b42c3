use arrayvec::ArrayVec;
use hevc_grain::afgs1_read::{
    decode_afgs1, parse_afgs1_payload, read_coeffs, read_scaling_points, Fault,
};
use hevc_grain::afgs1_write::{build_afgs1_payload, film_grain_resolution, write_afgs1_params};
use hevc_grain::bits::{BitReader, BitWriter};
use hevc_grain::error::Error;
use hevc_grain::grain::{
    FilmGrainParams, NUM_UV_COEFFS, NUM_UV_POINTS, NUM_Y_COEFFS, NUM_Y_POINTS,
};
use hevc_grain::sei::is_afgs1_payload;
use hevc_grain::video::ChromaSubsampling;

fn points<const N: usize>(list: &[[u8; 2]]) -> ArrayVec<[u8; 2], N> {
    list.iter().copied().collect()
}

fn coeffs<const N: usize>(list: &[i8]) -> ArrayVec<i8, N> {
    list.iter().copied().collect()
}

fn plain() -> FilmGrainParams {
    FilmGrainParams {
        grain_seed: 0x1234,
        scaling_points_y: ArrayVec::new(),
        scaling_points_cb: ArrayVec::new(),
        scaling_points_cr: ArrayVec::new(),
        scaling_shift: 8,
        ar_coeff_lag: 0,
        ar_coeffs_y: ArrayVec::new(),
        ar_coeffs_cb: ArrayVec::new(),
        ar_coeffs_cr: ArrayVec::new(),
        ar_coeff_shift: 6,
        cb_mult: 0,
        cb_luma_mult: 0,
        cb_offset: 0,
        cr_mult: 0,
        cr_luma_mult: 0,
        cr_offset: 0,
        chroma_scaling_from_luma: false,
        grain_scale_shift: 0,
        overlap_flag: true,
        clip_to_restricted_range: false,
    }
}

fn rich() -> FilmGrainParams {
    FilmGrainParams {
        scaling_points_y: points(&[[0, 20], [100, 40], [255, 60]]),
        scaling_points_cb: points(&[[10, 30]]),
        scaling_points_cr: points(&[[20, 31], [30, 32]]),
        scaling_shift: 11,
        ar_coeff_lag: 3,
        ar_coeffs_y: coeffs(&[1, -1, 2, -2]),
        ar_coeffs_cb: coeffs(&[-128, 127]),
        ar_coeffs_cr: coeffs(&[5]),
        ar_coeff_shift: 7,
        cb_mult: 128,
        cb_luma_mult: 192,
        cb_offset: 256,
        cr_mult: 127,
        cr_luma_mult: 191,
        cr_offset: 257,
        grain_scale_shift: 1,
        overlap_flag: false,
        clip_to_restricted_range: true,
        ..plain()
    }
}

fn with_padding(params: &FilmGrainParams) -> FilmGrainParams {
    let mut kept = params.clone();
    if !kept.scaling_points_y.is_empty() {
        while kept.ar_coeffs_y.len() < NUM_Y_COEFFS {
            kept.ar_coeffs_y.push(0);
        }
    }
    if !kept.scaling_points_cb.is_empty() {
        while kept.ar_coeffs_cb.len() < NUM_UV_COEFFS {
            kept.ar_coeffs_cb.push(0);
        }
    }
    if !kept.scaling_points_cr.is_empty() {
        while kept.ar_coeffs_cr.len() < NUM_UV_COEFFS {
            kept.ar_coeffs_cr.push(0);
        }
    }
    kept
}

#[test]
fn capacities_are_those_of_grain_synthesis() {
    assert_eq!(NUM_Y_POINTS, av1_grain::NUM_Y_POINTS);
    assert_eq!(NUM_UV_POINTS, av1_grain::NUM_UV_POINTS);
    assert_eq!(NUM_Y_COEFFS, av1_grain::NUM_Y_COEFFS);
    assert_eq!(NUM_UV_COEFFS, av1_grain::NUM_UV_COEFFS);
}

#[test]
fn a_payload_without_grain_functions_is_short() {
    let payload = build_afgs1_payload(&plain(), 1920, 1080, ChromaSubsampling::Yuv420).unwrap();
    let expected = vec![
        0xb5, 0x58, 0x90, 0x01, 0x80, 0x05, 0x88, 0x91, 0xa4, 0xc3, 0xc0, 0x21,
        0xe0, 0x00, 0x50,
    ];
    assert_eq!(payload, expected);
}

#[test]
fn a_payload_holds_every_part_of_the_grain() {
    let payload = build_afgs1_payload(&rich(), 1920, 1080, ChromaSubsampling::Yuv420).unwrap();
    let expected = vec![
        0xb5, 0x58, 0x90, 0x01, 0x80, 0x36, 0x88, 0x91, 0xa4, 0xc3, 0xc0, 0x21,
        0xd8, 0x7f, 0x00, 0x14, 0x64, 0x28, 0x9b, 0x3c, 0x0f, 0xc0, 0x02, 0x87,
        0x8b, 0xe0, 0x02, 0x83, 0xe1, 0x44, 0x1f, 0xc0, 0xbf, 0xc1, 0x3f, 0x40,
        0x40, 0x40, 0x40, 0x40, 0x40, 0x40, 0x40, 0x40, 0x40, 0x40, 0x40, 0x40,
        0x40, 0x40, 0x40, 0x40, 0x40, 0x40, 0x40, 0x60, 0x1f, 0xf0, 0x10, 0x10,
        0x10, 0x10, 0x10, 0x10, 0x10, 0x10, 0x10, 0x10, 0x10, 0x10, 0x10, 0x10,
        0x10, 0x10, 0x10, 0x10, 0x10, 0x10, 0x10, 0x10, 0x1c, 0x2c, 0x04, 0x04,
        0x04, 0x04, 0x04, 0x04, 0x04, 0x04, 0x04, 0x04, 0x04, 0x04, 0x04, 0x04,
        0x04, 0x04, 0x04, 0x04, 0x04, 0x04, 0x04, 0x04, 0x04, 0x02, 0xc0, 0x60,
        0x40, 0x1f, 0xef, 0xe0, 0x2c,
    ];
    assert_eq!(payload, expected);
}

#[test]
fn a_payload_is_read_as_it_was_written() {
    for params in [plain(), rich()] {
        for sampling in [
            ChromaSubsampling::Yuv420,
            ChromaSubsampling::Yuv422,
            ChromaSubsampling::Yuv444,
        ] {
            let payload = build_afgs1_payload(&params, 640, 362, sampling).unwrap();
            assert!(is_afgs1_payload(&payload));
            let read = parse_afgs1_payload(&payload).unwrap();
            assert_eq!(read, with_padding(&params));
            let again = build_afgs1_payload(&read, 640, 362, sampling).unwrap();
            assert_eq!(parse_afgs1_payload(&again).unwrap(), read);
        }
    }
}

#[test]
fn clones_are_equal_and_changes_show() {
    let params = rich();
    let mut other = params.clone();
    assert_eq!(params, other);
    other.ar_coeffs_cr[0] = 6;
    assert_ne!(params, other);
    let mut shorter = params.clone();
    shorter.scaling_points_cr.pop();
    assert_ne!(params, shorter);
    let mut seeded = params.clone();
    seeded.grain_seed = 1;
    assert_ne!(params, seeded);
}

#[test]
fn what_does_not_fit_is_refused() {
    let yuv = ChromaSubsampling::Yuv420;
    let mut params = rich();
    params.scaling_shift = 12;
    assert_eq!(
        build_afgs1_payload(&params, 16, 16, yuv),
        Err(Error::ValueTooWide { value: 4, bits: 2 })
    );
    params.scaling_shift = 3;
    assert!(build_afgs1_payload(&params, 16, 16, yuv).is_ok());
    params.ar_coeff_lag = 4;
    assert_eq!(
        build_afgs1_payload(&params, 16, 16, yuv),
        Err(Error::ValueTooWide { value: 4, bits: 2 })
    );
    assert_eq!(
        build_afgs1_payload(&rich(), 4097, 16, yuv),
        Err(Error::ValueTooWide { value: 4097, bits: 12 })
    );
    assert_eq!(
        build_afgs1_payload(&rich(), 0, 16, yuv),
        Err(Error::ZeroSizedPicture)
    );
    assert_eq!(
        build_afgs1_payload(&rich(), 16, 16, ChromaSubsampling::Monochrome),
        Err(Error::MonochromeStream)
    );
    assert!(build_afgs1_payload(&plain(), 16, 16, ChromaSubsampling::Monochrome).is_ok());
}

fn set_start(w: &mut BitWriter) {
    w.write(0, 3).unwrap();
    w.write(1, 1).unwrap();
    w.write(0x1234, 16).unwrap();
    w.write(1, 1).unwrap();
    w.write(3, 4).unwrap();
    w.write(240, 12).unwrap();
    w.write(135, 12).unwrap();
    w.write(0, 1).unwrap();
}

#[test]
fn a_set_that_cannot_be_written_is_written_up_to_there() {
    let mut w = BitWriter::new(Vec::new());
    assert_eq!(
        write_afgs1_params(&mut w, &rich(), 3, 240, 135, ChromaSubsampling::Monochrome),
        Err(Error::MonochromeStream)
    );
    w.byte_align().unwrap();
    let mut expected = BitWriter::new(Vec::new());
    set_start(&mut expected);
    expected.byte_align().unwrap();
    assert_eq!(w.finish(), expected.finish());

    let mut params = rich();
    params.scaling_points_y.clear();
    params.scaling_points_cr.clear();
    params.scaling_shift = 12;
    let mut w = BitWriter::new(Vec::new());
    assert_eq!(
        write_afgs1_params(&mut w, &params, 3, 240, 135, ChromaSubsampling::Yuv420),
        Err(Error::ValueTooWide { value: 4, bits: 2 })
    );
    w.byte_align().unwrap();
    let mut expected = BitWriter::new(Vec::new());
    set_start(&mut expected);
    for (value, width) in [
        (1, 1), (1, 1), (0, 1), (0, 1),
        (0, 4), (0, 1),
        (1, 4), (7, 3), (3, 2), (0, 8), (10, 8), (30, 8),
        (0, 4),
    ] {
        expected.write(value, width).unwrap();
    }
    expected.byte_align().unwrap();
    assert_eq!(w.finish(), expected.finish());

    let mut w = BitWriter::new(Vec::new());
    assert_eq!(
        write_afgs1_params(&mut w, &rich(), 3, 4096, 135, ChromaSubsampling::Yuv420),
        Err(Error::ValueTooWide { value: 4096, bits: 12 })
    );
    w.byte_align().unwrap();
    assert_eq!(w.finish(), vec![0x11, 0x23, 0x49, 0xc0]);
}

#[test]
fn bytes_behind_the_last_field_make_no_difference() {
    for params in [plain(), rich()] {
        let payload = build_afgs1_payload(&params, 640, 362, ChromaSubsampling::Yuv420).unwrap();
        let mut longer = payload.clone();
        for byte in [0, 0xff, 0x5a] {
            longer.push(byte);
            assert_eq!(parse_afgs1_payload(&longer), parse_afgs1_payload(&payload));
        }
        for n in 0..payload.len() {
            let error = parse_afgs1_payload(&payload[..n]).err();
            assert!(matches!(error, Some(Error::EndedEarly { .. })));
        }
    }
}

fn with_passed_over(value: u64) -> FilmGrainParams {
    let mut w = BitWriter::new(Vec::new());
    let mut passed = |w: &mut BitWriter, width: usize| {
        w.write(value & ((1 << width) - 1), width).unwrap();
    };
    w.write(0xb5, 8).unwrap();
    w.write(0x5890, 16).unwrap();
    w.write(1, 8).unwrap();
    w.write(1, 1).unwrap();
    passed(&mut w, 4);
    w.write(0, 3).unwrap();
    w.write(0, 1).unwrap();
    passed(&mut w, 8);
    passed(&mut w, 3);
    w.write(1, 1).unwrap();
    w.write(0xabcd, 16).unwrap();
    w.write(1, 1).unwrap();
    passed(&mut w, 28);
    w.write(0, 1).unwrap();
    passed(&mut w, 2);
    w.write(1, 1).unwrap();
    passed(&mut w, 3);
    w.write(1, 1).unwrap();
    passed(&mut w, 25);
    w.write(0, 1).unwrap();
    w.write(0, 4).unwrap();
    w.write(0, 1).unwrap();
    for point in [[10, 30], [20, 40]] {
        w.write(1, 4).unwrap();
        w.write(7, 3).unwrap();
        w.write(3, 2).unwrap();
        passed(&mut w, 8);
        w.write(point[0], 8).unwrap();
        w.write(point[1], 8).unwrap();
    }
    for _ in 0..12 {
        w.write(0xa5a5_c3c3_9696_0f0f, 64).unwrap();
    }
    w.byte_align().unwrap();
    parse_afgs1_payload(&w.finish()).unwrap()
}

#[test]
fn fields_that_are_passed_over_make_no_difference() {
    let read = with_passed_over(0);
    assert_eq!(read.grain_seed, 0xabcd);
    assert_eq!(read.scaling_points_cb.as_slice(), &[[10, 30]]);
    assert_eq!(read.scaling_points_cr.as_slice(), &[[20, 40]]);
    assert_eq!(with_passed_over(u64::MAX), read);
    assert_eq!(with_passed_over(0x5a5_a5a5), read);
}

#[test]
fn resolutions_have_common_powers_of_two_taken_out() {
    assert_eq!(film_grain_resolution(1920, 1080), Ok((3, 240, 135)));
    assert_eq!(film_grain_resolution(1, 1), Ok((0, 1, 1)));
    assert_eq!(film_grain_resolution(4096, 4096), Ok((12, 1, 1)));
    assert_eq!(film_grain_resolution(0, 1), Err(Error::ZeroSizedPicture));
    assert_eq!(film_grain_resolution(1, 0), Err(Error::ZeroSizedPicture));
}

fn spoilt(change: impl Fn(&mut BitWriter)) -> Result<FilmGrainParams, Error> {
    let mut w = BitWriter::new(Vec::new());
    change(&mut w);
    w.write(0, 64).unwrap();
    w.write(0, 64).unwrap();
    parse_afgs1_payload(&w.finish())
}

fn start(w: &mut BitWriter, enabled: u64, sets: u64, apply: u64, update: u64) {
    w.write(0xb5, 8).unwrap();
    w.write(0x5890, 16).unwrap();
    w.write(1, 8).unwrap();
    w.write(enabled, 1).unwrap();
    w.write(0, 4).unwrap();
    w.write(sets, 3).unwrap();
    w.write(1, 1).unwrap();
    w.write(0, 2).unwrap();
    w.write(0, 3).unwrap();
    w.write(apply, 1).unwrap();
    w.write(7, 16).unwrap();
    w.write(update, 1).unwrap();
}

#[test]
fn every_refusal_has_its_reason() {
    assert_eq!(spoilt(|w| w.write(0xb4, 8).unwrap()), Err(Error::NotAfgs1));
    assert_eq!(spoilt(|w| start(w, 0, 0, 1, 1)), Err(Error::GrainDisabled));
    assert_eq!(spoilt(|w| start(w, 1, 1, 1, 1)), Err(Error::MultipleGrainSets));
    assert_eq!(spoilt(|w| start(w, 1, 0, 0, 1)), Err(Error::GrainNotApplied));
    assert_eq!(spoilt(|w| start(w, 1, 0, 1, 0)), Err(Error::ReferencedGrain));
    assert_eq!(
        spoilt(|w| {
            start(w, 1, 0, 1, 1);
            w.write(0, 28).unwrap();
            w.write(1, 1).unwrap();
            w.write(0, 1).unwrap();
            w.write(1, 1).unwrap();
        }),
        Err(Error::PredictedScaling)
    );
    assert_eq!(
        parse_afgs1_payload(&[0xb5, 0x58, 0x90]),
        Err(Error::EndedEarly { bits: 8 })
    );
}

#[test]
fn signal_characteristics_are_passed_over() {
    let read = spoilt(|w| {
        start(w, 1, 0, 1, 1);
        w.write(0, 28).unwrap();
        w.write(1, 1).unwrap();
        w.write(1, 1).unwrap();
        w.write(2, 3).unwrap();
        w.write(1, 1).unwrap();
        w.write(0x010101, 24).unwrap();
        w.write(1, 1).unwrap();
        w.write(0, 1).unwrap();
        w.write(0, 4).unwrap();
        w.write(1, 2).unwrap();
    })
    .unwrap();
    assert_eq!(read.grain_seed, 7);
    assert_eq!(read.scaling_shift, 9);
    assert!(read.scaling_points_y.is_empty());
}

#[test]
fn too_many_scaling_points_are_told_apart() {
    let mut w = BitWriter::new(Vec::new());
    start(&mut w, 1, 0, 1, 1);
    w.write(0, 28).unwrap();
    w.write(1, 1).unwrap();
    w.write(0, 2).unwrap();
    w.write(15, 4).unwrap();
    for _ in 0..8 {
        w.write(0, 64).unwrap();
    }
    assert_eq!(decode_afgs1(&w.finish()).err(), Some(Fault::Overfull));
}

#[test]
fn scaling_points_are_read_as_steps() {
    let mut w = BitWriter::new(Vec::new());
    w.write(3, 4).unwrap();
    w.write(7, 3).unwrap();
    w.write(3, 2).unwrap();
    for v in [200u64, 10, 100, 20, 1, 30] {
        w.write(v, 8).unwrap();
    }
    w.byte_align().unwrap();
    let data = w.finish();
    let mut bits = BitReader::new(&data);
    let read = read_scaling_points::<NUM_Y_POINTS>(&mut bits, false).unwrap();
    assert_eq!(read.as_slice(), &[[200, 10], [44, 20], [45, 30]]);
}

#[test]
fn coefficients_are_offset_by_half_their_range() {
    let mut w = BitWriter::new(Vec::new());
    w.write(0, 2).unwrap();
    w.write(0, 5).unwrap();
    w.write(16, 5).unwrap();
    w.write(31, 5).unwrap();
    w.byte_align().unwrap();
    let data = w.finish();
    let mut bits = BitReader::new(&data);
    let read = read_coeffs::<NUM_Y_COEFFS>(&mut bits, 3).unwrap();
    assert_eq!(read.as_slice(), &[-16, 0, 15]);
}
