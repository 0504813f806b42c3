use hevc_grain::decode::{
    can_decode_16bit, can_decode_8bit, can_decode_u8, decode_frame_16bit, decode_frame_8bit,
    decode_frame_u8, DecodedPicture, DecodedPlane,
};
use hevc_grain::error::{Error, FrameFault};
use hevc_grain::frame::Picture8;
use hevc_grain::profile::{Lap, MetricId};
use std::cell::Cell;
use hevc_grain::timing::FrameRate;
use hevc_grain::video::{ChromaSubsampling, VideoDetails};

fn zero() -> u128 {
    0
}

fn steps(laps: &[Lap]) -> Vec<MetricId> {
    laps.iter().map(|lap| lap.id).collect()
}

fn details(width: usize, height: usize, bit_depth: usize) -> VideoDetails {
    VideoDetails {
        width,
        height,
        bit_depth,
        chroma_sampling: ChromaSubsampling::Yuv420,
        frame_rate: FrameRate::new(25, 1),
    }
}

fn rows(picture: &Picture8, plane: usize) -> Vec<Vec<u8>> {
    let plane = picture.frame.plane(plane).unwrap();
    plane.rows().map(|row| row.to_vec()).collect()
}

fn plane(data: &[u8], stride: usize) -> DecodedPlane<'_> {
    DecodedPlane { data, stride }
}

#[test]
fn bytes_are_copied_row_by_row() {
    let luma = [1, 2, 0, 3, 4, 0];
    let decoded = DecodedPicture {
        luma: plane(&luma, 3),
        chroma: Some((plane(&[5, 0], 2), plane(&[6], 1))),
    };
    let details = details(2, 2, 8);
    assert!(can_decode_8bit(&details, &decoded));
    assert!(can_decode_u8(&details, &decoded));
    let picture = decode_frame_8bit(&details, &decoded, zero, &mut Vec::new()).ok().unwrap();
    assert_eq!(rows(&picture, 0), vec![vec![1, 2], vec![3, 4]]);
    assert_eq!(rows(&picture, 1), vec![vec![5]]);
    assert_eq!(rows(&picture, 2), vec![vec![6]]);
    assert_eq!(picture.frame.bit_depth.get(), 8);
    let same = decode_frame_u8(&details, &decoded, zero, &mut Vec::new()).ok().unwrap();
    assert_eq!(rows(&same, 0), rows(&picture, 0));
}

#[test]
fn wide_pixels_are_shifted_down() {
    let luma = [0xfc, 0x03, 0x00, 0x02, 9, 9, 0x04, 0x00, 0x03, 0x00, 9, 9];
    let decoded = DecodedPicture {
        luma: plane(&luma, 6),
        chroma: Some((plane(&[0xff, 0x01], 2), plane(&[0x00, 0xff], 2))),
    };
    let details = details(2, 2, 10);
    assert!(can_decode_u8(&details, &decoded));
    let picture = decode_frame_u8(&details, &decoded, zero, &mut Vec::new()).ok().unwrap();
    assert_eq!(rows(&picture, 0), vec![vec![0xff, 0x80], vec![1, 0]]);
    assert_eq!(rows(&picture, 1), vec![vec![0x7f]]);
    assert_eq!(rows(&picture, 2), vec![vec![0xc0]]);
    assert_eq!(picture.frame.bit_depth.get(), 8);
}

#[test]
fn wide_pixels_are_kept_in_sixteen_bits() {
    let luma = [0xfc, 0x03, 0x00, 0x02, 0x04, 0x00, 0x03, 0x00];
    let decoded = DecodedPicture {
        luma: plane(&luma, 4),
        chroma: Some((plane(&[0xff, 0x01], 2), plane(&[0x00, 0x01], 2))),
    };
    let details = details(2, 2, 10);
    assert!(can_decode_16bit(&details, &decoded));
    let picture = decode_frame_16bit(&details, &decoded, zero, &mut Vec::new()).ok().unwrap();
    let plane = picture.frame.plane(0).unwrap();
    let rows: Vec<Vec<u16>> = plane.rows().map(|row| row.to_vec()).collect();
    assert_eq!(rows, vec![vec![0x3fc, 0x200], vec![4, 3]]);
    let chroma = picture.frame.plane(1).unwrap();
    assert_eq!(chroma.row(0).unwrap(), &[0x1ff]);
    assert_eq!(picture.frame.bit_depth.get(), 10);
}

#[test]
fn a_picture_without_chroma_has_one_plane() {
    let luma = [1, 2];
    let decoded = DecodedPicture { luma: plane(&luma, 1), chroma: None };
    let details = VideoDetails {
        chroma_sampling: ChromaSubsampling::Monochrome,
        ..details(1, 2, 8)
    };
    assert!(can_decode_8bit(&details, &decoded));
    let picture = decode_frame_8bit(&details, &decoded, zero, &mut Vec::new()).ok().unwrap();
    assert_eq!(rows(&picture, 0), vec![vec![1], vec![2]]);
    assert!(picture.frame.plane(1).is_none());
}

fn error_8bit(details: &VideoDetails, decoded: &DecodedPicture<'_>) -> Option<Error> {
    assert!(can_decode_8bit(details, decoded));
    decode_frame_8bit(details, decoded, zero, &mut Vec::new()).err()
}

#[test]
fn pictures_that_cannot_be_made_are_refused() {
    let luma = [1, 2, 3, 4];
    let good = DecodedPicture {
        luma: plane(&luma, 2),
        chroma: Some((plane(&[5], 1), plane(&[6], 1))),
    };
    assert_eq!(error_8bit(&details(0, 0, 0), &good), Some(Error::ZeroWidth));
    assert_eq!(error_8bit(&details(2, 0, 0), &good), Some(Error::ZeroHeight));
    assert_eq!(error_8bit(&details(2, 2, 256), &good), Some(Error::ZeroBitDepth));
    let fault = FrameFault::UnsupportedBitDepth { depth: 7 };
    assert_eq!(error_8bit(&details(2, 2, 7), &good), Some(Error::Frame { fault }));
    let fault = FrameFault::DataTypeMismatch;
    assert_eq!(error_8bit(&details(2, 2, 10), &good), Some(Error::Frame { fault }));
    assert!(can_decode_16bit(&details(2, 2, 8), &good));
    assert_eq!(
        decode_frame_16bit(&details(2, 2, 8), &good, zero, &mut Vec::new()).err(),
        Some(Error::Frame { fault })
    );
    let fault = FrameFault::UnsupportedResolution;
    assert_eq!(error_8bit(&details(3, 2, 8), &good), Some(Error::Frame { fault }));
    assert!(error_8bit(&details(2, 2, 8), &good).is_none());
}

#[test]
fn planes_that_cannot_be_copied_are_refused() {
    let details = details(2, 2, 8);
    let luma = [1, 2, 3, 4];
    let with = |y: usize, u: usize, v: usize| DecodedPicture {
        luma: plane(&luma, y),
        chroma: Some((plane(&[5], u), plane(&[6], v))),
    };
    assert_eq!(error_8bit(&details, &with(0, 0, 0)), Some(Error::ZeroLumaStride));
    assert_eq!(error_8bit(&details, &with(2, 0, 0)), Some(Error::ZeroUStride));
    assert_eq!(error_8bit(&details, &with(2, 1, 0)), Some(Error::ZeroVStride));
    let fault = FrameFault::InvalidStride { stride: 1, width: 2 };
    assert_eq!(error_8bit(&details, &with(1, 2, 2)), Some(Error::LumaCopy { fault }));
    let fault = FrameFault::DataLength { expected: 2, found: 1 };
    assert_eq!(error_8bit(&details, &with(2, 2, 2)), Some(Error::UCopy { fault }));
    assert_eq!(error_8bit(&details, &with(2, 1, 2)), Some(Error::VCopy { fault }));
}

#[test]
fn shifted_planes_of_another_length_are_refused() {
    let details = details(2, 2, 10);
    let decoded = DecodedPicture {
        luma: plane(&[0; 7], 4),
        chroma: Some((plane(&[0; 2], 2), plane(&[0; 2], 2))),
    };
    assert!(can_decode_u8(&details, &decoded));
    let fault = FrameFault::DataLength { expected: 8, found: 7 };
    assert_eq!(
        decode_frame_u8(&details, &decoded, zero, &mut Vec::new()).err(),
        Some(Error::LumaCopy { fault })
    );
}

#[test]
fn a_shift_out_of_range_matters_only_where_pixels_are_shifted() {
    let details = details(2, 2, 24);
    let decoded = DecodedPicture {
        luma: plane(&[0; 5], 3),
        chroma: Some((plane(&[0; 3], 2), plane(&[0; 3], 2))),
    };
    assert!(can_decode_u8(&details, &decoded));
    let fault = FrameFault::DataLength { expected: 6, found: 5 };
    assert_eq!(
        decode_frame_u8(&details, &decoded, zero, &mut Vec::new()).err(),
        Some(Error::LumaCopy { fault })
    );
}

#[test]
fn chroma_may_be_missing_where_luma_has_no_stride() {
    let bare = DecodedPicture { luma: plane(&[], 0), chroma: None };
    assert_eq!(error_8bit(&details(2, 2, 8), &bare), Some(Error::ZeroLumaStride));
}

#[test]
fn the_time_of_each_step_is_taken() {
    let luma = [1, 2, 3, 4];
    let good = DecodedPicture {
        luma: plane(&luma, 2),
        chroma: Some((plane(&[5], 1), plane(&[6], 1))),
    };
    let build = MetricId::ReaderBuildFrame;
    let (y, u, v) = (MetricId::ReaderCopyY, MetricId::ReaderCopyU, MetricId::ReaderCopyV);
    let now = Cell::new(0u128);
    let clock = || {
        now.set(2 * now.get() + 1);
        now.get()
    };
    let mut laps = vec![Lap { id: MetricId::OutputWrite, nanos: 9 }];
    assert!(can_decode_u8(&details(2, 2, 8), &good));
    assert!(decode_frame_u8(&details(2, 2, 8), &good, clock, &mut laps).is_ok());
    assert_eq!(
        laps,
        vec![
            Lap { id: MetricId::OutputWrite, nanos: 9 },
            Lap { id: build, nanos: 2 },
            Lap { id: y, nanos: 8 },
            Lap { id: u, nanos: 32 },
            Lap { id: v, nanos: 128 },
        ]
    );

    let gray = VideoDetails {
        chroma_sampling: ChromaSubsampling::Monochrome,
        ..details(2, 2, 8)
    };
    let mut laps = Vec::new();
    assert!(decode_frame_8bit(&gray, &good, zero, &mut laps).is_ok());
    assert_eq!(steps(&laps), vec![build, y]);

    let mut laps = Vec::new();
    assert!(decode_frame_8bit(&details(3, 2, 8), &good, zero, &mut laps).is_err());
    assert_eq!(steps(&laps), vec![build]);

    let mut laps = Vec::new();
    assert!(decode_frame_8bit(&details(0, 2, 8), &good, zero, &mut laps).is_err());
    assert!(laps.is_empty());
}

#[test]
fn every_plane_is_copied_before_a_failure_is_told() {
    let expected = vec![
        MetricId::ReaderBuildFrame,
        MetricId::ReaderCopyY,
        MetricId::ReaderCopyU,
        MetricId::ReaderCopyV,
    ];
    let wide = [1, 0, 2, 0, 3, 0, 4, 0];
    let fault = FrameFault::DataLength { expected: 2, found: 1 };
    let luma_fault = FrameFault::DataLength { expected: 8, found: 7 };
    for (luma, chroma_u, error) in [
        (&wide[..7], &[5][..], Error::LumaCopy { fault: luma_fault }),
        (&wide[..7], &[5, 0][..], Error::LumaCopy { fault: luma_fault }),
        (&wide[..], &[5][..], Error::UCopy { fault }),
        (&wide[..], &[5, 0][..], Error::VCopy { fault }),
    ] {
        let decoded = DecodedPicture {
            luma: plane(luma, 4),
            chroma: Some((plane(chroma_u, 2), plane(&[6], 2))),
        };
        let mut laps = Vec::new();
        assert!(can_decode_16bit(&details(2, 2, 10), &decoded));
        let result = decode_frame_16bit(&details(2, 2, 10), &decoded, zero, &mut laps);
        assert_eq!(result.err(), Some(error));
        assert_eq!(steps(&laps), expected);
        let mut laps = Vec::new();
        assert!(can_decode_u8(&details(2, 2, 10), &decoded));
        let result = decode_frame_u8(&details(2, 2, 10), &decoded, zero, &mut laps);
        assert_eq!(result.err(), Some(error));
        assert_eq!(steps(&laps), expected);
    }
}

#[test]
fn planes_that_run_into_limits_are_told_apart() {
    let short = DecodedPicture {
        luma: plane(&[0; 6], 3),
        chroma: Some((plane(&[0; 2], 2), plane(&[0; 2], 2))),
    };
    assert!(!can_decode_u8(&details(2, 2, 10), &short));
    assert!(!can_decode_16bit(&details(2, 2, 10), &short));
    let bare = DecodedPicture { chroma: None, ..short };
    assert!(!can_decode_u8(&details(2, 2, 8), &bare));
    assert!(!can_decode_u8(&details(usize::MAX - 1, 2, 8), &short));
    assert!(!can_decode_u8(&details(2, 2, 24), &short));
}
