use hevc_grain::error::Error;
use hevc_grain::reader::{BitstreamReader, ReaderAction, ReaderEvent};
use hevc_grain::timing::FrameRate;
use hevc_grain::video::{
    video_details, ChromaSubsampling, PixelFormat, StatedRate, StreamProperties,
};

fn properties(format: PixelFormat) -> StreamProperties {
    StreamProperties {
        format,
        width: 640,
        height: 480,
        average_rate: StatedRate { numer: 50, denom: 2 },
        base_rate: StatedRate { numer: 30, denom: 1 },
    }
}

#[test]
fn details_come_from_the_properties() {
    let d = video_details(&properties(PixelFormat::Yuv422p10le)).unwrap();
    assert_eq!((d.width, d.height, d.bit_depth), (640, 480, 10));
    assert_eq!(d.chroma_sampling, ChromaSubsampling::Yuv422);
    assert_eq!(d.frame_rate, FrameRate { numer: 25, denom: 1 });
}

#[test]
fn the_other_rate_counts_where_the_average_is_not_known() {
    let mut p = properties(PixelFormat::Yuv420p);
    p.average_rate = StatedRate { numer: 0, denom: 0 };
    let d = video_details(&p).unwrap();
    assert_eq!(d.frame_rate, FrameRate { numer: 30, denom: 1 });
}

#[test]
fn formats_have_a_depth_and_a_sampling() {
    let expected = [
        (PixelFormat::Yuv420p, 8, ChromaSubsampling::Yuv420),
        (PixelFormat::Yuvj422p, 8, ChromaSubsampling::Yuv422),
        (PixelFormat::Yuvj444p, 8, ChromaSubsampling::Yuv444),
        (PixelFormat::Yuv420p10le, 10, ChromaSubsampling::Yuv420),
        (PixelFormat::Yuv444p12le, 12, ChromaSubsampling::Yuv444),
    ];
    for (format, depth, sampling) in expected {
        assert_eq!(format.bit_depth(), Ok(depth));
        assert_eq!(format.chroma_sampling(), Ok(sampling));
    }
    assert_eq!(
        BitstreamReader::open(&properties(PixelFormat::Other), 0).err(),
        Some(Error::UnsupportedFormat)
    );
    assert_eq!(PixelFormat::Other.chroma_sampling(), Err(Error::UnsupportedFormat));
}

fn reader() -> BitstreamReader {
    BitstreamReader::open(&properties(PixelFormat::Yuv420p), 1).unwrap()
}

#[test]
fn packets_of_other_streams_are_passed_over() {
    let mut r = reader();
    assert_eq!(r.get_frame(ReaderEvent::Wanted), ReaderAction::ReadPacket);
    assert_eq!(
        r.get_frame(ReaderEvent::Packet { stream_index: 0 }),
        ReaderAction::ReadPacket
    );
    assert_eq!(
        r.get_frame(ReaderEvent::Packet { stream_index: 1 }),
        ReaderAction::Feed { pts: 0 }
    );
    assert_eq!(r.get_frame(ReaderEvent::NotReceived), ReaderAction::ReadPacket);
}

#[test]
fn frames_are_counted_as_they_are_handed_out() {
    let mut r = reader();
    for n in 0..3 {
        assert_eq!(
            r.get_frame_u8(ReaderEvent::Packet { stream_index: 1 }),
            ReaderAction::Feed { pts: n }
        );
        assert_eq!(r.get_frame_u8(ReaderEvent::Received), ReaderAction::Decode);
        assert_eq!(r.get_frame_u8(ReaderEvent::Decoded), ReaderAction::Deliver);
    }
    assert_eq!(r.frameno, 3);
    assert_eq!(r.get_video_details().width, 640);
}

#[test]
fn the_decoder_is_told_once_that_there_is_no_more() {
    let mut r = reader();
    assert_eq!(r.get_frame(ReaderEvent::NoPacket), ReaderAction::Finish);
    assert_eq!(r.get_frame(ReaderEvent::Received), ReaderAction::Decode);
    assert_eq!(r.get_frame(ReaderEvent::Decoded), ReaderAction::Deliver);
    assert_eq!(r.get_frame(ReaderEvent::NoPacket), ReaderAction::Drain);
    assert_eq!(
        r.get_frame(ReaderEvent::Packet { stream_index: 1 }),
        ReaderAction::Drain
    );
    assert_eq!(r.get_frame(ReaderEvent::NotReceived), ReaderAction::End);
    assert!(r.end_of_stream && r.eof_sent);
}
