//! What is known of a video stream.
use crate::error::Error;
use crate::timing::{coprime, has_lowest_terms, FrameRate};
use vstd::prelude::*;

verus! {

/// How chroma is sampled in relation to luma.
#[derive(Debug, Clone, Copy, PartialEq, Eq, Structural)]
pub enum ChromaSubsampling {
    /// Half the width, half the height.
    Yuv420,
    /// Half the width, the full height.
    Yuv422,
    /// The full width and height.
    Yuv444,
    /// No chroma.
    Monochrome,
}

/// How a decoder lays out the pixels of a picture.
#[derive(Debug, Clone, Copy, PartialEq, Eq, Structural)]
pub enum PixelFormat {
    Yuv420p,
    Yuv422p,
    Yuv444p,
    Yuvj420p,
    Yuvj422p,
    Yuvj444p,
    Yuv420p10le,
    Yuv422p10le,
    Yuv444p10le,
    Yuv420p12le,
    Yuv422p12le,
    Yuv444p12le,
    /// Any layout that is not supported.
    Other,
}

impl PixelFormat {
    /// The bits of a pixel and how chroma is sampled, for the layouts that are supported.
    pub open spec fn traits(self) -> Option<(usize, ChromaSubsampling)> {
        match self {
            PixelFormat::Yuv420p | PixelFormat::Yuvj420p => Some((8, ChromaSubsampling::Yuv420)),
            PixelFormat::Yuv422p | PixelFormat::Yuvj422p => Some((8, ChromaSubsampling::Yuv422)),
            PixelFormat::Yuv444p | PixelFormat::Yuvj444p => Some((8, ChromaSubsampling::Yuv444)),
            PixelFormat::Yuv420p10le => Some((10, ChromaSubsampling::Yuv420)),
            PixelFormat::Yuv422p10le => Some((10, ChromaSubsampling::Yuv422)),
            PixelFormat::Yuv444p10le => Some((10, ChromaSubsampling::Yuv444)),
            PixelFormat::Yuv420p12le => Some((12, ChromaSubsampling::Yuv420)),
            PixelFormat::Yuv422p12le => Some((12, ChromaSubsampling::Yuv422)),
            PixelFormat::Yuv444p12le => Some((12, ChromaSubsampling::Yuv444)),
            PixelFormat::Other => None,
        }
    }

    /// The bits of a pixel.
    pub fn bit_depth(self) -> (r: Result<usize, Error>)
        ensures
            match (r, self.traits()) {
                (Ok(depth), Some(t)) => depth == t.0,
                (Err(e), None) => e == Error::UnsupportedFormat,
                _ => false,
            },
    {
        match self {
            PixelFormat::Yuv420p
            | PixelFormat::Yuv422p
            | PixelFormat::Yuv444p
            | PixelFormat::Yuvj420p
            | PixelFormat::Yuvj422p
            | PixelFormat::Yuvj444p => Ok(8),
            PixelFormat::Yuv420p10le | PixelFormat::Yuv422p10le | PixelFormat::Yuv444p10le => Ok(
                10,
            ),
            PixelFormat::Yuv420p12le | PixelFormat::Yuv422p12le | PixelFormat::Yuv444p12le => Ok(
                12,
            ),
            PixelFormat::Other => Err(Error::UnsupportedFormat),
        }
    }

    /// How chroma is sampled.
    pub fn chroma_sampling(self) -> (r: Result<ChromaSubsampling, Error>)
        ensures
            match (r, self.traits()) {
                (Ok(sampling), Some(t)) => sampling == t.1,
                (Err(e), None) => e == Error::UnsupportedFormat,
                _ => false,
            },
    {
        match self {
            PixelFormat::Yuv420p
            | PixelFormat::Yuvj420p
            | PixelFormat::Yuv420p10le
            | PixelFormat::Yuv420p12le => Ok(ChromaSubsampling::Yuv420),
            PixelFormat::Yuv422p
            | PixelFormat::Yuvj422p
            | PixelFormat::Yuv422p10le
            | PixelFormat::Yuv422p12le => Ok(ChromaSubsampling::Yuv422),
            PixelFormat::Yuv444p
            | PixelFormat::Yuvj444p
            | PixelFormat::Yuv444p10le
            | PixelFormat::Yuv444p12le => Ok(ChromaSubsampling::Yuv444),
            PixelFormat::Other => Err(Error::UnsupportedFormat),
        }
    }
}

/// A fraction as a container states it, in whatever terms.
#[derive(Debug, Clone, Copy, PartialEq, Eq, Structural)]
pub struct StatedRate {
    pub numer: i32,
    pub denom: i32,
}

/// What a container and a decoder state of a video stream.
#[derive(Debug, Clone, Copy, PartialEq, Eq, Structural)]
pub struct StreamProperties {
    pub format: PixelFormat,
    pub width: u32,
    pub height: u32,
    /// Frames per second on average; a zero denominator where that is not known.
    pub average_rate: StatedRate,
    /// Frames per second at best.
    pub base_rate: StatedRate,
}

impl StreamProperties {
    /// The rate that counts: the average, or the other one where the average is not known.
    pub open spec fn rate(self) -> StatedRate {
        if self.average_rate.denom == 0 {
            self.base_rate
        } else {
            self.average_rate
        }
    }

    /// The rate that counts.
    pub fn effective_rate(&self) -> (r: StatedRate)
        ensures
            r == self.rate(),
    {
        if self.average_rate.denom == 0 {
            self.base_rate
        } else {
            self.average_rate
        }
    }
}

/// What is known of the pictures of a video stream.
#[derive(Debug, Clone, Copy, PartialEq, Eq, Structural)]
pub struct VideoDetails {
    pub width: usize,
    pub height: usize,
    pub bit_depth: usize,
    pub chroma_sampling: ChromaSubsampling,
    pub frame_rate: FrameRate,
}

/// The details are those of a stream with these properties.
pub open spec fn details_match(details: VideoDetails, properties: StreamProperties) -> bool {
    &&& properties.format.traits() == Some((details.bit_depth, details.chroma_sampling))
    &&& details.width == properties.width
    &&& details.height == properties.height
    &&& details.frame_rate.wf()
    &&& details.frame_rate.numer * properties.rate().denom == properties.rate().numer
        * details.frame_rate.denom
    &&& coprime(details.frame_rate.numer as int, details.frame_rate.denom as int)
}

/// What is known of the pictures of a stream with these properties.
pub fn video_details(properties: &StreamProperties) -> (r: Result<VideoDetails, Error>)
    requires
        properties.format.traits() is Some ==> has_lowest_terms(
            properties.rate().numer,
            properties.rate().denom,
        ),
    ensures
        match r {
            Ok(details) => details_match(details, *properties),
            Err(e) => properties.format.traits() is None && e == Error::UnsupportedFormat,
        },
{
    let bit_depth: usize = match properties.format.bit_depth() {
        Ok(depth) => depth,
        Err(e) => {
            return Err(e);
        },
    };
    let chroma_sampling: ChromaSubsampling = match properties.format.chroma_sampling() {
        Ok(sampling) => sampling,
        Err(e) => {
            return Err(e);
        },
    };
    let rate: StatedRate = properties.effective_rate();
    Ok(
        VideoDetails {
            width: properties.width as usize,
            height: properties.height as usize,
            bit_depth,
            chroma_sampling,
            frame_rate: FrameRate::new(rate.numer, rate.denom),
        },
    )
}

/// The coding of a video stream.
#[derive(Debug, Clone, Copy, PartialEq, Eq, Structural)]
pub enum VideoCodec {
    Hevc,
    Other,
}

/// Refuses a stream that is not HEVC.
pub fn ensure_hevc(codec: VideoCodec) -> (r: Result<(), Error>)
    ensures
        match r {
            Ok(()) => codec is Hevc,
            Err(e) => codec is Other && e == Error::NotHevc,
        },
{
    match codec {
        VideoCodec::Hevc => Ok(()),
        VideoCodec::Other => Err(Error::NotHevc),
    }
}

/// Law: a layout is supported unless it is another one than those listed. Its name says how many
/// bits a pixel has, eight where it says nothing of them, and how chroma is sampled.
pub proof fn law_layouts(format: PixelFormat)
    ensures
        format.traits() is None <==> format is Other,
        format.traits() matches Some((depth, sampling)) ==> {
            &&& depth == 8 || depth == 10 || depth == 12
            &&& depth == 10 <==> format is Yuv420p10le || format is Yuv422p10le
                || format is Yuv444p10le
            &&& depth == 12 <==> format is Yuv420p12le || format is Yuv422p12le
                || format is Yuv444p12le
            &&& sampling is Yuv420 <==> format is Yuv420p || format is Yuvj420p
                || format is Yuv420p10le || format is Yuv420p12le
            &&& sampling is Yuv422 <==> format is Yuv422p || format is Yuvj422p
                || format is Yuv422p10le || format is Yuv422p12le
            &&& sampling is Yuv444 <==> format is Yuv444p || format is Yuvj444p
                || format is Yuv444p10le || format is Yuv444p12le
        },
{
}

/// Law: the frame rate of a stream is the average that is stated for it, in lowest terms; only
/// where the average has no denominator, it is the other rate that is stated.
pub proof fn law_frame_rate_stated(details: VideoDetails, properties: StreamProperties)
    requires
        details_match(details, properties),
    ensures
        ({
            let rate = details.frame_rate;
            let average = properties.average_rate;
            let base = properties.base_rate;
            &&& rate.denom > 0
            &&& average.denom != 0 ==> rate.numer * average.denom == average.numer * rate.denom
            &&& average.denom == 0 ==> rate.numer * base.denom == base.numer * rate.denom
            &&& forall|k: int|
                k > 1 && #[trigger] (rate.numer as int % k) == 0 ==> rate.denom as int % k != 0
            &&& details.width == properties.width && details.height == properties.height
        }),
{
}

} // verus!
