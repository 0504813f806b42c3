//! What can go wrong when grain metadata is read or written.
use vstd::prelude::*;

verus! {

/// A reason for refusing a packet, a payload or a request.
#[derive(Debug, Clone, Copy, PartialEq, Eq, Structural)]
pub enum Error {
    /// A packet ends inside the length field of a NAL unit.
    IncompleteNalLength,
    /// A NAL unit length is zero or runs past the end of the packet.
    InvalidNalLength { len: usize },
    /// A NAL unit is too short to hold its two-byte header.
    MissingNalHeader,
    /// An SEI NAL unit is too short to hold its two-byte header.
    MissingSeiHeader,
    /// The payload does not carry the AFGS1 registration codes.
    NotAfgs1,
    /// The payload switches film grain off.
    GrainDisabled,
    /// The payload holds more than one film grain set.
    MultipleGrainSets,
    /// The film grain set is not to be applied.
    GrainNotApplied,
    /// The film grain set refers to another one.
    ReferencedGrain,
    /// The film grain set predicts its scaling functions.
    PredictedScaling,
    /// The payload ends before a field of this many bits.
    EndedEarly { bits: usize },
    /// A value does not fit in the field it is meant for.
    ValueTooWide { value: u64, bits: usize },
    /// Grain whose chroma follows luma cannot be written.
    ChromaFromLuma,
    /// Chroma grain cannot be written into a stream without chroma.
    MonochromeStream,
    /// The picture has no area.
    ZeroSizedPicture,
    /// No NAL unit length can be written in this many bytes.
    InvalidLengthPrefix { length_size: usize },
    /// The packet carries grain already and it is not to be replaced.
    GrainExists,
    /// The video stream is not HEVC.
    NotHevc,
    /// The pixel format of the video is not supported.
    UnsupportedFormat,
    /// The picture is zero pixels wide.
    ZeroWidth,
    /// The picture is zero pixels high.
    ZeroHeight,
    /// The bit depth is zero.
    ZeroBitDepth,
    /// The luma plane of a decoded picture has a zero stride.
    ZeroLumaStride,
    /// The first chroma plane of a decoded picture has a zero stride.
    ZeroUStride,
    /// The second chroma plane of a decoded picture has a zero stride.
    ZeroVStride,
    /// No picture can be made for the video.
    Frame { fault: FrameFault },
    /// The luma plane of a decoded picture cannot be copied.
    LumaCopy { fault: FrameFault },
    /// The first chroma plane of a decoded picture cannot be copied.
    UCopy { fault: FrameFault },
    /// The second chroma plane of a decoded picture cannot be copied.
    VCopy { fault: FrameFault },
}

/// A reason why a picture cannot be made or a plane of it cannot be filled.
#[derive(Debug, Clone, Copy, PartialEq, Eq, Structural)]
pub enum FrameFault {
    /// A plane holds another number of bytes than its geometry asks for.
    DataLength { expected: usize, found: usize },
    /// There are no pixels of this many bits.
    UnsupportedBitDepth { depth: u8 },
    /// The pixels are of another size than the bit depth asks for.
    DataTypeMismatch,
    /// Chroma cannot be sampled in a picture of this size.
    UnsupportedResolution,
    /// The rows of a plane are shorter than the picture is wide.
    InvalidStride { stride: usize, width: usize },
}

} // verus!
