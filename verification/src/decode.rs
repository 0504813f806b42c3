//! Turning what a decoder gives into pictures.
use crate::error::{Error, FrameFault};
use crate::frame::{
    blank16, blank8, copy16, copy_decoded_plane_to_u8, copy_fault, depth16, depth8, filled_rows,
    fits_memory, new_picture16, new_picture8, picture_sizes, plane_copyable, plane_sizes, planes16,
    planes8, wide_rows, Picture16, Picture8,
};
use crate::profile::{finish_lap, laps_taken, lemma_laps_add, Lap, MetricId};
use crate::video::{ChromaSubsampling, VideoDetails};
use vstd::prelude::*;

verus! {

/// A plane as a decoder gives it: rows of `stride` bytes.
#[derive(Debug, Clone, Copy)]
pub struct DecodedPlane<'a> {
    pub data: &'a [u8],
    pub stride: usize,
}

/// A picture as a decoder gives it.
#[derive(Debug, Clone, Copy)]
pub struct DecodedPicture<'a> {
    pub luma: DecodedPlane<'a>,
    pub chroma: Option<(DecodedPlane<'a>, DecodedPlane<'a>)>,
}

impl<'a> DecodedPicture<'a> {
    /// The plane at `k`: luma and then the two of chroma.
    pub open spec fn plane(&self, k: int) -> DecodedPlane<'a> {
        match self.chroma {
            Some((u, v)) => if k == 0 {
                self.luma
            } else if k == 1 {
                u
            } else {
                v
            },
            None => self.luma,
        }
    }
}

/// Why no picture can be filled, as far as it does not matter what is in the planes; otherwise
/// the sizes of the planes.
pub open spec fn frame_plan(
    details: &VideoDetails,
    decoded: &DecodedPicture<'_>,
    depth: u8,
    bytes: int,
) -> Result<Seq<(int, int)>, Error> {
    if details.width == 0 {
        Err(Error::ZeroWidth)
    } else if details.height == 0 {
        Err(Error::ZeroHeight)
    } else if depth == 0 {
        Err(Error::ZeroBitDepth)
    } else {
        match picture_sizes(
            details.width as int,
            details.height as int,
            details.chroma_sampling,
            depth,
            bytes,
        ) {
            Err(fault) => Err(Error::Frame { fault }),
            Ok(sizes) => if decoded.plane(0).stride == 0 {
                Err(Error::ZeroLumaStride)
            } else if sizes.len() == 3 && decoded.plane(1).stride == 0 {
                Err(Error::ZeroUStride)
            } else if sizes.len() == 3 && decoded.plane(2).stride == 0 {
                Err(Error::ZeroVStride)
            } else {
                Ok(sizes)
            },
        }
    }
}

/// A picture with pixels of `bytes` bytes can be made without running into the limits of the
/// machine, and where it has chroma the decoder gives chroma. Nothing is asked of the chroma of a
/// decoded picture without a luma stride, which is refused.
pub open spec fn frame_buildable(
    details: &VideoDetails,
    decoded: &DecodedPicture<'_>,
    depth: u8,
    bytes: int,
) -> bool {
    details.width > 0 && details.height > 0 && depth > 0 && picture_sizes(
        details.width as int,
        details.height as int,
        details.chroma_sampling,
        depth,
        bytes,
    ) is Ok ==> {
        &&& fits_memory(details.width as int, details.height as int, bytes)
        &&& decoded.plane(0).stride != 0 ==> details.chroma_sampling is Monochrome
            || decoded.chroma is Some
    }
}

/// What is said of a plane that cannot be copied: luma comes first and then the two of chroma.
pub open spec fn copy_error(k: int, fault: FrameFault) -> Error {
    if k == 0 {
        Error::LumaCopy { fault }
    } else if k == 1 {
        Error::UCopy { fault }
    } else {
        Error::VCopy { fault }
    }
}

/// What the plane at `k` of a picture with pixels of eight bits is filled with.
pub open spec fn plane8(
    decoded: &DecodedPicture<'_>,
    sizes: Seq<(int, int)>,
    shift: int,
    k: int,
) -> Result<Seq<Seq<u8>>, FrameFault> {
    let plane = decoded.plane(k);
    filled_rows(plane.data@, plane.stride as int, sizes[k].0, sizes[k].1, shift)
}

/// The first `n` planes of a picture with pixels of eight bits, or why the first of them that
/// cannot be copied cannot be.
pub open spec fn picture8(
    decoded: &DecodedPicture<'_>,
    sizes: Seq<(int, int)>,
    shift: int,
    n: nat,
) -> Result<Seq<Seq<Seq<u8>>>, Error>
    decreases n,
{
    if n == 0 {
        Ok(Seq::empty())
    } else {
        match picture8(decoded, sizes, shift, (n - 1) as nat) {
            Err(e) => Err(e),
            Ok(planes) => match plane8(decoded, sizes, shift, n - 1) {
                Err(fault) => Err(copy_error(n - 1, fault)),
                Ok(rows) => Ok(planes.push(rows)),
            },
        }
    }
}

/// A decoded picture as one with pixels of eight bits.
pub open spec fn decoded8(
    details: &VideoDetails,
    decoded: &DecodedPicture<'_>,
    depth: u8,
    shift: int,
) -> Result<Seq<Seq<Seq<u8>>>, Error> {
    match frame_plan(details, decoded, depth, 1) {
        Err(e) => Err(e),
        Ok(sizes) => picture8(decoded, sizes, shift, sizes.len()),
    }
}

/// A decoded picture can be turned into one with pixels of eight bits without running into the
/// limits of the machine or past the end of a plane.
pub open spec fn decodable8(
    details: &VideoDetails,
    decoded: &DecodedPicture<'_>,
    depth: u8,
    shift: int,
) -> bool {
    &&& frame_buildable(details, decoded, depth, 1)
    &&& frame_plan(details, decoded, depth, 1) matches Ok(sizes) ==> forall|k: int|
        0 <= k < sizes.len() ==> plane_copyable(
            (#[trigger] decoded.plane(k)).data@.len() as int,
            decoded.plane(k).stride as int,
            sizes[k].0,
            sizes[k].1,
            shift,
        )
}

/// What the plane at `k` of a picture with pixels of sixteen bits is filled with.
pub open spec fn plane16(decoded: &DecodedPicture<'_>, sizes: Seq<(int, int)>, k: int) -> Result<
    Seq<Seq<u16>>,
    FrameFault,
> {
    let plane = decoded.plane(k);
    match copy_fault(plane.data@.len() as int, plane.stride as int, sizes[k].0, sizes[k].1) {
        Some(f) => Err(f),
        None => Ok(wide_rows(plane.data@, plane.stride as int, sizes[k].0, sizes[k].1)),
    }
}

/// The first `n` planes of a picture with pixels of sixteen bits, or why the first of them that
/// cannot be copied cannot be.
pub open spec fn picture16(decoded: &DecodedPicture<'_>, sizes: Seq<(int, int)>, n: nat) -> Result<
    Seq<Seq<Seq<u16>>>,
    Error,
>
    decreases n,
{
    if n == 0 {
        Ok(Seq::empty())
    } else {
        match picture16(decoded, sizes, (n - 1) as nat) {
            Err(e) => Err(e),
            Ok(planes) => match plane16(decoded, sizes, n - 1) {
                Err(fault) => Err(copy_error(n - 1, fault)),
                Ok(rows) => Ok(planes.push(rows)),
            },
        }
    }
}

/// A decoded picture as one with pixels of sixteen bits.
pub open spec fn decoded16(
    details: &VideoDetails,
    decoded: &DecodedPicture<'_>,
    depth: u8,
) -> Result<Seq<Seq<Seq<u16>>>, Error> {
    match frame_plan(details, decoded, depth, 2) {
        Err(e) => Err(e),
        Ok(sizes) => picture16(decoded, sizes, sizes.len()),
    }
}

/// A decoded picture can be turned into one with pixels of sixteen bits without running into the
/// limits of the machine or past the end of a plane.
pub open spec fn decodable16(
    details: &VideoDetails,
    decoded: &DecodedPicture<'_>,
    depth: u8,
) -> bool {
    &&& frame_buildable(details, decoded, depth, 2)
    &&& frame_plan(details, decoded, depth, 2) matches Ok(sizes) ==> forall|k: int|
        0 <= k < sizes.len() ==> wide_copyable(
            (#[trigger] decoded.plane(k)).data@.len() as int,
            decoded.plane(k).stride as int,
            sizes[k].0,
            sizes[k].1,
        )
}

/// The bytes of a plane can be copied as pixels of two bytes without running into the limits of
/// the machine or past their end.
pub open spec fn wide_copyable(len: int, stride: int, width: int, height: int) -> bool {
    &&& 2 * width <= usize::MAX
    &&& stride >= width ==> stride * height <= usize::MAX
    &&& stride >= width && stride * height == len ==> stride >= 2 * width
}

/// The eight low bits of a bit depth.
pub open spec fn short_depth(bit_depth: usize) -> u8 {
    (bit_depth % 256) as u8
}

/// Refuses a picture without width, height or depth.
fn check_size(details: &VideoDetails, depth: u8) -> (r: Result<(), Error>)
    ensures
        r == (if details.width == 0 {
            Err::<(), Error>(Error::ZeroWidth)
        } else if details.height == 0 {
            Err(Error::ZeroHeight)
        } else if depth == 0 {
            Err(Error::ZeroBitDepth)
        } else {
            Ok(())
        }),
{
    if details.width == 0 {
        Err(Error::ZeroWidth)
    } else if details.height == 0 {
        Err(Error::ZeroHeight)
    } else if depth == 0 {
        Err(Error::ZeroBitDepth)
    } else {
        Ok(())
    }
}

/// Refuses planes without a stride.
fn check_strides(decoded: &DecodedPicture<'_>, has_chroma: bool) -> (r: Result<(), Error>)
    requires
        has_chroma && decoded.plane(0).stride != 0 ==> decoded.chroma is Some,
    ensures
        r == (if decoded.plane(0).stride == 0 {
            Err::<(), Error>(Error::ZeroLumaStride)
        } else if has_chroma && decoded.plane(1).stride == 0 {
            Err(Error::ZeroUStride)
        } else if has_chroma && decoded.plane(2).stride == 0 {
            Err(Error::ZeroVStride)
        } else {
            Ok(())
        }),
{
    if decoded.luma.stride == 0 {
        return Err(Error::ZeroLumaStride);
    }
    if has_chroma {
        match decoded.chroma {
            Some((u, v)) => {
                if u.stride == 0 {
                    return Err(Error::ZeroUStride);
                }
                if v.stride == 0 {
                    return Err(Error::ZeroVStride);
                }
            },
            None => {},
        }
    }
    Ok(())
}

/// The plane at `k`.
fn pick<'a>(decoded: &DecodedPicture<'a>, k: usize) -> (r: DecodedPlane<'a>)
    requires
        k > 0 ==> decoded.chroma is Some,
    ensures
        r == decoded.plane(k as int),
{
    match decoded.chroma {
        Some((u, v)) => {
            if k == 0 {
                decoded.luma
            } else if k == 1 {
                u
            } else {
                v
            }
        },
        None => decoded.luma,
    }
}

/// What is said of a plane that cannot be copied.
fn plane_error(k: usize, fault: FrameFault) -> (r: Error)
    ensures
        r == copy_error(k as int, fault),
{
    if k == 0 {
        Error::LumaCopy { fault }
    } else if k == 1 {
        Error::UCopy { fault }
    } else {
        Error::VCopy { fault }
    }
}

/// The sizes of planes are not zero where that of the picture is not.
proof fn lemma_sizes(width: int, height: int, sampling: ChromaSubsampling)
    requires
        width > 0,
        height > 0,
    ensures
        plane_sizes(width, height, sampling) matches Ok(sizes) ==> {
            &&& sizes.len() == if sampling is Monochrome {
                1nat
            } else {
                3nat
            }
            &&& forall|k: int|
                0 <= k < sizes.len() ==> (#[trigger] sizes[k]).0 > 0 && sizes[k].1 > 0
        },
{
}

/// The step in which the plane at `k` is copied.
pub open spec fn plane_step(k: int) -> MetricId {
    if k == 0 {
        MetricId::ReaderCopyY
    } else if k == 1 {
        MetricId::ReaderCopyU
    } else {
        MetricId::ReaderCopyV
    }
}

/// The steps in which the first `n` planes are copied.
pub open spec fn copy_steps(n: nat) -> Seq<MetricId> {
    Seq::new(n, |k: int| plane_step(k))
}

/// The steps of which the time is taken where a decoded picture is turned into one with pixels of
/// `bytes` bytes: making the picture, if its size and depth are not zero, and copying each of its
/// planes, if there is nothing wrong with the picture or with the strides. That a plane cannot be
/// copied makes no difference.
pub open spec fn decode_steps(
    details: &VideoDetails,
    decoded: &DecodedPicture<'_>,
    depth: u8,
    bytes: int,
) -> Seq<MetricId> {
    if details.width == 0 || details.height == 0 || depth == 0 {
        Seq::empty()
    } else {
        seq![MetricId::ReaderBuildFrame] + match frame_plan(details, decoded, depth, bytes) {
            Ok(sizes) => copy_steps(sizes.len()),
            Err(_) => Seq::empty(),
        }
    }
}

/// The step in which the plane at `k` is copied.
fn copy_step(k: usize) -> (r: MetricId)
    ensures
        r == plane_step(k as int),
{
    if k == 0 {
        MetricId::ReaderCopyY
    } else if k == 1 {
        MetricId::ReaderCopyU
    } else {
        MetricId::ReaderCopyV
    }
}

/// Turns a decoded picture into one with pixels of eight bits, for video of `depth` bits, shifted
/// down by `shift` bits. The time of making the picture and of copying each plane is taken. All
/// planes are copied before it is said which of them cannot be.
fn decode8<F: Fn() -> u128>(
    details: &VideoDetails,
    decoded: &DecodedPicture<'_>,
    depth: u8,
    shift: usize,
    clock: F,
    laps: &mut Vec<Lap>,
) -> (r: Result<Picture8, Error>)
    requires
        clock.requires(()),
        decodable8(details, decoded, depth, shift as int),
    ensures
        laps_taken(
            clock,
            old(laps)@,
            final(laps)@,
            decode_steps(details, decoded, depth, 1),
        ),
        match (r, decoded8(details, decoded, depth, shift as int)) {
            (Ok(picture), Ok(planes)) => planes8(picture) == planes && depth8(picture) == depth,
            (Err(e), Err(f)) => e == f,
            _ => false,
        },
{
    let ghost start = laps@;
    match check_size(details, depth) {
        Ok(()) => {},
        Err(e) => {
            return Err(e);
        },
    }
    proof {
        lemma_sizes(details.width as int, details.height as int, details.chroma_sampling);
    }
    let from: u128 = clock();
    let built: Result<Picture8, FrameFault> = new_picture8(
        details.width,
        details.height,
        details.chroma_sampling,
        depth,
    );
    finish_lap(laps, &clock, from, MetricId::ReaderBuildFrame);
    let ghost build = seq![MetricId::ReaderBuildFrame];
    proof {
        assert(build + Seq::<MetricId>::empty() =~= build);
        assert(build + copy_steps(0) =~= build);
    }
    let mut picture: Picture8 = match built {
        Ok(picture) => picture,
        Err(fault) => {
            return Err(Error::Frame { fault });
        },
    };
    let ghost sizes = picture_sizes(
        details.width as int,
        details.height as int,
        details.chroma_sampling,
        depth,
        1,
    )->Ok_0;
    let has_chroma: bool = match details.chroma_sampling {
        ChromaSubsampling::Monochrome => false,
        _ => true,
    };
    match check_strides(decoded, has_chroma) {
        Ok(()) => {},
        Err(e) => {
            return Err(e);
        },
    }
    let count: usize = if has_chroma {
        3
    } else {
        1
    };
    let mut k: usize = 0;
    let mut wrong: Option<Error> = None;
    assert(planes8(picture).take(0) =~= Seq::empty());
    while k < count
        invariant
            count == sizes.len(),
            count > 1 ==> decoded.chroma is Some,
            decodable8(details, decoded, depth, shift as int),
            frame_plan(details, decoded, depth, 1) == Ok::<Seq<(int, int)>, Error>(sizes),
            forall|i: int| 0 <= i < count ==> (#[trigger] decoded.plane(i)).stride > 0,
            forall|i: int| 0 <= i < count ==> (#[trigger] sizes[i]).0 > 0 && sizes[i].1 > 0,
            k <= count,
            depth8(picture) == depth,
            planes8(picture).len() == count,
            clock.requires(()),
            laps_taken(clock, start, laps@, build + copy_steps(k as nat)),
            picture8(decoded, sizes, shift as int, k as nat) == match wrong {
                None => Ok::<Seq<Seq<Seq<u8>>>, Error>(planes8(picture).take(k as int)),
                Some(e) => Err(e),
            },
            forall|i: int| k <= i < count ==> (#[trigger] planes8(picture)[i]) == blank8(sizes)[i],
        decreases count - k,
    {
        let plane: DecodedPlane<'_> = pick(decoded, k);
        let ghost before = planes8(picture);
        proof {
            assert(plane == decoded.plane(k as int));
            assert(sizes[k as int].0 > 0);
            assert(before[k as int].len() == sizes[k as int].1);
            assert(before[k as int][0].len() == sizes[k as int].0);
        }
        let from: u128 = clock();
        let ghost taken = laps@;
        let copied: Result<(), FrameFault> = copy_decoded_plane_to_u8(
            plane.data,
            plane.stride,
            &mut picture,
            k,
            shift,
        );
        finish_lap(laps, &clock, from, copy_step(k));
        match copied {
            Ok(()) => {},
            Err(fault) => {
                if wrong.is_none() {
                    wrong = Some(plane_error(k, fault));
                }
            },
        }
        proof {
            let after = planes8(picture);
            assert(after.take(k + 1) =~= before.take(k as int).push(after[k as int]));
            let sofar = build + copy_steps(k as nat);
            lemma_laps_add(clock, start, taken, laps@, sofar, seq![plane_step(k as int)]);
            assert(sofar + seq![plane_step(k as int)] =~= build + copy_steps((k + 1) as nat));
        }
        k = k + 1;
    }
    assert(planes8(picture).take(k as int) =~= planes8(picture));
    match wrong {
        Some(e) => Err(e),
        None => Ok(picture),
    }
}

/// The eight low bits of a bit depth.
fn low_bits(bit_depth: usize) -> (r: u8)
    ensures
        r == short_depth(bit_depth),
{
    (bit_depth % 256) as u8
}

/// Turns a decoded picture of a video with eight bits into one with pixels of eight bits.
pub fn decode_frame_8bit<F: Fn() -> u128>(
    details: &VideoDetails,
    decoded: &DecodedPicture<'_>,
    clock: F,
    laps: &mut Vec<Lap>,
) -> (r: Result<Picture8, Error>)
    requires
        clock.requires(()),
        decodable8(details, decoded, short_depth(details.bit_depth), 0),
    ensures
        laps_taken(
            clock,
            old(laps)@,
            final(laps)@,
            decode_steps(details, decoded, short_depth(details.bit_depth), 1),
        ),
        match (r, decoded8(details, decoded, short_depth(details.bit_depth), 0)) {
            (Ok(picture), Ok(planes)) => planes8(picture) == planes && depth8(picture)
                == short_depth(details.bit_depth),
            (Err(e), Err(f)) => e == f,
            _ => false,
        },
{
    decode8(details, decoded, low_bits(details.bit_depth), 0, clock, laps)
}

/// The bits that a video has more than eight.
pub open spec fn extra_bits(bit_depth: usize) -> int {
    if bit_depth >= 8 {
        bit_depth - 8
    } else {
        0
    }
}

/// Turns a decoded picture into one with pixels of eight bits, whatever the video has.
pub fn decode_frame_u8<F: Fn() -> u128>(
    details: &VideoDetails,
    decoded: &DecodedPicture<'_>,
    clock: F,
    laps: &mut Vec<Lap>,
) -> (r: Result<Picture8, Error>)
    requires
        clock.requires(()),
        decodable8(details, decoded, 8, extra_bits(details.bit_depth)),
    ensures
        laps_taken(
            clock,
            old(laps)@,
            final(laps)@,
            decode_steps(details, decoded, 8, 1),
        ),
        match (r, decoded8(details, decoded, 8, extra_bits(details.bit_depth))) {
            (Ok(picture), Ok(planes)) => planes8(picture) == planes && depth8(picture) == 8,
            (Err(e), Err(f)) => e == f,
            _ => false,
        },
{
    decode8(details, decoded, 8, details.bit_depth.saturating_sub(8), clock, laps)
}

/// Turns a decoded picture of a video with more than eight bits into one with pixels of sixteen
/// bits.
pub fn decode_frame_16bit<F: Fn() -> u128>(
    details: &VideoDetails,
    decoded: &DecodedPicture<'_>,
    clock: F,
    laps: &mut Vec<Lap>,
) -> (r: Result<Picture16, Error>)
    requires
        clock.requires(()),
        decodable16(details, decoded, short_depth(details.bit_depth)),
    ensures
        laps_taken(
            clock,
            old(laps)@,
            final(laps)@,
            decode_steps(details, decoded, short_depth(details.bit_depth), 2),
        ),
        match (r, decoded16(details, decoded, short_depth(details.bit_depth))) {
            (Ok(picture), Ok(planes)) => planes16(picture) == planes && depth16(picture)
                == short_depth(details.bit_depth),
            (Err(e), Err(f)) => e == f,
            _ => false,
        },
{
    let ghost start = laps@;
    let depth: u8 = low_bits(details.bit_depth);
    match check_size(details, depth) {
        Ok(()) => {},
        Err(e) => {
            return Err(e);
        },
    }
    proof {
        lemma_sizes(details.width as int, details.height as int, details.chroma_sampling);
    }
    let from: u128 = clock();
    let built: Result<Picture16, FrameFault> = new_picture16(
        details.width,
        details.height,
        details.chroma_sampling,
        depth,
    );
    finish_lap(laps, &clock, from, MetricId::ReaderBuildFrame);
    let ghost build = seq![MetricId::ReaderBuildFrame];
    proof {
        assert(build + Seq::<MetricId>::empty() =~= build);
        assert(build + copy_steps(0) =~= build);
    }
    let mut picture: Picture16 = match built {
        Ok(picture) => picture,
        Err(fault) => {
            return Err(Error::Frame { fault });
        },
    };
    let ghost sizes = picture_sizes(
        details.width as int,
        details.height as int,
        details.chroma_sampling,
        depth,
        2,
    )->Ok_0;
    let has_chroma: bool = match details.chroma_sampling {
        ChromaSubsampling::Monochrome => false,
        _ => true,
    };
    match check_strides(decoded, has_chroma) {
        Ok(()) => {},
        Err(e) => {
            return Err(e);
        },
    }
    let count: usize = if has_chroma {
        3
    } else {
        1
    };
    let mut k: usize = 0;
    let mut wrong: Option<Error> = None;
    assert(planes16(picture).take(0) =~= Seq::empty());
    while k < count
        invariant
            count == sizes.len(),
            depth == short_depth(details.bit_depth),
            count > 1 ==> decoded.chroma is Some,
            decodable16(details, decoded, depth),
            frame_plan(details, decoded, depth, 2) == Ok::<Seq<(int, int)>, Error>(sizes),
            forall|i: int| 0 <= i < count ==> (#[trigger] decoded.plane(i)).stride > 0,
            forall|i: int| 0 <= i < count ==> (#[trigger] sizes[i]).0 > 0 && sizes[i].1 > 0,
            k <= count,
            depth16(picture) == depth,
            planes16(picture).len() == count,
            clock.requires(()),
            laps_taken(clock, start, laps@, build + copy_steps(k as nat)),
            picture16(decoded, sizes, k as nat) == match wrong {
                None => Ok::<Seq<Seq<Seq<u16>>>, Error>(planes16(picture).take(k as int)),
                Some(e) => Err(e),
            },
            forall|i: int|
                k <= i < count ==> (#[trigger] planes16(picture)[i]) == blank16(sizes)[i],
        decreases count - k,
    {
        let plane: DecodedPlane<'_> = pick(decoded, k);
        let ghost before = planes16(picture);
        proof {
            assert(plane == decoded.plane(k as int));
            assert(sizes[k as int].0 > 0);
            assert(before[k as int].len() == sizes[k as int].1);
            assert(before[k as int][0].len() == sizes[k as int].0);
        }
        let from: u128 = clock();
        let ghost taken = laps@;
        let copied: Result<(), FrameFault> = copy16(&mut picture, k, plane.data, plane.stride);
        finish_lap(laps, &clock, from, copy_step(k));
        match copied {
            Ok(()) => {},
            Err(fault) => {
                if wrong.is_none() {
                    wrong = Some(plane_error(k, fault));
                }
            },
        }
        proof {
            let after = planes16(picture);
            assert(after.take(k + 1) =~= before.take(k as int).push(after[k as int]));
            let sofar = build + copy_steps(k as nat);
            lemma_laps_add(clock, start, taken, laps@, sofar, seq![plane_step(k as int)]);
            assert(sofar + seq![plane_step(k as int)] =~= build + copy_steps((k + 1) as nat));
        }
        k = k + 1;
    }
    assert(planes16(picture).take(k as int) =~= planes16(picture));
    match wrong {
        Some(e) => Err(e),
        None => Ok(picture),
    }
}

/// What becomes of a decoded picture before its planes are looked at.
enum Plan {
    /// The limits of the machine are run into, or chroma is missing.
    Impossible,
    /// The picture is refused.
    Refused,
    /// Planes of these sizes are to be filled.
    Sizes(Vec<(usize, usize)>),
}

/// Sizes, as specifications count.
spec fn size_ints(sizes: Seq<(usize, usize)>) -> Seq<(int, int)> {
    sizes.map_values(|size: (usize, usize)| (size.0 as int, size.1 as int))
}

/// What becomes of a decoded picture before its planes are looked at.
fn plan(details: &VideoDetails, decoded: &DecodedPicture<'_>, depth: u8, bytes: usize) -> (r: Plan)
    requires
        bytes == 1 || bytes == 2,
    ensures
        match r {
            Plan::Impossible => !frame_buildable(details, decoded, depth, bytes as int),
            Plan::Refused => frame_buildable(details, decoded, depth, bytes as int) && frame_plan(
                details,
                decoded,
                depth,
                bytes as int,
            ) is Err,
            Plan::Sizes(sizes) => frame_buildable(details, decoded, depth, bytes as int)
                && frame_plan(details, decoded, depth, bytes as int) == Ok::<
                Seq<(int, int)>,
                Error,
            >(size_ints(sizes@)) && (sizes@.len() > 1 ==> decoded.chroma is Some),
        },
{
    let (w, h): (usize, usize) = (details.width, details.height);
    if w == 0 || h == 0 || depth == 0 || depth < 8 || depth > 16 || (bytes == 1) != (depth == 8) {
        return Plan::Refused;
    }
    let mut sizes: Vec<(usize, usize)> = Vec::new();
    sizes.push((w, h));
    let has_chroma: bool = match details.chroma_sampling {
        ChromaSubsampling::Monochrome => false,
        ChromaSubsampling::Yuv420 => {
            if w % 2 != 0 || h % 2 != 0 {
                return Plan::Refused;
            }
            sizes.push((w / 2, h / 2));
            sizes.push((w / 2, h / 2));
            true
        },
        ChromaSubsampling::Yuv422 => {
            if w % 2 != 0 {
                return Plan::Refused;
            }
            sizes.push((w / 2, h));
            sizes.push((w / 2, h));
            true
        },
        ChromaSubsampling::Yuv444 => {
            sizes.push((w, h));
            sizes.push((w, h));
            true
        },
    };
    assert(picture_sizes(w as int, h as int, details.chroma_sampling, depth, bytes as int)->Ok_0
        =~= size_ints(sizes@));
    proof {
        assert(0 <= w * h <= 0xffff_ffff_ffff_ffff * 0xffff_ffff_ffff_ffff) by (nonlinear_arith)
            requires
                0 <= w <= 0xffff_ffff_ffff_ffff,
                0 <= h <= 0xffff_ffff_ffff_ffff,
        ;
    }
    let area: u128 = w as u128 * h as u128;
    let most: u128 = (isize::MAX - 63) as u128;
    let too_large: bool = if bytes == 1 {
        area > most
    } else {
        area > most / 2
    };
    proof {
        assert(w * h * 1 == w * h && w * h * 2 == 2 * (w * h)) by (nonlinear_arith);
        assert(too_large == !fits_memory(w as int, h as int, bytes as int));
    }
    if too_large || (has_chroma && decoded.luma.stride != 0 && decoded.chroma.is_none()) {
        return Plan::Impossible;
    }
    match check_strides(decoded, has_chroma) {
        Ok(()) => Plan::Sizes(sizes),
        Err(_) => Plan::Refused,
    }
}

/// Whether the length of rows is no more than a number can hold, and which one it is.
fn rows_len(stride: usize, height: usize) -> (r: Option<usize>)
    ensures
        match r {
            Some(len) => len == stride * height,
            None => stride * height > usize::MAX,
        },
{
    stride.checked_mul(height)
}

/// Whether the bytes of a plane can be copied without running into limits.
fn is_plane_copyable(plane: &DecodedPlane<'_>, width: usize, height: usize, shift: usize) -> (r:
    bool)
    ensures
        r == plane_copyable(
            plane.data@.len() as int,
            plane.stride as int,
            width as int,
            height as int,
            shift as int,
        ),
{
    let len: Option<usize> = rows_len(plane.stride, height);
    if shift == 0 {
        return plane.stride < width || len.is_some();
    }
    if width > usize::MAX / 2 {
        return false;
    }
    match len {
        Some(total) => total != plane.data.len() || (plane.stride / 2 >= width && shift < 16),
        None => false,
    }
}

/// Whether the bytes of a plane can be copied as pixels of two bytes without running into limits.
fn is_wide_copyable(plane: &DecodedPlane<'_>, width: usize, height: usize) -> (r: bool)
    ensures
        r == wide_copyable(
            plane.data@.len() as int,
            plane.stride as int,
            width as int,
            height as int,
        ),
{
    if width > usize::MAX / 2 {
        return false;
    }
    if plane.stride < width {
        return true;
    }
    match rows_len(plane.stride, height) {
        Some(total) => total != plane.data.len() || plane.stride / 2 >= width,
        None => false,
    }
}

/// Whether a decoded picture can be turned into one with pixels of eight bits without running
/// into limits.
fn is_decodable8(
    details: &VideoDetails,
    decoded: &DecodedPicture<'_>,
    depth: u8,
    shift: usize,
) -> (r: bool)
    ensures
        r == decodable8(details, decoded, depth, shift as int),
{
    let sizes: Vec<(usize, usize)> = match plan(details, decoded, depth, 1) {
        Plan::Impossible => {
            return false;
        },
        Plan::Refused => {
            return true;
        },
        Plan::Sizes(sizes) => sizes,
    };
    let ghost list = size_ints(sizes@);
    let mut k: usize = 0;
    while k < sizes.len()
        invariant
            list == size_ints(sizes@),
            frame_plan(details, decoded, depth, 1) == Ok::<Seq<(int, int)>, Error>(list),
            frame_buildable(details, decoded, depth, 1),
            sizes@.len() > 1 ==> decoded.chroma is Some,
            k <= sizes@.len(),
            forall|i: int|
                0 <= i < k ==> plane_copyable(
                    (#[trigger] decoded.plane(i)).data@.len() as int,
                    decoded.plane(i).stride as int,
                    list[i].0,
                    list[i].1,
                    shift as int,
                ),
        decreases sizes@.len() - k,
    {
        let plane: DecodedPlane<'_> = pick(decoded, k);
        assert(plane == decoded.plane(k as int));
        if !is_plane_copyable(&plane, sizes[k].0, sizes[k].1, shift) {
            return false;
        }
        k = k + 1;
    }
    true
}

/// Whether `decode_frame_8bit` can be asked for a picture.
pub fn can_decode_8bit(details: &VideoDetails, decoded: &DecodedPicture<'_>) -> (r: bool)
    ensures
        r == decodable8(details, decoded, short_depth(details.bit_depth), 0),
{
    is_decodable8(details, decoded, low_bits(details.bit_depth), 0)
}

/// Whether `decode_frame_u8` can be asked for a picture.
pub fn can_decode_u8(details: &VideoDetails, decoded: &DecodedPicture<'_>) -> (r: bool)
    ensures
        r == decodable8(details, decoded, 8, extra_bits(details.bit_depth)),
{
    is_decodable8(details, decoded, 8, details.bit_depth.saturating_sub(8))
}

/// Whether `decode_frame_16bit` can be asked for a picture.
pub fn can_decode_16bit(details: &VideoDetails, decoded: &DecodedPicture<'_>) -> (r: bool)
    ensures
        r == decodable16(details, decoded, short_depth(details.bit_depth)),
{
    let depth: u8 = low_bits(details.bit_depth);
    let sizes: Vec<(usize, usize)> = match plan(details, decoded, depth, 2) {
        Plan::Impossible => {
            return false;
        },
        Plan::Refused => {
            return true;
        },
        Plan::Sizes(sizes) => sizes,
    };
    let ghost list = size_ints(sizes@);
    let mut k: usize = 0;
    while k < sizes.len()
        invariant
            depth == short_depth(details.bit_depth),
            list == size_ints(sizes@),
            frame_plan(details, decoded, depth, 2) == Ok::<Seq<(int, int)>, Error>(list),
            frame_buildable(details, decoded, depth, 2),
            sizes@.len() > 1 ==> decoded.chroma is Some,
            k <= sizes@.len(),
            forall|i: int|
                0 <= i < k ==> wide_copyable(
                    (#[trigger] decoded.plane(i)).data@.len() as int,
                    decoded.plane(i).stride as int,
                    list[i].0,
                    list[i].1,
                ),
        decreases sizes@.len() - k,
    {
        let plane: DecodedPlane<'_> = pick(decoded, k);
        assert(plane == decoded.plane(k as int));
        if !is_wide_copyable(&plane, sizes[k].0, sizes[k].1) {
            return false;
        }
        k = k + 1;
    }
    true
}

} // verus!
