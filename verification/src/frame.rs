//! Pictures: planes of pixels, and how they are filled from what a decoder gives.
use crate::error::FrameFault;
use crate::video::ChromaSubsampling;
use av1_grain::v_frame::chroma::ChromaSubsampling as Sampling;
use av1_grain::v_frame::error::Error as FrameError;
use av1_grain::v_frame::frame::{Frame, FrameBuilder};
use std::num::{NonZeroU8, NonZeroUsize};
use vstd::arithmetic::power2::pow2;
use vstd::prelude::*;

verus! {

/// A picture with pixels of eight bits, held in a `v_frame::frame::Frame`.
#[verifier::external_body]
pub struct Picture8 {
    pub frame: Frame<u8>,
}

/// A picture with pixels of nine to sixteen bits, held in a `v_frame::frame::Frame`.
#[verifier::external_body]
pub struct Picture16 {
    pub frame: Frame<u16>,
}

/// The planes of a picture, each as the rows of its pixels from the top.
pub uninterp spec fn planes8(picture: Picture8) -> Seq<Seq<Seq<u8>>>;

/// The planes of a picture, each as the rows of its pixels from the top.
pub uninterp spec fn planes16(picture: Picture16) -> Seq<Seq<Seq<u16>>>;

/// The bit depth of a picture.
pub uninterp spec fn depth8(picture: Picture8) -> u8;

/// The bit depth of a picture.
pub uninterp spec fn depth16(picture: Picture16) -> u8;

/// The width and the height of the chroma planes; chroma that is sampled at half the width or
/// height has none where that is odd.
pub open spec fn chroma_size(width: int, height: int, sampling: ChromaSubsampling) -> Option<
    (int, int),
> {
    match sampling {
        ChromaSubsampling::Yuv420 => if width % 2 == 0 && height % 2 == 0 {
            Some((width / 2, height / 2))
        } else {
            None
        },
        ChromaSubsampling::Yuv422 => if width % 2 == 0 {
            Some((width / 2, height))
        } else {
            None
        },
        ChromaSubsampling::Yuv444 => Some((width, height)),
        ChromaSubsampling::Monochrome => None,
    }
}

/// The width and the height of every plane of a picture, or why there is no such picture.
pub open spec fn plane_sizes(width: int, height: int, sampling: ChromaSubsampling) -> Result<
    Seq<(int, int)>,
    FrameFault,
> {
    if sampling is Monochrome {
        Ok(seq![(width, height)])
    } else {
        match chroma_size(width, height, sampling) {
            Some(size) => Ok(seq![(width, height), size, size]),
            None => Err(FrameFault::UnsupportedResolution),
        }
    }
}

/// The width and the height of every plane of a picture with pixels of `bytes` bytes, or why there
/// is no such picture.
pub open spec fn picture_sizes(
    width: int,
    height: int,
    sampling: ChromaSubsampling,
    depth: u8,
    bytes: int,
) -> Result<Seq<(int, int)>, FrameFault> {
    if depth < 8 || depth > 16 {
        Err(FrameFault::UnsupportedBitDepth { depth })
    } else if (bytes == 1) != (depth == 8) {
        Err(FrameFault::DataTypeMismatch)
    } else {
        plane_sizes(width, height, sampling)
    }
}

/// The pixels of a picture take no more memory than there can be in one piece.
pub open spec fn fits_memory(width: int, height: int, bytes: int) -> bool {
    width * height * bytes <= isize::MAX - 63
}

/// Planes of these sizes in which every pixel is zero.
pub open spec fn blank8(sizes: Seq<(int, int)>) -> Seq<Seq<Seq<u8>>> {
    sizes.map_values(
        |size: (int, int)| Seq::new(size.1 as nat, |y: int| Seq::new(size.0 as nat, |x: int| 0u8)),
    )
}

/// Planes of these sizes in which every pixel is zero.
pub open spec fn blank16(sizes: Seq<(int, int)>) -> Seq<Seq<Seq<u16>>> {
    sizes.map_values(
        |size: (int, int)| Seq::new(size.1 as nat, |y: int| Seq::new(size.0 as nat, |x: int| 0u16)),
    )
}

/// `FrameBuilder::new` and `FrameBuilder::build`, for pixels of eight bits: a picture of zeros and
/// of the given depth, with a luma plane and, unless there is no chroma, two chroma planes. A depth out of range, a
/// depth of more than eight bits and a size that chroma cannot be sampled at are refused, in this
/// order. It panics where the pixels take more memory than there can be in one piece, which is
/// left out here.
#[verifier::external_body]
pub(crate) fn new_picture8(
    width: usize,
    height: usize,
    sampling: ChromaSubsampling,
    depth: u8,
) -> (r: Result<Picture8, FrameFault>)
    requires
        width > 0,
        height > 0,
        depth > 0,
        picture_sizes(width as int, height as int, sampling, depth, 1) is Ok ==> fits_memory(
            width as int,
            height as int,
            1,
        ),
    ensures
        match (r, picture_sizes(width as int, height as int, sampling, depth, 1)) {
            (Ok(picture), Ok(sizes)) => planes8(picture) == blank8(sizes) && depth8(picture)
                == depth,
            (Err(e), Err(f)) => e == f,
            _ => false,
        },
{
    let sampling = match sampling {
        ChromaSubsampling::Yuv420 => Sampling::Yuv420,
        ChromaSubsampling::Yuv422 => Sampling::Yuv422,
        ChromaSubsampling::Yuv444 => Sampling::Yuv444,
        ChromaSubsampling::Monochrome => Sampling::Monochrome,
    };
    let (w, h) = (NonZeroUsize::new(width).unwrap(), NonZeroUsize::new(height).unwrap());
    let built = FrameBuilder::new(w, h, sampling, NonZeroU8::new(depth).unwrap()).build();
    built.map(|frame| Picture8 { frame }).map_err(|e| match e {
        FrameError::UnsupportedBitDepth { found: depth } => FrameFault::UnsupportedBitDepth { depth },
        FrameError::DataTypeMismatch => FrameFault::DataTypeMismatch,
        FrameError::UnsupportedResolution => FrameFault::UnsupportedResolution,
        FrameError::DataLength { expected, found } => FrameFault::DataLength { expected, found },
        FrameError::InvalidStride { stride, width } => FrameFault::InvalidStride { stride, width },
    })
}

/// `FrameBuilder::new` and `FrameBuilder::build`, for pixels of sixteen bits, as for those of
/// eight; a depth of eight bits is refused here.
#[verifier::external_body]
pub(crate) fn new_picture16(
    width: usize,
    height: usize,
    sampling: ChromaSubsampling,
    depth: u8,
) -> (r: Result<Picture16, FrameFault>)
    requires
        width > 0,
        height > 0,
        depth > 0,
        picture_sizes(width as int, height as int, sampling, depth, 2) is Ok ==> fits_memory(
            width as int,
            height as int,
            2,
        ),
    ensures
        match (r, picture_sizes(width as int, height as int, sampling, depth, 2)) {
            (Ok(picture), Ok(sizes)) => planes16(picture) == blank16(sizes) && depth16(picture)
                == depth,
            (Err(e), Err(f)) => e == f,
            _ => false,
        },
{
    let sampling = match sampling {
        ChromaSubsampling::Yuv420 => Sampling::Yuv420,
        ChromaSubsampling::Yuv422 => Sampling::Yuv422,
        ChromaSubsampling::Yuv444 => Sampling::Yuv444,
        ChromaSubsampling::Monochrome => Sampling::Monochrome,
    };
    let (w, h) = (NonZeroUsize::new(width).unwrap(), NonZeroUsize::new(height).unwrap());
    let built = FrameBuilder::new(w, h, sampling, NonZeroU8::new(depth).unwrap()).build();
    built.map(|frame| Picture16 { frame }).map_err(|e| match e {
        FrameError::UnsupportedBitDepth { found: depth } => FrameFault::UnsupportedBitDepth { depth },
        FrameError::DataTypeMismatch => FrameFault::DataTypeMismatch,
        FrameError::UnsupportedResolution => FrameFault::UnsupportedResolution,
        FrameError::DataLength { expected, found } => FrameFault::DataLength { expected, found },
        FrameError::InvalidStride { stride, width } => FrameFault::InvalidStride { stride, width },
    })
}

/// Why bytes with rows of `stride` bytes cannot be copied into a plane.
pub open spec fn copy_fault(len: int, stride: int, width: int, height: int) -> Option<FrameFault> {
    if stride < width {
        Some(FrameFault::InvalidStride { stride: stride as usize, width: width as usize })
    } else if stride * height != len {
        Some(FrameFault::DataLength { expected: (stride * height) as usize, found: len as usize })
    } else {
        None
    }
}

/// The bytes of a plane with rows of `stride` bytes.
pub open spec fn byte_rows(src: Seq<u8>, stride: int, width: int, height: int) -> Seq<Seq<u8>> {
    Seq::new(height as nat, |y: int| Seq::new(width as nat, |x: int| src[y * stride + x]))
}

/// The little-endian number in the two bytes of a pixel.
pub open spec fn wide_pixel(src: Seq<u8>, stride: int, y: int, x: int) -> int {
    src[y * stride + 2 * x] + 256 * src[y * stride + 2 * x + 1]
}

/// The pixels of two bytes of a plane with rows of `stride` bytes.
pub open spec fn wide_rows(src: Seq<u8>, stride: int, width: int, height: int) -> Seq<Seq<u16>> {
    Seq::new(
        height as nat,
        |y: int| Seq::new(width as nat, |x: int| wide_pixel(src, stride, y, x) as u16),
    )
}

/// The pixels of two bytes of a plane with rows of `stride` bytes, shifted down to eight bits.
pub open spec fn shifted_rows(
    src: Seq<u8>,
    stride: int,
    width: int,
    height: int,
    shift: int,
) -> Seq<Seq<u8>> {
    Seq::new(
        height as nat,
        |y: int|
            Seq::new(
                width as nat,
                |x: int| (wide_pixel(src, stride, y, x) / pow2(shift as nat) as int % 256) as u8,
            ),
    )
}

/// `Frame::plane_mut` and `Plane::copy_from_u8_slice_with_stride`, for pixels of eight bits:
/// fills a plane from rows of `stride` bytes. A stride shorter than the plane is wide and a length
/// that is not that of the rows are refused, in this order. The other planes and the bit depth stay
/// as they are. It panics where that length cannot be computed, which is left out here.
#[verifier::external_body]
fn copy8(picture: &mut Picture8, plane: usize, src: &[u8], stride: usize) -> (r: Result<
    (),
    FrameFault,
>)
    requires
        plane < planes8(*old(picture)).len(),
        stride > 0,
        stride >= planes8(*old(picture))[plane as int][0].len() ==> stride * planes8(
            *old(picture),
        )[plane as int].len() <= usize::MAX,
    ensures
        depth8(*final(picture)) == depth8(*old(picture)),
        ({
            let rows = planes8(*old(picture))[plane as int];
            let (w, h) = (rows[0].len() as int, rows.len() as int);
            match (r, copy_fault(src@.len() as int, stride as int, w, h)) {
                (Ok(()), None) => planes8(*final(picture)) == planes8(*old(picture)).update(
                    plane as int,
                    byte_rows(src@, stride as int, w, h),
                ),
                (Err(e), Some(f)) => e == f && planes8(*final(picture)) == planes8(*old(picture)),
                _ => false,
            }
        }),
{
    let plane = picture.frame.plane_mut(plane).unwrap();
    let done = plane.copy_from_u8_slice_with_stride(src, NonZeroUsize::new(stride).unwrap());
    done.map_err(|e| match e {
        FrameError::UnsupportedBitDepth { found: depth } => FrameFault::UnsupportedBitDepth { depth },
        FrameError::DataTypeMismatch => FrameFault::DataTypeMismatch,
        FrameError::UnsupportedResolution => FrameFault::UnsupportedResolution,
        FrameError::DataLength { expected, found } => FrameFault::DataLength { expected, found },
        FrameError::InvalidStride { stride, width } => FrameFault::InvalidStride { stride, width },
    })
}

/// `Frame::plane_mut` and `Plane::copy_from_u8_slice_with_stride`, for pixels of sixteen bits,
/// which are read as little-endian pairs of bytes, and otherwise as for those of eight. It panics
/// too where a stride is long enough for the pixels but not for their bytes, which is left out
/// here.
#[verifier::external_body]
pub(crate) fn copy16(
    picture: &mut Picture16,
    plane: usize,
    src: &[u8],
    stride: usize,
) -> (r: Result<(), FrameFault>)
    requires
        plane < planes16(*old(picture)).len(),
        stride > 0,
        ({
            let rows = planes16(*old(picture))[plane as int];
            let (w, h) = (rows[0].len() as int, rows.len() as int);
            &&& 2 * w <= usize::MAX
            &&& stride >= w ==> stride * h <= usize::MAX
            &&& stride >= w && stride * h == src@.len() ==> stride >= 2 * w
        }),
    ensures
        depth16(*final(picture)) == depth16(*old(picture)),
        ({
            let rows = planes16(*old(picture))[plane as int];
            let (w, h) = (rows[0].len() as int, rows.len() as int);
            match (r, copy_fault(src@.len() as int, stride as int, w, h)) {
                (Ok(()), None) => planes16(*final(picture)) == planes16(*old(picture)).update(
                    plane as int,
                    wide_rows(src@, stride as int, w, h),
                ),
                (Err(e), Some(f)) => e == f && planes16(*final(picture)) == planes16(*old(picture)),
                _ => false,
            }
        }),
{
    let plane = picture.frame.plane_mut(plane).unwrap();
    let done = plane.copy_from_u8_slice_with_stride(src, NonZeroUsize::new(stride).unwrap());
    done.map_err(|e| match e {
        FrameError::UnsupportedBitDepth { found: depth } => FrameFault::UnsupportedBitDepth { depth },
        FrameError::DataTypeMismatch => FrameFault::DataTypeMismatch,
        FrameError::UnsupportedResolution => FrameFault::UnsupportedResolution,
        FrameError::DataLength { expected, found } => FrameFault::DataLength { expected, found },
        FrameError::InvalidStride { stride, width } => FrameFault::InvalidStride { stride, width },
    })
}

/// `Frame::plane` and `Plane::width`: the number of pixels in every row of a plane, which is not
/// zero.
#[verifier::external_body]
fn plane_width(picture: &Picture8, plane: usize) -> (r: usize)
    requires
        plane < planes8(*picture).len(),
    ensures
        r > 0,
        forall|y: int|
            0 <= y < planes8(*picture)[plane as int].len() ==> (#[trigger] planes8(
                *picture,
            )[plane as int][y]).len() == r,
{
    picture.frame.plane(plane).unwrap().width().get()
}

/// `Frame::plane` and `Plane::height`: the number of rows of a plane, which is not zero.
#[verifier::external_body]
fn plane_height(picture: &Picture8, plane: usize) -> (r: usize)
    requires
        plane < planes8(*picture).len(),
    ensures
        r > 0,
        r == planes8(*picture)[plane as int].len(),
{
    picture.frame.plane(plane).unwrap().height().get()
}

/// `Frame::plane_mut` and `Plane::row_mut`: the pixels of a row of a plane, to be changed. The
/// bit depth and all other rows stay as they are.
#[verifier::external_body]
fn row_mut(picture: &mut Picture8, plane: usize, y: usize) -> (r: &mut [u8])
    requires
        plane < planes8(*old(picture)).len(),
        y < planes8(*old(picture))[plane as int].len(),
    ensures
        r@ == planes8(*old(picture))[plane as int][y as int],
        depth8(*final(picture)) == depth8(*old(picture)),
        planes8(*final(picture)) == planes8(*old(picture)).update(
            plane as int,
            planes8(*old(picture))[plane as int].update(y as int, final(r)@),
        ),
{
    picture.frame.plane_mut(plane).unwrap().row_mut(y).unwrap()
}

/// The bytes of a plane can be copied without running into the limits of the machine or past
/// their end.
pub open spec fn plane_copyable(
    len: int,
    stride: int,
    width: int,
    height: int,
    shift: int,
) -> bool {
    if shift == 0 {
        stride >= width ==> stride * height <= usize::MAX
    } else {
        &&& 2 * width <= usize::MAX
        &&& stride * height <= usize::MAX
        &&& stride * height == len ==> stride >= 2 * width && shift < 16
    }
}

/// What a plane with pixels of eight bits becomes when it is filled from a decoder's plane.
pub open spec fn filled_rows(
    src: Seq<u8>,
    stride: int,
    width: int,
    height: int,
    shift: int,
) -> Result<Seq<Seq<u8>>, FrameFault> {
    if shift == 0 {
        match copy_fault(src.len() as int, stride, width, height) {
            Some(f) => Err(f),
            None => Ok(byte_rows(src, stride, width, height)),
        }
    } else if stride * height != src.len() {
        Err(
            FrameFault::DataLength {
                expected: (stride * height) as usize,
                found: src.len() as usize,
            },
        )
    } else {
        Ok(shifted_rows(src, stride, width, height, shift))
    }
}

/// A pixel of two bytes, shifted down to eight bits.
fn shifted_pixel(low: u8, high: u8, shift: usize) -> (r: u8)
    requires
        shift < 16,
    ensures
        r == (low + 256 * high) / pow2(shift as nat) as int % 256,
{
    let v: u32 = low as u32 + 256 * (high as u32);
    let s: u32 = shift as u32;
    proof {
        vstd::bits::lemma_u32_shr_is_div(v, s);
    }
    let shifted: u32 = v >> s;
    (shifted % 256) as u8
}

/// Fills a plane with pixels of eight bits from a decoder's plane with rows of `input_stride`
/// bytes. With a shift the decoder's pixels are of two bytes, and are shifted down.
pub fn copy_decoded_plane_to_u8(
    src: &[u8],
    input_stride: usize,
    picture: &mut Picture8,
    plane: usize,
    shift: usize,
) -> (r: Result<(), FrameFault>)
    requires
        plane < planes8(*old(picture)).len(),
        input_stride > 0,
        plane_copyable(
            src@.len() as int,
            input_stride as int,
            planes8(*old(picture))[plane as int][0].len() as int,
            planes8(*old(picture))[plane as int].len() as int,
            shift as int,
        ),
    ensures
        depth8(*final(picture)) == depth8(*old(picture)),
        match (
            r,
            filled_rows(
                src@,
                input_stride as int,
                planes8(*old(picture))[plane as int][0].len() as int,
                planes8(*old(picture))[plane as int].len() as int,
                shift as int,
            ),
        ) {
            (Ok(()), Ok(rows)) => planes8(*final(picture)) == planes8(*old(picture)).update(
                plane as int,
                rows,
            ),
            (Err(e), Err(f)) => e == f && planes8(*final(picture)) == planes8(*old(picture)),
            _ => false,
        },
{
    if shift == 0 {
        return copy8(picture, plane, src, input_stride);
    }
    let ghost before = planes8(*picture);
    let ghost depth = depth8(*picture);
    let width: usize = plane_width(picture, plane);
    let height: usize = plane_height(picture, plane);
    assert(before[plane as int][0].len() == width);
    let byte_count: usize = input_stride * height;
    let total: usize = src.len();
    if byte_count != total {
        return Err(FrameFault::DataLength { expected: byte_count, found: total });
    }
    let ghost wanted = shifted_rows(
        src@,
        input_stride as int,
        width as int,
        height as int,
        shift as int,
    );
    let mut y: usize = 0;
    while y < height
        invariant
            plane < before.len(),
            before[plane as int].len() == height,
            forall|i: int| 0 <= i < height ==> (#[trigger] before[plane as int][i]).len() == width,
            0 < shift < 16,
            input_stride * height == src@.len(),
            total == src@.len(),
            input_stride >= 2 * width,
            wanted == shifted_rows(
                src@,
                input_stride as int,
                width as int,
                height as int,
                shift as int,
            ),
            y <= height,
            depth8(*picture) == depth,
            planes8(*picture).len() == before.len(),
            planes8(*picture)[plane as int].len() == height,
            forall|i: int|
                0 <= i < y ==> (#[trigger] planes8(*picture)[plane as int][i]) == wanted[i],
            forall|i: int|
                y <= i < height ==> (#[trigger] planes8(*picture)[plane as int][i])
                    == before[plane as int][i],
            forall|p: int|
                0 <= p < before.len() && p != plane ==> (#[trigger] planes8(*picture)[p])
                    == before[p],
        decreases height - y,
    {
        proof {
            assert(y * input_stride + input_stride <= height * input_stride) by (nonlinear_arith)
                requires
                    0 <= y < height,
                    input_stride >= 0,
            ;
            assert(height * input_stride == input_stride * height) by (nonlinear_arith);
            assert(0 <= y * input_stride) by (nonlinear_arith);
        }
        let src_offset: usize = y * input_stride;
        let ghost planes = planes8(*picture);
        let row: &mut [u8] = row_mut(picture, plane, y);
        assert(row@.len() == width);
        let mut x: usize = 0;
        while x < width
            invariant
                0 < shift < 16,
                x <= width,
                row@.len() == width,
                src_offset == y * input_stride,
                src_offset + 2 * width <= total,
                total == src@.len(),
                forall|i: int|
                    0 <= i < x ==> row@[i] == (wide_pixel(src@, input_stride as int, y as int, i)
                        / pow2(shift as nat) as int % 256) as u8,
            decreases width - x,
        {
            let at: usize = src_offset + 2 * x;
            row[x] = shifted_pixel(src[at], src[at + 1], shift);
            x = x + 1;
        }
        assert(row@ =~= wanted[y as int]);
        y = y + 1;
    }
    proof {
        assert(planes8(*picture)[plane as int] =~= wanted);
        assert(planes8(*picture) =~= before.update(plane as int, wanted));
    }
    Ok(())
}

} // verus!
