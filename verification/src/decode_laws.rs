//! What a picture shows of what a decoder gave.
use crate::decode::{
    copy_error, decodable16, decodable8, decode_steps, decoded16, decoded8, extra_bits, frame_plan,
    picture16, picture8, plane16, plane8, short_depth, wide_copyable, DecodedPicture,
    DecodedPlane,
};
use crate::error::{Error, FrameFault};
use crate::frame::plane_copyable;
use crate::profile::MetricId;
use crate::video::VideoDetails;
use vstd::arithmetic::div_mod::{lemma_fundamental_div_mod, lemma_mod_multiples_vanish};
use vstd::arithmetic::power2::{lemma_pow2_pos, pow2};
use vstd::prelude::*;

verus! {

/// The width of a plane of a picture: chroma has half of it unless it is sampled in full.
pub open spec fn plane_width(details: &VideoDetails, k: int) -> int {
    if k == 0 || details.chroma_sampling is Yuv444 {
        details.width as int
    } else {
        details.width as int / 2
    }
}

/// The height of a plane of a picture: chroma has half of it where it is sampled at half the
/// height.
pub open spec fn plane_height(details: &VideoDetails, k: int) -> int {
    if k > 0 && details.chroma_sampling is Yuv420 {
        details.height as int / 2
    } else {
        details.height as int
    }
}

/// The number of planes of a picture.
pub open spec fn plane_count(details: &VideoDetails) -> int {
    if details.chroma_sampling is Monochrome {
        1
    } else {
        3
    }
}

/// The plane that a decoder gave for a plane of a picture.
pub open spec fn given_plane<'a>(decoded: &DecodedPicture<'a>, k: int) -> DecodedPlane<'a> {
    match decoded.chroma {
        Some((u, v)) => if k == 0 {
            decoded.luma
        } else if k == 1 {
            u
        } else {
            v
        },
        None => decoded.luma,
    }
}

/// The number in the two bytes of a pixel, of which the first is the lower one.
pub open spec fn pixel_of_two(plane: DecodedPlane<'_>, y: int, x: int) -> int {
    plane.data@[y * plane.stride + 2 * x] + 256 * plane.data@[y * plane.stride + 2 * x + 1]
}

/// The planes of a picture with pixels of eight bits.
proof fn lemma_planes8(
    decoded: &DecodedPicture<'_>,
    sizes: Seq<(int, int)>,
    shift: int,
    n: nat,
)
    ensures
        picture8(decoded, sizes, shift, n) matches Ok(planes) ==> {
            &&& planes.len() == n
            &&& forall|k: int|
                0 <= k < n ==> plane8(decoded, sizes, shift, k) == Ok::<
                    Seq<Seq<u8>>,
                    FrameFault,
                >(#[trigger] planes[k])
        },
        (forall|k: int| 0 <= k < n ==> (#[trigger] plane8(decoded, sizes, shift, k)) is Ok)
            ==> picture8(decoded, sizes, shift, n) is Ok,
    decreases n,
{
    if n > 0 {
        lemma_planes8(decoded, sizes, shift, (n - 1) as nat);
    }
}

/// The planes of a picture with pixels of sixteen bits.
proof fn lemma_planes16(decoded: &DecodedPicture<'_>, sizes: Seq<(int, int)>, n: nat)
    ensures
        picture16(decoded, sizes, n) matches Ok(planes) ==> {
            &&& planes.len() == n
            &&& forall|k: int|
                0 <= k < n ==> plane16(decoded, sizes, k) == Ok::<
                    Seq<Seq<u16>>,
                    FrameFault,
                >(#[trigger] planes[k])
        },
        (forall|k: int| 0 <= k < n ==> (#[trigger] plane16(decoded, sizes, k)) is Ok) ==> picture16(
            decoded,
            sizes,
            n,
        ) is Ok,
    decreases n,
{
    if n > 0 {
        lemma_planes16(decoded, sizes, (n - 1) as nat);
    }
}

/// What is left of a number when its lower bits are shifted out.
proof fn lemma_shifted(v: int, shift: nat)
    requires
        0 <= v,
    ensures
        ({
            let r = v / (pow2(shift) as int) % 256;
            &&& 0 <= r < 256
            &&& v < 256 * pow2(shift) ==> r * pow2(shift) <= v < (r + 1) * pow2(shift)
            &&& (v - r * pow2(shift)) % (256 * pow2(shift) as int) < pow2(shift)
        }),
{
    lemma_pow2_pos(shift);
    let p = pow2(shift) as int;
    let a = v / p;
    let b = v % p;
    let r = a % 256;
    let q = a / 256;
    lemma_fundamental_div_mod(v, p);
    assert(a >= 0) by (nonlinear_arith)
        requires
            v >= 0,
            p > 0,
            a == v / p,
    ;
    assert(v - r * p == (256 * p) * q + b) by (nonlinear_arith)
        requires
            v == p * a + b,
            a == 256 * q + r,
    ;
    lemma_mod_multiples_vanish(q, b, 256 * p);
    assert(b < 256 * p);
    assert(b % (256 * p) == b) by {
        vstd::arithmetic::div_mod::lemma_small_mod(b as nat, (256 * p) as nat);
    }
    if v < 256 * p {
        assert(q == 0) by (nonlinear_arith)
            requires
                v == p * a + b,
                a == 256 * q + r,
                0 <= b,
                0 <= r,
                v < 256 * p,
                p > 0,
                q >= 0,
        ;
        assert(r * p <= v < (r + 1) * p) by (nonlinear_arith)
            requires
                v == p * a + b,
                a == r,
                0 <= b < p,
        ;
    }
}

/// The sizes of the planes of a picture that can be made.
proof fn lemma_plan(details: &VideoDetails, decoded: &DecodedPicture<'_>, depth: u8, bytes: int)
    requires
        frame_plan(details, decoded, depth, bytes) is Ok,
        details.chroma_sampling is Monochrome || decoded.chroma is Some,
    ensures
        ({
            let sizes = frame_plan(details, decoded, depth, bytes)->Ok_0;
            &&& sizes.len() == plane_count(details)
            &&& forall|k: int|
                0 <= k < sizes.len() ==> #[trigger] sizes[k] == (
                    plane_width(details, k),
                    plane_height(details, k),
                ) && decoded.plane(k) == given_plane(decoded, k)
        }),
{
}

/// Law: a picture with pixels of eight bits has a luma plane and, unless there is no chroma, two
/// planes of chroma, in this order, each of its size. Where nothing is shifted out, a pixel is the
/// byte of its plane, row and column. Otherwise it is the number in two bytes, in the order from
/// low to high, with that many low bits left out, and of more than eight bits the low ones.
pub proof fn law_pixels_of_eight_bits(
    details: &VideoDetails,
    decoded: &DecodedPicture<'_>,
    depth: u8,
    shift: int,
    k: int,
    y: int,
    x: int,
)
    requires
        decoded8(details, decoded, depth, shift) is Ok,
        decodable8(details, decoded, depth, shift),
        shift >= 0,
    ensures
        ({
            let planes = decoded8(details, decoded, depth, shift)->Ok_0;
            let plane = given_plane(decoded, k);
            let stride = plane.stride as int;
            &&& planes.len() == plane_count(details)
            &&& 0 <= k < planes.len() ==> planes[k].len() == plane_height(details, k)
            &&& 0 <= k < planes.len() && 0 <= y < planes[k].len() ==> planes[k][y].len()
                == plane_width(details, k)
            &&& 0 <= k < planes.len() && 0 <= y < planes[k].len() && 0 <= x < planes[k][y].len()
                ==> {
                let r = planes[k][y][x];
                let v = pixel_of_two(plane, y, x);
                let unit = pow2(shift as nat) as int;
                &&& shift == 0 ==> r == plane.data@[y * stride + x]
                &&& shift > 0 && v < 256 * unit ==> r * unit <= v < (r + 1) * unit
                &&& shift > 0 ==> (v - r * unit) % (256 * unit) < unit
            }
        }),
{
    lemma_plan(details, decoded, depth, 1);
    let sizes = frame_plan(details, decoded, depth, 1)->Ok_0;
    let planes = decoded8(details, decoded, depth, shift)->Ok_0;
    lemma_planes8(decoded, sizes, shift, sizes.len());
    if 0 <= k < planes.len() && 0 <= y < planes[k].len() && 0 <= x < planes[k][y].len() {
        assert(sizes[k] == (plane_width(details, k), plane_height(details, k)));
        assert(plane8(decoded, sizes, shift, k) is Ok);
        let v = pixel_of_two(given_plane(decoded, k), y, x);
        lemma_shifted(v, shift as nat);
    } else if 0 <= k < planes.len() {
        assert(sizes[k] == (plane_width(details, k), plane_height(details, k)));
        assert(plane8(decoded, sizes, shift, k) is Ok);
    }
}

/// Law: a picture with pixels of sixteen bits has a luma plane and, unless there is no chroma, two
/// planes of chroma, in this order, each of its size. A pixel is the number in two bytes of its
/// plane, row and column, in the order from low to high.
pub proof fn law_pixels_of_sixteen_bits(
    details: &VideoDetails,
    decoded: &DecodedPicture<'_>,
    depth: u8,
    k: int,
    y: int,
    x: int,
)
    requires
        decoded16(details, decoded, depth) is Ok,
        decodable16(details, decoded, depth),
    ensures
        ({
            let planes = decoded16(details, decoded, depth)->Ok_0;
            &&& planes.len() == plane_count(details)
            &&& 0 <= k < planes.len() ==> planes[k].len() == plane_height(details, k)
            &&& 0 <= k < planes.len() && 0 <= y < planes[k].len() ==> planes[k][y].len()
                == plane_width(details, k)
            &&& 0 <= k < planes.len() && 0 <= y < planes[k].len() && 0 <= x < planes[k][y].len()
                ==> planes[k][y][x] == pixel_of_two(given_plane(decoded, k), y, x)
        }),
{
    lemma_plan(details, decoded, depth, 2);
    let sizes = frame_plan(details, decoded, depth, 2)->Ok_0;
    let planes = decoded16(details, decoded, depth)->Ok_0;
    lemma_planes16(decoded, sizes, sizes.len());
    if 0 <= k < planes.len() {
        assert(sizes[k] == (plane_width(details, k), plane_height(details, k)));
        assert(plane16(decoded, sizes, k) == Ok::<Seq<Seq<u16>>, FrameFault>(planes[k]));
    }
}

/// The rows of a decoder's plane are long enough and are all there.
pub open spec fn rows_given(
    details: &VideoDetails,
    decoded: &DecodedPicture<'_>,
    k: int,
) -> bool {
    let plane = given_plane(decoded, k);
    &&& plane.stride > 0
    &&& plane.stride >= plane_width(details, k)
    &&& plane.stride * plane_height(details, k) == plane.data@.len()
}

/// Law: a picture can be made exactly where it has a width and a height that chroma can be sampled
/// at and a depth that its pixels can have, and every plane that it needs is given with rows that
/// are long enough and are all there.
pub proof fn law_picture_made(
    details: &VideoDetails,
    decoded: &DecodedPicture<'_>,
    depth: u8,
    shift: int,
)
    requires
        shift == 0 || decodable8(details, decoded, depth, shift),
        details.chroma_sampling is Monochrome || decoded.chroma is Some,
    ensures
        ({
            let sampling = details.chroma_sampling;
            let even_width = sampling is Monochrome || sampling is Yuv444 || details.width % 2 == 0;
            let even_height = !(sampling is Yuv420) || details.height % 2 == 0;
            let sized = details.width > 0 && details.height > 0 && even_width && even_height;
            let given = forall|k: int|
                0 <= k < plane_count(details) ==> #[trigger] rows_given(details, decoded, k);
            &&& decoded8(details, decoded, depth, shift) is Ok <==> sized && depth == 8 && given
            &&& decoded16(details, decoded, depth) is Ok <==> sized && 9 <= depth <= 16 && given
        }),
{
    let n = plane_count(details);
    if frame_plan(details, decoded, depth, 1) is Ok {
        lemma_plan(details, decoded, depth, 1);
        let sizes = frame_plan(details, decoded, depth, 1)->Ok_0;
        lemma_planes8(decoded, sizes, shift, sizes.len());
        assert forall|k: int| 0 <= k < n implies rows_given(details, decoded, k) == (
        #[trigger] plane8(decoded, sizes, shift, k)) is Ok by {
            assert(sizes[k] == (plane_width(details, k), plane_height(details, k)));
            assert(decoded.plane(k) == given_plane(decoded, k));
        }
        if decoded8(details, decoded, depth, shift) is Ok {
            let planes = decoded8(details, decoded, depth, shift)->Ok_0;
            assert forall|k: int| 0 <= k < n implies #[trigger] rows_given(
                details,
                decoded,
                k,
            ) by {
                assert(plane8(decoded, sizes, shift, k) == Ok::<
                    Seq<Seq<u8>>,
                    FrameFault,
                >(planes[k]));
            }
        }
    }
    if frame_plan(details, decoded, depth, 2) is Ok {
        lemma_plan(details, decoded, depth, 2);
        let sizes = frame_plan(details, decoded, depth, 2)->Ok_0;
        lemma_planes16(decoded, sizes, sizes.len());
        assert forall|k: int| 0 <= k < n implies rows_given(details, decoded, k) == (
        #[trigger] plane16(decoded, sizes, k)) is Ok by {
            assert(sizes[k] == (plane_width(details, k), plane_height(details, k)));
        }
        if decoded16(details, decoded, depth) is Ok {
            let planes = decoded16(details, decoded, depth)->Ok_0;
            assert forall|k: int| 0 <= k < n implies #[trigger] rows_given(
                details,
                decoded,
                k,
            ) by {
                assert(plane16(decoded, sizes, k) == Ok::<
                    Seq<Seq<u16>>,
                    FrameFault,
                >(planes[k]));
            }
        }
    }
    assert(rows_given(details, decoded, 0) ==> decoded.plane(0).stride > 0);
    if n == 3 {
        assert(rows_given(details, decoded, 1) ==> decoded.plane(1).stride > 0);
        assert(rows_given(details, decoded, 2) ==> decoded.plane(2).stride > 0);
    }
}

/// Law: a picture is refused for the first of these reasons: no width, no height or no depth; a
/// depth out of range or for the other size of pixels; a size that chroma cannot be sampled at;
/// and a plane without a stride, luma first. Nothing else is wrong with it before its planes are
/// copied.
pub proof fn law_picture_refused(
    details: &VideoDetails,
    decoded: &DecodedPicture<'_>,
    depth: u8,
    bytes: int,
)
    requires
        details.chroma_sampling is Monochrome || decoded.chroma is Some,
        bytes == 1 || bytes == 2,
    ensures
        ({
            let r = frame_plan(details, decoded, depth, bytes);
            let sampling = details.chroma_sampling;
            let odd = (details.width % 2 == 1 && (sampling is Yuv420 || sampling is Yuv422)) || (
            details.height % 2 == 1 && sampling is Yuv420);
            if details.width == 0 {
                r == told(Error::ZeroWidth)
            } else if details.height == 0 {
                r == told(Error::ZeroHeight)
            } else if depth == 0 {
                r == told(Error::ZeroBitDepth)
            } else if depth < 8 || depth > 16 {
                r == told(Error::Frame { fault: FrameFault::UnsupportedBitDepth { depth } })
            } else if (depth == 8 && bytes == 2) || (depth > 8 && bytes == 1) {
                r == told(Error::Frame { fault: FrameFault::DataTypeMismatch })
            } else if odd {
                r == told(Error::Frame { fault: FrameFault::UnsupportedResolution })
            } else if decoded.luma.stride == 0 {
                r == told(Error::ZeroLumaStride)
            } else if !(sampling is Monochrome) && given_plane(decoded, 1).stride == 0 {
                r == told(Error::ZeroUStride)
            } else if !(sampling is Monochrome) && given_plane(decoded, 2).stride == 0 {
                r == told(Error::ZeroVStride)
            } else {
                r is Ok
            }
        }),
{
}

/// A reason why no planes can be filled.
pub open spec fn told(e: Error) -> Result<Seq<(int, int)>, Error> {
    Err(e)
}

/// What is told of a plane that cannot be copied.
pub open spec fn plane_told(k: int, e: Error, fault: FrameFault) -> bool {
    &&& k == 0 ==> e == (Error::LumaCopy { fault })
    &&& k == 1 ==> e == (Error::UCopy { fault })
    &&& k == 2 ==> e == (Error::VCopy { fault })
}

/// Law: of the planes that cannot be copied the first one, at `k`, is told of, luma in front of the
/// two of chroma. Where bytes are pixels, a stride that is too short comes first; otherwise the
/// bytes are not as many as the rows take.
pub proof fn law_first_plane_told(
    details: &VideoDetails,
    decoded: &DecodedPicture<'_>,
    depth: u8,
    shift: int,
    k: int,
)
    requires
        details.chroma_sampling is Monochrome || decoded.chroma is Some,
        0 <= k < plane_count(details),
        forall|i: int| 0 <= i < k ==> #[trigger] rows_given(details, decoded, i),
    ensures
        ({
            let plane = given_plane(decoded, k);
            let stride = plane.stride as int;
            let short = stride < plane_width(details, k);
            let expected = stride * plane_height(details, k);
            let found = plane.data@.len() as int;
            let too_short = FrameFault::InvalidStride {
                stride: plane.stride,
                width: plane_width(details, k) as usize,
            };
            let other_length = FrameFault::DataLength {
                expected: expected as usize,
                found: found as usize,
            };
            &&& frame_plan(details, decoded, depth, 1) is Ok ==> {
                let r = decoded8(details, decoded, depth, shift);
                &&& shift == 0 && short ==> (r matches Err(e) && plane_told(k, e, too_short))
                &&& (shift != 0 || !short) && expected != found ==> (r matches Err(e)
                    && plane_told(k, e, other_length))
            }
            &&& frame_plan(details, decoded, depth, 2) is Ok ==> {
                let r = decoded16(details, decoded, depth);
                &&& short ==> (r matches Err(e) && plane_told(k, e, too_short))
                &&& !short && expected != found ==> (r matches Err(e) && plane_told(
                    k,
                    e,
                    other_length,
                ))
            }
        }),
{
    if frame_plan(details, decoded, depth, 1) is Ok {
        lemma_plan(details, decoded, depth, 1);
        let sizes = frame_plan(details, decoded, depth, 1)->Ok_0;
        assert(sizes[k] == (plane_width(details, k), plane_height(details, k)));
        assert forall|i: int| 0 <= i < k implies (#[trigger] plane8(
            decoded,
            sizes,
            shift,
            i,
        )) is Ok by {
            assert(sizes[i] == (plane_width(details, i), plane_height(details, i)));
            assert(rows_given(details, decoded, i));
        }
        lemma_first_fault8(decoded, sizes, shift, k, sizes.len());
    }
    if frame_plan(details, decoded, depth, 2) is Ok {
        lemma_plan(details, decoded, depth, 2);
        let sizes = frame_plan(details, decoded, depth, 2)->Ok_0;
        assert(sizes[k] == (plane_width(details, k), plane_height(details, k)));
        assert forall|i: int| 0 <= i < k implies (#[trigger] plane16(decoded, sizes, i)) is Ok by {
            assert(sizes[i] == (plane_width(details, i), plane_height(details, i)));
            assert(rows_given(details, decoded, i));
        }
        lemma_first_fault16(decoded, sizes, k, sizes.len());
    }
}

/// The first plane that cannot be copied decides.
proof fn lemma_first_fault8(
    decoded: &DecodedPicture<'_>,
    sizes: Seq<(int, int)>,
    shift: int,
    k: int,
    n: nat,
)
    requires
        0 <= k < n,
        forall|i: int| 0 <= i < k ==> (#[trigger] plane8(decoded, sizes, shift, i)) is Ok,
    ensures
        plane8(decoded, sizes, shift, k) matches Err(fault) ==> picture8(decoded, sizes, shift, n)
            == Err::<Seq<Seq<Seq<u8>>>, Error>(copy_error(k, fault)),
    decreases n,
{
    if k < n - 1 {
        lemma_first_fault8(decoded, sizes, shift, k, (n - 1) as nat);
    } else {
        lemma_planes8(decoded, sizes, shift, k as nat);
    }
}

/// The first plane that cannot be copied decides.
proof fn lemma_first_fault16(
    decoded: &DecodedPicture<'_>,
    sizes: Seq<(int, int)>,
    k: int,
    n: nat,
)
    requires
        0 <= k < n,
        forall|i: int| 0 <= i < k ==> (#[trigger] plane16(decoded, sizes, i)) is Ok,
    ensures
        plane16(decoded, sizes, k) matches Err(fault) ==> picture16(decoded, sizes, n) == Err::<
            Seq<Seq<Seq<u16>>>,
            Error,
        >(copy_error(k, fault)),
    decreases n,
{
    if k < n - 1 {
        lemma_first_fault16(decoded, sizes, k, (n - 1) as nat);
    } else {
        lemma_planes16(decoded, sizes, k as nat);
    }
}

/// Law: where a picture is made, the time of making it is taken first, and then that of copying
/// luma and the two planes of chroma, as far as there are any. No time is taken of a picture
/// without a size or a depth, and none of copying where the planes are not copied.
pub proof fn law_times_taken(
    details: &VideoDetails,
    decoded: &DecodedPicture<'_>,
    depth: u8,
    bytes: int,
)
    ensures
        ({
            let steps = decode_steps(details, decoded, depth, bytes);
            let sized = details.width > 0 && details.height > 0 && depth > 0;
            let planned = frame_plan(details, decoded, depth, bytes) is Ok;
            &&& !sized ==> steps.len() == 0
            &&& sized && !planned ==> steps == seq![MetricId::ReaderBuildFrame]
            &&& planned && details.chroma_sampling is Monochrome ==> steps == seq![
                MetricId::ReaderBuildFrame,
                MetricId::ReaderCopyY,
            ]
            &&& planned && !(details.chroma_sampling is Monochrome) ==> steps == seq![
                MetricId::ReaderBuildFrame,
                MetricId::ReaderCopyY,
                MetricId::ReaderCopyU,
                MetricId::ReaderCopyV,
            ]
        }),
{
}

/// Law: the depth of a picture is what eight bits hold of the depth of its video, and pixels are
/// shifted down by what they have more than eight bits.
pub proof fn law_depths(bit_depth: usize)
    ensures
        (bit_depth - short_depth(bit_depth)) % 256 == 0,
        bit_depth >= 8 ==> extra_bits(bit_depth) + 8 == bit_depth,
        bit_depth < 8 ==> extra_bits(bit_depth) == 0,
{
}

/// The rows of a decoder's plane are long enough for pixels of `bytes` bytes and are all there.
pub open spec fn rows_hold(
    details: &VideoDetails,
    decoded: &DecodedPicture<'_>,
    k: int,
    bytes: int,
) -> bool {
    let plane = given_plane(decoded, k);
    &&& plane.stride > 0
    &&& plane.stride >= if bytes == 2 {
        2 * plane_width(details, k)
    } else {
        plane_width(details, k)
    }
    &&& plane.stride * plane_height(details, k) == plane.data@.len()
}

/// The bytes of a pixel that a decoder gives: two where it is to be shifted down.
pub open spec fn bytes_of_pixel(shift: int) -> int {
    if shift == 0 {
        1
    } else {
        2
    }
}

/// The bytes and the width of a plane can be counted.
proof fn lemma_plane_counts(details: &VideoDetails, decoded: &DecodedPicture<'_>, k: int)
    requires
        details.width * details.height * 2 <= isize::MAX - 63,
        details.height > 0,
    ensures
        given_plane(decoded, k).data@.len() <= usize::MAX,
        2 * plane_width(details, k) <= usize::MAX,
{
    assert(given_plane(decoded, k).data.len() == given_plane(decoded, k).data@.len());
    let w = details.width as int;
    let h = details.height as int;
    assert(2 * w <= w * h * 2) by (nonlinear_arith)
        requires
            w >= 0,
            h >= 1,
    ;
}

/// Law: a picture that memory can hold, of which every plane is given with all its rows, runs into
/// no limits: as bytes, or shifted down by fewer than sixteen bits, or as pixels of sixteen bits.
pub proof fn law_given_picture_decodable(
    details: &VideoDetails,
    decoded: &DecodedPicture<'_>,
    depth: u8,
    shift: int,
)
    requires
        details.chroma_sampling is Monochrome || decoded.chroma is Some,
        details.width * details.height * 2 <= isize::MAX - 63,
        0 <= shift < 16,
    ensures
        (forall|k: int|
            0 <= k < plane_count(details) ==> #[trigger] rows_hold(
                details,
                decoded,
                k,
                bytes_of_pixel(shift),
            )) ==> decodable8(details, decoded, depth, shift),
        (forall|k: int|
            0 <= k < plane_count(details) ==> #[trigger] rows_hold(details, decoded, k, 2))
            ==> decodable16(details, decoded, depth),
{
    let bytes = bytes_of_pixel(shift);
    assert(details.width * details.height <= details.width * details.height * 2)
        by (nonlinear_arith);
    if forall|k: int|
        0 <= k < plane_count(details) ==> #[trigger] rows_hold(details, decoded, k, bytes) {
        if frame_plan(details, decoded, depth, 1) is Ok {
            lemma_plan(details, decoded, depth, 1);
            let sizes = frame_plan(details, decoded, depth, 1)->Ok_0;
            assert forall|k: int| 0 <= k < sizes.len() implies plane_copyable(
                (#[trigger] decoded.plane(k)).data@.len() as int,
                decoded.plane(k).stride as int,
                sizes[k].0,
                sizes[k].1,
                shift,
            ) by {
                assert(sizes[k] == (plane_width(details, k), plane_height(details, k)));
                assert(rows_hold(details, decoded, k, bytes));
                lemma_plane_counts(details, decoded, k);
            }
        }
    }
    if forall|k: int|
        0 <= k < plane_count(details) ==> #[trigger] rows_hold(details, decoded, k, 2) {
        if frame_plan(details, decoded, depth, 2) is Ok {
            lemma_plan(details, decoded, depth, 2);
            let sizes = frame_plan(details, decoded, depth, 2)->Ok_0;
            assert forall|k: int| 0 <= k < sizes.len() implies wide_copyable(
                (#[trigger] decoded.plane(k)).data@.len() as int,
                decoded.plane(k).stride as int,
                sizes[k].0,
                sizes[k].1,
            ) by {
                assert(sizes[k] == (plane_width(details, k), plane_height(details, k)));
                assert(rows_hold(details, decoded, k, 2));
                lemma_plane_counts(details, decoded, k);
            }
        }
    }
}

} // verus!
