//! Film grain parameters and the stretches of video that they apply to.
use arrayvec::ArrayVec;
use vstd::prelude::*;

verus! {

/// The most luma scaling points that a grain description holds.
pub const NUM_Y_POINTS: usize = 14;

/// The most scaling points that a grain description holds for a chroma plane.
pub const NUM_UV_POINTS: usize = 10;

/// The most luma coefficients that a grain description holds.
pub const NUM_Y_COEFFS: usize = 24;

/// The most coefficients that a grain description holds for a chroma plane.
pub const NUM_UV_COEFFS: usize = 25;

/// Declares `arrayvec::ArrayVec`, a vector of at most `CAP` items.
#[verifier::external_type_specification]
#[verifier::external_body]
#[verifier::reject_recursive_types(T)]
pub struct ExArrayVec<T, const CAP: usize>(ArrayVec<T, CAP>);

/// What a vector of luma scaling points holds.
pub uninterp spec fn y_points(v: ArrayVec<[u8; 2], NUM_Y_POINTS>) -> Seq<[u8; 2]>;

/// What a vector of chroma scaling points holds.
pub uninterp spec fn uv_points(v: ArrayVec<[u8; 2], NUM_UV_POINTS>) -> Seq<[u8; 2]>;

/// What a vector of luma coefficients holds.
pub uninterp spec fn y_coeffs(v: ArrayVec<i8, NUM_Y_COEFFS>) -> Seq<i8>;

/// What a vector of chroma coefficients holds.
pub uninterp spec fn uv_coeffs(v: ArrayVec<i8, NUM_UV_COEFFS>) -> Seq<i8>;

/// A vector whose items specifications can speak of.
pub trait Items<T> {
    /// What the vector holds, first item first.
    spec fn items(&self) -> Seq<T>;
}

impl Items<[u8; 2]> for ArrayVec<[u8; 2], NUM_Y_POINTS> {
    open spec fn items(&self) -> Seq<[u8; 2]> {
        y_points(*self)
    }
}

impl Items<[u8; 2]> for ArrayVec<[u8; 2], NUM_UV_POINTS> {
    open spec fn items(&self) -> Seq<[u8; 2]> {
        uv_points(*self)
    }
}

impl Items<i8> for ArrayVec<i8, NUM_Y_COEFFS> {
    open spec fn items(&self) -> Seq<i8> {
        y_coeffs(*self)
    }
}

impl Items<i8> for ArrayVec<i8, NUM_UV_COEFFS> {
    open spec fn items(&self) -> Seq<i8> {
        uv_coeffs(*self)
    }
}

/// `ArrayVec::new`: a vector that holds nothing. It panics where the capacity does not fit in 32
/// bits, which the capacities of this library do.
#[verifier::external_body]
pub(crate) fn new_items<T, const CAP: usize>() -> (r: ArrayVec<T, CAP>) where
    ArrayVec<T, CAP>: Items<T>,

    requires
        CAP <= 0xffff_ffff,
    ensures
        r.items() == Seq::<T>::empty(),
{
    ArrayVec::new()
}

/// `ArrayVec::push`: puts an item behind the others. It panics on a full vector, which is left
/// out here.
#[verifier::external_body]
pub(crate) fn push_item<T, const CAP: usize>(v: &mut ArrayVec<T, CAP>, item: T) where
    ArrayVec<T, CAP>: Items<T>,

    requires
        old(v).items().len() < CAP,
    ensures
        final(v).items() == old(v).items().push(item),
{
    v.push(item)
}

/// `ArrayVec::as_slice`, of luma scaling points: the items in order, no more than fit.
#[verifier::external_body]
pub(crate) fn y_points_slice(v: &ArrayVec<[u8; 2], NUM_Y_POINTS>) -> (r: &[[u8; 2]])
    ensures
        r@ == y_points(*v),
        r@.len() <= NUM_Y_POINTS,
{
    v.as_slice()
}

/// `ArrayVec::as_slice`, of chroma scaling points: the items in order, no more than fit.
#[verifier::external_body]
pub(crate) fn uv_points_slice(v: &ArrayVec<[u8; 2], NUM_UV_POINTS>) -> (r: &[[u8; 2]])
    ensures
        r@ == uv_points(*v),
        r@.len() <= NUM_UV_POINTS,
{
    v.as_slice()
}

/// `ArrayVec::as_slice`, of luma coefficients: the items in order, no more than fit.
#[verifier::external_body]
pub(crate) fn y_coeffs_slice(v: &ArrayVec<i8, NUM_Y_COEFFS>) -> (r: &[i8])
    ensures
        r@ == y_coeffs(*v),
        r@.len() <= NUM_Y_COEFFS,
{
    v.as_slice()
}

/// `ArrayVec::as_slice`, of chroma coefficients: the items in order, no more than fit.
#[verifier::external_body]
pub(crate) fn uv_coeffs_slice(v: &ArrayVec<i8, NUM_UV_COEFFS>) -> (r: &[i8])
    ensures
        r@ == uv_coeffs(*v),
        r@.len() <= NUM_UV_COEFFS,
{
    v.as_slice()
}

/// Parameters for the synthesis of film grain, as specifications see them.
#[verifier::ext_equal]
pub struct GrainModel {
    pub grain_seed: u16,
    pub scaling_points_y: Seq<[u8; 2]>,
    pub scaling_points_cb: Seq<[u8; 2]>,
    pub scaling_points_cr: Seq<[u8; 2]>,
    pub scaling_shift: u8,
    pub ar_coeff_lag: u8,
    pub ar_coeffs_y: Seq<i8>,
    pub ar_coeffs_cb: Seq<i8>,
    pub ar_coeffs_cr: Seq<i8>,
    pub ar_coeff_shift: u8,
    pub cb_mult: u8,
    pub cb_luma_mult: u8,
    pub cb_offset: u16,
    pub cr_mult: u8,
    pub cr_luma_mult: u8,
    pub cr_offset: u16,
    pub chroma_scaling_from_luma: bool,
    pub grain_scale_shift: u8,
    pub overlap_flag: bool,
    pub clip_to_restricted_range: bool,
}

impl GrainModel {
    /// No vector holds more items than it has room for.
    pub open spec fn in_capacity(self) -> bool {
        &&& self.scaling_points_y.len() <= NUM_Y_POINTS
        &&& self.scaling_points_cb.len() <= NUM_UV_POINTS
        &&& self.scaling_points_cr.len() <= NUM_UV_POINTS
        &&& self.ar_coeffs_y.len() <= NUM_Y_COEFFS
        &&& self.ar_coeffs_cb.len() <= NUM_UV_COEFFS
        &&& self.ar_coeffs_cr.len() <= NUM_UV_COEFFS
    }
}

/// Parameters for the synthesis of film grain.
#[derive(Debug)]
pub struct FilmGrainParams {
    /// Seed of the pseudo-random numbers.
    pub grain_seed: u16,
    /// Luma scaling function, as pairs of a value and its scaling.
    pub scaling_points_y: ArrayVec<[u8; 2], NUM_Y_POINTS>,
    /// Cb scaling function, as pairs of a value and its scaling.
    pub scaling_points_cb: ArrayVec<[u8; 2], NUM_UV_POINTS>,
    /// Cr scaling function, as pairs of a value and its scaling.
    pub scaling_points_cr: ArrayVec<[u8; 2], NUM_UV_POINTS>,
    /// Shift of the scaled grain, from 8 to 11.
    pub scaling_shift: u8,
    /// Lag of the auto-regression, from 0 to 3.
    pub ar_coeff_lag: u8,
    /// Luma coefficients of the auto-regression.
    pub ar_coeffs_y: ArrayVec<i8, NUM_Y_COEFFS>,
    /// Cb coefficients of the auto-regression.
    pub ar_coeffs_cb: ArrayVec<i8, NUM_UV_COEFFS>,
    /// Cr coefficients of the auto-regression.
    pub ar_coeffs_cr: ArrayVec<i8, NUM_UV_COEFFS>,
    /// Shift of the auto-regression, from 6 to 9.
    pub ar_coeff_shift: u8,
    /// Weight of Cb in the index into its scaling function.
    pub cb_mult: u8,
    /// Weight of luma in the index into the Cb scaling function.
    pub cb_luma_mult: u8,
    /// Offset of the index into the Cb scaling function, in 9 bits.
    pub cb_offset: u16,
    /// Weight of Cr in the index into its scaling function.
    pub cr_mult: u8,
    /// Weight of luma in the index into the Cr scaling function.
    pub cr_luma_mult: u8,
    /// Offset of the index into the Cr scaling function, in 9 bits.
    pub cr_offset: u16,
    /// Chroma is scaled by the luma scaling function.
    pub chroma_scaling_from_luma: bool,
    /// Shift of the random numbers, from 0 to 3.
    pub grain_scale_shift: u8,
    /// Grain blocks overlap.
    pub overlap_flag: bool,
    /// The result is clipped to the restricted range.
    pub clip_to_restricted_range: bool,
}

impl View for FilmGrainParams {
    type V = GrainModel;

    open spec fn view(&self) -> GrainModel {
        GrainModel {
            grain_seed: self.grain_seed,
            scaling_points_y: y_points(self.scaling_points_y),
            scaling_points_cb: uv_points(self.scaling_points_cb),
            scaling_points_cr: uv_points(self.scaling_points_cr),
            scaling_shift: self.scaling_shift,
            ar_coeff_lag: self.ar_coeff_lag,
            ar_coeffs_y: y_coeffs(self.ar_coeffs_y),
            ar_coeffs_cb: uv_coeffs(self.ar_coeffs_cb),
            ar_coeffs_cr: uv_coeffs(self.ar_coeffs_cr),
            ar_coeff_shift: self.ar_coeff_shift,
            cb_mult: self.cb_mult,
            cb_luma_mult: self.cb_luma_mult,
            cb_offset: self.cb_offset,
            cr_mult: self.cr_mult,
            cr_luma_mult: self.cr_luma_mult,
            cr_offset: self.cr_offset,
            chroma_scaling_from_luma: self.chroma_scaling_from_luma,
            grain_scale_shift: self.grain_scale_shift,
            overlap_flag: self.overlap_flag,
            clip_to_restricted_range: self.clip_to_restricted_range,
        }
    }
}

impl FilmGrainParams {
    /// Does nothing; it recalls that the vectors hold no more than they have room for.
    pub(crate) fn know_capacity(&self)
        ensures
            self@.in_capacity(),
    {
        let _ = y_points_slice(&self.scaling_points_y);
        let _ = uv_points_slice(&self.scaling_points_cb);
        let _ = uv_points_slice(&self.scaling_points_cr);
        let _ = y_coeffs_slice(&self.ar_coeffs_y);
        let _ = uv_coeffs_slice(&self.ar_coeffs_cb);
        let _ = uv_coeffs_slice(&self.ar_coeffs_cr);
    }
}

/// Whether two lists of scaling points are the same.
fn same_points(a: &[[u8; 2]], b: &[[u8; 2]]) -> (r: bool)
    ensures
        r == (a@ == b@),
{
    if a.len() != b.len() {
        return false;
    }
    let mut i: usize = 0;
    while i < a.len()
        invariant
            a@.len() == b@.len(),
            i <= a@.len(),
            forall|j: int| 0 <= j < i ==> a@[j] == b@[j],
        decreases a@.len() - i,
    {
        let p: [u8; 2] = a[i];
        let q: [u8; 2] = b[i];
        if p[0] != q[0] || p[1] != q[1] {
            return false;
        }
        assert(p =~= q);
        i = i + 1;
    }
    assert(a@ =~= b@);
    true
}

/// Whether two lists of coefficients are the same.
fn same_coeffs(a: &[i8], b: &[i8]) -> (r: bool)
    ensures
        r == (a@ == b@),
{
    if a.len() != b.len() {
        return false;
    }
    let mut i: usize = 0;
    while i < a.len()
        invariant
            a@.len() == b@.len(),
            i <= a@.len(),
            forall|j: int| 0 <= j < i ==> a@[j] == b@[j],
        decreases a@.len() - i,
    {
        if a[i] != b[i] {
            return false;
        }
        i = i + 1;
    }
    assert(a@ =~= b@);
    true
}

impl PartialEq for FilmGrainParams {
    fn eq(&self, other: &Self) -> (r: bool) {
        let scalars = self.grain_seed == other.grain_seed && self.scaling_shift
            == other.scaling_shift && self.ar_coeff_lag == other.ar_coeff_lag
            && self.ar_coeff_shift == other.ar_coeff_shift && self.cb_mult == other.cb_mult
            && self.cb_luma_mult == other.cb_luma_mult && self.cb_offset == other.cb_offset
            && self.cr_mult == other.cr_mult && self.cr_luma_mult == other.cr_luma_mult
            && self.cr_offset == other.cr_offset && self.chroma_scaling_from_luma
            == other.chroma_scaling_from_luma && self.grain_scale_shift == other.grain_scale_shift
            && self.overlap_flag == other.overlap_flag && self.clip_to_restricted_range
            == other.clip_to_restricted_range;
        scalars && same_points(
            y_points_slice(&self.scaling_points_y),
            y_points_slice(&other.scaling_points_y),
        ) && same_points(
            uv_points_slice(&self.scaling_points_cb),
            uv_points_slice(&other.scaling_points_cb),
        ) && same_points(
            uv_points_slice(&self.scaling_points_cr),
            uv_points_slice(&other.scaling_points_cr),
        ) && same_coeffs(
            y_coeffs_slice(&self.ar_coeffs_y),
            y_coeffs_slice(&other.ar_coeffs_y),
        ) && same_coeffs(
            uv_coeffs_slice(&self.ar_coeffs_cb),
            uv_coeffs_slice(&other.ar_coeffs_cb),
        ) && same_coeffs(
            uv_coeffs_slice(&self.ar_coeffs_cr),
            uv_coeffs_slice(&other.ar_coeffs_cr),
        )
    }
}

impl vstd::std_specs::cmp::PartialEqSpecImpl for FilmGrainParams {
    open spec fn obeys_eq_spec() -> bool {
        true
    }

    open spec fn eq_spec(&self, other: &Self) -> bool {
        self@ == other@
    }
}

/// A vector with the given items.
fn filled<T: Copy, const CAP: usize>(items: &[T]) -> (r: ArrayVec<T, CAP>) where
    ArrayVec<T, CAP>: Items<T>,

    requires
        items@.len() <= CAP <= 0xffff_ffff,
    ensures
        r.items() == items@,
{
    let mut r: ArrayVec<T, CAP> = new_items();
    let mut i: usize = 0;
    while i < items.len()
        invariant
            i <= items@.len() <= CAP,
            r.items() == items@.take(i as int),
        decreases items@.len() - i,
    {
        push_item(&mut r, items[i]);
        i = i + 1;
        assert(items@.take(i as int) =~= items@.take(i - 1).push(items@[i - 1]));
    }
    assert(items@.take(i as int) =~= items@);
    r
}

impl Clone for FilmGrainParams {
    fn clone(&self) -> (r: Self)
        ensures
            r@ == self@,
    {
        FilmGrainParams {
            grain_seed: self.grain_seed,
            scaling_points_y: filled(y_points_slice(&self.scaling_points_y)),
            scaling_points_cb: filled(uv_points_slice(&self.scaling_points_cb)),
            scaling_points_cr: filled(uv_points_slice(&self.scaling_points_cr)),
            scaling_shift: self.scaling_shift,
            ar_coeff_lag: self.ar_coeff_lag,
            ar_coeffs_y: filled(y_coeffs_slice(&self.ar_coeffs_y)),
            ar_coeffs_cb: filled(uv_coeffs_slice(&self.ar_coeffs_cb)),
            ar_coeffs_cr: filled(uv_coeffs_slice(&self.ar_coeffs_cr)),
            ar_coeff_shift: self.ar_coeff_shift,
            cb_mult: self.cb_mult,
            cb_luma_mult: self.cb_luma_mult,
            cb_offset: self.cb_offset,
            cr_mult: self.cr_mult,
            cr_luma_mult: self.cr_luma_mult,
            cr_offset: self.cr_offset,
            chroma_scaling_from_luma: self.chroma_scaling_from_luma,
            grain_scale_shift: self.grain_scale_shift,
            overlap_flag: self.overlap_flag,
            clip_to_restricted_range: self.clip_to_restricted_range,
        }
    }
}

/// The grain of a stretch of video.
#[derive(Debug)]
pub struct GrainTableSegment {
    /// Where the stretch begins, in ten-millionths of a second.
    pub start_time: u64,
    /// Where the stretch ends; the end itself is outside.
    pub end_time: u64,
    /// The grain in between.
    pub grain_params: FilmGrainParams,
}

/// The grain of a stretch of video, as specifications see it.
#[verifier::ext_equal]
pub struct SegmentModel {
    pub start_time: u64,
    pub end_time: u64,
    pub grain_params: GrainModel,
}

impl View for GrainTableSegment {
    type V = SegmentModel;

    open spec fn view(&self) -> SegmentModel {
        SegmentModel {
            start_time: self.start_time,
            end_time: self.end_time,
            grain_params: self.grain_params@,
        }
    }
}

/// Law: specifications see every part of a grain description and of a segment as it is.
pub proof fn law_grain_seen(params: FilmGrainParams, segment: GrainTableSegment)
    ensures
        params@.grain_seed == params.grain_seed,
        params@.scaling_points_y == params.scaling_points_y.items(),
        params@.scaling_points_cb == params.scaling_points_cb.items(),
        params@.scaling_points_cr == params.scaling_points_cr.items(),
        params@.scaling_shift == params.scaling_shift,
        params@.ar_coeff_lag == params.ar_coeff_lag,
        params@.ar_coeffs_y == params.ar_coeffs_y.items(),
        params@.ar_coeffs_cb == params.ar_coeffs_cb.items(),
        params@.ar_coeffs_cr == params.ar_coeffs_cr.items(),
        params@.ar_coeff_shift == params.ar_coeff_shift,
        params@.cb_mult == params.cb_mult,
        params@.cb_luma_mult == params.cb_luma_mult,
        params@.cb_offset == params.cb_offset,
        params@.cr_mult == params.cr_mult,
        params@.cr_luma_mult == params.cr_luma_mult,
        params@.cr_offset == params.cr_offset,
        params@.chroma_scaling_from_luma == params.chroma_scaling_from_luma,
        params@.grain_scale_shift == params.grain_scale_shift,
        params@.overlap_flag == params.overlap_flag,
        params@.clip_to_restricted_range == params.clip_to_restricted_range,
        segment@.start_time == segment.start_time,
        segment@.end_time == segment.end_time,
        segment@.grain_params == segment.grain_params@,
{
}

} // verus!
