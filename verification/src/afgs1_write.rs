//! Writing a grain description as an AFGS1 payload.
use crate::bits::{
    align_bits, bits_of, bytes_of, field, fitting_bits, lemma_bytes_of_bits, lemma_width_add,
    lemma_write_all_len, lemma_write_all_ok, width_of, widths_ok, write_all, BitWriter, Field,
};
use crate::error::Error;
use crate::grain::{
    uv_coeffs_slice, uv_points_slice, y_coeffs_slice, y_points_slice, FilmGrainParams, GrainModel,
};
use crate::video::ChromaSubsampling;
use vstd::arithmetic::power2::{lemma2_to64, lemma_pow2_unfold, pow2};
use vstd::prelude::*;

verus! {

/// The number that stands for a flag.
pub open spec fn flag(b: bool) -> int {
    if b {
        1
    } else {
        0
    }
}

/// The step from one scaling point to the next, modulo 256; the first point counts from zero.
pub open spec fn point_step(points: Seq<[u8; 2]>, i: int) -> int {
    if i == 0 {
        points[0][0] as int
    } else {
        (points[i][0] - points[i - 1][0]) % 256
    }
}

/// The fields of the first `n` scaling points.
pub open spec fn point_pairs(points: Seq<[u8; 2]>, n: nat) -> Seq<Field>
    decreases n,
{
    if n == 0 {
        Seq::empty()
    } else {
        point_pairs(points, (n - 1) as nat) + seq![
            field(point_step(points, n - 1), 8),
            field(points[n - 1][1] as int, 8),
        ]
    }
}

/// The fields of a scaling function.
pub open spec fn point_fields(points: Seq<[u8; 2]>, chroma: bool) -> Seq<Field> {
    if points.len() == 0 {
        seq![field(0, 4)]
    } else {
        seq![field(points.len() as int, 4), field(7, 3), field(3, 2)] + (if chroma {
            seq![field(0, 8)]
        } else {
            Seq::empty()
        }) + point_pairs(points, points.len())
    }
}

/// The coefficient at `i`, or zero behind the last one, in offset binary.
pub open spec fn coeff_code(coeffs: Seq<i8>, i: int) -> int {
    if i < coeffs.len() {
        coeffs[i] + 128
    } else {
        128
    }
}

/// The fields of `count` coefficients.
pub open spec fn coeff_fields(coeffs: Seq<i8>, count: nat) -> Seq<Field> {
    seq![field(3, 2)] + Seq::new(count, |i: int| field(coeff_code(coeffs, i), 8))
}

/// The grain says nothing of chroma.
pub open spec fn luma_only(p: GrainModel) -> bool {
    p.scaling_points_cb.len() == 0 && p.scaling_points_cr.len() == 0
}

/// The fields in front of a film grain set.
pub open spec fn envelope_fields(size: int, size_bits: int) -> Seq<Field> {
    seq![
        field(0xb5, 8),
        field(0x5890, 16),
        field(0x01, 8),
        field(1, 1),
        field(0, 4),
        field(0, 3),
        field(flag(size < 4), 1),
        field(size, size_bits),
    ]
}

/// The first fields of a film grain set, up to whether it speaks of chroma.
pub open spec fn set_fields(p: GrainModel, log2: int, horz: int, vert: int) -> Seq<Field> {
    seq![
        field(0, 3),
        field(1, 1),
        field(p.grain_seed as int, 16),
        field(1, 1),
        field(log2, 4),
        field(horz, 12),
        field(vert, 12),
        field(flag(luma_only(p)), 1),
    ]
}

/// The fields for the subsampling of chroma and for what is left out.
pub open spec fn subsampling_fields(p: GrainModel, sampling: ChromaSubsampling) -> Seq<Field> {
    (if luma_only(p) {
        Seq::empty()
    } else {
        seq![
            field(flag(sampling is Yuv420 || sampling is Yuv422), 1),
            field(flag(sampling is Yuv420), 1),
        ]
    }) + seq![field(0, 1), field(0, 1)]
}

/// The fields of the scaling functions.
pub open spec fn scaling_fields(p: GrainModel) -> Seq<Field> {
    point_fields(p.scaling_points_y, false) + (if luma_only(p) {
        Seq::empty()
    } else {
        seq![field(0, 1)] + point_fields(p.scaling_points_cb, true) + point_fields(
            p.scaling_points_cr,
            true,
        )
    })
}

/// What a shift is above its least value, or zero below it.
pub open spec fn above(shift: u8, least: int) -> int {
    if shift >= least {
        shift - least
    } else {
        0
    }
}

/// The fields of the auto-regression.
pub open spec fn regression_fields(p: GrainModel) -> Seq<Field> {
    seq![field(above(p.scaling_shift, 8), 2), field(p.ar_coeff_lag as int, 2)] + (
    if p.scaling_points_y.len() == 0 {
        Seq::empty()
    } else {
        coeff_fields(p.ar_coeffs_y, 24)
    }) + (if p.scaling_points_cb.len() == 0 {
        Seq::empty()
    } else {
        coeff_fields(p.ar_coeffs_cb, 25)
    }) + (if p.scaling_points_cr.len() == 0 {
        Seq::empty()
    } else {
        coeff_fields(p.ar_coeffs_cr, 25)
    })
}

/// The fields behind the auto-regression.
pub open spec fn closing_fields(p: GrainModel) -> Seq<Field> {
    seq![field(above(p.ar_coeff_shift, 6), 2), field(p.grain_scale_shift as int, 2)] + (
    if p.scaling_points_cb.len() == 0 {
        Seq::empty()
    } else {
        seq![
            field(p.cb_mult as int, 8),
            field(p.cb_luma_mult as int, 8),
            field(p.cb_offset as int % 512, 9),
        ]
    }) + (if p.scaling_points_cr.len() == 0 {
        Seq::empty()
    } else {
        seq![
            field(p.cr_mult as int, 8),
            field(p.cr_luma_mult as int, 8),
            field(p.cr_offset as int % 512, 9),
        ]
    }) + seq![field(flag(p.overlap_flag), 1), field(flag(p.clip_to_restricted_range), 1)]
}

/// The fields behind the first ones of a film grain set.
pub open spec fn body_fields(p: GrainModel, sampling: ChromaSubsampling) -> Seq<Field> {
    subsampling_fields(p, sampling) + scaling_fields(p) + regression_fields(p) + closing_fields(p)
}

/// The bits of a film grain set.
pub open spec fn set_bits(
    p: GrainModel,
    log2: int,
    horz: int,
    vert: int,
    sampling: ChromaSubsampling,
) -> Result<Seq<bool>, Error> {
    match write_all(set_fields(p, log2, horz, vert)) {
        Err(e) => Err(e),
        Ok(start) => if !luma_only(p) && sampling is Monochrome {
            Err(Error::MonochromeStream)
        } else {
            match write_all(body_fields(p, sampling)) {
                Err(e) => Err(e),
                Ok(rest) => Ok(start + rest),
            }
        },
    }
}

/// The bits of a film grain set that cannot be written, as far as they are written.
pub open spec fn set_written(
    p: GrainModel,
    log2: int,
    horz: int,
    vert: int,
    sampling: ChromaSubsampling,
) -> Seq<bool> {
    match write_all(set_fields(p, log2, horz, vert)) {
        Err(_) => fitting_bits(set_fields(p, log2, horz, vert)),
        Ok(start) => if !luma_only(p) && sampling is Monochrome {
            start
        } else {
            start + fitting_bits(body_fields(p, sampling))
        },
    }
}

/// Appends the fields of a scaling function.
pub fn write_scaling_points(fields: &mut Vec<Field>, points: &[[u8; 2]], chroma: bool)
    ensures
        final(fields)@ == old(fields)@ + point_fields(points@, chroma),
{
    let ghost before = fields@;
    fields.push(Field { value: points.len() as u64, width: 4 });
    if points.len() == 0 {
        assert(fields@ =~= before + point_fields(points@, chroma));
        return ;
    }
    fields.push(Field { value: 7, width: 3 });
    fields.push(Field { value: 3, width: 2 });
    if chroma {
        fields.push(Field { value: 0, width: 8 });
    }
    let ghost start = fields@;
    let mut prev: u8 = 0;
    let mut i: usize = 0;
    assert(fields@ =~= start + point_pairs(points@, 0));
    while i < points.len()
        invariant
            i <= points@.len(),
            fields@ == start + point_pairs(points@, i as nat),
            i > 0 ==> prev == points@[i - 1][0],
        decreases points@.len() - i,
    {
        let point: [u8; 2] = points[i];
        let value: u8 = if i == 0 {
            point[0]
        } else {
            point[0].wrapping_sub(prev)
        };
        fields.push(Field { value: value as u64, width: 8 });
        fields.push(Field { value: point[1] as u64, width: 8 });
        prev = point[0];
        i = i + 1;
        proof {
            assert(value == point_step(points@, i - 1));
            assert(fields@ =~= start + point_pairs(points@, i as nat));
        }
    }
    assert(fields@ =~= before + point_fields(points@, chroma));
}

/// Appends the fields of `count` coefficients.
pub fn write_coeffs(fields: &mut Vec<Field>, coeffs: &[i8], count: usize)
    ensures
        final(fields)@ == old(fields)@ + coeff_fields(coeffs@, count as nat),
{
    let ghost before = fields@;
    fields.push(Field { value: 3, width: 2 });
    let mut i: usize = 0;
    while i < count
        invariant
            i <= count,
            fields@ =~= before + coeff_fields(coeffs@, i as nat),
        decreases count - i,
    {
        let value: u64 = if i < coeffs.len() {
            ((coeffs[i] as i32) + 128) as u64
        } else {
            128
        };
        fields.push(Field { value, width: 8 });
        i = i + 1;
    }
}

/// Appends the fields of the scaling functions.
fn write_scaling(fields: &mut Vec<Field>, params: &FilmGrainParams)
    ensures
        final(fields)@ == old(fields)@ + scaling_fields(params@),
{
    let ghost before = fields@;
    let cb: &[[u8; 2]] = uv_points_slice(&params.scaling_points_cb);
    let cr: &[[u8; 2]] = uv_points_slice(&params.scaling_points_cr);
    write_scaling_points(fields, y_points_slice(&params.scaling_points_y), false);
    if cb.len() != 0 || cr.len() != 0 {
        fields.push(Field { value: 0, width: 1 });
        write_scaling_points(fields, cb, true);
        write_scaling_points(fields, cr, true);
    }
    assert(fields@ =~= before + scaling_fields(params@));
}

/// Appends the fields of the auto-regression.
fn write_regression(fields: &mut Vec<Field>, params: &FilmGrainParams)
    ensures
        final(fields)@ == old(fields)@ + regression_fields(params@),
{
    let ghost before = fields@;
    fields.push(Field { value: params.scaling_shift.saturating_sub(8) as u64, width: 2 });
    fields.push(Field { value: params.ar_coeff_lag as u64, width: 2 });
    if y_points_slice(&params.scaling_points_y).len() != 0 {
        write_coeffs(fields, y_coeffs_slice(&params.ar_coeffs_y), 24);
    }
    if uv_points_slice(&params.scaling_points_cb).len() != 0 {
        write_coeffs(fields, uv_coeffs_slice(&params.ar_coeffs_cb), 25);
    }
    if uv_points_slice(&params.scaling_points_cr).len() != 0 {
        write_coeffs(fields, uv_coeffs_slice(&params.ar_coeffs_cr), 25);
    }
    assert(fields@ =~= before + regression_fields(params@));
}

/// Appends the fields behind the auto-regression.
fn write_closing(fields: &mut Vec<Field>, params: &FilmGrainParams)
    ensures
        final(fields)@ == old(fields)@ + closing_fields(params@),
{
    let ghost before = fields@;
    proof {
        let cb_offset = params.cb_offset;
        let cr_offset = params.cr_offset;
        assert(cb_offset & 0x1ff == cb_offset % 512) by (bit_vector);
        assert(cr_offset & 0x1ff == cr_offset % 512) by (bit_vector);
    }
    fields.push(Field { value: params.ar_coeff_shift.saturating_sub(6) as u64, width: 2 });
    fields.push(Field { value: params.grain_scale_shift as u64, width: 2 });
    if uv_points_slice(&params.scaling_points_cb).len() != 0 {
        fields.push(Field { value: params.cb_mult as u64, width: 8 });
        fields.push(Field { value: params.cb_luma_mult as u64, width: 8 });
        fields.push(Field { value: (params.cb_offset & 0x1ff) as u64, width: 9 });
    }
    if uv_points_slice(&params.scaling_points_cr).len() != 0 {
        fields.push(Field { value: params.cr_mult as u64, width: 8 });
        fields.push(Field { value: params.cr_luma_mult as u64, width: 8 });
        fields.push(Field { value: (params.cr_offset & 0x1ff) as u64, width: 9 });
    }
    fields.push(Field { value: if params.overlap_flag { 1 } else { 0 }, width: 1 });
    fields.push(Field { value: if params.clip_to_restricted_range { 1 } else { 0 }, width: 1 });
    assert(fields@ =~= before + closing_fields(params@));
}

/// Writes a film grain set. Where a value does not fit in its field, or where there is chroma
/// grain for a stream without chroma, the first such reason is given, and the fields in front of
/// it are written.
pub fn write_afgs1_params(
    bits: &mut BitWriter,
    params: &FilmGrainParams,
    units_resolution_log2: usize,
    horz_resolution: usize,
    vert_resolution: usize,
    chroma_sampling: ChromaSubsampling,
) -> (r: Result<(), Error>)
    requires
        old(bits).wf(),
    ensures
        final(bits).wf(),
        match (
            r,
            set_bits(
                params@,
                units_resolution_log2 as int,
                horz_resolution as int,
                vert_resolution as int,
                chroma_sampling,
            ),
        ) {
            (Ok(()), Ok(set)) => final(bits).bits() == old(bits).bits() + set,
            (Err(e), Err(f)) => e == f && final(bits).bits() == old(bits).bits() + set_written(
                params@,
                units_resolution_log2 as int,
                horz_resolution as int,
                vert_resolution as int,
                chroma_sampling,
            ),
            _ => false,
        },
{
    let ghost p = params@;
    let ghost before = bits.bits();
    let only_luma: bool = uv_points_slice(&params.scaling_points_cb).len() == 0
        && uv_points_slice(&params.scaling_points_cr).len() == 0;

    let mut start: Vec<Field> = Vec::new();
    start.push(Field { value: 0, width: 3 });
    start.push(Field { value: 1, width: 1 });
    start.push(Field { value: params.grain_seed as u64, width: 16 });
    start.push(Field { value: 1, width: 1 });
    start.push(Field { value: units_resolution_log2 as u64, width: 4 });
    start.push(Field { value: horz_resolution as u64, width: 12 });
    start.push(Field { value: vert_resolution as u64, width: 12 });
    start.push(Field { value: if only_luma { 1 } else { 0 }, width: 1 });
    proof {
        assert(start@ =~= set_fields(
            p,
            units_resolution_log2 as int,
            horz_resolution as int,
            vert_resolution as int,
        ));
    }
    match bits.write_fields(&start) {
        Ok(()) => {},
        Err(e) => {
            return Err(e);
        },
    }
    let ghost middle = bits.bits();

    let mut rest: Vec<Field> = Vec::new();
    if !only_luma {
        let (subsampling_x, subsampling_y): (u64, u64) = match chroma_sampling {
            ChromaSubsampling::Yuv420 => (1, 1),
            ChromaSubsampling::Yuv422 => (1, 0),
            ChromaSubsampling::Yuv444 => (0, 0),
            ChromaSubsampling::Monochrome => {
                return Err(Error::MonochromeStream);
            },
        };
        rest.push(Field { value: subsampling_x, width: 1 });
        rest.push(Field { value: subsampling_y, width: 1 });
    }
    rest.push(Field { value: 0, width: 1 });
    rest.push(Field { value: 0, width: 1 });
    assert(rest@ =~= subsampling_fields(p, chroma_sampling));
    write_scaling(&mut rest, params);
    write_regression(&mut rest, params);
    write_closing(&mut rest, params);
    proof {
        assert(rest@ == body_fields(p, chroma_sampling));
        lemma_body_widths(p, chroma_sampling);
    }
    match bits.write_fields(&rest) {
        Ok(()) => {
            proof {
                let a = write_all(start@)->Ok_0;
                let b = write_all(rest@)->Ok_0;
                assert((before + a) + b =~= before + (a + b));
            }
            Ok(())
        },
        Err(e) => {
            proof {
                let a = write_all(start@)->Ok_0;
                let b = fitting_bits(rest@);
                assert((before + a) + b =~= before + (a + b));
            }
            Err(e)
        },
    }
}

/// No field of a scaling function is wider than eight bits.
proof fn lemma_point_widths(points: Seq<[u8; 2]>, n: nat)
    ensures
        forall|i: int|
            0 <= i < point_pairs(points, n).len() ==> (#[trigger] point_pairs(points, n)[i]).width
                == 8,
        point_pairs(points, n).len() == 2 * n,
        width_of(point_pairs(points, n)) == 16 * n,
    decreases n,
{
    if n > 0 {
        lemma_point_widths(points, (n - 1) as nat);
        let f = point_pairs(points, n);
        let g = point_pairs(points, (n - 1) as nat);
        assert(f.drop_last().drop_last() =~= g);
        reveal_with_fuel(width_of, 3);
    }
}

/// Every field of a film grain set has a width that numbers can be written in.
pub proof fn lemma_body_widths(p: GrainModel, sampling: ChromaSubsampling)
    ensures
        widths_ok(body_fields(p, sampling)),
{
    lemma_point_widths(p.scaling_points_y, p.scaling_points_y.len());
    lemma_point_widths(p.scaling_points_cb, p.scaling_points_cb.len());
    lemma_point_widths(p.scaling_points_cr, p.scaling_points_cr.len());
    assert(widths_ok(scaling_fields(p)));
    assert(widths_ok(regression_fields(p)));
    assert(widths_ok(closing_fields(p)));
    assert(widths_ok(subsampling_fields(p, sampling)));
}

/// The resolution is the size of the picture with the common powers of two taken out.
pub open spec fn is_resolution(
    width: int,
    height: int,
    log2: nat,
    horz: int,
    vert: int,
) -> bool {
    &&& width == horz * pow2(log2)
    &&& height == vert * pow2(log2)
    &&& horz % 2 != 0 || vert % 2 != 0
}

/// How often both the width and the height can be halved, and what is left of them then.
pub open spec fn resolution(width: int, height: int) -> (int, int, int)
    decreases width,
{
    if width > 0 && height > 0 && width % 2 == 0 && height % 2 == 0 {
        let (log2, horz, vert) = resolution(width / 2, height / 2);
        (log2 + 1, horz, vert)
    } else {
        (0, width, height)
    }
}

/// The resolution is the size of the picture in units of the largest power of two that divides
/// both the width and the height.
pub proof fn lemma_resolution(width: int, height: int)
    requires
        width > 0,
        height > 0,
    ensures
        resolution(width, height).0 >= 0,
        is_resolution(
            width,
            height,
            resolution(width, height).0 as nat,
            resolution(width, height).1,
            resolution(width, height).2,
        ),
    decreases width,
{
    lemma2_to64();
    if width % 2 == 0 && height % 2 == 0 {
        lemma_resolution(width / 2, height / 2);
        let (log2, horz, vert) = resolution(width / 2, height / 2);
        lemma_pow2_unfold((log2 + 1) as nat);
        let u = pow2(log2 as nat);
        assert(horz * (2 * u) == 2 * (horz * u)) by (nonlinear_arith);
        assert(vert * (2 * u) == 2 * (vert * u)) by (nonlinear_arith);
    }
}

/// The largest power of two that divides both the width and the height, and the two in units
/// of it.
pub fn film_grain_resolution(width: usize, height: usize) -> (r: Result<
    (usize, usize, usize),
    Error,
>)
    ensures
        match r {
            Ok((log2, horz, vert)) => {
                &&& width != 0 && height != 0
                &&& (log2 as int, horz as int, vert as int) == resolution(
                    width as int,
                    height as int,
                )
                &&& is_resolution(
                    width as int,
                    height as int,
                    log2 as nat,
                    horz as int,
                    vert as int,
                )
            },
            Err(e) => (width == 0 || height == 0) && e == Error::ZeroSizedPicture,
        },
{
    if width == 0 || height == 0 {
        return Err(Error::ZeroSizedPicture);
    }
    let mut log2: usize = 0;
    let mut horz: usize = width;
    let mut vert: usize = height;
    while horz % 2 == 0 && vert % 2 == 0
        invariant
            horz > 0,
            vert > 0,
            resolution(width as int, height as int) == ({
                let (k, x, y) = resolution(horz as int, vert as int);
                (k + log2, x, y)
            }),
            log2 + horz <= width,
        decreases horz,
    {
        horz = horz / 2;
        vert = vert / 2;
        log2 = log2 + 1;
    }
    proof {
        lemma_resolution(width as int, height as int);
    }
    Ok((log2, horz, vert))
}

/// The size that a payload states: its bytes behind the registration codes, where the film
/// grain set takes `set_len` bits.
pub open spec fn stated_size(set_len: nat, size_bits: int) -> int {
    (41 + size_bits + set_len + 7) / 8 - 4
}

/// The bits of a payload in front of those that complete the last byte.
pub open spec fn payload_bits(set: Seq<bool>, size: int, size_bits: int) -> Seq<bool> {
    write_all(envelope_fields(size, size_bits))->Ok_0 + set
}

/// The payload that carries a grain description. It states its own size, in eight bits.
pub open spec fn afgs1_payload(
    p: GrainModel,
    width: int,
    height: int,
    sampling: ChromaSubsampling,
) -> Result<Seq<u8>, Error> {
    if width == 0 || height == 0 {
        Err(Error::ZeroSizedPicture)
    } else {
        let (log2, horz, vert) = resolution(width, height);
        match set_bits(p, log2, horz, vert, sampling) {
            Err(e) => Err(e),
            Ok(set) => {
                let bits = payload_bits(set, stated_size(set.len(), 8), 8);
                Ok(bytes_of(bits + align_bits(bits.len())))
            },
        }
    }
}

/// The envelope can be written where the size fits in its field.
pub proof fn lemma_envelope(size: int, size_bits: int)
    requires
        size_bits == 2 || size_bits == 8,
        0 <= size < pow2(size_bits as nat),
    ensures
        write_all(envelope_fields(size, size_bits)) is Ok,
        write_all(envelope_fields(size, size_bits))->Ok_0.len() == 41 + size_bits,
{
    lemma2_to64();
    let f = envelope_fields(size, size_bits);
    assert forall|i: int| 0 <= i < f.len() implies (#[trigger] f[i]).fits() by {}
    lemma_write_all_ok(f);
    lemma_write_all_len(f);
    reveal_with_fuel(width_of, 9);
}

/// The coefficients take eight bits each.
proof fn lemma_coeff_width(coeffs: Seq<i8>, count: nat)
    ensures
        width_of(coeff_fields(coeffs, count)) == 2 + 8 * count,
    decreases count,
{
    let f = coeff_fields(coeffs, count);
    if count == 0 {
        assert(f =~= seq![field(3, 2)]);
        reveal_with_fuel(width_of, 2);
    } else {
        lemma_coeff_width(coeffs, (count - 1) as nat);
        assert(f.drop_last() =~= coeff_fields(coeffs, (count - 1) as nat));
    }
}

/// A scaling function takes a few bits and 16 for each of its points.
proof fn lemma_points_width(points: Seq<[u8; 2]>, chroma: bool)
    ensures
        width_of(point_fields(points, chroma)) <= 17 + 16 * points.len(),
{
    reveal_with_fuel(width_of, 4);
    if points.len() > 0 {
        lemma_point_widths(points, points.len());
        let start = seq![field(points.len() as int, 4), field(7, 3), field(3, 2)];
        let offset = if chroma {
            seq![field(0, 8)]
        } else {
            Seq::empty()
        };
        lemma_width_add(start, offset);
        lemma_width_add(start + offset, point_pairs(points, points.len()));
    }
}

proof fn lemma_subsampling_width(p: GrainModel, sampling: ChromaSubsampling)
    ensures
        width_of(subsampling_fields(p, sampling)) <= 4,
{
    reveal_with_fuel(width_of, 5);
}

proof fn lemma_scaling_width(p: GrainModel)
    requires
        p.in_capacity(),
    ensures
        width_of(scaling_fields(p)) <= 600,
{
    let y = point_fields(p.scaling_points_y, false);
    let cb = point_fields(p.scaling_points_cb, true);
    let cr = point_fields(p.scaling_points_cr, true);
    let one = seq![field(0, 1)];
    lemma_points_width(p.scaling_points_y, false);
    lemma_points_width(p.scaling_points_cb, true);
    lemma_points_width(p.scaling_points_cr, true);
    assert(width_of(one) == 1) by {
        reveal_with_fuel(width_of, 2);
    }
    lemma_width_add(one, cb);
    lemma_width_add(one + cb, cr);
    lemma_width_add(y, one + cb + cr);
    lemma_width_add(y, Seq::empty());
}

proof fn lemma_regression_width(p: GrainModel)
    ensures
        width_of(regression_fields(p)) <= 610,
{
    lemma_coeff_width(p.ar_coeffs_y, 24);
    lemma_coeff_width(p.ar_coeffs_cb, 25);
    lemma_coeff_width(p.ar_coeffs_cr, 25);
    let none = Seq::<Field>::empty();
    let start = seq![field(above(p.scaling_shift, 8), 2), field(p.ar_coeff_lag as int, 2)];
    let y = if p.scaling_points_y.len() == 0 {
        none
    } else {
        coeff_fields(p.ar_coeffs_y, 24)
    };
    let cb = if p.scaling_points_cb.len() == 0 {
        none
    } else {
        coeff_fields(p.ar_coeffs_cb, 25)
    };
    let cr = if p.scaling_points_cr.len() == 0 {
        none
    } else {
        coeff_fields(p.ar_coeffs_cr, 25)
    };
    assert(width_of(start) == 4 && width_of(none) == 0) by {
        reveal_with_fuel(width_of, 3);
    }
    lemma_width_add(start, y);
    lemma_width_add(start + y, cb);
    lemma_width_add(start + y + cb, cr);
}

proof fn lemma_closing_width(p: GrainModel)
    ensures
        width_of(closing_fields(p)) <= 56,
{
    let none = Seq::<Field>::empty();
    let start = seq![field(above(p.ar_coeff_shift, 6), 2), field(p.grain_scale_shift as int, 2)];
    let cb = seq![
        field(p.cb_mult as int, 8),
        field(p.cb_luma_mult as int, 8),
        field(p.cb_offset as int % 512, 9),
    ];
    let cr = seq![
        field(p.cr_mult as int, 8),
        field(p.cr_luma_mult as int, 8),
        field(p.cr_offset as int % 512, 9),
    ];
    let end = seq![field(flag(p.overlap_flag), 1), field(flag(p.clip_to_restricted_range), 1)];
    assert(width_of(start) == 4 && width_of(none) == 0 && width_of(end) == 2 && width_of(cb) == 25
        && width_of(cr) == 25) by {
        reveal_with_fuel(width_of, 4);
    }
    let cb = if p.scaling_points_cb.len() == 0 {
        none
    } else {
        cb
    };
    let cr = if p.scaling_points_cr.len() == 0 {
        none
    } else {
        cr
    };
    lemma_width_add(start, cb);
    lemma_width_add(start + cb, cr);
    lemma_width_add(start + cb + cr, end);
}

/// A film grain set is never so large that its size does not fit in eight bits.
pub proof fn lemma_set_len(
    p: GrainModel,
    log2: int,
    horz: int,
    vert: int,
    sampling: ChromaSubsampling,
)
    requires
        p.in_capacity(),
        set_bits(p, log2, horz, vert, sampling) is Ok,
    ensures
        50 <= set_bits(p, log2, horz, vert, sampling)->Ok_0.len() <= 1500,
{
    let start = set_fields(p, log2, horz, vert);
    let rest = body_fields(p, sampling);
    lemma_write_all_len(start);
    lemma_write_all_len(rest);
    assert(width_of(start) == 50) by {
        reveal_with_fuel(width_of, 9);
    }
    let a = subsampling_fields(p, sampling);
    let b = scaling_fields(p);
    let c = regression_fields(p);
    let d = closing_fields(p);
    lemma_width_add(a, b);
    lemma_width_add(a + b, c);
    lemma_width_add(a + b + c, d);
    lemma_subsampling_width(p, sampling);
    lemma_scaling_width(p);
    lemma_regression_width(p);
    lemma_closing_width(p);
}

/// The AFGS1 payload for a grain description and a picture of the given size.
pub fn build_afgs1_payload(
    params: &FilmGrainParams,
    width: usize,
    height: usize,
    chroma_sampling: ChromaSubsampling,
) -> (r: Result<Vec<u8>, Error>)
    ensures
        match r {
            Ok(payload) => afgs1_payload(params@, width as int, height as int, chroma_sampling)
                == Ok::<Seq<u8>, Error>(payload@),
            Err(e) => afgs1_payload(params@, width as int, height as int, chroma_sampling) == Err::<
                Seq<u8>,
                Error,
            >(e),
        },
{
    let (log2, horz, vert): (usize, usize, usize) = match film_grain_resolution(width, height) {
        Ok(t) => t,
        Err(e) => {
            return Err(e);
        },
    };
    params.know_capacity();
    let ghost set = set_bits(params@, log2 as int, horz as int, vert as int, chroma_sampling);
    let mut payload_size: usize = 0;
    let mut size_bits: usize = 2;
    let mut payload: Vec<u8> = Vec::new();
    let mut round: usize = 0;
    while round < 4
        invariant
            round <= 2,
            params@.in_capacity(),
            width > 0,
            height > 0,
            (log2 as int, horz as int, vert as int) == resolution(width as int, height as int),
            set == set_bits(params@, log2 as int, horz as int, vert as int, chroma_sampling),
            round == 0 ==> payload_size == 0 && size_bits == 2,
            round > 0 ==> set is Ok && size_bits == 8,
            round == 1 ==> payload_size == stated_size(set->Ok_0.len(), 2),
            round == 2 ==> payload_size == stated_size(set->Ok_0.len(), 8),
        decreases 4 - round,
    {
        proof {
            lemma2_to64();
            if set is Ok {
                lemma_set_len(
                    params@,
                    log2 as int,
                    horz as int,
                    vert as int,
                    chroma_sampling,
                );
            }
            lemma_envelope(payload_size as int, size_bits as int);
        }
        let mut bits = BitWriter::new(Vec::new());
        let mut envelope: Vec<Field> = Vec::new();
        envelope.push(Field { value: 0xb5, width: 8 });
        envelope.push(Field { value: 0x5890, width: 16 });
        envelope.push(Field { value: 0x01, width: 8 });
        envelope.push(Field { value: 1, width: 1 });
        envelope.push(Field { value: 0, width: 4 });
        envelope.push(Field { value: 0, width: 3 });
        envelope.push(Field { value: if payload_size < 4 { 1 } else { 0 }, width: 1 });
        envelope.push(Field { value: payload_size as u64, width: size_bits });
        assert(envelope@ =~= envelope_fields(payload_size as int, size_bits as int));
        match bits.write_fields(&envelope) {
            Ok(()) => {},
            Err(e) => {
                return Err(e);
            },
        }
        match write_afgs1_params(&mut bits, params, log2, horz, vert, chroma_sampling) {
            Ok(()) => {},
            Err(e) => {
                return Err(e);
            },
        }
        let ghost whole = payload_bits(set->Ok_0, payload_size as int, size_bits as int);
        proof {
            assert(bits.bits() =~= whole);
        }
        match bits.byte_align() {
            Ok(()) => {},
            Err(e) => {
                return Err(e);
            },
        }
        payload = bits.finish();
        proof {
            assert(bits_of(payload@) == whole + align_bits(whole.len()));
            lemma_bytes_of_bits(payload@);
            assert(bits_of(payload@).len() == 8 * payload@.len());
        }
        let new_size: usize = payload.len().saturating_sub(4);
        let new_bits: usize = if new_size < 4 {
            2
        } else {
            8
        };
        assert(new_size == stated_size(set->Ok_0.len(), size_bits as int));
        if new_size == payload_size && new_bits == size_bits {
            return Ok(payload);
        }
        payload_size = new_size;
        size_bits = new_bits;
        round = round + 1;
    }
    Ok(payload)
}

} // verus!
