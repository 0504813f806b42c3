//! What a payload that was built spells.
use crate::afgs1_laws::{lemma_pairs_index, lemma_resolution_range};
use crate::afgs1_spelled::{
    mark, SpelledCoefficients, SpelledFunction, SpelledPayload, SpelledWeights,
};
use crate::afgs1_write::{
    above, afgs1_payload, closing_fields, coeff_code, coeff_fields, envelope_fields,
    lemma_envelope, lemma_resolution, lemma_set_len, luma_only, payload_bits, point_fields,
    point_pairs, point_step, regression_fields, resolution, scaling_fields, set_bits, set_fields,
    stated_size, subsampling_fields,
};
use crate::bits::{
    align_bits, bits_of, bytes_of, enc, field, lemma_bits_of_bytes, lemma_write_all_add,
    lemma_write_all_fits, lemma_write_all_len, width_of, write_all, Field,
};
use crate::grain::{GrainModel, NUM_UV_POINTS, NUM_Y_POINTS};
use crate::video::ChromaSubsampling;
use vstd::arithmetic::power2::{lemma2_to64, pow2};
use vstd::prelude::*;

verus! {

/// A scaling function is spelled in full bytes.
pub open spec fn spells_function(f: SpelledFunction, points: Seq<[u8; 2]>) -> bool {
    f.value_bits == 8 && f.scaling_bits == 8 && f.offset == 0 && f.describes(points)
}

/// The first coefficients are spelled in full bytes, with zeros behind the last of them.
pub open spec fn spells_coefficients(c: SpelledCoefficients, coeffs: Seq<i8>) -> bool {
    &&& c.bits == 8
    &&& forall|i: int|
        0 <= i < c.codes.len() ==> #[trigger] c.codes[i] - 128 == if i < coeffs.len() {
            coeffs[i] as int
        } else {
            0
        }
}

/// The weights of a chroma plane are spelled, the offset modulo 512.
pub open spec fn spells_weights(
    w: SpelledWeights,
    mult: u8,
    luma_mult: u8,
    offset: u16,
) -> bool {
    w.mult == mult && w.luma_mult == luma_mult && w.offset == offset % 512
}

/// A grain description for a picture is spelled.
pub open spec fn spells(
    s: SpelledPayload,
    p: GrainModel,
    width: int,
    height: int,
    sampling: ChromaSubsampling,
) -> bool {
    &&& s.valid()
    &&& s.reserved == 0 && s.set_index == 0 && !s.short_size && s.signal is None
    &&& s.seed == p.grain_seed
    &&& s.horz_resolution * pow2(s.resolution_log2 as nat) == width
    &&& s.vert_resolution * pow2(s.resolution_log2 as nat) == height
    &&& s.horz_resolution % 2 == 1 || s.vert_resolution % 2 == 1
    &&& s.only_luma <==> p.scaling_points_cb.len() == 0 && p.scaling_points_cr.len() == 0
    &&& !s.only_luma ==> {
        &&& !(sampling is Monochrome)
        &&& s.subsampling_x <==> !(sampling is Yuv444)
        &&& s.subsampling_y <==> sampling is Yuv420
        &&& !s.from_luma
        &&& spells_function(s.cb, p.scaling_points_cb)
        &&& spells_function(s.cr, p.scaling_points_cr)
    }
    &&& spells_function(s.y, p.scaling_points_y)
    &&& s.scaling_shift == if p.scaling_shift > 8 {
        p.scaling_shift - 8
    } else {
        0
    }
    &&& s.lag == p.ar_coeff_lag
    &&& p.scaling_points_y.len() > 0 ==> spells_coefficients(s.y_coefficients, p.ar_coeffs_y)
    &&& p.scaling_points_cb.len() > 0 ==> spells_coefficients(s.cb_coefficients, p.ar_coeffs_cb)
    &&& p.scaling_points_cr.len() > 0 ==> spells_coefficients(s.cr_coefficients, p.ar_coeffs_cr)
    &&& s.coefficient_shift == if p.ar_coeff_shift > 6 {
        p.ar_coeff_shift - 6
    } else {
        0
    }
    &&& s.scale_shift == p.grain_scale_shift
    &&& p.scaling_points_cb.len() > 0 ==> spells_weights(
        s.cb_weights,
        p.cb_mult,
        p.cb_luma_mult,
        p.cb_offset,
    )
    &&& p.scaling_points_cr.len() > 0 ==> spells_weights(
        s.cr_weights,
        p.cr_mult,
        p.cr_luma_mult,
        p.cr_offset,
    )
    &&& s.overlap == p.overlap_flag
    &&& s.clip == p.clip_to_restricted_range
}

/// Less than a byte: nothing, or a one and then zeros.
pub open spec fn completes(rest: Seq<bool>) -> bool {
    &&& rest.len() < 8
    &&& forall|i: int| 0 <= i < rest.len() ==> (#[trigger] rest[i] <==> i == 0)
}

/// The spelling of a scaling function.
spec fn function_of(points: Seq<[u8; 2]>) -> SpelledFunction {
    SpelledFunction {
        value_bits: 8,
        scaling_bits: 8,
        offset: 0,
        points: Seq::new(points.len(), |i: int| (point_step(points, i), points[i][1] as int)),
    }
}

/// The spelling of coefficients.
spec fn coefficients_of(coeffs: Seq<i8>, count: nat) -> SpelledCoefficients {
    SpelledCoefficients { bits: 8, codes: Seq::new(count, |i: int| coeff_code(coeffs, i)) }
}

/// The spelling of a grain description.
spec fn spelling(
    p: GrainModel,
    size: int,
    log2: int,
    horz: int,
    vert: int,
    sampling: ChromaSubsampling,
) -> SpelledPayload {
    SpelledPayload {
        reserved: 0,
        short_size: false,
        size,
        set_index: 0,
        seed: p.grain_seed as int,
        resolution_log2: log2,
        horz_resolution: horz,
        vert_resolution: vert,
        only_luma: luma_only(p),
        subsampling_x: sampling is Yuv420 || sampling is Yuv422,
        subsampling_y: sampling is Yuv420,
        signal: None,
        y: function_of(p.scaling_points_y),
        from_luma: false,
        cb: function_of(p.scaling_points_cb),
        cr: function_of(p.scaling_points_cr),
        scaling_shift: above(p.scaling_shift, 8),
        lag: p.ar_coeff_lag as int,
        y_coefficients: coefficients_of(p.ar_coeffs_y, 24),
        cb_coefficients: coefficients_of(p.ar_coeffs_cb, 25),
        cr_coefficients: coefficients_of(p.ar_coeffs_cr, 25),
        coefficient_shift: above(p.ar_coeff_shift, 6),
        scale_shift: p.grain_scale_shift as int,
        cb_weights: SpelledWeights {
            mult: p.cb_mult as int,
            luma_mult: p.cb_luma_mult as int,
            offset: p.cb_offset as int % 512,
        },
        cr_weights: SpelledWeights {
            mult: p.cr_mult as int,
            luma_mult: p.cr_luma_mult as int,
            offset: p.cr_offset as int % 512,
        },
        overlap: p.overlap_flag,
        clip: p.clip_to_restricted_range,
    }
}

/// The steps add up to where a point stands.
proof fn lemma_steps(points: Seq<[u8; 2]>, i: int)
    requires
        0 <= i < points.len(),
    ensures
        function_of(points).sum(i) % 256 == points[i][0],
    decreases i,
{
    let f = function_of(points);
    assert(f.points[i].0 == point_step(points, i));
    if i > 0 {
        lemma_steps(points, i - 1);
    } else {
        assert(f.sum(-1) == 0);
    }
}

/// A scaling function is written as it is spelled.
proof fn lemma_function_of(points: Seq<[u8; 2]>, cap: int, chroma: bool)
    requires
        points.len() <= cap <= 15,
    ensures
        function_of(points).valid(cap),
        spells_function(function_of(points), points),
        function_of(points).fields(chroma) == point_fields(points, chroma),
{
    lemma2_to64();
    let f = function_of(points);
    assert forall|i: int| 0 <= i < points.len() implies (#[trigger] points[i])[0] == f.sum(i) % 256
        && points[i][1] == f.points[i].1 by {
        lemma_steps(points, i);
    }
    if points.len() > 0 {
        let pairs = point_pairs(points, points.len());
        lemma_pairs_index(points, points.len(), 0);
        assert forall|k: int| 0 <= k < pairs.len() implies #[trigger] pairs[k] == f.pairs(0)[k] by {
            lemma_pairs_index(points, points.len(), k / 2);
        }
        assert(f.pairs(0) =~= pairs);
    }
    assert(f.fields(chroma) =~= point_fields(points, chroma));
}

/// Coefficients are written as they are spelled.
proof fn lemma_coefficients_of(coeffs: Seq<i8>, count: nat)
    ensures
        coefficients_of(coeffs, count).valid(count as int),
        spells_coefficients(coefficients_of(coeffs, count), coeffs),
        coefficients_of(coeffs, count).fields() == coeff_fields(coeffs, count),
{
    lemma2_to64();
    assert(coefficients_of(coeffs, count).fields() =~= coeff_fields(coeffs, count));
}

/// The first fields of a payload are those of its spelling.
proof fn lemma_spelling_first(
    p: GrainModel,
    size: int,
    log2: int,
    horz: int,
    vert: int,
    sampling: ChromaSubsampling,
)
    requires
        size >= 4,
    ensures
        ({
            let s = spelling(p, size, log2, horz, vert, sampling);
            s.start_fields() + s.signal_fields() == (envelope_fields(size, 8) + set_fields(
                p,
                log2,
                horz,
                vert,
            )) + subsampling_fields(p, sampling)
        }),
{
    let s = spelling(p, size, log2, horz, vert, sampling);
    let a = s.start_fields();
    let b = s.signal_fields();
    let c = envelope_fields(size, 8);
    let d = set_fields(p, log2, horz, vert);
    let e = subsampling_fields(p, sampling);
    assert(a =~= c + d.take(4));
    if luma_only(p) {
        assert(b =~= d.skip(4) + e);
    } else {
        assert(b =~= d.skip(4) + e);
    }
    assert(d =~= d.take(4) + d.skip(4));
    assert(a + b =~= (c + d) + e);
}

/// The fields of the scaling functions are those of the spelling.
proof fn lemma_spelling_functions(
    p: GrainModel,
    size: int,
    log2: int,
    horz: int,
    vert: int,
    sampling: ChromaSubsampling,
)
    requires
        p.in_capacity(),
    ensures
        spelling(p, size, log2, horz, vert, sampling).function_fields() == scaling_fields(p),
{
    let s = spelling(p, size, log2, horz, vert, sampling);
    lemma_function_of(p.scaling_points_y, NUM_Y_POINTS as int, false);
    lemma_function_of(p.scaling_points_cb, NUM_UV_POINTS as int, true);
    lemma_function_of(p.scaling_points_cr, NUM_UV_POINTS as int, true);
    let y = point_fields(p.scaling_points_y, false);
    let cb = point_fields(p.scaling_points_cb, true);
    let cr = point_fields(p.scaling_points_cr, true);
    let one = seq![field(0, 1)];
    assert(one + (cb + cr) =~= one + cb + cr);
}

/// The fields of the auto-regression are those of the spelling.
proof fn lemma_spelling_regression(
    p: GrainModel,
    size: int,
    log2: int,
    horz: int,
    vert: int,
    sampling: ChromaSubsampling,
)
    ensures
        spelling(p, size, log2, horz, vert, sampling).regression_fields() == regression_fields(p),
{
    lemma_coefficients_of(p.ar_coeffs_y, 24);
    lemma_coefficients_of(p.ar_coeffs_cb, 25);
    lemma_coefficients_of(p.ar_coeffs_cr, 25);
}

/// The last fields are those of the spelling.
proof fn lemma_spelling_closing(
    p: GrainModel,
    size: int,
    log2: int,
    horz: int,
    vert: int,
    sampling: ChromaSubsampling,
)
    ensures
        spelling(p, size, log2, horz, vert, sampling).closing_fields() == closing_fields(p),
{
}

/// A grain description that can be written is spelled.
proof fn lemma_spelling(
    p: GrainModel,
    size: int,
    width: int,
    height: int,
    sampling: ChromaSubsampling,
)
    requires
        p.in_capacity(),
        0 < width <= u64::MAX,
        0 < height <= u64::MAX,
        0 <= size < 256,
        ({
            let (log2, horz, vert) = resolution(width, height);
            set_bits(p, log2, horz, vert, sampling) is Ok
        }),
    ensures
        ({
            let (log2, horz, vert) = resolution(width, height);
            spells(spelling(p, size, log2, horz, vert, sampling), p, width, height, sampling)
        }),
{
    lemma2_to64();
    lemma_resolution(width, height);
    lemma_resolution_range(width, height);
    let (log2, horz, vert) = resolution(width, height);
    let a = set_fields(p, log2, horz, vert);
    lemma_write_all_fits(a, 4);
    lemma_write_all_fits(a, 5);
    lemma_write_all_fits(a, 6);
    let c = regression_fields(p);
    let d = closing_fields(p);
    let front = subsampling_fields(p, sampling) + scaling_fields(p);
    lemma_write_all_add(front + c, d);
    lemma_write_all_add(front, c);
    lemma_write_all_fits(c, 0);
    lemma_write_all_fits(c, 1);
    lemma_write_all_fits(d, 0);
    lemma_write_all_fits(d, 1);
    lemma_function_of(p.scaling_points_y, NUM_Y_POINTS as int, false);
    lemma_function_of(p.scaling_points_cb, NUM_UV_POINTS as int, true);
    lemma_function_of(p.scaling_points_cr, NUM_UV_POINTS as int, true);
    lemma_coefficients_of(p.ar_coeffs_y, 24);
    lemma_coefficients_of(p.ar_coeffs_cb, 25);
    lemma_coefficients_of(p.ar_coeffs_cr, 25);
}

/// The bit of a flag stands behind the fields in front of it.
proof fn lemma_flag_bit(fields: Seq<Field>, k: int, set: bool)
    requires
        write_all(fields) is Ok,
        0 <= k < fields.len(),
        fields[k] == field(mark(set), 1),
    ensures
        width_of(fields.take(k)) < write_all(fields)->Ok_0.len(),
        write_all(fields)->Ok_0[width_of(fields.take(k)) as int] == set,
{
    let a = fields.take(k);
    let b = seq![fields[k]];
    let c = fields.skip(k + 1);
    assert(fields =~= (a + b) + c);
    lemma_write_all_add(a + b, c);
    lemma_write_all_add(a, b);
    lemma_write_all_len(a);
    let e = enc(mark(set) as nat, 1);
    assert(write_all(b)->Ok_0 =~= e) by {
        reveal_with_fuel(write_all, 2);
        assert(b.drop_last() =~= Seq::empty());
    }
    assert(e.len() == 1 && e[0] == set) by {
        reveal_with_fuel(enc, 2);
    }
}

/// Fields that stand in front of others.
proof fn lemma_in_front(
    a: Seq<Field>,
    b: Seq<Field>,
    c: Seq<Field>,
    d: Seq<Field>,
    e: Seq<Field>,
    rest: Seq<Field>,
)
    ensures
        a + ((b + c + d + e) + rest) == (a + b + c) + (d + e + rest),
{
}

/// The flags behind the resolution.
proof fn lemma_front_flags(s: SpelledPayload, front: Seq<Field>)
    requires
        !s.short_size,
        write_all(front) is Ok,
        front == s.start_fields() + seq![
            field(s.resolution_log2, 4),
            field(s.horz_resolution, 12),
            field(s.vert_resolution, 12),
            field(mark(s.only_luma), 1),
        ] + (if s.only_luma {
            Seq::empty()
        } else {
            seq![field(mark(s.subsampling_x), 1), field(mark(s.subsampling_y), 1)]
        }),
    ensures
        ({
            let bits = write_all(front)->Ok_0;
            &&& bits.len() > 98
            &&& bits[98] == s.only_luma
            &&& !s.only_luma ==> bits.len() > 100 && bits[99] == s.subsampling_x && bits[100]
                == s.subsampling_y
        }),
{
    let sized = s.start_fields() + seq![
        field(s.resolution_log2, 4),
        field(s.horz_resolution, 12),
        field(s.vert_resolution, 12),
    ];
    assert(front.take(15) =~= sized);
    assert(width_of(sized) == 98) by {
        reveal_with_fuel(width_of, 16);
    }
    assert(front[15] == field(mark(s.only_luma), 1));
    lemma_flag_bit(front, 15, s.only_luma);
    if !s.only_luma {
        assert(front[16] == field(mark(s.subsampling_x), 1));
        assert(front[17] == field(mark(s.subsampling_y), 1));
        assert(front.take(16).drop_last() =~= front.take(15));
        assert(front.take(17).drop_last() =~= front.take(16));
        lemma_flag_bit(front, 16, s.subsampling_x);
        lemma_flag_bit(front, 17, s.subsampling_y);
    }
}

/// Where the flags of a payload that spells its size in eight bits stand.
proof fn lemma_flags(s: SpelledPayload)
    requires
        !s.short_size,
        write_all(s.fields()) is Ok,
    ensures
        s.bits().len() > 98,
        s.bits()[98] == s.only_luma,
        !s.only_luma ==> s.bits().len() > 100 && s.bits()[99] == s.subsampling_x
            && s.bits()[100] == s.subsampling_y,
{
    let a = s.start_fields();
    let b = seq![
        field(s.resolution_log2, 4),
        field(s.horz_resolution, 12),
        field(s.vert_resolution, 12),
        field(mark(s.only_luma), 1),
    ];
    let c = if s.only_luma {
        Seq::empty()
    } else {
        seq![field(mark(s.subsampling_x), 1), field(mark(s.subsampling_y), 1)]
    };
    let d = s.described_fields();
    let e = seq![field(0, 1)];
    let rest = s.function_fields() + (s.regression_fields() + s.closing_fields());
    lemma_in_front(a, b, c, d, e, rest);
    lemma_write_all_add(a + b + c, d + e + rest);
    lemma_front_flags(s, a + b + c);
}

/// Fields in the order in which they are written and in which they are spelled.
proof fn lemma_regroup(
    x: Seq<Field>,
    y: Seq<Field>,
    ab: Seq<Field>,
    c: Seq<Field>,
    d: Seq<Field>,
    e: Seq<Field>,
    f: Seq<Field>,
)
    requires
        x + y == ab + c,
    ensures
        x + (y + (d + (e + f))) == ab + (c + d + e + f),
{
    let rest = d + (e + f);
    assert(x + (y + rest) =~= (x + y) + rest);
    assert((ab + c) + rest =~= ab + (c + d + e + f));
}

/// The bits of a payload are those of its spelling.
proof fn lemma_spelling_bits(
    p: GrainModel,
    size: int,
    log2: int,
    horz: int,
    vert: int,
    sampling: ChromaSubsampling,
)
    requires
        p.in_capacity(),
        4 <= size < 256,
        set_bits(p, log2, horz, vert, sampling) is Ok,
    ensures
        ({
            let s = spelling(p, size, log2, horz, vert, sampling);
            &&& write_all(s.fields()) is Ok
            &&& s.bits() == payload_bits(set_bits(p, log2, horz, vert, sampling)->Ok_0, size, 8)
        }),
{
    assert(size < pow2(8)) by {
        lemma2_to64();
    }
    lemma_envelope(size, 8);
    let s = spelling(p, size, log2, horz, vert, sampling);
    lemma_spelling_first(p, size, log2, horz, vert, sampling);
    lemma_spelling_functions(p, size, log2, horz, vert, sampling);
    lemma_spelling_regression(p, size, log2, horz, vert, sampling);
    lemma_spelling_closing(p, size, log2, horz, vert, sampling);
    let a = envelope_fields(size, 8);
    let b = set_fields(p, log2, horz, vert);
    let c = subsampling_fields(p, sampling);
    let d = scaling_fields(p);
    let e = regression_fields(p);
    let f = closing_fields(p);
    lemma_regroup(s.start_fields(), s.signal_fields(), a + b, c, d, e, f);
    lemma_write_all_add(a + b, c + d + e + f);
    lemma_write_all_add(a, b);
    let x = write_all(a)->Ok_0;
    let y = write_all(b)->Ok_0;
    let z = write_all(c + d + e + f)->Ok_0;
    assert((x + y) + z =~= x + (y + z));
}

/// The size that a payload states.
spec fn size_of(p: GrainModel, width: int, height: int, sampling: ChromaSubsampling) -> int {
    let (log2, horz, vert) = resolution(width, height);
    stated_size(set_bits(p, log2, horz, vert, sampling)->Ok_0.len(), 8)
}

/// The spelling of a payload that is built.
spec fn built(
    p: GrainModel,
    width: int,
    height: int,
    sampling: ChromaSubsampling,
) -> SpelledPayload {
    let (log2, horz, vert) = resolution(width, height);
    spelling(p, size_of(p, width, height, sampling), log2, horz, vert, sampling)
}

/// The bits that complete a payload make up its last byte.
proof fn lemma_completed(bits: Seq<bool>)
    ensures
        completes(align_bits(bits.len())),
        bits_of(bytes_of(bits + align_bits(bits.len()))) == bits + align_bits(bits.len()),
        bytes_of(bits + align_bits(bits.len())).len() == (bits.len() + 7) / 8,
{
    let all = bits + align_bits(bits.len());
    assert(all.len() == 8 * ((bits.len() + 7) / 8));
    lemma_bits_of_bytes(all);
}

/// The bits of a payload that was built are those of its spelling, and less than a byte behind
/// them.
proof fn lemma_built_bits(p: GrainModel, width: int, height: int, sampling: ChromaSubsampling)
    requires
        p.in_capacity(),
        0 < width <= u64::MAX,
        0 < height <= u64::MAX,
        afgs1_payload(p, width, height, sampling) is Ok,
    ensures
        ({
            let payload = afgs1_payload(p, width, height, sampling)->Ok_0;
            let s = built(p, width, height, sampling);
            let rest = align_bits(s.bits().len());
            &&& s.bits() + rest == bits_of(payload)
            &&& write_all(s.fields()) is Ok
            &&& size_of(p, width, height, sampling) == payload.len() - 4
            &&& 0 <= size_of(p, width, height, sampling) < 256
            &&& completes(rest)
        }),
{
    let (log2, horz, vert) = resolution(width, height);
    let set = set_bits(p, log2, horz, vert, sampling)->Ok_0;
    lemma_set_len(p, log2, horz, vert, sampling);
    let size = size_of(p, width, height, sampling);
    lemma_spelling_bits(p, size, log2, horz, vert, sampling);
    lemma_envelope_len(size);
    lemma_completed(payload_bits(set, size, 8));
}

/// Law: a payload that was built spells the grain description, its own size behind the four bytes
/// of registration codes, and the picture and its sampling. Behind that comes less than a byte: a
/// one and zeros. The flag for grain of luma alone is bit 98; where it is not set, the two bits
/// behind it are both set for chroma of half the width and height, only the first is set for
/// chroma of half the width, and neither is set for full chroma.
pub proof fn law_built_payload_spells(
    p: GrainModel,
    width: int,
    height: int,
    sampling: ChromaSubsampling,
)
    requires
        p.in_capacity(),
        0 < width <= u64::MAX,
        0 < height <= u64::MAX,
        afgs1_payload(p, width, height, sampling) is Ok,
    ensures
        ({
            let payload = afgs1_payload(p, width, height, sampling)->Ok_0;
            let bits = bits_of(payload);
            &&& exists|s: SpelledPayload, rest: Seq<bool>| #[trigger]
                (s.bits() + rest) == bits && spells(s, p, width, height, sampling) && s.size
                    == payload.len() - 4 && completes(rest)
            &&& bits.len() > 98
            &&& bits[98] <==> p.scaling_points_cb.len() == 0 && p.scaling_points_cr.len() == 0
            &&& !bits[98] ==> bits.len() > 100
            &&& !bits[98] && sampling is Yuv420 ==> bits[99] && bits[100]
            &&& !bits[98] && sampling is Yuv422 ==> bits[99] && !bits[100]
            &&& !bits[98] && sampling is Yuv444 ==> !bits[99] && !bits[100]
        }),
{
    let s = built(p, width, height, sampling);
    let rest = align_bits(s.bits().len());
    lemma_built_bits(p, width, height, sampling);
    lemma_spelling(p, size_of(p, width, height, sampling), width, height, sampling);
    lemma_flags(s);
    assert(s.bits() + rest == bits_of(afgs1_payload(p, width, height, sampling)->Ok_0));
}

/// The fields in front of a film grain set take 49 bits.
proof fn lemma_envelope_len(size: int)
    requires
        0 <= size < 256,
    ensures
        write_all(envelope_fields(size, 8))->Ok_0.len() == 49,
{
    assert(size < pow2(8)) by {
        lemma2_to64();
    }
    lemma_envelope(size, 8);
}

} // verus!
