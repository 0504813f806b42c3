//! What reading an AFGS1 payload gives back of what was written.
use crate::afgs1_read::{
    afgs1_grain, next_point, parsed_payload, points_fit, read_closing, read_codes,
    read_coefficients, read_functions, read_points, read_regression, read_scaling, read_signal,
    read_start, read_weights, Closing, Cursor, Fault, Regression, Scaling, Weights,
};
use crate::afgs1_write::{
    above, afgs1_payload, closing_fields, coeff_code, coeff_fields, envelope_fields, flag,
    lemma_envelope, lemma_set_len, luma_only, payload_bits, point_fields, point_pairs, point_step,
    regression_fields, resolution, scaling_fields, set_bits, set_fields, stated_size,
    subsampling_fields,
};
use crate::bits::{
    align_bits, enc, field, law_first_misfit_told, lemma_bits_of_bytes, lemma_uint_enc,
    lemma_write_all_add, lemma_write_all_fits, lemma_write_all_ok, write_all, Field,
};
use crate::error::Error;
use crate::grain::{GrainModel, NUM_UV_POINTS, NUM_Y_POINTS};
use crate::video::ChromaSubsampling;
use vstd::arithmetic::power2::{lemma2_to64, pow2};
use vstd::prelude::*;

verus! {

/// The first `count` coefficients, filled up with zeros.
pub open spec fn padded(coeffs: Seq<i8>, count: nat) -> Seq<i8> {
    Seq::new(
        count,
        |i: int|
            if i < coeffs.len() {
                coeffs[i]
            } else {
                0
            },
    )
}

/// The shift, but no less than its least value.
pub open spec fn at_least(shift: u8, least: u8) -> u8 {
    if shift >= least {
        shift
    } else {
        least
    }
}

/// What a payload keeps of a grain description: coefficients and weights only of planes with a
/// scaling function, full lists of coefficients, shifts no less than their least values, offsets
/// modulo 512, and no scaling of chroma by luma.
pub open spec fn carried(p: GrainModel) -> GrainModel {
    let y = p.scaling_points_y.len() > 0;
    let cb = p.scaling_points_cb.len() > 0;
    let cr = p.scaling_points_cr.len() > 0;
    GrainModel {
        grain_seed: p.grain_seed,
        scaling_points_y: p.scaling_points_y,
        scaling_points_cb: p.scaling_points_cb,
        scaling_points_cr: p.scaling_points_cr,
        scaling_shift: at_least(p.scaling_shift, 8),
        ar_coeff_lag: p.ar_coeff_lag,
        ar_coeffs_y: if y {
            padded(p.ar_coeffs_y, 24)
        } else {
            Seq::empty()
        },
        ar_coeffs_cb: if cb {
            padded(p.ar_coeffs_cb, 25)
        } else {
            Seq::empty()
        },
        ar_coeffs_cr: if cr {
            padded(p.ar_coeffs_cr, 25)
        } else {
            Seq::empty()
        },
        ar_coeff_shift: at_least(p.ar_coeff_shift, 6),
        cb_mult: if cb {
            p.cb_mult
        } else {
            0
        },
        cb_luma_mult: if cb {
            p.cb_luma_mult
        } else {
            0
        },
        cb_offset: if cb {
            (p.cb_offset % 512) as u16
        } else {
            0
        },
        cr_mult: if cr {
            p.cr_mult
        } else {
            0
        },
        cr_luma_mult: if cr {
            p.cr_luma_mult
        } else {
            0
        },
        cr_offset: if cr {
            (p.cr_offset % 512) as u16
        } else {
            0
        },
        chroma_scaling_from_luma: false,
        grain_scale_shift: p.grain_scale_shift,
        overlap_flag: p.overlap_flag,
        clip_to_restricted_range: p.clip_to_restricted_range,
    }
}

/// The bits of fields that can be written.
#[verifier::opaque]
pub open spec fn written(fields: Seq<Field>) -> Seq<bool> {
    write_all(fields)->Ok_0
}

/// Reading where these fields come next, and then `tail`.
pub open spec fn before(fields: Seq<Field>, tail: Seq<bool>) -> Cursor {
    Cursor { rest: written(fields) + tail, fault: None }
}

/// Reading where `tail` comes next.
pub open spec fn behind(tail: Seq<bool>) -> Cursor {
    Cursor { rest: tail, fault: None }
}

/// Reading a field gives its value and leaves the next fields.
pub proof fn lemma_step(fields: Seq<Field>, tail: Seq<bool>)
    requires
        write_all(fields) is Ok,
        fields.len() > 0,
    ensures
        write_all(fields.skip(1)) is Ok,
        before(fields, tail).peek(fields[0].width as int) == fields[0].value,
        before(fields, tail).skip(fields[0].width as int) == before(fields.skip(1), tail),
{
    reveal(written);
    let f = fields[0];
    let rest = fields.skip(1);
    assert(fields =~= seq![f] + rest);
    lemma_write_all_add(seq![f], rest);
    lemma_write_all_fits(fields, 0);
    let e = enc(f.value as nat, f.width as nat);
    assert(write_all(seq![f]) == Ok::<Seq<bool>, Error>(e)) by {
        reveal_with_fuel(write_all, 2);
        assert(seq![f].drop_last() =~= Seq::empty());
        assert(Seq::<bool>::empty() + e =~= e);
    }
    lemma_uint_enc(f.value as nat, f.width as nat);
    let all = written(fields) + tail;
    assert(all.take(f.width as int) =~= e);
    assert(all.skip(f.width as int) =~= written(rest) + tail);
}

/// Reading the field at `k` gives its value and leaves the next fields.
pub proof fn lemma_step_at(fields: Seq<Field>, k: int, tail: Seq<bool>)
    requires
        write_all(fields.skip(k)) is Ok,
        0 <= k < fields.len(),
    ensures
        write_all(fields.skip(k + 1)) is Ok,
        before(fields.skip(k), tail).peek(fields[k].width as int) == fields[k].value,
        before(fields.skip(k), tail).skip(fields[k].width as int) == before(
            fields.skip(k + 1),
            tail,
        ),
{
    lemma_step(fields.skip(k), tail);
    assert(fields.skip(k).skip(1) =~= fields.skip(k + 1));
}

/// Nothing is left of no fields.
pub proof fn lemma_none(fields: Seq<Field>, tail: Seq<bool>)
    requires
        fields.len() == 0,
    ensures
        before(fields, tail) == behind(tail),
{
    reveal(written);
    assert(written(fields) + tail =~= tail);
}

/// Reading the first of two lists leaves the second.
pub proof fn lemma_split(a: Seq<Field>, b: Seq<Field>, tail: Seq<bool>)
    requires
        write_all(a) is Ok,
        write_all(b) is Ok,
    ensures
        write_all(a + b) is Ok,
        before(a + b, tail) == before(a, written(b) + tail),
{
    reveal(written);
    lemma_write_all_add(a, b);
    assert((written(a) + written(b)) + tail =~= written(a) + (written(b) + tail));
}

/// The fields of each scaling point.
pub proof fn lemma_pairs_index(points: Seq<[u8; 2]>, n: nat, i: int)
    requires
        0 <= i < n,
    ensures
        point_pairs(points, n).len() == 2 * n,
        point_pairs(points, n)[2 * i] == field(point_step(points, i), 8),
        point_pairs(points, n)[2 * i + 1] == field(points[i][1] as int, 8),
    decreases n,
{
    reveal_with_fuel(point_pairs, 2);
    if n > 1 {
        lemma_pairs_index(points, (n - 1) as nat, if i < n - 1 {
            i
        } else {
            0
        });
    }
}

/// Scaling points are read as they were written.
proof fn lemma_points(points: Seq<[u8; 2]>, i: nat, cap: nat, tail: Seq<bool>)
    requires
        i <= points.len() <= cap,
        write_all(point_pairs(points, points.len()).skip(2 * i as int)) is Ok,
        points.len() > 0,
    ensures
        read_points(
            before(point_pairs(points, points.len()).skip(2 * i as int), tail),
            points.take(i as int),
            points.len(),
            cap,
            8,
            8,
        ) == (points, behind(tail)),
    decreases points.len() - i,
{
    let n = points.len();
    let pairs = point_pairs(points, n);
    lemma_pairs_index(points, n, 0);
    let f0 = pairs.skip(2 * i as int);
    if i == n {
        assert(points.take(i as int) =~= points);
        lemma_none(f0, tail);
    } else {
        lemma_pairs_index(points, n, i as int);
        let f1 = f0.skip(1);
        let f2 = f1.skip(1);
        lemma_step(f0, tail);
        lemma_step(f1, tail);
        assert(f2 =~= pairs.skip(2 * (i + 1) as int));
        let sofar = points.take(i as int);
        let p = next_point(sofar, point_step(points, i as int), points[i as int][1] as int);
        assert(p =~= points[i as int]);
        assert(sofar.push(p) =~= points.take((i + 1) as int));
        lemma_points(points, i + 1, cap, tail);
    }
}

/// A scaling function is read as it was written.
proof fn lemma_scaling(points: Seq<[u8; 2]>, chroma: bool, cap: nat, tail: Seq<bool>)
    requires
        points.len() <= cap <= 15,
        write_all(point_fields(points, chroma)) is Ok,
    ensures
        read_scaling(before(point_fields(points, chroma), tail), cap, chroma) == (
            points,
            behind(tail),
        ),
{
    let f0 = point_fields(points, chroma);
    lemma_step(f0, tail);
    let f1 = f0.skip(1);
    if points.len() == 0 {
        lemma_none(f1, tail);
        assert(points =~= Seq::empty());
    } else {
        lemma_step(f1, tail);
        let f2 = f1.skip(1);
        lemma_step(f2, tail);
        let f3 = f2.skip(1);
        if chroma {
            lemma_step(f3, tail);
        }
        let f4 = if chroma {
            f3.skip(1)
        } else {
            f3
        };
        let pairs = point_pairs(points, points.len());
        assert(f4 =~= pairs);
        assert(pairs.skip(0) =~= pairs);
        assert(points.take(0) =~= Seq::empty());
        lemma_points(points, 0, cap, tail);
    }
}

proof fn lemma_codes(coeffs: Seq<i8>, count: nat, i: nat, tail: Seq<bool>)
    requires
        i <= count,
        write_all(coeff_fields(coeffs, count).skip(1 + i as int)) is Ok,
    ensures
        read_codes(
            before(coeff_fields(coeffs, count).skip(1 + i as int), tail),
            padded(coeffs, count).take(i as int),
            count,
            8,
        ) == (padded(coeffs, count), behind(tail)),
    decreases count - i,
{
    let f0 = coeff_fields(coeffs, count).skip(1 + i as int);
    let all = padded(coeffs, count);
    if i == count {
        assert(all.take(i as int) =~= all);
        lemma_none(f0, tail);
    } else {
        lemma2_to64();
        lemma_step(f0, tail);
        assert(f0.skip(1) =~= coeff_fields(coeffs, count).skip(1 + (i + 1) as int));
        assert(f0[0] == field(coeff_code(coeffs, i as int), 8));
        assert(all.take(i as int).push(all[i as int]) =~= all.take((i + 1) as int));
        lemma_codes(coeffs, count, i + 1, tail);
    }
}

/// Coefficients are read as they were written, filled up with zeros.
proof fn lemma_coefficients(coeffs: Seq<i8>, count: nat, tail: Seq<bool>)
    requires
        write_all(coeff_fields(coeffs, count)) is Ok,
    ensures
        read_coefficients(before(coeff_fields(coeffs, count), tail), count) == (
            padded(coeffs, count),
            behind(tail),
        ),
{
    lemma_step(coeff_fields(coeffs, count), tail);
    assert(padded(coeffs, count).take(0) =~= Seq::empty());
    assert(coeff_fields(coeffs, count).skip(1) =~= coeff_fields(coeffs, count).skip(1 + 0int));
    lemma_codes(coeffs, count, 0, tail);
}

/// The registration codes, the switches and the seed are read as they were written.
proof fn lemma_start(p: GrainModel, size: int, log2: int, horz: int, vert: int, tail: Seq<bool>)
    requires
        4 <= size < 256,
        write_all(envelope_fields(size, 8)) is Ok,
        write_all(set_fields(p, log2, horz, vert)) is Ok,
    ensures
        write_all(set_fields(p, log2, horz, vert).skip(4)) is Ok,
        read_start(
            before(envelope_fields(size, 8) + set_fields(p, log2, horz, vert), tail),
        ) == (p.grain_seed as int, before(set_fields(p, log2, horz, vert).skip(4), tail)),
{
    let set = set_fields(p, log2, horz, vert);
    let f = envelope_fields(size, 8) + set;
    lemma_write_all_add(envelope_fields(size, 8), set);
    assert(f.skip(0) =~= f);
    assert(f[0] == field(0xb5, 8) && f[1] == field(0x5890, 16) && f[2] == field(0x01, 8));
    assert(f[3] == field(1, 1) && f[4] == field(0, 4) && f[5] == field(0, 3));
    assert(f[6] == field(0, 1) && f[7] == field(size, 8) && f[8] == field(0, 3));
    assert(f[9] == field(1, 1) && f[10] == field(p.grain_seed as int, 16));
    assert(f[11] == field(1, 1));
    lemma_step_at(f, 0, tail);
    lemma_step_at(f, 1, tail);
    lemma_step_at(f, 2, tail);
    lemma_step_at(f, 3, tail);
    lemma_step_at(f, 4, tail);
    lemma_step_at(f, 5, tail);
    lemma_step_at(f, 6, tail);
    lemma_step_at(f, 7, tail);
    lemma_step_at(f, 8, tail);
    lemma_step_at(f, 9, tail);
    lemma_step_at(f, 10, tail);
    lemma_step_at(f, 11, tail);
    assert(f.skip(12) =~= set.skip(4));
    reveal(read_start);
}

/// The resolution and the signal are read as they were written.
proof fn lemma_signal(
    p: GrainModel,
    log2: int,
    horz: int,
    vert: int,
    sampling: ChromaSubsampling,
    tail: Seq<bool>,
)
    requires
        write_all(set_fields(p, log2, horz, vert).skip(4)) is Ok,
        write_all(subsampling_fields(p, sampling)) is Ok,
    ensures
        read_signal(
            before(
                set_fields(p, log2, horz, vert).skip(4) + subsampling_fields(p, sampling),
                tail,
            ),
        ) == (luma_only(p), behind(tail)),
{
    reveal(read_signal);
    let set = set_fields(p, log2, horz, vert).skip(4);
    let sub = subsampling_fields(p, sampling);
    let f0 = set + sub;
    lemma_write_all_add(set, sub);
    let f1 = f0.skip(1);
    let f2 = f1.skip(1);
    let f3 = f2.skip(1);
    let f4 = f3.skip(1);
    lemma_step(f0, tail);
    lemma_step(f1, tail);
    lemma_step(f2, tail);
    lemma_step(f3, tail);
    assert(f0[0].width == 4 && f1[0].width == 12 && f2[0].width == 12);
    assert(f3[0] == field(flag(luma_only(p)), 1));
    assert(f4 =~= sub);
    let f5 = if luma_only(p) {
        f4
    } else {
        f4.skip(1).skip(1)
    };
    if !luma_only(p) {
        lemma_step(f4, tail);
        lemma_step(f4.skip(1), tail);
    }
    let f6 = f5.skip(1);
    let f7 = f6.skip(1);
    lemma_step(f5, tail);
    lemma_step(f6, tail);
    lemma_none(f7, tail);
    assert(f5[0] == field(0, 1) && f6[0] == field(0, 1));
}

/// The scaling functions are read as they were written.
proof fn lemma_functions(p: GrainModel, tail: Seq<bool>)
    requires
        p.in_capacity(),
        write_all(scaling_fields(p)) is Ok,
    ensures
        read_functions(before(scaling_fields(p), tail), luma_only(p)) == (
            Scaling {
                y: p.scaling_points_y,
                cb: p.scaling_points_cb,
                cr: p.scaling_points_cr,
                from_luma: false,
            },
            behind(tail),
        ),
{
    reveal(read_functions);
    let y = point_fields(p.scaling_points_y, false);
    let cb = point_fields(p.scaling_points_cb, true);
    let cr = point_fields(p.scaling_points_cr, true);
    let one = seq![field(0, 1)];
    if luma_only(p) {
        assert(scaling_fields(p) =~= y);
        lemma_scaling(p.scaling_points_y, false, NUM_Y_POINTS as nat, tail);
        assert(p.scaling_points_cb =~= Seq::empty());
        assert(p.scaling_points_cr =~= Seq::empty());
    } else {
        lemma_write_all_add(y, one + cb + cr);
        lemma_write_all_add(one + cb, cr);
        lemma_write_all_add(one, cb);
        lemma_split(y, one + cb + cr, tail);
        lemma_scaling(
            p.scaling_points_y,
            false,
            NUM_Y_POINTS as nat,
            written(one + cb + cr) + tail,
        );
        let f = one + cb + cr;
        lemma_step(f, tail);
        assert(f.skip(1) =~= cb + cr);
        lemma_split(cb, cr, tail);
        lemma_scaling(p.scaling_points_cb, true, NUM_UV_POINTS as nat, written(cr) + tail);
        lemma_scaling(p.scaling_points_cr, true, NUM_UV_POINTS as nat, tail);
    }
}

/// A list of coefficients that is written only if there is a scaling function.
spec fn coeffs_if(present: bool, coeffs: Seq<i8>, count: nat) -> Seq<Field> {
    if present {
        coeff_fields(coeffs, count)
    } else {
        Seq::empty()
    }
}

proof fn lemma_coeffs_if(present: bool, coeffs: Seq<i8>, count: nat, tail: Seq<bool>)
    requires
        write_all(coeffs_if(present, coeffs, count)) is Ok,
    ensures
        (if present {
            read_coefficients(before(coeffs_if(present, coeffs, count), tail), count)
        } else {
            (Seq::empty(), before(coeffs_if(present, coeffs, count), tail))
        }) == (
            if present {
                padded(coeffs, count)
            } else {
                Seq::empty()
            },
            behind(tail),
        ),
{
    if present {
        lemma_coefficients(coeffs, count, tail);
    } else {
        lemma_none(Seq::empty(), tail);
    }
}

/// The auto-regression is read as it was written.
proof fn lemma_regression(p: GrainModel, s: Scaling, tail: Seq<bool>)
    requires
        write_all(regression_fields(p)) is Ok,
        s.y == p.scaling_points_y,
        s.cb == p.scaling_points_cb,
        s.cr == p.scaling_points_cr,
        !s.from_luma,
    ensures
        read_regression(before(regression_fields(p), tail), s) == (
            Regression {
                scaling_shift: at_least(p.scaling_shift, 8) as int,
                lag: p.ar_coeff_lag as int,
                y: carried(p).ar_coeffs_y,
                cb: carried(p).ar_coeffs_cb,
                cr: carried(p).ar_coeffs_cr,
            },
            behind(tail),
        ),
{
    reveal(read_regression);
    let start = seq![field(above(p.scaling_shift, 8), 2), field(p.ar_coeff_lag as int, 2)];
    let y = coeffs_if(p.scaling_points_y.len() > 0, p.ar_coeffs_y, 24);
    let cb = coeffs_if(p.scaling_points_cb.len() > 0, p.ar_coeffs_cb, 25);
    let cr = coeffs_if(p.scaling_points_cr.len() > 0, p.ar_coeffs_cr, 25);
    let all = regression_fields(p);
    assert(all =~= start + y + cb + cr);
    lemma_write_all_add(start + y + cb, cr);
    lemma_write_all_add(start + y, cb);
    lemma_write_all_add(start, y);
    lemma_step(all, tail);
    lemma_step(all.skip(1), tail);
    assert(all[0] == start[0] && all.skip(1)[0] == start[1]);
    assert(all.skip(1).skip(1) =~= y + (cb + cr));
    lemma_split(cb, cr, tail);
    lemma_split(y, cb + cr, tail);
    lemma_coeffs_if(
        p.scaling_points_y.len() > 0,
        p.ar_coeffs_y,
        24,
        written(cb + cr) + tail,
    );
    lemma_coeffs_if(p.scaling_points_cb.len() > 0, p.ar_coeffs_cb, 25, written(cr) + tail);
    lemma_coeffs_if(p.scaling_points_cr.len() > 0, p.ar_coeffs_cr, 25, tail);
}

/// The weights of a chroma plane with a scaling function.
spec fn weights_if(present: bool, mult: u8, luma_mult: u8, offset: u16) -> Seq<Field> {
    if present {
        seq![field(mult as int, 8), field(luma_mult as int, 8), field(offset as int % 512, 9)]
    } else {
        Seq::empty()
    }
}

proof fn lemma_weights(
    present: bool,
    mult: u8,
    luma_mult: u8,
    offset: u16,
    tail: Seq<bool>,
)
    requires
        write_all(weights_if(present, mult, luma_mult, offset)) is Ok,
    ensures
        read_weights(before(weights_if(present, mult, luma_mult, offset), tail), present) == (
            if present {
                Weights {
                    mult: mult as int,
                    luma_mult: luma_mult as int,
                    offset: offset as int % 512,
                }
            } else {
                Weights { mult: 0, luma_mult: 0, offset: 0 }
            },
            behind(tail),
        ),
{
    let f = weights_if(present, mult, luma_mult, offset);
    if present {
        lemma_step(f, tail);
        lemma_step(f.skip(1), tail);
        lemma_step(f.skip(1).skip(1), tail);
        lemma_none(f.skip(1).skip(1).skip(1), tail);
    } else {
        lemma_none(f, tail);
    }
}

/// The rest of a film grain set is read as it was written.
proof fn lemma_closing(p: GrainModel, s: Scaling, tail: Seq<bool>)
    requires
        write_all(closing_fields(p)) is Ok,
        s.cb == p.scaling_points_cb,
        s.cr == p.scaling_points_cr,
    ensures
        read_closing(before(closing_fields(p), tail), s) == (
            Closing {
                ar_coeff_shift: at_least(p.ar_coeff_shift, 6) as int,
                grain_scale_shift: p.grain_scale_shift as int,
                cb: Weights {
                    mult: carried(p).cb_mult as int,
                    luma_mult: carried(p).cb_luma_mult as int,
                    offset: carried(p).cb_offset as int,
                },
                cr: Weights {
                    mult: carried(p).cr_mult as int,
                    luma_mult: carried(p).cr_luma_mult as int,
                    offset: carried(p).cr_offset as int,
                },
                overlap: p.overlap_flag,
                clip: p.clip_to_restricted_range,
            },
            behind(tail),
        ),
{
    reveal(read_closing);
    let start = seq![field(above(p.ar_coeff_shift, 6), 2), field(p.grain_scale_shift as int, 2)];
    let has_cb = p.scaling_points_cb.len() > 0;
    let has_cr = p.scaling_points_cr.len() > 0;
    let cb = weights_if(has_cb, p.cb_mult, p.cb_luma_mult, p.cb_offset);
    let cr = weights_if(has_cr, p.cr_mult, p.cr_luma_mult, p.cr_offset);
    let end = seq![field(flag(p.overlap_flag), 1), field(flag(p.clip_to_restricted_range), 1)];
    let all = closing_fields(p);
    assert(all =~= start + cb + cr + end);
    lemma_write_all_add(start + cb + cr, end);
    lemma_write_all_add(start + cb, cr);
    lemma_write_all_add(start, cb);
    lemma_step(all, tail);
    lemma_step(all.skip(1), tail);
    assert(all[0] == start[0] && all.skip(1)[0] == start[1]);
    assert(all.skip(1).skip(1) =~= cb + (cr + end));
    lemma_split(cr, end, tail);
    lemma_split(cb, cr + end, tail);
    lemma_weights(has_cb, p.cb_mult, p.cb_luma_mult, p.cb_offset, written(cr + end) + tail);
    lemma_weights(has_cr, p.cr_mult, p.cr_luma_mult, p.cr_offset, written(end) + tail);
    lemma_step(end, tail);
    lemma_step(end.skip(1), tail);
    lemma_none(end.skip(1).skip(1), tail);
}

/// The bits of lists of fields, one behind the other, in the order in which they are read.
proof fn lemma_join(
    a: Seq<Field>,
    b: Seq<Field>,
    c: Seq<Field>,
    d: Seq<Field>,
    e: Seq<Field>,
    f: Seq<Field>,
    tail: Seq<bool>,
)
    requires
        write_all(a) is Ok,
        write_all(b) is Ok,
        write_all(c + d + e + f) is Ok,
    ensures
        write_all(a + b) is Ok,
        write_all(c) is Ok,
        write_all(d) is Ok,
        write_all(e) is Ok,
        write_all(f) is Ok,
        (write_all(a)->Ok_0 + (write_all(b)->Ok_0 + write_all(c + d + e + f)->Ok_0)) + tail
            == written(a + b) + (written(c) + (written(d) + (written(e) + (written(f) + tail)))),
{
    reveal(written);
    lemma_write_all_add(a, b);
    lemma_write_all_add(c + d + e, f);
    lemma_write_all_add(c + d, e);
    lemma_write_all_add(c, d);
    assert((write_all(a)->Ok_0 + (write_all(b)->Ok_0 + write_all(c + d + e + f)->Ok_0)) + tail
        =~= written(a + b) + (written(c) + (written(d) + (written(e) + (written(f) + tail)))));
}

/// The bits of a grain description, with anything behind them, are read as what a payload keeps
/// of it.
proof fn lemma_grain_bits(
    p: GrainModel,
    size: int,
    log2: int,
    horz: int,
    vert: int,
    sampling: ChromaSubsampling,
    tail: Seq<bool>,
)
    requires
        p.in_capacity(),
        4 <= size < 256,
        set_bits(p, log2, horz, vert, sampling) is Ok,
    ensures
        afgs1_grain(payload_bits(set_bits(p, log2, horz, vert, sampling)->Ok_0, size, 8) + tail)
            == Ok::<GrainModel, Fault>(carried(p)),
{
    assert(size < pow2(8)) by {
        lemma2_to64();
    }
    lemma_envelope(size, 8);
    let t4 = written(closing_fields(p)) + tail;
    let t3 = written(regression_fields(p)) + t4;
    let t2 = written(scaling_fields(p)) + t3;
    let t1 = written(subsampling_fields(p, sampling)) + t2;
    let bits = payload_bits(set_bits(p, log2, horz, vert, sampling)->Ok_0, size, 8) + tail;
    lemma_join(
        envelope_fields(size, 8),
        set_fields(p, log2, horz, vert),
        subsampling_fields(p, sampling),
        scaling_fields(p),
        regression_fields(p),
        closing_fields(p),
        tail,
    );
    lemma_start(p, size, log2, horz, vert, t1);
    lemma_split(set_fields(p, log2, horz, vert).skip(4), subsampling_fields(p, sampling), t2);
    lemma_signal(p, log2, horz, vert, sampling, t2);
    lemma_functions(p, t3);
    let s = Scaling {
        y: p.scaling_points_y,
        cb: p.scaling_points_cb,
        cr: p.scaling_points_cr,
        from_luma: false,
    };
    lemma_regression(p, s, t4);
    lemma_closing(p, s, tail);
    assert(afgs1_grain(bits)->Ok_0 =~= carried(p));
}

/// Law: a payload that was written for a grain description is read as what a payload keeps of
/// it. The picture and its sampling make no difference.
pub proof fn law_payload_round_trip(
    p: GrainModel,
    width: int,
    height: int,
    sampling: ChromaSubsampling,
)
    requires
        p.in_capacity(),
        afgs1_payload(p, width, height, sampling) is Ok,
    ensures
        points_fit(afgs1_payload(p, width, height, sampling)->Ok_0),
        parsed_payload(afgs1_payload(p, width, height, sampling)->Ok_0) == Ok::<GrainModel, Error>(
            carried(p),
        ),
{
    let (log2, horz, vert) = resolution(width, height);
    let set = set_bits(p, log2, horz, vert, sampling)->Ok_0;
    lemma_set_len(p, log2, horz, vert, sampling);
    let size = stated_size(set.len(), 8);
    let bits = payload_bits(set, size, 8);
    let all = bits + align_bits(bits.len());
    assert(all.len() % 8 == 0);
    lemma_bits_of_bytes(all);
    lemma_grain_bits(p, size, log2, horz, vert, sampling, align_bits(bits.len()));
}

/// Law: what a payload keeps of a grain description is kept in full.
pub proof fn law_carried_is_kept(p: GrainModel)
    ensures
        carried(carried(p)) == carried(p),
        p.in_capacity() ==> carried(p).in_capacity(),
{
    let q = carried(p);
    assert(padded(q.ar_coeffs_y, 24) =~= q.ar_coeffs_y || p.scaling_points_y.len() == 0);
    assert(padded(q.ar_coeffs_cb, 25) =~= q.ar_coeffs_cb || p.scaling_points_cb.len() == 0);
    assert(padded(q.ar_coeffs_cr, 25) =~= q.ar_coeffs_cr || p.scaling_points_cr.len() == 0);
    assert(carried(q) =~= q);
}

/// The resolution is no larger than the picture.
pub proof fn lemma_resolution_range(width: int, height: int)
    requires
        width > 0,
        height > 0,
    ensures
        0 <= resolution(width, height).0 < width,
        0 < resolution(width, height).1 <= width,
        0 < resolution(width, height).2 <= height,
    decreases width,
{
    if width % 2 == 0 && height % 2 == 0 {
        lemma_resolution_range(width / 2, height / 2);
    }
}

/// A grain description and the picture it is for fit into the fields of a payload.
pub open spec fn writable(
    p: GrainModel,
    width: int,
    height: int,
    sampling: ChromaSubsampling,
) -> bool {
    let (log2, horz, vert) = resolution(width, height);
    &&& log2 < 16
    &&& horz < 4096
    &&& vert < 4096
    &&& luma_only(p) || !(sampling is Monochrome)
    &&& p.scaling_shift <= 11
    &&& p.ar_coeff_lag <= 3
    &&& p.ar_coeff_shift <= 9
    &&& p.grain_scale_shift <= 3
}

/// Every scaling point fits.
proof fn lemma_pairs_fit(points: Seq<[u8; 2]>, n: nat)
    requires
        n <= points.len(),
    ensures
        forall|i: int|
            0 <= i < point_pairs(points, n).len() ==> (#[trigger] point_pairs(
                points,
                n,
            )[i]).fits(),
    decreases n,
{
    lemma2_to64();
    if n > 0 {
        lemma_pairs_fit(points, (n - 1) as nat);
        let g = point_pairs(points, (n - 1) as nat);
        let f = point_pairs(points, n);
        assert forall|i: int| 0 <= i < f.len() implies (#[trigger] f[i]).fits() by {
            if i < g.len() {
                assert(f[i] == g[i]);
            }
        }
    }
}

/// A scaling function with fewer than sixteen points fits.
proof fn lemma_points_fit(points: Seq<[u8; 2]>, chroma: bool)
    requires
        points.len() < 16,
    ensures
        write_all(point_fields(points, chroma)) is Ok,
{
    lemma2_to64();
    lemma_pairs_fit(points, points.len());
    let f = point_fields(points, chroma);
    let g = point_pairs(points, points.len());
    assert forall|i: int| 0 <= i < f.len() implies (#[trigger] f[i]).fits() by {
        let k = f.len() - g.len();
        if points.len() > 0 && i >= k {
            assert(f[i] == g[i - k]);
        }
    }
    lemma_write_all_ok(f);
}

/// Coefficients fit.
proof fn lemma_coeffs_fit(coeffs: Seq<i8>, count: nat)
    ensures
        write_all(coeff_fields(coeffs, count)) is Ok,
{
    lemma2_to64();
    let f = coeff_fields(coeffs, count);
    assert forall|i: int| 0 <= i < f.len() implies (#[trigger] f[i]).fits() by {
        if i > 0 {
            assert(f[i] == field(coeff_code(coeffs, i - 1), 8));
        }
    }
    lemma_write_all_ok(f);
}

/// Scaling functions and the subsampling of chroma always fit.
proof fn lemma_scaling_fits(p: GrainModel, sampling: ChromaSubsampling)
    requires
        p.in_capacity(),
    ensures
        write_all(subsampling_fields(p, sampling)) is Ok,
        write_all(scaling_fields(p)) is Ok,
{
    lemma2_to64();
    let f = subsampling_fields(p, sampling);
    assert forall|i: int| 0 <= i < f.len() implies (#[trigger] f[i]).fits() by {}
    lemma_write_all_ok(f);
    lemma_points_fit(p.scaling_points_y, false);
    lemma_points_fit(p.scaling_points_cb, true);
    lemma_points_fit(p.scaling_points_cr, true);
    let y = point_fields(p.scaling_points_y, false);
    let one = seq![field(0, 1)];
    assert(one[0].fits());
    lemma_write_all_ok(one);
    let cb = point_fields(p.scaling_points_cb, true);
    let cr = point_fields(p.scaling_points_cr, true);
    lemma_write_all_add(one + cb, cr);
    lemma_write_all_add(one, cb);
    lemma_write_all_add(y, one + cb + cr);
    lemma_write_all_add(y, Seq::empty());
}

/// When the fields of the auto-regression fit.
proof fn lemma_regression_fits(p: GrainModel)
    ensures
        write_all(regression_fields(p)) is Ok <==> p.scaling_shift <= 11 && p.ar_coeff_lag <= 3,
{
    lemma2_to64();
    let start = seq![field(above(p.scaling_shift, 8), 2), field(p.ar_coeff_lag as int, 2)];
    let none = Seq::<Field>::empty();
    let y = if p.scaling_points_y.len() == 0 {
        none
    } else {
        coeff_fields(p.ar_coeffs_y, 24)
    };
    let cb = if p.scaling_points_cb.len() == 0 {
        none
    } else {
        coeff_fields(p.ar_coeffs_cb, 25)
    };
    let cr = if p.scaling_points_cr.len() == 0 {
        none
    } else {
        coeff_fields(p.ar_coeffs_cr, 25)
    };
    lemma_coeffs_fit(p.ar_coeffs_y, 24);
    lemma_coeffs_fit(p.ar_coeffs_cb, 25);
    lemma_coeffs_fit(p.ar_coeffs_cr, 25);
    lemma_write_all_ok(none);
    lemma_write_all_add(start + y + cb, cr);
    lemma_write_all_add(start + y, cb);
    lemma_write_all_add(start, y);
    if write_all(start) is Ok {
        lemma_write_all_fits(start, 0);
        lemma_write_all_fits(start, 1);
    }
    if p.scaling_shift <= 11 && p.ar_coeff_lag <= 3 {
        assert forall|i: int| 0 <= i < start.len() implies (#[trigger] start[i]).fits() by {}
        lemma_write_all_ok(start);
    }
}

/// When the last fields fit.
proof fn lemma_closing_fits(p: GrainModel)
    ensures
        write_all(closing_fields(p)) is Ok <==> p.ar_coeff_shift <= 9 && p.grain_scale_shift <= 3,
{
    lemma2_to64();
    let f = closing_fields(p);
    if write_all(f) is Ok {
        lemma_write_all_fits(f, 0);
        lemma_write_all_fits(f, 1);
    }
    if p.ar_coeff_shift <= 9 && p.grain_scale_shift <= 3 {
        assert forall|i: int| 0 <= i < f.len() implies (#[trigger] f[i]).fits() by {}
        lemma_write_all_ok(f);
    }
}

/// Law: a payload can be written for a grain description and a picture that is not empty if and
/// only if they fit into its fields.
pub proof fn law_payload_accepts(
    p: GrainModel,
    width: int,
    height: int,
    sampling: ChromaSubsampling,
)
    requires
        p.in_capacity(),
        0 < width <= u64::MAX,
        0 < height <= u64::MAX,
    ensures
        afgs1_payload(p, width, height, sampling) is Ok <==> writable(p, width, height, sampling),
{
    lemma2_to64();
    let (log2, horz, vert) = resolution(width, height);
    lemma_resolution_range(width, height);
    let f = set_fields(p, log2, horz, vert);
    if write_all(f) is Ok {
        lemma_write_all_fits(f, 4);
        lemma_write_all_fits(f, 5);
        lemma_write_all_fits(f, 6);
    }
    if log2 < 16 && horz < 4096 && vert < 4096 {
        assert forall|i: int| 0 <= i < f.len() implies (#[trigger] f[i]).fits() by {}
        lemma_write_all_ok(f);
    }
    lemma_scaling_fits(p, sampling);
    lemma_regression_fits(p);
    lemma_closing_fits(p);
    let a = subsampling_fields(p, sampling);
    lemma_write_all_add(a + scaling_fields(p) + regression_fields(p), closing_fields(p));
    lemma_write_all_add(a + scaling_fields(p), regression_fields(p));
    lemma_write_all_add(a, scaling_fields(p));
}

/// A value does not fit in its field.
pub open spec fn misfit(value: int, bits: usize) -> Result<Seq<u8>, Error> {
    Err(Error::ValueTooWide { value: value as u64, bits })
}

/// Law: where no payload can be written, the first of these reasons is told: a picture without a
/// size, a resolution that does not fit, chroma grain for a stream without chroma, and then
/// the shifts and the lag that do not fit, in the order in which they are written.
pub proof fn law_payload_not_written(
    p: GrainModel,
    width: int,
    height: int,
    sampling: ChromaSubsampling,
)
    requires
        p.in_capacity(),
        0 <= width <= u64::MAX,
        0 <= height <= u64::MAX,
    ensures
        ({
            let r = afgs1_payload(p, width, height, sampling);
            let (log2, horz, vert) = resolution(width, height);
            let chroma = p.scaling_points_cb.len() > 0 || p.scaling_points_cr.len() > 0;
            if width == 0 || height == 0 {
                r == Err::<Seq<u8>, Error>(Error::ZeroSizedPicture)
            } else if log2 >= 16 {
                r == misfit(log2, 4)
            } else if horz >= 4096 {
                r == misfit(horz, 12)
            } else if vert >= 4096 {
                r == misfit(vert, 12)
            } else if chroma && sampling is Monochrome {
                r == Err::<Seq<u8>, Error>(Error::MonochromeStream)
            } else if p.scaling_shift > 11 {
                r == misfit(p.scaling_shift - 8, 2)
            } else if p.ar_coeff_lag > 3 {
                r == misfit(p.ar_coeff_lag as int, 2)
            } else if p.ar_coeff_shift > 9 {
                r == misfit(p.ar_coeff_shift - 6, 2)
            } else if p.grain_scale_shift > 3 {
                r == misfit(p.grain_scale_shift as int, 2)
            } else {
                r is Ok
            }
        }),
{
    lemma2_to64();
    if width > 0 && height > 0 {
        let (log2, horz, vert) = resolution(width, height);
        lemma_resolution_range(width, height);
        let f = set_fields(p, log2, horz, vert);
        if log2 >= 16 {
            law_first_misfit_told(f, 4);
        } else if horz >= 4096 {
            law_first_misfit_told(f, 5);
        } else if vert >= 4096 {
            law_first_misfit_told(f, 6);
        } else {
            assert forall|i: int| 0 <= i < f.len() implies (#[trigger] f[i]).fits() by {}
            lemma_write_all_ok(f);
            if luma_only(p) || !(sampling is Monochrome) {
                lemma_scaling_fits(p, sampling);
                lemma_regression_fits(p);
                lemma_closing_fits(p);
                let a = subsampling_fields(p, sampling);
                let c = regression_fields(p);
                let d = closing_fields(p);
                lemma_write_all_add(a + scaling_fields(p) + c, d);
                lemma_write_all_add(a + scaling_fields(p), c);
                lemma_write_all_add(a, scaling_fields(p));
                if p.scaling_shift > 11 {
                    law_first_misfit_told(c, 0);
                } else if p.ar_coeff_lag > 3 {
                    law_first_misfit_told(c, 1);
                } else if p.ar_coeff_shift > 9 {
                    law_first_misfit_told(d, 0);
                } else if p.grain_scale_shift > 3 {
                    law_first_misfit_told(d, 1);
                }
            }
        }
    }
}

} // verus!
