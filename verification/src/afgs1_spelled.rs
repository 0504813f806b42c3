//! Every payload that describes grain, field by field, and what is read from it.
use crate::afgs1_laws::{
    before, behind, lemma_none, lemma_split, lemma_step, lemma_step_at, written,
};
use crate::afgs1_read::{
    afgs1_grain, parsed_payload, points_fit, read_closing, read_codes, read_coefficients,
    read_functions, read_points, read_regression, read_scaling, read_signal, read_start,
    read_weights, Closing, Regression, Scaling, Weights,
};
use crate::afgs1_read_laws::bits_read;
use crate::bits::{bits_of, field, lemma_write_all_ok, write_all, Field};
use crate::grain::{GrainModel, NUM_UV_POINTS, NUM_Y_POINTS};
use vstd::arithmetic::power2::{lemma2_to64, lemma_pow2_strictly_increases, pow2};
use vstd::prelude::*;

verus! {

/// A number that fits in a field of `width` bits.
pub open spec fn holds(value: int, width: int) -> bool {
    0 <= width <= 32 && 0 <= value < pow2(width as nat)
}

/// The number in the field of a flag.
pub open spec fn mark(set: bool) -> int {
    if set {
        1
    } else {
        0
    }
}

/// A scaling function as a payload spells it: the widths of its fields, the offset that only
/// those of chroma have, and for each point the step from the point before it and its scaling.
pub struct SpelledFunction {
    pub value_bits: int,
    pub scaling_bits: int,
    pub offset: int,
    pub points: Seq<(int, int)>,
}

impl SpelledFunction {
    /// Every number fits in its field, and there are at most `cap` points.
    pub open spec fn valid(self, cap: int) -> bool {
        &&& 1 <= self.value_bits <= 8
        &&& 5 <= self.scaling_bits <= 8
        &&& holds(self.offset, 8)
        &&& self.points.len() <= cap <= 15
        &&& forall|i: int|
            0 <= i < self.points.len() ==> holds((#[trigger] self.points[i]).0, self.value_bits)
                && holds(self.points[i].1, self.scaling_bits)
    }

    /// The fields of the points from `from` on.
    pub open spec fn pairs(self, from: int) -> Seq<Field> {
        Seq::new(
            (2 * (self.points.len() - from)) as nat,
            |k: int|
                if k % 2 == 0 {
                    field(self.points[from + k / 2].0, self.value_bits)
                } else {
                    field(self.points[from + k / 2].1, self.scaling_bits)
                },
        )
    }

    /// The fields of the scaling function.
    pub open spec fn fields(self, chroma: bool) -> Seq<Field> {
        if self.points.len() == 0 {
            seq![field(0, 4)]
        } else {
            seq![
                field(self.points.len() as int, 4),
                field(self.value_bits - 1, 3),
                field(self.scaling_bits - 5, 2),
            ] + (if chroma {
                seq![field(self.offset, 8)]
            } else {
                Seq::empty()
            }) + self.pairs(0)
        }
    }

    /// The steps up to the point at `i`, added up.
    pub open spec fn sum(self, i: int) -> int
        decreases i + 1,
    {
        if i < 0 {
            0
        } else {
            self.sum(i - 1) + self.points[i].0
        }
    }

    /// The points stand at the steps added up, modulo 256, and have the scalings.
    pub open spec fn describes(self, points: Seq<[u8; 2]>) -> bool {
        &&& points.len() == self.points.len()
        &&& forall|i: int|
            0 <= i < points.len() ==> (#[trigger] points[i])[0] == self.sum(i) % 256 && points[i][1]
                == self.points[i].1
    }

    /// The points that are described.
    spec fn value(self) -> Seq<[u8; 2]> {
        Seq::new(
            self.points.len(),
            |i: int| [(self.sum(i) % 256) as u8, self.points[i].1 as u8],
        )
    }
}

/// A list of coefficients as a payload spells it: the width of its fields, and the coefficients
/// in offset binary.
pub struct SpelledCoefficients {
    pub bits: int,
    pub codes: Seq<int>,
}

impl SpelledCoefficients {
    /// There are `count` numbers, and each fits in its field.
    pub open spec fn valid(self, count: int) -> bool {
        &&& 5 <= self.bits <= 8
        &&& self.codes.len() == count
        &&& forall|i: int| 0 <= i < count ==> holds(#[trigger] self.codes[i], self.bits)
    }

    /// The fields of the list.
    pub open spec fn fields(self) -> Seq<Field> {
        seq![field(self.bits - 5, 2)] + self.codes.map_values(|code: int| field(code, self.bits))
    }

    /// Each coefficient is the number in its field less half of what the field can hold.
    pub open spec fn describes(self, coeffs: Seq<i8>) -> bool {
        &&& coeffs.len() == self.codes.len()
        &&& forall|i: int|
            0 <= i < coeffs.len() ==> #[trigger] coeffs[i] == self.codes[i] - pow2(
                (self.bits - 1) as nat,
            )
    }

    /// The coefficients that are described.
    spec fn value(self) -> Seq<i8> {
        self.codes.map_values(|code: int| (code - pow2((self.bits - 1) as nat)) as i8)
    }
}

/// A field that fits.
proof fn lemma_holds(value: int, width: int)
    requires
        holds(value, width),
    ensures
        field(value, width).fits(),
        field(value, width).value == value,
        field(value, width).width == width,
{
    lemma2_to64();
    if width < 32 {
        lemma_pow2_strictly_increases(width as nat, 32);
    }
}

/// Every field fits.
spec fn all_fit(fields: Seq<Field>) -> bool {
    forall|i: int| 0 <= i < fields.len() ==> (#[trigger] fields[i]).fits()
}

proof fn lemma_fit_add(a: Seq<Field>, b: Seq<Field>)
    requires
        all_fit(a),
        all_fit(b),
    ensures
        all_fit(a + b),
{
}

/// The fields of a scaling function fit.
proof fn lemma_function_fits(f: SpelledFunction, cap: int, chroma: bool)
    requires
        f.valid(cap),
    ensures
        all_fit(f.fields(chroma)),
        all_fit(f.pairs(0)),
{
    lemma2_to64();
    let pairs = f.pairs(0);
    assert forall|k: int| 0 <= k < pairs.len() implies (#[trigger] pairs[k]).fits() by {
        let i = k / 2;
        assert(holds(f.points[i].0, f.value_bits));
        lemma_holds(f.points[i].0, f.value_bits);
        lemma_holds(f.points[i].1, f.scaling_bits);
    }
    lemma_holds(f.offset, 8);
}

/// Scaling points are read as they are spelled.
proof fn lemma_spelled_points(f: SpelledFunction, cap: nat, i: int, tail: Seq<bool>)
    requires
        f.valid(cap as int),
        0 <= i <= f.points.len(),
    ensures
        read_points(
            before(f.pairs(i), tail),
            f.value().take(i),
            f.points.len(),
            cap,
            f.value_bits,
            f.scaling_bits,
        ) == (f.value(), behind(tail)),
    decreases f.points.len() - i,
{
    let n = f.points.len();
    let sofar = f.value().take(i);
    if i == n {
        lemma_none(f.pairs(i), tail);
        assert(sofar =~= f.value());
    } else {
        let f0 = f.pairs(i);
        assert(all_fit(f0)) by {
            assert forall|k: int| 0 <= k < f0.len() implies (#[trigger] f0[k]).fits() by {
                let j = i + k / 2;
                assert(holds(f.points[j].0, f.value_bits));
                lemma_holds(f.points[j].0, f.value_bits);
                lemma_holds(f.points[j].1, f.scaling_bits);
            }
        }
        lemma_write_all_ok(f0);
        lemma_step(f0, tail);
        lemma_step(f0.skip(1), tail);
        assert(f0.skip(1).skip(1) =~= f.pairs(i + 1));
        assert(holds(f.points[i].0, f.value_bits));
        lemma_holds(f.points[i].0, f.value_bits);
        lemma_holds(f.points[i].1, f.scaling_bits);
        lemma2_to64();
        if f.value_bits < 8 {
            lemma_pow2_strictly_increases(f.value_bits as nat, 8);
        }
        if f.scaling_bits < 8 {
            lemma_pow2_strictly_increases(f.scaling_bits as nat, 8);
        }
        let point = crate::afgs1_read::next_point(sofar, f.points[i].0, f.points[i].1);
        assert(point =~= f.value()[i]) by {
            if i > 0 {
                assert(sofar.last() == f.value()[i - 1]);
                vstd::arithmetic::div_mod::lemma_add_mod_noop(f.sum(i - 1), f.points[i].0, 256);
                vstd::arithmetic::div_mod::lemma_small_mod(f.points[i].0 as nat, 256);
            } else {
                assert(f.sum(-1) == 0);
                vstd::arithmetic::div_mod::lemma_small_mod(f.points[i].0 as nat, 256);
            }
        }
        assert(sofar.push(point) =~= f.value().take(i + 1));
        lemma_spelled_points(f, cap, i + 1, tail);
    }
}

/// The points that are described are described.
proof fn lemma_function_value(f: SpelledFunction, cap: int)
    requires
        f.valid(cap),
    ensures
        f.describes(f.value()),
{
    lemma2_to64();
    assert forall|i: int| 0 <= i < f.points.len() implies (#[trigger] f.value()[i])[0] == f.sum(i)
        % 256 && f.value()[i][1] == f.points[i].1 by {
        assert(holds(f.points[i].1, f.scaling_bits));
        if f.scaling_bits < 8 {
            lemma_pow2_strictly_increases(f.scaling_bits as nat, 8);
        }
    }
}

/// A scaling function is read as it is spelled.
proof fn lemma_spelled_scaling(f: SpelledFunction, cap: nat, chroma: bool, tail: Seq<bool>)
    requires
        f.valid(cap as int),
    ensures
        read_scaling(before(f.fields(chroma), tail), cap, chroma) == (f.value(), behind(tail)),
{
    let f0 = f.fields(chroma);
    lemma_function_fits(f, cap as int, chroma);
    lemma_write_all_ok(f0);
    lemma_step(f0, tail);
    let f1 = f0.skip(1);
    if f.points.len() == 0 {
        lemma_none(f1, tail);
        assert(f.value() =~= Seq::empty());
    } else {
        let head = points_at_field(chroma);
        assert(f0[0] == field(f.points.len() as int, 4));
        assert(f1[0] == field(f.value_bits - 1, 3));
        lemma_step(f1, tail);
        let f2 = f1.skip(1);
        assert(f2[0] == field(f.scaling_bits - 5, 2));
        lemma_step(f2, tail);
        let f3 = f2.skip(1);
        let f4 = f0.skip(head);
        if chroma {
            assert(f3[0] == field(f.offset, 8));
            lemma_step(f3, tail);
            assert(f3.skip(1) =~= f4);
        } else {
            assert(f3 =~= f4);
        }
        assert(f4 =~= f.pairs(0));
        assert(f.value().take(0) =~= Seq::empty());
        lemma_spelled_points(f, cap, 0, tail);
    }
}

/// The number of fields in front of the points of a scaling function.
spec fn points_at_field(chroma: bool) -> int {
    if chroma {
        4
    } else {
        3
    }
}

/// Coefficients are read as they are spelled.
proof fn lemma_spelled_codes(c: SpelledCoefficients, i: int, tail: Seq<bool>)
    requires
        c.valid(c.codes.len() as int),
        0 <= i <= c.codes.len(),
    ensures
        read_codes(
            before(c.fields().skip(1 + i), tail),
            c.value().take(i),
            c.codes.len(),
            c.bits,
        ) == (c.value(), behind(tail)),
    decreases c.codes.len() - i,
{
    let f0 = c.fields().skip(1 + i);
    if i == c.codes.len() {
        lemma_none(f0, tail);
        assert(c.value().take(i) =~= c.value());
    } else {
        lemma_coefficients_fit(c);
        assert(all_fit(f0)) by {
            assert forall|k: int| 0 <= k < f0.len() implies (#[trigger] f0[k]).fits() by {
                assert(f0[k] == c.fields()[1 + i + k]);
            }
        }
        lemma_write_all_ok(f0);
        lemma_step(f0, tail);
        assert(f0.skip(1) =~= c.fields().skip(1 + (i + 1)));
        assert(holds(c.codes[i], c.bits));
        lemma_holds(c.codes[i], c.bits);
        assert(f0[0] == field(c.codes[i], c.bits));
        assert(c.value().take(i).push(c.value()[i]) =~= c.value().take(i + 1));
        lemma_spelled_codes(c, i + 1, tail);
    }
}

/// The fields of a list of coefficients fit.
proof fn lemma_coefficients_fit(c: SpelledCoefficients)
    requires
        c.valid(c.codes.len() as int),
    ensures
        all_fit(c.fields()),
{
    lemma2_to64();
    let f = c.fields();
    assert forall|k: int| 0 <= k < f.len() implies (#[trigger] f[k]).fits() by {
        if k > 0 {
            assert(holds(c.codes[k - 1], c.bits));
            lemma_holds(c.codes[k - 1], c.bits);
        }
    }
}

/// A list of coefficients is read as it is spelled.
proof fn lemma_spelled_coefficients(c: SpelledCoefficients, tail: Seq<bool>)
    requires
        c.valid(c.codes.len() as int),
    ensures
        read_coefficients(before(c.fields(), tail), c.codes.len()) == (c.value(), behind(tail)),
        c.describes(c.value()),
{
    lemma2_to64();
    lemma_coefficients_fit(c);
    lemma_write_all_ok(c.fields());
    lemma_step(c.fields(), tail);
    assert(c.value().take(0) =~= Seq::empty());
    assert(c.fields().skip(1) =~= c.fields().skip(1 + 0int));
    lemma_spelled_codes(c, 0, tail);
    assert forall|i: int| 0 <= i < c.codes.len() implies #[trigger] c.value()[i] == c.codes[i]
        - pow2((c.bits - 1) as nat) by {
        assert(holds(c.codes[i], c.bits));
        assert(c.bits == 5 || c.bits == 6 || c.bits == 7 || c.bits == 8);
    }
}

/// The colours of a signal as a payload spells them.
pub struct SpelledColours {
    pub primaries: int,
    pub transfer: int,
    pub matrix: int,
    pub full_range: bool,
}

/// The signal as a payload spells it.
pub struct SpelledSignal {
    pub bit_depth: int,
    pub colours: Option<SpelledColours>,
}

/// The weights of a chroma plane as a payload spells them.
pub struct SpelledWeights {
    pub mult: int,
    pub luma_mult: int,
    pub offset: int,
}

/// A payload that describes grain, as it is spelled field by field. What a payload leaves out,
/// because of what stands in front, is not looked at.
pub struct SpelledPayload {
    pub reserved: int,
    /// The size is spelled in two bits, and not in eight.
    pub short_size: bool,
    pub size: int,
    pub set_index: int,
    pub seed: int,
    pub resolution_log2: int,
    pub horz_resolution: int,
    pub vert_resolution: int,
    pub only_luma: bool,
    pub subsampling_x: bool,
    pub subsampling_y: bool,
    pub signal: Option<SpelledSignal>,
    pub y: SpelledFunction,
    /// Chroma is scaled by luma, and has no scaling functions of its own.
    pub from_luma: bool,
    pub cb: SpelledFunction,
    pub cr: SpelledFunction,
    pub scaling_shift: int,
    pub lag: int,
    pub y_coefficients: SpelledCoefficients,
    pub cb_coefficients: SpelledCoefficients,
    pub cr_coefficients: SpelledCoefficients,
    pub coefficient_shift: int,
    pub scale_shift: int,
    pub cb_weights: SpelledWeights,
    pub cr_weights: SpelledWeights,
    pub overlap: bool,
    pub clip: bool,
}

impl SpelledPayload {
    /// The width of the field for the size.
    pub open spec fn size_width(self) -> int {
        if self.short_size {
            2
        } else {
            8
        }
    }

    /// Chroma is spoken of, and scaled by luma.
    pub open spec fn luma_scales(self) -> bool {
        !self.only_luma && self.from_luma
    }

    /// There are points for the first chroma plane.
    pub open spec fn has_cb(self) -> bool {
        !self.only_luma && !self.from_luma && self.cb.points.len() > 0
    }

    /// There are points for the second chroma plane.
    pub open spec fn has_cr(self) -> bool {
        !self.only_luma && !self.from_luma && self.cr.points.len() > 0
    }

    /// Every number fits in its field, and there are no more points than there is room for.
    pub open spec fn valid(self) -> bool {
        &&& holds(self.reserved, 4)
        &&& holds(self.size, self.size_width())
        &&& holds(self.set_index, 3)
        &&& holds(self.seed, 16)
        &&& holds(self.resolution_log2, 4)
        &&& holds(self.horz_resolution, 12)
        &&& holds(self.vert_resolution, 12)
        &&& self.signal matches Some(signal) ==> holds(signal.bit_depth, 3) && (
        signal.colours matches Some(c) ==> holds(c.primaries, 8) && holds(c.transfer, 8) && holds(
            c.matrix,
            8,
        ))
        &&& self.y.valid(NUM_Y_POINTS as int)
        &&& self.cb.valid(NUM_UV_POINTS as int)
        &&& self.cr.valid(NUM_UV_POINTS as int)
        &&& holds(self.scaling_shift, 2)
        &&& holds(self.lag, 2)
        &&& self.y_coefficients.valid(24)
        &&& self.cb_coefficients.valid(25)
        &&& self.cr_coefficients.valid(25)
        &&& holds(self.coefficient_shift, 2)
        &&& holds(self.scale_shift, 2)
        &&& holds(self.cb_weights.mult, 8)
        &&& holds(self.cb_weights.luma_mult, 8)
        &&& holds(self.cb_weights.offset, 9)
        &&& holds(self.cr_weights.mult, 8)
        &&& holds(self.cr_weights.luma_mult, 8)
        &&& holds(self.cr_weights.offset, 9)
    }

    /// The fields up to the seed.
    pub open spec fn start_fields(self) -> Seq<Field> {
        seq![
            field(0xb5, 8),
            field(0x5890, 16),
            field(0x01, 8),
            field(1, 1),
            field(self.reserved, 4),
            field(0, 3),
            field(mark(self.short_size), 1),
            field(self.size, self.size_width()),
            field(self.set_index, 3),
            field(1, 1),
            field(self.seed, 16),
            field(1, 1),
        ]
    }

    /// The fields that describe the signal.
    pub open spec fn described_fields(self) -> Seq<Field> {
        match self.signal {
            None => seq![field(0, 1)],
            Some(signal) => match signal.colours {
                None => seq![field(1, 1), field(signal.bit_depth, 3), field(0, 1)],
                Some(c) => seq![
                    field(1, 1),
                    field(signal.bit_depth, 3),
                    field(1, 1),
                    field(c.primaries, 8),
                    field(c.transfer, 8),
                    field(c.matrix, 8),
                    field(mark(c.full_range), 1),
                ],
            },
        }
    }

    /// The fields from the resolution to the signal.
    pub open spec fn signal_fields(self) -> Seq<Field> {
        seq![
            field(self.resolution_log2, 4),
            field(self.horz_resolution, 12),
            field(self.vert_resolution, 12),
            field(mark(self.only_luma), 1),
        ] + (if self.only_luma {
            Seq::empty()
        } else {
            seq![field(mark(self.subsampling_x), 1), field(mark(self.subsampling_y), 1)]
        }) + self.described_fields() + seq![field(0, 1)]
    }

    /// The fields of the scaling functions.
    pub open spec fn function_fields(self) -> Seq<Field> {
        self.y.fields(false) + (if self.only_luma {
            Seq::empty()
        } else {
            seq![field(mark(self.from_luma), 1)] + (if self.from_luma {
                Seq::empty()
            } else {
                self.cb.fields(true) + self.cr.fields(true)
            })
        })
    }

    /// The fields of the auto-regression.
    pub open spec fn regression_fields(self) -> Seq<Field> {
        seq![field(self.scaling_shift, 2), field(self.lag, 2)] + (if self.y.points.len() > 0 {
            self.y_coefficients.fields()
        } else {
            Seq::empty()
        }) + (if self.has_cb() || self.luma_scales() {
            self.cb_coefficients.fields()
        } else {
            Seq::empty()
        }) + (if self.has_cr() || self.luma_scales() {
            self.cr_coefficients.fields()
        } else {
            Seq::empty()
        })
    }

    /// The fields behind the auto-regression.
    pub open spec fn closing_fields(self) -> Seq<Field> {
        seq![field(self.coefficient_shift, 2), field(self.scale_shift, 2)] + (if self.has_cb() {
            weight_fields(self.cb_weights)
        } else {
            Seq::empty()
        }) + (if self.has_cr() {
            weight_fields(self.cr_weights)
        } else {
            Seq::empty()
        }) + seq![field(mark(self.overlap), 1), field(mark(self.clip), 1)]
    }

    /// All fields.
    pub open spec fn fields(self) -> Seq<Field> {
        self.start_fields() + (self.signal_fields() + (self.function_fields() + (
        self.regression_fields() + self.closing_fields())))
    }

    /// The bits of all fields.
    pub open spec fn bits(self) -> Seq<bool> {
        write_all(self.fields())->Ok_0
    }

    /// The grain is the one that is spelled.
    pub open spec fn describes(self, grain: GrainModel) -> bool {
        &&& grain.grain_seed == self.seed
        &&& self.y.describes(grain.scaling_points_y)
        &&& grain.chroma_scaling_from_luma == self.luma_scales()
        &&& if self.only_luma || self.from_luma {
            grain.scaling_points_cb.len() == 0 && grain.scaling_points_cr.len() == 0
        } else {
            self.cb.describes(grain.scaling_points_cb) && self.cr.describes(grain.scaling_points_cr)
        }
        &&& grain.scaling_shift == self.scaling_shift + 8
        &&& grain.ar_coeff_lag == self.lag
        &&& if self.y.points.len() > 0 {
            self.y_coefficients.describes(grain.ar_coeffs_y)
        } else {
            grain.ar_coeffs_y.len() == 0
        }
        &&& if self.has_cb() || self.luma_scales() {
            self.cb_coefficients.describes(grain.ar_coeffs_cb)
        } else {
            grain.ar_coeffs_cb.len() == 0
        }
        &&& if self.has_cr() || self.luma_scales() {
            self.cr_coefficients.describes(grain.ar_coeffs_cr)
        } else {
            grain.ar_coeffs_cr.len() == 0
        }
        &&& grain.ar_coeff_shift == self.coefficient_shift + 6
        &&& grain.grain_scale_shift == self.scale_shift
        &&& if self.has_cb() {
            grain.cb_mult == self.cb_weights.mult && grain.cb_luma_mult == self.cb_weights.luma_mult
                && grain.cb_offset == self.cb_weights.offset
        } else {
            grain.cb_mult == 0 && grain.cb_luma_mult == 0 && grain.cb_offset == 0
        }
        &&& if self.has_cr() {
            grain.cr_mult == self.cr_weights.mult && grain.cr_luma_mult == self.cr_weights.luma_mult
                && grain.cr_offset == self.cr_weights.offset
        } else {
            grain.cr_mult == 0 && grain.cr_luma_mult == 0 && grain.cr_offset == 0
        }
        &&& grain.overlap_flag == self.overlap
        &&& grain.clip_to_restricted_range == self.clip
    }
}

/// The fields of the weights of a chroma plane.
pub open spec fn weight_fields(w: SpelledWeights) -> Seq<Field> {
    seq![field(w.mult, 8), field(w.luma_mult, 8), field(w.offset, 9)]
}

/// Lists of fields in a row are read one behind the other.
proof fn lemma_in_a_row(
    a: Seq<Field>,
    b: Seq<Field>,
    c: Seq<Field>,
    d: Seq<Field>,
    tail: Seq<bool>,
)
    requires
        all_fit(a),
        all_fit(b),
        all_fit(c),
        all_fit(d),
    ensures
        all_fit(a + b + c + d),
        before(a + b + c + d, tail) == before(a, written(b) + (written(c) + (written(d) + tail))),
{
    lemma_fit_add(a, b);
    lemma_fit_add(a + b, c);
    lemma_fit_add(a + b + c, d);
    lemma_write_all_ok(a);
    lemma_write_all_ok(b);
    lemma_write_all_ok(c);
    lemma_write_all_ok(d);
    lemma_write_all_ok(a + b);
    lemma_write_all_ok(a + b + c);
    lemma_split(a + b + c, d, tail);
    lemma_split(a + b, c, written(d) + tail);
    lemma_split(a, b, written(c) + (written(d) + tail));
}

/// Two fields are read one behind the other.
proof fn lemma_two_read(f: Seq<Field>, tail: Seq<bool>)
    requires
        all_fit(f),
        f.len() == 2,
    ensures
        ({
            let c = before(f, tail);
            let d = c.skip(f[0].width as int);
            &&& c.peek(f[0].width as int) == f[0].value
            &&& d.peek(f[1].width as int) == f[1].value
            &&& d.skip(f[1].width as int) == behind(tail)
        }),
{
    lemma_write_all_ok(f);
    assert(f.skip(0) =~= f);
    lemma_step_at(f, 0, tail);
    lemma_step_at(f, 1, tail);
    lemma_none(f.skip(2), tail);
}

/// The start of a payload is read as it is spelled.
proof fn lemma_spelled_start(p: SpelledPayload, tail: Seq<bool>)
    requires
        p.valid(),
    ensures
        all_fit(p.start_fields()),
        read_start(before(p.start_fields(), tail)) == (p.seed, behind(tail)),
{
    lemma2_to64();
    reveal(read_start);
    let f = p.start_fields();
    lemma_holds(p.reserved, 4);
    lemma_holds(p.size, p.size_width());
    lemma_holds(p.set_index, 3);
    lemma_holds(p.seed, 16);
    assert(all_fit(f));
    lemma_write_all_ok(f);
    assert(f.skip(0) =~= f);
    lemma_step_at(f, 0, tail);
    lemma_step_at(f, 1, tail);
    lemma_step_at(f, 2, tail);
    lemma_step_at(f, 3, tail);
    lemma_step_at(f, 4, tail);
    lemma_step_at(f, 5, tail);
    lemma_step_at(f, 6, tail);
    lemma_step_at(f, 7, tail);
    lemma_step_at(f, 8, tail);
    lemma_step_at(f, 9, tail);
    lemma_step_at(f, 10, tail);
    lemma_step_at(f, 11, tail);
    lemma_none(f.skip(12), tail);
}

/// The fields from the resolution to the signal fit.
proof fn lemma_signal_fits(p: SpelledPayload)
    requires
        p.valid(),
    ensures
        all_fit(p.signal_fields()),
{
    lemma2_to64();
    lemma_holds(p.resolution_log2, 4);
    lemma_holds(p.horz_resolution, 12);
    lemma_holds(p.vert_resolution, 12);
    if let Some(signal) = p.signal {
        lemma_holds(signal.bit_depth, 3);
        if let Some(c) = signal.colours {
            lemma_holds(c.primaries, 8);
            lemma_holds(c.transfer, 8);
            lemma_holds(c.matrix, 8);
        }
    }
    let head = seq![
        field(p.resolution_log2, 4),
        field(p.horz_resolution, 12),
        field(p.vert_resolution, 12),
        field(mark(p.only_luma), 1),
    ];
    let sub = if p.only_luma {
        Seq::empty()
    } else {
        seq![field(mark(p.subsampling_x), 1), field(mark(p.subsampling_y), 1)]
    };
    assert(all_fit(head));
    assert(all_fit(sub));
    assert(all_fit(p.described_fields()));
    lemma_fit_add(head, sub);
    lemma_fit_add(head + sub, p.described_fields());
    lemma_fit_add(head + sub + p.described_fields(), seq![field(0, 1)]);
}

/// The resolution and the signal are read as they are spelled.
proof fn lemma_spelled_signal(p: SpelledPayload, tail: Seq<bool>)
    requires
        p.valid(),
    ensures
        read_signal(before(p.signal_fields(), tail)) == (p.only_luma, behind(tail)),
{
    lemma2_to64();
    reveal(read_signal);
    let f = p.signal_fields();
    lemma_signal_fits(p);
    lemma_write_all_ok(f);
    assert(f.skip(0) =~= f);
    lemma_step_at(f, 0, tail);
    lemma_step_at(f, 1, tail);
    lemma_step_at(f, 2, tail);
    lemma_step_at(f, 3, tail);
    assert(f[3] == field(mark(p.only_luma), 1));
    let k: int = if p.only_luma {
        4
    } else {
        6
    };
    if !p.only_luma {
        lemma_step_at(f, 4, tail);
        lemma_step_at(f, 5, tail);
    }
    let d = p.described_fields();
    assert forall|i: int| 0 <= i < d.len() implies #[trigger] f[k + i] == d[i] by {}
    let e = k + d.len();
    assert(f[e] == field(0, 1));
    assert(f.len() == e + 1);
    assert(f[k] == d[0]);
    lemma_step_at(f, k, tail);
    if p.signal is Some {
        assert(f[k + 1] == d[1]);
        assert(f[k + 2] == d[2]);
        lemma_step_at(f, k + 1, tail);
        lemma_step_at(f, k + 2, tail);
        if p.signal->0.colours is Some {
            assert(f[k + 3] == d[3]);
            assert(f[k + 4] == d[4]);
            assert(f[k + 5] == d[5]);
            assert(f[k + 6] == d[6]);
            lemma_step_at(f, k + 3, tail);
            lemma_step_at(f, k + 4, tail);
            lemma_step_at(f, k + 5, tail);
            lemma_step_at(f, k + 6, tail);
        }
    }
    lemma_step_at(f, e, tail);
    lemma_none(f.skip(e + 1), tail);
}

/// The scaling functions that are described.
spec fn scaling_of(p: SpelledPayload) -> Scaling {
    Scaling {
        y: p.y.value(),
        cb: if p.only_luma || p.from_luma {
            Seq::empty()
        } else {
            p.cb.value()
        },
        cr: if p.only_luma || p.from_luma {
            Seq::empty()
        } else {
            p.cr.value()
        },
        from_luma: p.luma_scales(),
    }
}

/// The scaling functions are read as they are spelled.
proof fn lemma_spelled_functions(p: SpelledPayload, tail: Seq<bool>)
    requires
        p.valid(),
    ensures
        all_fit(p.function_fields()),
        read_functions(before(p.function_fields(), tail), p.only_luma) == (
            scaling_of(p),
            behind(tail),
        ),
{
    lemma2_to64();
    reveal(read_functions);
    let y = p.y.fields(false);
    let cb = p.cb.fields(true);
    let cr = p.cr.fields(true);
    let one = seq![field(mark(p.from_luma), 1)];
    lemma_function_fits(p.y, NUM_Y_POINTS as int, false);
    lemma_function_fits(p.cb, NUM_UV_POINTS as int, true);
    lemma_function_fits(p.cr, NUM_UV_POINTS as int, true);
    lemma_write_all_ok(y);
    lemma_write_all_ok(cb);
    lemma_write_all_ok(cr);
    assert(all_fit(one));
    lemma_write_all_ok(one);
    if p.only_luma {
        assert(p.function_fields() =~= y);
        lemma_spelled_scaling(p.y, NUM_Y_POINTS as nat, false, tail);
    } else {
        let rest = if p.from_luma {
            Seq::empty()
        } else {
            cb + cr
        };
        lemma_fit_add(cb, cr);
        lemma_fit_add(one, rest);
        lemma_fit_add(y, one + rest);
        lemma_write_all_ok(rest);
        lemma_write_all_ok(one + rest);
        lemma_split(y, one + rest, tail);
        lemma_spelled_scaling(p.y, NUM_Y_POINTS as nat, false, written(one + rest) + tail);
        assert(behind(written(one + rest) + tail) == before(one + rest, tail));
        lemma_step(one + rest, tail);
        assert((one + rest).skip(1) =~= rest);
        if p.from_luma {
            lemma_none(rest, tail);
        } else {
            lemma_split(cb, cr, tail);
            lemma_spelled_scaling(p.cb, NUM_UV_POINTS as nat, true, written(cr) + tail);
            assert(behind(written(cr) + tail) == before(cr, tail));
            lemma_spelled_scaling(p.cr, NUM_UV_POINTS as nat, true, tail);
        }
    }
}

/// A list of coefficients is read where there is one.
proof fn lemma_spelled_list(c: SpelledCoefficients, present: bool, tail: Seq<bool>)
    requires
        c.valid(c.codes.len() as int),
    ensures
        all_fit(list_fields(c, present)),
        present ==> read_coefficients(before(list_fields(c, present), tail), c.codes.len()) == (
            c.value(),
            behind(tail),
        ),
        !present ==> before(list_fields(c, present), tail) == behind(tail),
{
    if present {
        lemma_coefficients_fit(c);
        lemma_spelled_coefficients(c, tail);
    } else {
        lemma_none(list_fields(c, present), tail);
    }
}

/// The fields of a list of coefficients, if it is there.
spec fn list_fields(c: SpelledCoefficients, present: bool) -> Seq<Field> {
    if present {
        c.fields()
    } else {
        Seq::empty()
    }
}

/// The coefficients that are described, if they are there.
spec fn list_value(c: SpelledCoefficients, present: bool) -> Seq<i8> {
    if present {
        c.value()
    } else {
        Seq::empty()
    }
}

/// The auto-regression that is described.
spec fn regression_of(p: SpelledPayload) -> Regression {
    Regression {
        scaling_shift: p.scaling_shift + 8,
        lag: p.lag,
        y: list_value(p.y_coefficients, p.y.points.len() > 0),
        cb: list_value(p.cb_coefficients, p.has_cb() || p.luma_scales()),
        cr: list_value(p.cr_coefficients, p.has_cr() || p.luma_scales()),
    }
}

/// The auto-regression is read as it is spelled.
proof fn lemma_spelled_regression(p: SpelledPayload, tail: Seq<bool>)
    requires
        p.valid(),
    ensures
        all_fit(p.regression_fields()),
        read_regression(before(p.regression_fields(), tail), scaling_of(p)) == (
            regression_of(p),
            behind(tail),
        ),
{
    lemma2_to64();
    reveal(read_regression);
    lemma_holds(p.scaling_shift, 2);
    lemma_holds(p.lag, 2);
    let head = seq![field(p.scaling_shift, 2), field(p.lag, 2)];
    let has_cb = p.has_cb() || p.luma_scales();
    let has_cr = p.has_cr() || p.luma_scales();
    let y = list_fields(p.y_coefficients, p.y.points.len() > 0);
    let cb = list_fields(p.cb_coefficients, has_cb);
    let cr = list_fields(p.cr_coefficients, has_cr);
    let t3 = tail;
    lemma_spelled_list(p.cr_coefficients, has_cr, t3);
    let t2 = written(cr) + t3;
    lemma_spelled_list(p.cb_coefficients, has_cb, t2);
    let t1 = written(cb) + t2;
    lemma_spelled_list(p.y_coefficients, p.y.points.len() > 0, t1);
    let t0 = written(y) + t1;
    assert(all_fit(head));
    lemma_in_a_row(head, y, cb, cr, tail);
    assert(p.regression_fields() == head + y + cb + cr);
    lemma_two_read(head, t0);
    assert(behind(t0) == before(y, t1));
    assert(behind(t1) == before(cb, t2));
    assert(behind(t2) == before(cr, t3));
}

/// The weights of a chroma plane that are described.
spec fn weights_of(w: SpelledWeights, present: bool) -> Weights {
    if present {
        Weights { mult: w.mult, luma_mult: w.luma_mult, offset: w.offset }
    } else {
        Weights { mult: 0, luma_mult: 0, offset: 0 }
    }
}

/// The fields of the weights of a chroma plane, if they are there.
spec fn weights_if(w: SpelledWeights, present: bool) -> Seq<Field> {
    if present {
        weight_fields(w)
    } else {
        Seq::empty()
    }
}

/// The weights of a chroma plane are read as they are spelled.
proof fn lemma_spelled_weights(w: SpelledWeights, present: bool, tail: Seq<bool>)
    requires
        holds(w.mult, 8),
        holds(w.luma_mult, 8),
        holds(w.offset, 9),
    ensures
        all_fit(weights_if(w, present)),
        read_weights(before(weights_if(w, present), tail), present) == (
            weights_of(w, present),
            behind(tail),
        ),
{
    let f = weights_if(w, present);
    lemma_holds(w.mult, 8);
    lemma_holds(w.luma_mult, 8);
    lemma_holds(w.offset, 9);
    assert(all_fit(f));
    if present {
        lemma_write_all_ok(f);
        assert(f.skip(0) =~= f);
        lemma_step_at(f, 0, tail);
        lemma_step_at(f, 1, tail);
        lemma_step_at(f, 2, tail);
        lemma_none(f.skip(3), tail);
    } else {
        lemma_none(f, tail);
    }
}

/// The rest of a film grain set is read as it is spelled.
proof fn lemma_spelled_closing(p: SpelledPayload, tail: Seq<bool>)
    requires
        p.valid(),
    ensures
        all_fit(p.closing_fields()),
        read_closing(before(p.closing_fields(), tail), scaling_of(p)) == (
            Closing {
                ar_coeff_shift: p.coefficient_shift + 6,
                grain_scale_shift: p.scale_shift,
                cb: weights_of(p.cb_weights, p.has_cb()),
                cr: weights_of(p.cr_weights, p.has_cr()),
                overlap: p.overlap,
                clip: p.clip,
            },
            behind(tail),
        ),
{
    lemma2_to64();
    reveal(read_closing);
    lemma_holds(p.coefficient_shift, 2);
    lemma_holds(p.scale_shift, 2);
    let head = seq![field(p.coefficient_shift, 2), field(p.scale_shift, 2)];
    let cb = weights_if(p.cb_weights, p.has_cb());
    let cr = weights_if(p.cr_weights, p.has_cr());
    let end = seq![field(mark(p.overlap), 1), field(mark(p.clip), 1)];
    assert(all_fit(head));
    assert(all_fit(end));
    let t2 = written(end) + tail;
    lemma_spelled_weights(p.cr_weights, p.has_cr(), t2);
    let t1 = written(cr) + t2;
    lemma_spelled_weights(p.cb_weights, p.has_cb(), t1);
    let t0 = written(cb) + t1;
    lemma_in_a_row(head, cb, cr, end, tail);
    assert(p.closing_fields() == head + cb + cr + end);
    lemma_two_read(head, t0);
    assert(behind(t0) == before(cb, t1));
    assert(behind(t1) == before(cr, t2));
    assert(behind(t2) == before(end, tail));
    lemma_two_read(end, tail);
}

/// Law: whatever payload spells grain, the grain that is spelled is read from it, whatever comes
/// behind, and nothing of what comes behind is read. Where chroma is scaled by luma, there are no
/// points for it, and both of its lists of coefficients are there, each behind the one before it,
/// with the shifts behind them.
pub proof fn law_spelled_payload_read(p: SpelledPayload, tail: Seq<bool>)
    requires
        p.valid(),
    ensures
        write_all(p.fields()) is Ok,
        afgs1_grain(p.bits() + tail) matches Ok(grain) && p.describes(grain),
        bits_read(p.bits() + tail) == p.bits().len(),
{
    let a = p.start_fields();
    let b = p.signal_fields();
    let c = p.function_fields();
    let d = p.regression_fields();
    let e = p.closing_fields();
    lemma_spelled_closing(p, tail);
    lemma_write_all_ok(e);
    let t4 = written(e) + tail;
    lemma_spelled_regression(p, t4);
    lemma_write_all_ok(d);
    let t3 = written(d) + t4;
    lemma_spelled_functions(p, t3);
    lemma_write_all_ok(c);
    let t2 = written(c) + t3;
    lemma_signal_fits(p);
    lemma_spelled_signal(p, t2);
    lemma_write_all_ok(b);
    let t1 = written(b) + t2;
    lemma_spelled_start(p, t1);
    lemma_write_all_ok(a);
    lemma_fit_add(d, e);
    lemma_fit_add(c, d + e);
    lemma_fit_add(b, c + (d + e));
    lemma_fit_add(a, b + (c + (d + e)));
    lemma_write_all_ok(d + e);
    lemma_write_all_ok(c + (d + e));
    lemma_write_all_ok(b + (c + (d + e)));
    lemma_write_all_ok(p.fields());
    lemma_split(a, b + (c + (d + e)), tail);
    lemma_split(b, c + (d + e), tail);
    lemma_split(c, d + e, tail);
    lemma_split(d, e, tail);
    assert(before(p.fields(), tail) == before(a, t1));
    assert(p.bits() == written(p.fields())) by {
        reveal(written);
    }
    assert(behind(t1) == before(b, t2));
    assert(behind(t2) == before(c, t3));
    assert(behind(t3) == before(d, t4));
    assert(behind(t4) == before(e, tail));
    lemma_spelled_values(p);
}

/// What is read is what is described.
proof fn lemma_spelled_values(p: SpelledPayload)
    requires
        p.valid(),
    ensures
        p.y.describes(p.y.value()),
        p.cb.describes(p.cb.value()),
        p.cr.describes(p.cr.value()),
        p.y_coefficients.describes(p.y_coefficients.value()),
        p.cb_coefficients.describes(p.cb_coefficients.value()),
        p.cr_coefficients.describes(p.cr_coefficients.value()),
        pow2(16) == 0x1_0000,
        pow2(9) == 512,
        pow2(8) == 256,
        pow2(2) == 4,
{
    lemma2_to64();
    lemma_function_value(p.y, NUM_Y_POINTS as int);
    lemma_function_value(p.cb, NUM_UV_POINTS as int);
    lemma_function_value(p.cr, NUM_UV_POINTS as int);
    lemma_spelled_coefficients(p.y_coefficients, Seq::empty());
    lemma_spelled_coefficients(p.cb_coefficients, Seq::empty());
    lemma_spelled_coefficients(p.cr_coefficients, Seq::empty());
}

/// Law: a byte string that begins with the bits of a payload that spells grain is parsed as that
/// grain.
pub proof fn law_spelled_payload_parsed(p: SpelledPayload, payload: Seq<u8>, tail: Seq<bool>)
    requires
        p.valid(),
        bits_of(payload) == p.bits() + tail,
    ensures
        points_fit(payload),
        parsed_payload(payload) matches Ok(grain) && p.describes(grain),
{
    law_spelled_payload_read(p, tail);
}

} // verus!
