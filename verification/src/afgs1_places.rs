//! Where in an AFGS1 payload each part of the grain stands.
use crate::afgs1_read::{
    lemma_stopped, next_point, parsed_payload, points_fit, read_closing, read_codes,
    read_coefficients, read_functions, read_points, read_regression, read_scaling, read_signal,
    read_start, read_weights, Cursor, Scaling,
};
use crate::afgs1_read_laws::{
    alike, bits_read, chroma_flag_at, function_len, functions_at, lemma_start_says,
    lemma_twins_signal, luma_flag_at, number_at, points_at, second_at, set_at,
};
use crate::bits::{bits_of, lemma_enc_uint, uint};
use crate::grain::{NUM_UV_POINTS, NUM_Y_POINTS};
use vstd::arithmetic::power2::{lemma2_to64, lemma_pow2_strictly_increases, pow2};
use vstd::prelude::*;

verus! {

/// Reading has come to the bit at `at`.
spec fn reads_at(bits: Seq<bool>, c: Cursor, at: int) -> bool {
    c.fault is None && 0 <= at <= bits.len() && c.rest == bits.skip(at)
}

/// The next field.
proof fn lemma_read_at(bits: Seq<bool>, c: Cursor, at: int, n: int)
    requires
        reads_at(bits, c, at),
        0 <= n,
        c.skip(n).fault is None,
    ensures
        reads_at(bits, c.skip(n), at + n),
        c.peek(n) == number_at(bits, at, n),
        0 <= c.peek(n) < pow2(n as nat),
        n == 1 ==> (c.peek(1) != 0) == bits[at],
{
    assert(bits.skip(at).skip(n) =~= bits.skip(at + n));
    assert(bits.skip(at).take(n) =~= bits.subrange(at, at + n));
    lemma_enc_uint(bits.subrange(at, at + n));
    if n == 1 {
        reveal_with_fuel(uint, 2);
        assert(bits.subrange(at, at + 1)[0] == bits[at]);
    }
}

/// The coefficients of `w` bits that stand at `at`.
pub open spec fn codes_at(bits: Seq<bool>, at: int, w: int, coeffs: Seq<i8>) -> bool {
    forall|i: int|
        0 <= i < coeffs.len() ==> #[trigger] coeffs[i] == number_at(bits, at + i * w, w) - pow2(
            (w - 1) as nat,
        )
}

/// Coefficients are read where they stand.
proof fn lemma_codes_at(
    bits: Seq<bool>,
    c: Cursor,
    start: int,
    coeffs: Seq<i8>,
    count: nat,
    w: int,
)
    requires
        reads_at(bits, c, start + coeffs.len() * w),
        coeffs.len() <= count,
        5 <= w <= 8,
        codes_at(bits, start, w, coeffs),
        read_codes(c, coeffs, count, w).1.fault is None,
    ensures
        reads_at(bits, read_codes(c, coeffs, count, w).1, start + count * w),
        read_codes(c, coeffs, count, w).0.len() == count,
        codes_at(bits, start, w, read_codes(c, coeffs, count, w).0),
    decreases count - coeffs.len(),
{
    if coeffs.len() < count {
        let n = coeffs.len() as int;
        let at = start + n * w;
        let c1 = c.skip(w);
        assert(c1.fault is None);
        lemma_read_at(bits, c, at, w);
        assert((n + 1) * w == n * w + w) by (nonlinear_arith);
        let half = pow2((w - 1) as nat);
        lemma2_to64();
        if w < 8 {
            lemma_pow2_strictly_increases(w as nat, 8);
            lemma_pow2_strictly_increases((w - 1) as nat, 7);
        }
        let next = (c.peek(w) - half) as i8;
        assert(pow2(w as nat) == 2 * half) by {
            vstd::arithmetic::power2::lemma_pow2_unfold(w as nat);
        }
        assert(half <= 128);
        assert(next == number_at(bits, at, w) - half);
        let more = coeffs.push(next);
        assert(codes_at(bits, start, w, more)) by {
            assert forall|i: int| 0 <= i < more.len() implies #[trigger] more[i] == number_at(
                bits,
                start + i * w,
                w,
            ) - pow2((w - 1) as nat) by {
                if i < n {
                    assert(more[i] == coeffs[i]);
                }
            }
        }
        lemma_codes_at(bits, c1, start, more, count, w);
    }
}

/// A list of `count` coefficients stands at `at`, behind the two bits for their width.
pub open spec fn list_at(bits: Seq<bool>, at: int, count: int, coeffs: Seq<i8>) -> bool {
    &&& coeffs.len() == count
    &&& codes_at(bits, at + 2, number_at(bits, at, 2) + 5, coeffs)
}

/// The number of bits of a list of `count` coefficients that stands at `at`.
pub open spec fn list_len(bits: Seq<bool>, at: int, count: int) -> int {
    2 + count * (number_at(bits, at, 2) + 5)
}

/// A list of coefficients is read where it stands.
proof fn lemma_list_at(bits: Seq<bool>, c: Cursor, at: int, count: nat)
    requires
        reads_at(bits, c, at),
        read_coefficients(c, count).1.fault is None,
    ensures
        reads_at(bits, read_coefficients(c, count).1, at + list_len(bits, at, count as int)),
        list_at(bits, at, count as int, read_coefficients(c, count).0),
{
    let c1 = c.skip(2);
    assert(c1.fault is None);
    lemma_read_at(bits, c, at, 2);
    lemma2_to64();
    let w = c.peek(2) + 5;
    assert(0 * w == 0) by (nonlinear_arith);
    lemma_codes_at(bits, c1, at + 2, Seq::empty(), count, w);
}

/// The points of steps of `v` bits and scalings of `w` bits that stand at `at`: each is as far
/// behind the one before it as its step says, modulo 256, and the first as far behind zero.
pub open spec fn pairs_at(
    bits: Seq<bool>,
    at: int,
    v: int,
    w: int,
    points: Seq<[u8; 2]>,
) -> bool {
    forall|i: int|
        0 <= i < points.len() ==> {
            let from = at + i * (v + w);
            let before = if i == 0 {
                0
            } else {
                points[i - 1][0] as int
            };
            &&& (#[trigger] points[i])[0] == (before + number_at(bits, from, v)) % 256
            &&& points[i][1] == number_at(bits, from + v, w)
        }
}

/// Points are read where they stand.
proof fn lemma_pairs_at(
    bits: Seq<bool>,
    c: Cursor,
    start: int,
    points: Seq<[u8; 2]>,
    count: nat,
    cap: nat,
    v: int,
    w: int,
)
    requires
        reads_at(bits, c, start + points.len() * (v + w)),
        points.len() <= count,
        1 <= v <= 8,
        5 <= w <= 8,
        pairs_at(bits, start, v, w, points),
        read_points(c, points, count, cap, v, w).1.fault is None,
    ensures
        reads_at(bits, read_points(c, points, count, cap, v, w).1, start + count * (v + w)),
        read_points(c, points, count, cap, v, w).0.len() == count,
        pairs_at(bits, start, v, w, read_points(c, points, count, cap, v, w).0),
    decreases count - points.len(),
{
    if points.len() < count {
        let n = points.len() as int;
        let at = start + n * (v + w);
        let c1 = c.skip(v);
        let c2 = c1.skip(w);
        assert(c2.fault is None);
        lemma_read_at(bits, c, at, v);
        lemma_read_at(bits, c1, at + v, w);
        assert((n + 1) * (v + w) == n * (v + w) + (v + w)) by (nonlinear_arith);
        lemma2_to64();
        if v < 8 {
            lemma_pow2_strictly_increases(v as nat, 8);
        }
        if w < 8 {
            lemma_pow2_strictly_increases(w as nat, 8);
        }
        let next = next_point(points, c.peek(v), c1.peek(w));
        let more = points.push(next);
        assert(pairs_at(bits, start, v, w, more)) by {
            assert forall|i: int| 0 <= i < more.len() implies {
                let from = start + i * (v + w);
                let before = if i == 0 {
                    0
                } else {
                    more[i - 1][0] as int
                };
                &&& (#[trigger] more[i])[0] == (before + number_at(bits, from, v)) % 256
                &&& more[i][1] == number_at(bits, from + v, w)
            } by {
                if i < n {
                    assert(more[i] == points[i]);
                    if i > 0 {
                        assert(more[i - 1] == points[i - 1]);
                    }
                } else if n > 0 {
                    assert(more[n - 1] == points.last());
                }
            }
        }
        lemma_pairs_at(bits, c2, start, more, count, cap, v, w);
    }
}

/// The scaling function that stands at `at`.
pub open spec fn function_at(
    bits: Seq<bool>,
    at: int,
    chroma: bool,
    points: Seq<[u8; 2]>,
) -> bool {
    &&& points.len() == number_at(bits, at, 4)
    &&& points.len() > 0 ==> pairs_at(
        bits,
        points_at(at, chroma),
        number_at(bits, at + 4, 3) + 1,
        number_at(bits, at + 7, 2) + 5,
        points,
    )
}

/// A scaling function is read where it stands.
proof fn lemma_function_at(bits: Seq<bool>, c: Cursor, at: int, cap: nat, chroma: bool)
    requires
        reads_at(bits, c, at),
        read_scaling(c, cap, chroma).1.fault is None,
    ensures
        reads_at(bits, read_scaling(c, cap, chroma).1, at + function_len(bits, at, chroma)),
        function_at(bits, at, chroma, read_scaling(c, cap, chroma).0),
{
    let c1 = c.skip(4);
    assert(c1.fault is None);
    lemma_read_at(bits, c, at, 4);
    if c.peek(4) != 0 {
        let c2 = c1.skip(3);
        let c3 = c2.skip(2);
        let c4 = if chroma {
            c3.skip(8)
        } else {
            c3
        };
        assert(c4.fault is None);
        lemma_read_at(bits, c1, at + 4, 3);
        lemma_read_at(bits, c2, at + 7, 2);
        if chroma {
            lemma_read_at(bits, c3, at + 9, 8);
        }
        lemma2_to64();
        let v = c1.peek(3) + 1;
        let w = c2.peek(2) + 5;
        assert(0 * (v + w) == 0) by (nonlinear_arith);
        let count = c.peek(4) as nat;
        lemma_pairs_at(bits, c4, points_at(at, chroma), Seq::empty(), count, cap, v, w);
        assert(count * (v + w) == count * (number_at(bits, at + 4, 3) + 1 + number_at(
            bits,
            at + 7,
            2,
        ) + 5));
    }
}

/// A payload says that chroma is scaled by luma.
pub open spec fn luma_scales(bits: Seq<bool>) -> bool {
    !bits[luma_flag_at(bits)] && bits[chroma_flag_at(bits)]
}

/// A payload has scaling functions of chroma.
pub open spec fn chroma_scales(bits: Seq<bool>) -> bool {
    !bits[luma_flag_at(bits)] && !bits[chroma_flag_at(bits)]
}

/// Where the auto-regression begins, behind the scaling functions.
pub open spec fn regression_at(bits: Seq<bool>) -> int {
    let flag = chroma_flag_at(bits);
    if bits[luma_flag_at(bits)] {
        flag
    } else if bits[flag] {
        flag + 1
    } else {
        second_at(bits) + function_len(bits, second_at(bits), true)
    }
}

/// The scaling functions are read where they stand.
proof fn lemma_functions_at(bits: Seq<bool>, c: Cursor, only_luma: bool)
    requires
        reads_at(bits, c, functions_at(bits)),
        only_luma == bits[luma_flag_at(bits)],
        read_functions(c, only_luma).1.fault is None,
    ensures
        ({
            let (s, end) = read_functions(c, only_luma);
            let flag = chroma_flag_at(bits);
            &&& reads_at(bits, end, regression_at(bits))
            &&& function_at(bits, functions_at(bits), false, s.y)
            &&& s.from_luma == luma_scales(bits)
            &&& if chroma_scales(bits) {
                function_at(bits, flag + 1, true, s.cb) && function_at(
                    bits,
                    second_at(bits),
                    true,
                    s.cr,
                )
            } else {
                s.cb.len() == 0 && s.cr.len() == 0
            }
        }),
{
    reveal(read_functions);
    let (y, c1) = read_scaling(c, NUM_Y_POINTS as nat, false);
    let c2 = c1.skip(1);
    let flag = chroma_flag_at(bits);
    if only_luma {
        lemma_function_at(bits, c, functions_at(bits), NUM_Y_POINTS as nat, false);
    } else {
        let c3 = read_scaling(c2, NUM_UV_POINTS as nat, true).1;
        if c2.fault is Some {
            assert(c2.skip(4).fault is Some);
            assert(c3.fault is Some);
            assert(c3.skip(4).fault is Some);
        }
        assert(c1.fault is None);
        lemma_function_at(bits, c, functions_at(bits), NUM_Y_POINTS as nat, false);
        lemma_read_at(bits, c1, flag, 1);
        if !bits[flag] {
            if c3.fault is Some {
                assert(c3.skip(4).fault is Some);
            }
            lemma_function_at(bits, c2, flag + 1, NUM_UV_POINTS as nat, true);
            lemma_function_at(bits, c3, second_at(bits), NUM_UV_POINTS as nat, true);
        }
    }
}

/// A payload has points for luma.
pub open spec fn has_y(bits: Seq<bool>) -> bool {
    number_at(bits, functions_at(bits), 4) > 0
}

/// A payload has points for the first plane of chroma.
pub open spec fn has_cb(bits: Seq<bool>) -> bool {
    chroma_scales(bits) && number_at(bits, chroma_flag_at(bits) + 1, 4) > 0
}

/// A payload has points for the second plane of chroma.
pub open spec fn has_cr(bits: Seq<bool>) -> bool {
    chroma_scales(bits) && number_at(bits, second_at(bits), 4) > 0
}

/// Where the coefficients of luma stand, behind two shifts, if there are any.
pub open spec fn y_list_at(bits: Seq<bool>) -> int {
    regression_at(bits) + 4
}

/// Where the coefficients of the first plane of chroma stand, if there are any.
pub open spec fn cb_list_at(bits: Seq<bool>) -> int {
    y_list_at(bits) + if has_y(bits) {
        list_len(bits, y_list_at(bits), 24)
    } else {
        0
    }
}

/// Where the coefficients of the second plane of chroma stand, if there are any.
pub open spec fn cr_list_at(bits: Seq<bool>) -> int {
    cb_list_at(bits) + if has_cb(bits) || luma_scales(bits) {
        list_len(bits, cb_list_at(bits), 25)
    } else {
        0
    }
}

/// Where the fields behind all coefficients begin.
pub open spec fn closing_at(bits: Seq<bool>) -> int {
    cr_list_at(bits) + if has_cr(bits) || luma_scales(bits) {
        list_len(bits, cr_list_at(bits), 25)
    } else {
        0
    }
}

/// Where the weights of the second plane of chroma stand, if there are any.
pub open spec fn cr_weights_at(bits: Seq<bool>) -> int {
    closing_at(bits) + 4 + if has_cb(bits) {
        25int
    } else {
        0int
    }
}

/// Where the last two flags stand.
pub open spec fn flags_at(bits: Seq<bool>) -> int {
    cr_weights_at(bits) + if has_cr(bits) {
        25int
    } else {
        0int
    }
}

/// The scaling functions are those that the payload has.
spec fn scaling_matches(bits: Seq<bool>, s: Scaling) -> bool {
    &&& s.from_luma == luma_scales(bits)
    &&& s.y.len() > 0 <==> has_y(bits)
    &&& s.cb.len() > 0 <==> has_cb(bits)
    &&& s.cr.len() > 0 <==> has_cr(bits)
}

/// A list of coefficients behind one that cannot be read cannot be read.
proof fn lemma_list_stopped(c: Cursor, count: nat)
    ensures
        c.fault is Some ==> read_coefficients(c, count).1.fault is Some,
{
}

/// The auto-regression is read where it stands.
proof fn lemma_regression_at(bits: Seq<bool>, c: Cursor, s: Scaling)
    requires
        reads_at(bits, c, regression_at(bits)),
        scaling_matches(bits, s),
        read_regression(c, s).1.fault is None,
    ensures
        ({
            let (r, end) = read_regression(c, s);
            let at = regression_at(bits);
            &&& reads_at(bits, end, closing_at(bits))
            &&& r.scaling_shift == number_at(bits, at, 2) + 8
            &&& r.lag == number_at(bits, at + 2, 2)
            &&& 0 <= r.scaling_shift < 12 && 0 <= r.lag < 4
            &&& if has_y(bits) {
                list_at(bits, y_list_at(bits), 24, r.y)
            } else {
                r.y.len() == 0
            }
            &&& if has_cb(bits) || luma_scales(bits) {
                list_at(bits, cb_list_at(bits), 25, r.cb)
            } else {
                r.cb.len() == 0
            }
            &&& if has_cr(bits) || luma_scales(bits) {
                list_at(bits, cr_list_at(bits), 25, r.cr)
            } else {
                r.cr.len() == 0
            }
        }),
{
    reveal(read_regression);
    lemma2_to64();
    let at = regression_at(bits);
    let c1 = c.skip(2);
    let c2 = c1.skip(2);
    let c3 = if s.y.len() == 0 {
        c2
    } else {
        read_coefficients(c2, 24).1
    };
    let c4 = if s.cb.len() == 0 && !s.from_luma {
        c3
    } else {
        read_coefficients(c3, 25).1
    };
    lemma_list_stopped(c2, 24);
    lemma_list_stopped(c3, 25);
    lemma_list_stopped(c4, 25);
    lemma_read_at(bits, c, at, 2);
    lemma_read_at(bits, c1, at + 2, 2);
    if has_y(bits) {
        lemma_list_at(bits, c2, y_list_at(bits), 24);
    }
    if has_cb(bits) || luma_scales(bits) {
        lemma_list_at(bits, c3, cb_list_at(bits), 25);
    }
    if has_cr(bits) || luma_scales(bits) {
        lemma_list_at(bits, c4, cr_list_at(bits), 25);
    }
}

/// The weights of a chroma plane are read where they stand.
proof fn lemma_weights_at(bits: Seq<bool>, c: Cursor, at: int, present: bool)
    requires
        reads_at(bits, c, at),
        read_weights(c, present).1.fault is None,
    ensures
        ({
            let (w, end) = read_weights(c, present);
            &&& present ==> {
                &&& reads_at(bits, end, at + 25)
                &&& w.mult == number_at(bits, at, 8)
                &&& w.luma_mult == number_at(bits, at + 8, 8)
                &&& w.offset == number_at(bits, at + 16, 9)
                &&& 0 <= w.mult < 256 && 0 <= w.luma_mult < 256 && 0 <= w.offset < 512
            }
            &&& !present ==> reads_at(bits, end, at) && w.mult == 0 && w.luma_mult == 0 && w.offset
                == 0
        }),
{
    lemma2_to64();
    if present {
        let c1 = c.skip(8);
        let c2 = c1.skip(8);
        lemma_read_at(bits, c, at, 8);
        lemma_read_at(bits, c1, at + 8, 8);
        lemma_read_at(bits, c2, at + 16, 9);
    }
}

/// The last fields are read where they stand.
proof fn lemma_closing_at(bits: Seq<bool>, c: Cursor, s: Scaling)
    requires
        reads_at(bits, c, closing_at(bits)),
        scaling_matches(bits, s),
        read_closing(c, s).1.fault is None,
    ensures
        ({
            let (k, end) = read_closing(c, s);
            let at = closing_at(bits);
            &&& reads_at(bits, end, flags_at(bits) + 2)
            &&& k.ar_coeff_shift == number_at(bits, at, 2) + 6
            &&& k.grain_scale_shift == number_at(bits, at + 2, 2)
            &&& 0 <= k.ar_coeff_shift < 10 && 0 <= k.grain_scale_shift < 4
            &&& k.cb == read_weights(c.skip(2).skip(2), has_cb(bits)).0
            &&& reads_at(bits, c.skip(2).skip(2), at + 4)
            &&& read_weights(c.skip(2).skip(2), has_cb(bits)).1.fault is None
            &&& k.cr == read_weights(
                read_weights(c.skip(2).skip(2), has_cb(bits)).1,
                has_cr(bits),
            ).0
            &&& reads_at(
                bits,
                read_weights(c.skip(2).skip(2), has_cb(bits)).1,
                cr_weights_at(bits),
            )
            &&& read_weights(
                read_weights(c.skip(2).skip(2), has_cb(bits)).1,
                has_cr(bits),
            ).1.fault is None
            &&& k.overlap == bits[flags_at(bits)]
            &&& k.clip == bits[flags_at(bits) + 1]
        }),
{
    reveal(read_closing);
    lemma2_to64();
    let at = closing_at(bits);
    let c1 = c.skip(2);
    let c2 = c1.skip(2);
    let c3 = read_weights(c2, has_cb(bits)).1;
    let c4 = read_weights(c3, has_cr(bits)).1;
    let c5 = c4.skip(1);
    assert(c5.fault is None);
    assert(c4.fault is None);
    assert(c3.fault is None);
    assert(c2.fault is None);
    lemma_read_at(bits, c, at, 2);
    lemma_read_at(bits, c1, at + 2, 2);
    lemma_weights_at(bits, c2, at + 4, has_cb(bits));
    lemma_weights_at(bits, c3, cr_weights_at(bits), has_cr(bits));
    lemma_read_at(bits, c4, flags_at(bits), 1);
    lemma_read_at(bits, c5, flags_at(bits) + 1, 1);
}

/// The weights of a chroma plane stand at `at`, if there are any, and are zero if not.
pub open spec fn weights_in_place(
    bits: Seq<bool>,
    at: int,
    present: bool,
    mult: u8,
    luma_mult: u8,
    offset: u16,
) -> bool {
    if present {
        &&& mult == number_at(bits, at, 8)
        &&& luma_mult == number_at(bits, at + 8, 8)
        &&& offset == number_at(bits, at + 16, 9)
    } else {
        mult == 0 && luma_mult == 0 && offset == 0
    }
}

/// Law: every part of the grain is read from its own place in the payload, one behind the other.
/// Where chroma is scaled by luma, it has no scaling functions, and 25 coefficients are there for
/// each of its planes, in front of the fields that come behind them.
pub proof fn law_grain_in_place(payload: Seq<u8>)
    requires
        points_fit(payload),
        parsed_payload(payload) is Ok,
    ensures
        ({
            let bits = bits_of(payload);
            let grain = parsed_payload(payload)->Ok_0;
            let at = regression_at(bits);
            let end = closing_at(bits);
            &&& grain.grain_seed == number_at(bits, set_at(bits) + 4, 16)
            &&& function_at(bits, functions_at(bits), false, grain.scaling_points_y)
            &&& grain.chroma_scaling_from_luma == luma_scales(bits)
            &&& if chroma_scales(bits) {
                &&& function_at(bits, chroma_flag_at(bits) + 1, true, grain.scaling_points_cb)
                &&& function_at(bits, second_at(bits), true, grain.scaling_points_cr)
            } else {
                grain.scaling_points_cb.len() == 0 && grain.scaling_points_cr.len() == 0
            }
            &&& grain.scaling_shift == number_at(bits, at, 2) + 8
            &&& grain.ar_coeff_lag == number_at(bits, at + 2, 2)
            &&& if has_y(bits) {
                list_at(bits, y_list_at(bits), 24, grain.ar_coeffs_y)
            } else {
                grain.ar_coeffs_y.len() == 0
            }
            &&& if has_cb(bits) || luma_scales(bits) {
                list_at(bits, cb_list_at(bits), 25, grain.ar_coeffs_cb)
            } else {
                grain.ar_coeffs_cb.len() == 0
            }
            &&& if has_cr(bits) || luma_scales(bits) {
                list_at(bits, cr_list_at(bits), 25, grain.ar_coeffs_cr)
            } else {
                grain.ar_coeffs_cr.len() == 0
            }
            &&& grain.ar_coeff_shift == number_at(bits, end, 2) + 6
            &&& grain.grain_scale_shift == number_at(bits, end + 2, 2)
            &&& weights_in_place(
                bits,
                end + 4,
                has_cb(bits),
                grain.cb_mult,
                grain.cb_luma_mult,
                grain.cb_offset,
            )
            &&& weights_in_place(
                bits,
                cr_weights_at(bits),
                has_cr(bits),
                grain.cr_mult,
                grain.cr_luma_mult,
                grain.cr_offset,
            )
            &&& grain.overlap_flag == bits[flags_at(bits)]
            &&& grain.clip_to_restricted_range == bits[flags_at(bits) + 1]
            &&& bits_read(bits) == flags_at(bits) + 2
            &&& bits_read(bits) <= bits.len()
        }),
{
    let bits = bits_of(payload);
    let start = Cursor { rest: bits, fault: None };
    let (seed, c1) = read_start(start);
    let (only_luma, c2) = read_signal(c1);
    let (s, c3) = read_functions(c2, only_luma);
    let (r, c4) = read_regression(c3, s);
    let (k, c5) = read_closing(c4, s);
    assert(c5.fault is None);
    if c4.fault is Some {
        lemma_stopped(c4, only_luma, s);
    }
    if c3.fault is Some {
        lemma_stopped(c3, only_luma, s);
    }
    if c2.fault is Some {
        lemma_stopped(c2, only_luma, s);
    }
    if c1.fault is Some {
        lemma_stopped(c1, only_luma, s);
    }
    lemma_start_says(bits);
    lemma_seed_at(bits);
    assert(alike(bits, bits));
    lemma_twins_signal(bits, bits, c1, c1);
    lemma_functions_at(bits, c2, only_luma);
    assert(scaling_matches(bits, s));
    lemma_regression_at(bits, c3, s);
    lemma_closing_at(bits, c4, s);
    let w = c4.skip(2).skip(2);
    lemma_weights_at(bits, w, closing_at(bits) + 4, has_cb(bits));
    lemma_weights_at(
        bits,
        read_weights(w, has_cb(bits)).1,
        cr_weights_at(bits),
        has_cr(bits),
    );
}

/// The seed fits in sixteen bits.
proof fn lemma_seed_at(bits: Seq<bool>)
    requires
        set_at(bits) + 20 <= bits.len(),
    ensures
        0 <= number_at(bits, set_at(bits) + 4, 16) < 0x1_0000,
{
    lemma2_to64();
    lemma_enc_uint(bits.subrange(set_at(bits) + 4, set_at(bits) + 20));
}

} // verus!
