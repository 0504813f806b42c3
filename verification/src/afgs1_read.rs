//! Reading a grain description from an AFGS1 payload.
use crate::bits::{bits_of, uint, BitReader};
use crate::error::Error;
use crate::grain::{
    new_items, push_item, uv_points_slice, y_points_slice, FilmGrainParams, GrainModel, Items,
    NUM_UV_COEFFS, NUM_UV_POINTS, NUM_Y_COEFFS, NUM_Y_POINTS,
};
use arrayvec::ArrayVec;
use vstd::arithmetic::power2::{lemma2_to64, lemma_pow2_strictly_increases, pow2};
use vstd::prelude::*;

verus! {

/// Why a payload gives no grain description.
#[derive(Debug, Clone, Copy, PartialEq, Eq, Structural)]
pub enum Fault {
    /// It is refused.
    Refused(Error),
    /// A scaling function has more points than there is room for.
    Overfull,
}

/// The bits that are still to be read, or why reading stopped.
#[verifier::ext_equal]
pub struct Cursor {
    pub rest: Seq<bool>,
    pub fault: Option<Fault>,
}

impl Cursor {
    /// The number in the next `n` bits.
    pub open spec fn peek(self, n: int) -> int {
        uint(self.rest.take(n)) as int
    }

    /// Reading goes on behind the next `n` bits.
    pub open spec fn skip(self, n: int) -> Cursor {
        if self.fault is Some {
            self
        } else if n > self.rest.len() {
            Cursor {
                rest: self.rest,
                fault: Some(Fault::Refused(Error::EndedEarly { bits: n as usize })),
            }
        } else {
            Cursor { rest: self.rest.skip(n), fault: None }
        }
    }

    /// Reading stops if `bad` holds.
    pub open spec fn refuse_if(self, bad: bool, error: Error) -> Cursor {
        if self.fault is None && bad {
            Cursor { rest: self.rest, fault: Some(Fault::Refused(error)) }
        } else {
            self
        }
    }
}

/// The registration codes, the switches and the seed: the seed, and where the set goes on.
#[verifier::opaque]
pub open spec fn read_start(c: Cursor) -> (int, Cursor) {
    let c1 = c.skip(8);
    let c2 = c1.skip(16);
    let c3 = c2.skip(8).refuse_if(
        c.peek(8) != 0xb5 || c1.peek(16) != 0x5890 || c2.peek(8) != 0x01,
        Error::NotAfgs1,
    );
    let c4 = c3.skip(1).refuse_if(c3.peek(1) == 0, Error::GrainDisabled);
    let c5 = c4.skip(4);
    let c6 = c5.skip(3).refuse_if(c5.peek(3) != 0, Error::MultipleGrainSets);
    let short = c6.peek(1) != 0;
    let c7 = c6.skip(1).skip(if short {
        2
    } else {
        8
    }).skip(3);
    let c8 = c7.skip(1).refuse_if(c7.peek(1) == 0, Error::GrainNotApplied);
    let c9 = c8.skip(16);
    let c10 = c9.skip(1).refuse_if(c9.peek(1) == 0, Error::ReferencedGrain);
    (c8.peek(16), c10)
}

/// The resolution and the signal: whether there is only luma, and where the set goes on.
#[verifier::opaque]
pub open spec fn read_signal(c: Cursor) -> (bool, Cursor) {
    let c1 = c.skip(4).skip(12).skip(12);
    let only_luma = c1.peek(1) != 0;
    let c2 = if only_luma {
        c1.skip(1)
    } else {
        c1.skip(1).skip(1).skip(1)
    };
    let signal = c2.peek(1) != 0;
    let c3 = c2.skip(1);
    let c4 = if signal {
        let c31 = c3.skip(3);
        if c31.peek(1) != 0 {
            c31.skip(1).skip(8).skip(8).skip(8).skip(1)
        } else {
            c31.skip(1)
        }
    } else {
        c3
    };
    (only_luma, c4.skip(1).refuse_if(c4.peek(1) != 0, Error::PredictedScaling))
}

/// The point that comes behind the given ones.
pub open spec fn next_point(points: Seq<[u8; 2]>, step: int, scaling: int) -> [u8; 2] {
    let value = if points.len() == 0 {
        step as u8
    } else {
        ((points.last()[0] + step) % 256) as u8
    };
    [value, scaling as u8]
}

/// Reads scaling points behind the given ones, until there are `count`; there is room for `cap`.
pub open spec fn read_points(
    c: Cursor,
    points: Seq<[u8; 2]>,
    count: nat,
    cap: nat,
    value_bits: int,
    scaling_bits: int,
) -> (Seq<[u8; 2]>, Cursor)
    decreases count - points.len(),
{
    if points.len() >= count || c.fault is Some {
        (points, c)
    } else {
        let c1 = c.skip(value_bits);
        let c2 = c1.skip(scaling_bits);
        if c2.fault is Some {
            (points, c2)
        } else if points.len() >= cap {
            (points, Cursor { rest: c2.rest, fault: Some(Fault::Overfull) })
        } else {
            read_points(
                c2,
                points.push(next_point(points, c.peek(value_bits), c1.peek(scaling_bits))),
                count,
                cap,
                value_bits,
                scaling_bits,
            )
        }
    }
}

/// Reads a scaling function.
pub open spec fn read_scaling(c: Cursor, cap: nat, chroma: bool) -> (Seq<[u8; 2]>, Cursor) {
    let count = c.peek(4);
    let c1 = c.skip(4);
    if c1.fault is Some || count == 0 {
        (Seq::empty(), c1)
    } else {
        let c2 = c1.skip(3);
        let c3 = c2.skip(2);
        let c4 = if chroma {
            c3.skip(8)
        } else {
            c3
        };
        read_points(c4, Seq::empty(), count as nat, cap, c1.peek(3) + 1, c2.peek(2) + 5)
    }
}

/// Reads coefficients of `bits` bits behind the given ones, until there are `count`.
pub open spec fn read_codes(c: Cursor, coeffs: Seq<i8>, count: nat, bits: int) -> (Seq<i8>, Cursor)
    decreases count - coeffs.len(),
{
    if coeffs.len() >= count || c.fault is Some {
        (coeffs, c)
    } else {
        let c1 = c.skip(bits);
        if c1.fault is Some {
            (coeffs, c1)
        } else {
            let code = c.peek(bits);
            read_codes(c1, coeffs.push((code - pow2((bits - 1) as nat)) as i8), count, bits)
        }
    }
}

/// Reads a list of coefficients.
pub open spec fn read_coefficients(c: Cursor, count: nat) -> (Seq<i8>, Cursor) {
    let c1 = c.skip(2);
    read_codes(c1, Seq::empty(), count, c.peek(2) + 5)
}

/// The scaling functions of a film grain set.
#[verifier::ext_equal]
pub struct Scaling {
    pub y: Seq<[u8; 2]>,
    pub cb: Seq<[u8; 2]>,
    pub cr: Seq<[u8; 2]>,
    pub from_luma: bool,
}

/// Reads the scaling functions.
#[verifier::opaque]
pub open spec fn read_functions(c: Cursor, only_luma: bool) -> (Scaling, Cursor) {
    let (y, c1) = read_scaling(c, NUM_Y_POINTS as nat, false);
    if only_luma {
        (Scaling { y, cb: Seq::empty(), cr: Seq::empty(), from_luma: false }, c1)
    } else {
        let from_luma = c1.peek(1) != 0;
        let c2 = c1.skip(1);
        if from_luma {
            (Scaling { y, cb: Seq::empty(), cr: Seq::empty(), from_luma }, c2)
        } else {
            let (cb, c3) = read_scaling(c2, NUM_UV_POINTS as nat, true);
            let (cr, c4) = read_scaling(c3, NUM_UV_POINTS as nat, true);
            (Scaling { y, cb, cr, from_luma }, c4)
        }
    }
}

/// The auto-regression of a film grain set.
#[verifier::ext_equal]
pub struct Regression {
    pub scaling_shift: int,
    pub lag: int,
    pub y: Seq<i8>,
    pub cb: Seq<i8>,
    pub cr: Seq<i8>,
}

/// Reads the auto-regression.
#[verifier::opaque]
pub open spec fn read_regression(c: Cursor, s: Scaling) -> (Regression, Cursor) {
    let c1 = c.skip(2);
    let c2 = c1.skip(2);
    let (y, c3) = if s.y.len() == 0 {
        (Seq::empty(), c2)
    } else {
        read_coefficients(c2, 24)
    };
    let (cb, c4) = if s.cb.len() == 0 && !s.from_luma {
        (Seq::empty(), c3)
    } else {
        read_coefficients(c3, 25)
    };
    let (cr, c5) = if s.cr.len() == 0 && !s.from_luma {
        (Seq::empty(), c4)
    } else {
        read_coefficients(c4, 25)
    };
    (Regression { scaling_shift: c.peek(2) + 8, lag: c1.peek(2), y, cb, cr }, c5)
}

/// The weights of a chroma plane in the index into its scaling function.
pub struct Weights {
    pub mult: int,
    pub luma_mult: int,
    pub offset: int,
}

/// Reads the weights of a chroma plane, if it has a scaling function.
pub open spec fn read_weights(c: Cursor, present: bool) -> (Weights, Cursor) {
    if present {
        let c1 = c.skip(8);
        let c2 = c1.skip(8);
        (Weights { mult: c.peek(8), luma_mult: c1.peek(8), offset: c2.peek(9) }, c2.skip(9))
    } else {
        (Weights { mult: 0, luma_mult: 0, offset: 0 }, c)
    }
}

/// The rest of a film grain set.
pub struct Closing {
    pub ar_coeff_shift: int,
    pub grain_scale_shift: int,
    pub cb: Weights,
    pub cr: Weights,
    pub overlap: bool,
    pub clip: bool,
}

/// Reads the rest of a film grain set.
#[verifier::opaque]
pub open spec fn read_closing(c: Cursor, s: Scaling) -> (Closing, Cursor) {
    let c1 = c.skip(2);
    let c2 = c1.skip(2);
    let (cb, c3) = read_weights(c2, s.cb.len() > 0);
    let (cr, c4) = read_weights(c3, s.cr.len() > 0);
    let c5 = c4.skip(1);
    (
        Closing {
            ar_coeff_shift: c.peek(2) + 6,
            grain_scale_shift: c1.peek(2),
            cb,
            cr,
            overlap: c4.peek(1) != 0,
            clip: c5.peek(1) != 0,
        },
        c5.skip(1),
    )
}

/// The grain description in a payload of these bits.
pub open spec fn afgs1_grain(bits: Seq<bool>) -> Result<GrainModel, Fault> {
    let (seed, c1) = read_start(Cursor { rest: bits, fault: None });
    let (only_luma, c2) = read_signal(c1);
    let (s, c3) = read_functions(c2, only_luma);
    let (r, c4) = read_regression(c3, s);
    let (k, c5) = read_closing(c4, s);
    match c5.fault {
        Some(fault) => Err(fault),
        None => Ok(
            GrainModel {
                grain_seed: seed as u16,
                scaling_points_y: s.y,
                scaling_points_cb: s.cb,
                scaling_points_cr: s.cr,
                scaling_shift: r.scaling_shift as u8,
                ar_coeff_lag: r.lag as u8,
                ar_coeffs_y: r.y,
                ar_coeffs_cb: r.cb,
                ar_coeffs_cr: r.cr,
                ar_coeff_shift: k.ar_coeff_shift as u8,
                cb_mult: k.cb.mult as u8,
                cb_luma_mult: k.cb.luma_mult as u8,
                cb_offset: k.cb.offset as u16,
                cr_mult: k.cr.mult as u8,
                cr_luma_mult: k.cr.luma_mult as u8,
                cr_offset: k.cr.offset as u16,
                chroma_scaling_from_luma: s.from_luma,
                grain_scale_shift: k.grain_scale_shift as u8,
                overlap_flag: k.overlap,
                clip_to_restricted_range: k.clip,
            },
        ),
    }
}

/// Where a reader stands.
pub open spec fn at(bits: &BitReader<'_>) -> Cursor {
    Cursor { rest: bits.rest(), fault: None }
}

/// The reader stays on its data.
pub open spec fn same_data(a: &BitReader<'_>, b: &BitReader<'_>) -> bool {
    a.wf() && a.data == b.data
}

/// Reads the next `n` bits.
fn take(bits: &mut BitReader<'_>, n: usize) -> (r: Result<u64, Fault>)
    requires
        old(bits).wf(),
        n <= 64,
    ensures
        same_data(final(bits), old(bits)),
        match r {
            Ok(v) => {
                &&& v == at(old(bits)).peek(n as int)
                &&& v < pow2(n as nat)
                &&& at(old(bits)).skip(n as int) == at(final(bits))
            },
            Err(f) => at(old(bits)).skip(n as int).fault == Some(f),
        },
{
    match bits.read(n) {
        Ok(v) => Ok(v),
        Err(e) => Err(Fault::Refused(e)),
    }
}

/// Reads the registration codes, the switches and the seed.
fn take_start(bits: &mut BitReader<'_>) -> (r: Result<u16, Fault>)
    requires
        old(bits).wf(),
    ensures
        same_data(final(bits), old(bits)),
        match r {
            Ok(seed) => {
                &&& seed == read_start(at(old(bits))).0
                &&& read_start(at(old(bits))).1 == at(final(bits))
            },
            Err(f) => read_start(at(old(bits))).1.fault == Some(f),
        },
{
    proof {
        reveal(read_start);
        lemma2_to64();
    }
    let country_code: u64 = match take(bits, 8) {
        Ok(v) => v,
        Err(f) => {
            return Err(f);
        },
    };
    let provider_code: u64 = match take(bits, 16) {
        Ok(v) => v,
        Err(f) => {
            return Err(f);
        },
    };
    let provider_oriented_code: u64 = match take(bits, 8) {
        Ok(v) => v,
        Err(f) => {
            return Err(f);
        },
    };
    if country_code != 0xb5 || provider_code != 0x5890 || provider_oriented_code != 0x01 {
        return Err(Fault::Refused(Error::NotAfgs1));
    }
    let enabled: u64 = match take(bits, 1) {
        Ok(v) => v,
        Err(f) => {
            return Err(f);
        },
    };
    if enabled == 0 {
        return Err(Fault::Refused(Error::GrainDisabled));
    }
    let _reserved: u64 = match take(bits, 4) {
        Ok(v) => v,
        Err(f) => {
            return Err(f);
        },
    };
    let sets_minus1: u64 = match take(bits, 3) {
        Ok(v) => v,
        Err(f) => {
            return Err(f);
        },
    };
    if sets_minus1 != 0 {
        return Err(Fault::Refused(Error::MultipleGrainSets));
    }
    let short: u64 = match take(bits, 1) {
        Ok(v) => v,
        Err(f) => {
            return Err(f);
        },
    };
    let size_bits: usize = if short != 0 {
        2
    } else {
        8
    };
    let _payload_size: u64 = match take(bits, size_bits) {
        Ok(v) => v,
        Err(f) => {
            return Err(f);
        },
    };
    let _set_index: u64 = match take(bits, 3) {
        Ok(v) => v,
        Err(f) => {
            return Err(f);
        },
    };
    let apply_grain: u64 = match take(bits, 1) {
        Ok(v) => v,
        Err(f) => {
            return Err(f);
        },
    };
    if apply_grain == 0 {
        return Err(Fault::Refused(Error::GrainNotApplied));
    }
    let grain_seed: u64 = match take(bits, 16) {
        Ok(v) => v,
        Err(f) => {
            return Err(f);
        },
    };
    let update_grain: u64 = match take(bits, 1) {
        Ok(v) => v,
        Err(f) => {
            return Err(f);
        },
    };
    if update_grain == 0 {
        return Err(Fault::Refused(Error::ReferencedGrain));
    }
    Ok(grain_seed as u16)
}

/// Reads the resolution and the signal.
fn take_signal(bits: &mut BitReader<'_>) -> (r: Result<bool, Fault>)
    requires
        old(bits).wf(),
    ensures
        same_data(final(bits), old(bits)),
        match r {
            Ok(only_luma) => {
                &&& only_luma == read_signal(at(old(bits))).0
                &&& read_signal(at(old(bits))).1 == at(final(bits))
            },
            Err(f) => read_signal(at(old(bits))).1.fault == Some(f),
        },
{
    proof {
        reveal(read_signal);
    }
    let _units_log2: u64 = match take(bits, 4) {
        Ok(v) => v,
        Err(f) => {
            return Err(f);
        },
    };
    let _horz: u64 = match take(bits, 12) {
        Ok(v) => v,
        Err(f) => {
            return Err(f);
        },
    };
    let _vert: u64 = match take(bits, 12) {
        Ok(v) => v,
        Err(f) => {
            return Err(f);
        },
    };
    let only_luma: u64 = match take(bits, 1) {
        Ok(v) => v,
        Err(f) => {
            return Err(f);
        },
    };
    if only_luma == 0 {
        let _subsampling_x: u64 = match take(bits, 1) {
            Ok(v) => v,
            Err(f) => {
                return Err(f);
            },
        };
        let _subsampling_y: u64 = match take(bits, 1) {
            Ok(v) => v,
            Err(f) => {
                return Err(f);
            },
        };
    }
    let signal: u64 = match take(bits, 1) {
        Ok(v) => v,
        Err(f) => {
            return Err(f);
        },
    };
    if signal != 0 {
        let _bit_depth_minus8: u64 = match take(bits, 3) {
            Ok(v) => v,
            Err(f) => {
                return Err(f);
            },
        };
        let cicp: u64 = match take(bits, 1) {
            Ok(v) => v,
            Err(f) => {
                return Err(f);
            },
        };
        if cicp != 0 {
            let _colour_primaries: u64 = match take(bits, 8) {
                Ok(v) => v,
                Err(f) => {
                    return Err(f);
                },
            };
            let _transfer_characteristics: u64 = match take(bits, 8) {
                Ok(v) => v,
                Err(f) => {
                    return Err(f);
                },
            };
            let _matrix_coefficients: u64 = match take(bits, 8) {
                Ok(v) => v,
                Err(f) => {
                    return Err(f);
                },
            };
            let _full_range: u64 = match take(bits, 1) {
                Ok(v) => v,
                Err(f) => {
                    return Err(f);
                },
            };
        }
    }
    let predict_scaling: u64 = match take(bits, 1) {
        Ok(v) => v,
        Err(f) => {
            return Err(f);
        },
    };
    if predict_scaling != 0 {
        return Err(Fault::Refused(Error::PredictedScaling));
    }
    Ok(only_luma != 0)
}

/// Reads a scaling function into a vector with room for `N` points.
pub fn read_scaling_points<const N: usize>(bits: &mut BitReader<'_>, chroma: bool) -> (r: Result<
    ArrayVec<[u8; 2], N>,
    Fault,
>) where ArrayVec<[u8; 2], N>: Items<[u8; 2]>
    requires
        old(bits).wf(),
        N <= 0xffff_ffff,
    ensures
        same_data(final(bits), old(bits)),
        match r {
            Ok(points) => {
                &&& points.items() == read_scaling(at(old(bits)), N as nat, chroma).0
                &&& read_scaling(at(old(bits)), N as nat, chroma).1 == at(final(bits))
            },
            Err(f) => read_scaling(at(old(bits)), N as nat, chroma).1.fault == Some(f),
        },
{
    proof {
        lemma2_to64();
    }
    let ghost c = at(bits);
    let count: u64 = match take(bits, 4) {
        Ok(v) => v,
        Err(f) => {
            return Err(f);
        },
    };
    let mut points: ArrayVec<[u8; 2], N> = new_items();
    if count == 0 {
        return Ok(points);
    }
    let value_bits: usize = (match take(bits, 3) {
        Ok(v) => v,
        Err(f) => {
            return Err(f);
        },
    }) as usize + 1;
    let scaling_bits: usize = (match take(bits, 2) {
        Ok(v) => v,
        Err(f) => {
            return Err(f);
        },
    }) as usize + 5;
    if chroma {
        let _offset: u64 = match take(bits, 8) {
            Ok(v) => v,
            Err(f) => {
                return Err(f);
            },
        };
    }
    let mut prev: u8 = 0;
    let mut idx: u64 = 0;
    assert(points.items() =~= Seq::empty());
    while idx < count
        invariant
            same_data(bits, old(bits)),
            old(bits).wf(),
            c == at(old(bits)),
            1 <= value_bits <= 8,
            5 <= scaling_bits <= 8,
            idx <= count,
            points.items().len() == idx,
            idx > 0 ==> prev == points.items().last()[0],
            read_scaling(c, N as nat, chroma) == read_points(
                at(bits),
                points.items(),
                count as nat,
                N as nat,
                value_bits as int,
                scaling_bits as int,
            ),
        decreases count - idx,
    {
        let ghost before = at(bits);
        proof {
            lemma2_to64();
            if value_bits < 8 {
                lemma_pow2_strictly_increases(value_bits as nat, 8);
            }
            if scaling_bits < 8 {
                lemma_pow2_strictly_increases(scaling_bits as nat, 8);
            }
        }
        let increment: u8 = (match take(bits, value_bits) {
            Ok(v) => v,
            Err(f) => {
                return Err(f);
            },
        }) as u8;
        let value: u8 = if idx == 0 {
            increment
        } else {
            prev.wrapping_add(increment)
        };
        let scaling: u8 = (match take(bits, scaling_bits) {
            Ok(v) => v,
            Err(f) => {
                return Err(f);
            },
        }) as u8;
        if idx >= N as u64 {
            return Err(Fault::Overfull);
        }
        let ghost old_points = points.items();
        let point: [u8; 2] = [value, scaling];
        assert(point =~= next_point(old_points, increment as int, scaling as int));
        push_item(&mut points, point);
        prev = value;
        idx = idx + 1;
    }
    Ok(points)
}

/// Reads a list of `count` coefficients into a vector with room for `N` of them.
pub fn read_coeffs<const N: usize>(bits: &mut BitReader<'_>, count: usize) -> (r: Result<
    ArrayVec<i8, N>,
    Fault,
>) where ArrayVec<i8, N>: Items<i8>
    requires
        old(bits).wf(),
        count <= N <= 0xffff_ffff,
    ensures
        same_data(final(bits), old(bits)),
        match r {
            Ok(coeffs) => {
                &&& coeffs.items() == read_coefficients(at(old(bits)), count as nat).0
                &&& read_coefficients(at(old(bits)), count as nat).1 == at(final(bits))
            },
            Err(f) => read_coefficients(at(old(bits)), count as nat).1.fault == Some(f),
        },
{
    proof {
        lemma2_to64();
    }
    let ghost c = at(bits);
    let coeff_bits: usize = (match take(bits, 2) {
        Ok(v) => v,
        Err(f) => {
            return Err(f);
        },
    }) as usize + 5;
    let mut coeffs: ArrayVec<i8, N> = new_items();
    let mut i: usize = 0;
    assert(coeffs.items() =~= Seq::empty());
    while i < count
        invariant
            same_data(bits, old(bits)),
            old(bits).wf(),
            c == at(old(bits)),
            5 <= coeff_bits <= 8,
            i <= count <= N,
            coeffs.items().len() == i,
            read_coefficients(c, count as nat) == read_codes(
                at(bits),
                coeffs.items(),
                count as nat,
                coeff_bits as int,
            ),
        decreases count - i,
    {
        proof {
            lemma2_to64();
        }
        let encoded: i16 = (match take(bits, coeff_bits) {
            Ok(v) => v,
            Err(f) => {
                return Err(f);
            },
        }) as i16;
        let half: i16 = if coeff_bits == 5 {
            16
        } else if coeff_bits == 6 {
            32
        } else if coeff_bits == 7 {
            64
        } else {
            128
        };
        push_item(&mut coeffs, (encoded - half) as i8);
        i = i + 1;
    }
    Ok(coeffs)
}

/// The scaling functions, as they are read.
struct ScalingParts {
    y: ArrayVec<[u8; 2], NUM_Y_POINTS>,
    cb: ArrayVec<[u8; 2], NUM_UV_POINTS>,
    cr: ArrayVec<[u8; 2], NUM_UV_POINTS>,
    from_luma: bool,
}

impl ScalingParts {
    spec fn model(&self) -> Scaling {
        Scaling {
            y: self.y.items(),
            cb: self.cb.items(),
            cr: self.cr.items(),
            from_luma: self.from_luma,
        }
    }
}

/// Reads the scaling functions.
fn take_functions(bits: &mut BitReader<'_>, only_luma: bool) -> (r: Result<ScalingParts, Fault>)
    requires
        old(bits).wf(),
    ensures
        same_data(final(bits), old(bits)),
        match r {
            Ok(parts) => {
                &&& parts.model() == read_functions(at(old(bits)), only_luma).0
                &&& read_functions(at(old(bits)), only_luma).1 == at(final(bits))
            },
            Err(f) => read_functions(at(old(bits)), only_luma).1.fault == Some(f),
        },
{
    proof {
        reveal(read_functions);
    }
    let y: ArrayVec<[u8; 2], NUM_Y_POINTS> = match read_scaling_points(bits, false) {
        Ok(v) => v,
        Err(f) => {
            return Err(f);
        },
    };
    let mut from_luma: bool = false;
    if !only_luma {
        let flag: u64 = match take(bits, 1) {
            Ok(v) => v,
            Err(f) => {
                return Err(f);
            },
        };
        from_luma = flag != 0;
    }
    if only_luma || from_luma {
        let cb: ArrayVec<[u8; 2], NUM_UV_POINTS> = new_items();
        let cr: ArrayVec<[u8; 2], NUM_UV_POINTS> = new_items();
        return Ok(ScalingParts { y, cb, cr, from_luma });
    }
    let cb: ArrayVec<[u8; 2], NUM_UV_POINTS> = match read_scaling_points(bits, true) {
        Ok(v) => v,
        Err(f) => {
            return Err(f);
        },
    };
    let cr: ArrayVec<[u8; 2], NUM_UV_POINTS> = match read_scaling_points(bits, true) {
        Ok(v) => v,
        Err(f) => {
            return Err(f);
        },
    };
    Ok(ScalingParts { y, cb, cr, from_luma })
}

/// The auto-regression, as it is read.
struct RegressionParts {
    scaling_shift: u8,
    lag: u8,
    y: ArrayVec<i8, NUM_Y_COEFFS>,
    cb: ArrayVec<i8, NUM_UV_COEFFS>,
    cr: ArrayVec<i8, NUM_UV_COEFFS>,
}

impl RegressionParts {
    spec fn model(&self) -> Regression {
        Regression {
            scaling_shift: self.scaling_shift as int,
            lag: self.lag as int,
            y: self.y.items(),
            cb: self.cb.items(),
            cr: self.cr.items(),
        }
    }
}

/// Reads the auto-regression.
fn take_regression(bits: &mut BitReader<'_>, parts: &ScalingParts) -> (r: Result<
    RegressionParts,
    Fault,
>)
    requires
        old(bits).wf(),
    ensures
        same_data(final(bits), old(bits)),
        match r {
            Ok(q) => {
                &&& q.model() == read_regression(at(old(bits)), parts.model()).0
                &&& read_regression(at(old(bits)), parts.model()).1 == at(final(bits))
            },
            Err(f) => read_regression(at(old(bits)), parts.model()).1.fault == Some(f),
        },
{
    proof {
        reveal(read_regression);
        lemma2_to64();
    }
    let scaling_shift: u8 = (match take(bits, 2) {
        Ok(v) => v,
        Err(f) => {
            return Err(f);
        },
    }) as u8 + 8;
    let lag: u8 = (match take(bits, 2) {
        Ok(v) => v,
        Err(f) => {
            return Err(f);
        },
    }) as u8;
    let y: ArrayVec<i8, NUM_Y_COEFFS> = if y_points_slice(&parts.y).len() == 0 {
        new_items()
    } else {
        match read_coeffs(bits, 24) {
            Ok(v) => v,
            Err(f) => {
                return Err(f);
            },
        }
    };
    let cb: ArrayVec<i8, NUM_UV_COEFFS> = if uv_points_slice(&parts.cb).len() != 0
        || parts.from_luma {
        match read_coeffs(bits, 25) {
            Ok(v) => v,
            Err(f) => {
                return Err(f);
            },
        }
    } else {
        new_items()
    };
    let cr: ArrayVec<i8, NUM_UV_COEFFS> = if uv_points_slice(&parts.cr).len() != 0
        || parts.from_luma {
        match read_coeffs(bits, 25) {
            Ok(v) => v,
            Err(f) => {
                return Err(f);
            },
        }
    } else {
        new_items()
    };
    Ok(RegressionParts { scaling_shift, lag, y, cb, cr })
}

/// Reads the weights of a chroma plane, if it has a scaling function.
fn take_weights(bits: &mut BitReader<'_>, present: bool) -> (r: Result<(u8, u8, u16), Fault>)
    requires
        old(bits).wf(),
    ensures
        same_data(final(bits), old(bits)),
        match r {
            Ok((mult, luma_mult, offset)) => {
                &&& read_weights(at(old(bits)), present).0 == (Weights {
                    mult: mult as int,
                    luma_mult: luma_mult as int,
                    offset: offset as int,
                })
                &&& read_weights(at(old(bits)), present).1 == at(final(bits))
            },
            Err(f) => read_weights(at(old(bits)), present).1.fault == Some(f),
        },
{
    if !present {
        return Ok((0, 0, 0));
    }
    proof {
        lemma2_to64();
    }
    let mult: u8 = (match take(bits, 8) {
        Ok(v) => v,
        Err(f) => {
            return Err(f);
        },
    }) as u8;
    let luma_mult: u8 = (match take(bits, 8) {
        Ok(v) => v,
        Err(f) => {
            return Err(f);
        },
    }) as u8;
    let offset: u16 = (match take(bits, 9) {
        Ok(v) => v,
        Err(f) => {
            return Err(f);
        },
    }) as u16;
    Ok((mult, luma_mult, offset))
}

/// The rest of a film grain set, as it is read.
struct ClosingParts {
    ar_coeff_shift: u8,
    grain_scale_shift: u8,
    cb: (u8, u8, u16),
    cr: (u8, u8, u16),
    overlap: bool,
    clip: bool,
}

impl ClosingParts {
    spec fn model(&self) -> Closing {
        Closing {
            ar_coeff_shift: self.ar_coeff_shift as int,
            grain_scale_shift: self.grain_scale_shift as int,
            cb: Weights {
                mult: self.cb.0 as int,
                luma_mult: self.cb.1 as int,
                offset: self.cb.2 as int,
            },
            cr: Weights {
                mult: self.cr.0 as int,
                luma_mult: self.cr.1 as int,
                offset: self.cr.2 as int,
            },
            overlap: self.overlap,
            clip: self.clip,
        }
    }
}

/// Reads the rest of a film grain set.
fn take_closing(bits: &mut BitReader<'_>, parts: &ScalingParts) -> (r: Result<ClosingParts, Fault>)
    requires
        old(bits).wf(),
    ensures
        same_data(final(bits), old(bits)),
        match r {
            Ok(q) => {
                &&& q.model() == read_closing(at(old(bits)), parts.model()).0
                &&& read_closing(at(old(bits)), parts.model()).1 == at(final(bits))
            },
            Err(f) => read_closing(at(old(bits)), parts.model()).1.fault == Some(f),
        },
{
    proof {
        reveal(read_closing);
        lemma2_to64();
    }
    let ar_coeff_shift: u8 = (match take(bits, 2) {
        Ok(v) => v,
        Err(f) => {
            return Err(f);
        },
    }) as u8 + 6;
    let grain_scale_shift: u8 = (match take(bits, 2) {
        Ok(v) => v,
        Err(f) => {
            return Err(f);
        },
    }) as u8;
    let has_cb: bool = uv_points_slice(&parts.cb).len() != 0;
    let has_cr: bool = uv_points_slice(&parts.cr).len() != 0;
    let cb: (u8, u8, u16) = match take_weights(bits, has_cb) {
        Ok(v) => v,
        Err(f) => {
            return Err(f);
        },
    };
    let cr: (u8, u8, u16) = match take_weights(bits, has_cr) {
        Ok(v) => v,
        Err(f) => {
            return Err(f);
        },
    };
    let overlap: u64 = match take(bits, 1) {
        Ok(v) => v,
        Err(f) => {
            return Err(f);
        },
    };
    let clip: u64 = match take(bits, 1) {
        Ok(v) => v,
        Err(f) => {
            return Err(f);
        },
    };
    Ok(
        ClosingParts {
            ar_coeff_shift,
            grain_scale_shift,
            cb,
            cr,
            overlap: overlap != 0,
            clip: clip != 0,
        },
    )
}

/// Where reading has stopped, it stays stopped.
pub proof fn lemma_stopped(c: Cursor, only_luma: bool, s: Scaling)
    requires
        c.fault is Some,
    ensures
        read_signal(c).1.fault == c.fault,
        read_functions(c, only_luma).1.fault == c.fault,
        read_regression(c, s).1.fault == c.fault,
        read_closing(c, s).1.fault == c.fault,
{
    reveal(read_signal);
    reveal(read_functions);
    reveal(read_regression);
    reveal(read_closing);
}

/// Reads a grain description, if the payload gives one.
pub fn decode_afgs1(payload: &[u8]) -> (r: Result<FilmGrainParams, Fault>)
    requires
        payload@.len() * 8 + 64 <= usize::MAX,
    ensures
        match r {
            Ok(params) => afgs1_grain(bits_of(payload@)) == Ok::<GrainModel, Fault>(params@),
            Err(f) => afgs1_grain(bits_of(payload@)) == Err::<GrainModel, Fault>(f),
        },
{
    let mut reader = BitReader::new(payload);
    let bits = &mut reader;
    proof {
        let c0 = Cursor { rest: bits_of(payload@), fault: None };
        let c1 = read_start(c0).1;
        let (only_luma, c2) = read_signal(c1);
        let (s, c3) = read_functions(c2, only_luma);
        let c4 = read_regression(c3, s).1;
        if c1.fault is Some {
            lemma_stopped(c1, only_luma, s);
        }
        if c2.fault is Some {
            lemma_stopped(c2, only_luma, s);
        }
        if c3.fault is Some {
            lemma_stopped(c3, only_luma, s);
        }
        if c4.fault is Some {
            lemma_stopped(c4, only_luma, s);
        }
    }
    let grain_seed: u16 = match take_start(bits) {
        Ok(v) => v,
        Err(f) => {
            return Err(f);
        },
    };
    let only_luma: bool = match take_signal(bits) {
        Ok(v) => v,
        Err(f) => {
            return Err(f);
        },
    };
    let scaling: ScalingParts = match take_functions(bits, only_luma) {
        Ok(v) => v,
        Err(f) => {
            return Err(f);
        },
    };
    let regression: RegressionParts = match take_regression(bits, &scaling) {
        Ok(v) => v,
        Err(f) => {
            return Err(f);
        },
    };
    let closing: ClosingParts = match take_closing(bits, &scaling) {
        Ok(v) => v,
        Err(f) => {
            return Err(f);
        },
    };
    Ok(
        FilmGrainParams {
            grain_seed,
            scaling_points_y: scaling.y,
            scaling_points_cb: scaling.cb,
            scaling_points_cr: scaling.cr,
            scaling_shift: regression.scaling_shift,
            ar_coeff_lag: regression.lag,
            ar_coeffs_y: regression.y,
            ar_coeffs_cb: regression.cb,
            ar_coeffs_cr: regression.cr,
            ar_coeff_shift: closing.ar_coeff_shift,
            cb_mult: closing.cb.0,
            cb_luma_mult: closing.cb.1,
            cb_offset: closing.cb.2,
            cr_mult: closing.cr.0,
            cr_luma_mult: closing.cr.1,
            cr_offset: closing.cr.2,
            chroma_scaling_from_luma: scaling.from_luma,
            grain_scale_shift: closing.grain_scale_shift,
            overlap_flag: closing.overlap,
            clip_to_restricted_range: closing.clip,
        },
    )
}

/// The payload does not describe more scaling points than there is room for.
pub open spec fn points_fit(payload: Seq<u8>) -> bool {
    afgs1_grain(bits_of(payload)) != Err::<GrainModel, Fault>(Fault::Overfull)
}

/// What a payload that does not overfill a scaling function is read as.
pub open spec fn parsed_payload(payload: Seq<u8>) -> Result<GrainModel, Error> {
    match afgs1_grain(bits_of(payload)) {
        Ok(p) => Ok(p),
        Err(Fault::Refused(e)) => Err(e),
        Err(Fault::Overfull) => Err(arbitrary()),
    }
}

/// The grain description in an AFGS1 payload.
pub fn parse_afgs1_payload(payload: &[u8]) -> (r: Result<FilmGrainParams, Error>)
    requires
        payload@.len() * 8 + 64 <= usize::MAX,
        points_fit(payload@),
    ensures
        match r {
            Ok(params) => parsed_payload(payload@) == Ok::<GrainModel, Error>(params@),
            Err(e) => parsed_payload(payload@) == Err::<GrainModel, Error>(e),
        },
{
    match decode_afgs1(payload) {
        Ok(params) => Ok(params),
        Err(Fault::Refused(e)) => Err(e),
        Err(Fault::Overfull) => {
            assert(false);
            Err(Error::NotAfgs1)
        },
    }
}

} // verus!
