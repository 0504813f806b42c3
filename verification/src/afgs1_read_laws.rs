//! What in an AFGS1 payload makes a difference to how it is read, and what does not.
use crate::afgs1_read::{
    afgs1_grain, lemma_stopped, next_point, parsed_payload, points_fit, read_closing, read_codes,
    read_coefficients, read_functions, read_points, read_regression, read_scaling, read_signal,
    read_start, read_weights, Cursor, Fault, Scaling,
};
use crate::bits::{bits_of, uint};
use crate::error::Error;
use crate::grain::{GrainModel, NUM_UV_POINTS, NUM_Y_POINTS};
use vstd::arithmetic::power2::pow2;
use vstd::prelude::*;

verus! {

/// Where reading a payload ends.
pub open spec fn reading_end(bits: Seq<bool>) -> Cursor {
    let c1 = read_start(Cursor { rest: bits, fault: None }).1;
    let (only_luma, c2) = read_signal(c1);
    let (s, c3) = read_functions(c2, only_luma);
    let c4 = read_regression(c3, s).1;
    read_closing(c4, s).1
}

/// The number of bits of a payload that are read.
pub open spec fn bits_read(bits: Seq<bool>) -> int {
    bits.len() - reading_end(bits).rest.len()
}

/// Reading stopped because there were too few bits.
pub open spec fn ran_out(fault: Option<Fault>) -> bool {
    fault matches Some(Fault::Refused(Error::EndedEarly { .. }))
}

/// Reading stands at `d` where it stands at `c` without `tail` behind. Where it ran out of bits
/// there, it has stopped or gone into `tail`.
spec fn follows(c: Cursor, d: Cursor, tail: Seq<bool>) -> bool {
    ||| ran_out(c.fault) && (d.fault is Some || d.rest.len() < tail.len())
    ||| c.fault is Some && d.fault == c.fault
    ||| c.fault is None && d.fault is None && d.rest == c.rest + tail
}

/// More bits behind make no difference to the next field.
proof fn lemma_follow(c: Cursor, d: Cursor, tail: Seq<bool>, n: int, m: int)
    requires
        follows(c, d, tail),
        0 <= n,
        0 <= m,
        c.fault is None ==> n == m,
    ensures
        follows(c.skip(n), d.skip(m), tail),
        c.skip(n).fault is None ==> c.peek(n) == d.peek(m),
{
    if c.fault is None && n <= c.rest.len() {
        assert((c.rest + tail).take(n) =~= c.rest.take(n));
        assert((c.rest + tail).skip(n) =~= c.rest.skip(n) + tail);
    }
}

/// More bits behind make no difference to the start of a payload.
proof fn lemma_follow_start(c: Cursor, d: Cursor, tail: Seq<bool>)
    requires
        follows(c, d, tail),
    ensures
        follows(read_start(c).1, read_start(d).1, tail),
        read_start(c).1.fault is None ==> read_start(c).0 == read_start(d).0,
{
    reveal(read_start);
    let (c1, d1) = (c.skip(8), d.skip(8));
    let (c2, d2) = (c1.skip(16), d1.skip(16));
    lemma_follow(c, d, tail, 8, 8);
    lemma_follow(c1, d1, tail, 16, 16);
    lemma_follow(c2, d2, tail, 8, 8);
    let c3 = c2.skip(8).refuse_if(
        c.peek(8) != 0xb5 || c1.peek(16) != 0x5890 || c2.peek(8) != 0x01,
        Error::NotAfgs1,
    );
    let d3 = d2.skip(8).refuse_if(
        d.peek(8) != 0xb5 || d1.peek(16) != 0x5890 || d2.peek(8) != 0x01,
        Error::NotAfgs1,
    );
    lemma_follow(c3, d3, tail, 1, 1);
    let c4 = c3.skip(1).refuse_if(c3.peek(1) == 0, Error::GrainDisabled);
    let d4 = d3.skip(1).refuse_if(d3.peek(1) == 0, Error::GrainDisabled);
    lemma_follow(c4, d4, tail, 4, 4);
    let (c5, d5) = (c4.skip(4), d4.skip(4));
    lemma_follow(c5, d5, tail, 3, 3);
    let c6 = c5.skip(3).refuse_if(c5.peek(3) != 0, Error::MultipleGrainSets);
    let d6 = d5.skip(3).refuse_if(d5.peek(3) != 0, Error::MultipleGrainSets);
    lemma_follow(c6, d6, tail, 1, 1);
    let n: int = if c6.peek(1) != 0 {
        2
    } else {
        8
    };
    let m: int = if d6.peek(1) != 0 {
        2
    } else {
        8
    };
    let (ca, da) = (c6.skip(1), d6.skip(1));
    lemma_follow(ca, da, tail, n, m);
    lemma_follow(ca.skip(n), da.skip(m), tail, 3, 3);
    let (c7, d7) = (ca.skip(n).skip(3), da.skip(m).skip(3));
    lemma_follow(c7, d7, tail, 1, 1);
    let c8 = c7.skip(1).refuse_if(c7.peek(1) == 0, Error::GrainNotApplied);
    let d8 = d7.skip(1).refuse_if(d7.peek(1) == 0, Error::GrainNotApplied);
    lemma_follow(c8, d8, tail, 16, 16);
    lemma_follow(c8.skip(16), d8.skip(16), tail, 1, 1);
}

/// More bits behind make no difference to the resolution and the signal.
proof fn lemma_follow_signal(c: Cursor, d: Cursor, tail: Seq<bool>)
    requires
        follows(c, d, tail),
    ensures
        follows(read_signal(c).1, read_signal(d).1, tail),
        read_signal(c).1.fault is None ==> read_signal(c).0 == read_signal(d).0,
{
    reveal(read_signal);
    lemma_follow(c, d, tail, 4, 4);
    lemma_follow(c.skip(4), d.skip(4), tail, 12, 12);
    lemma_follow(c.skip(4).skip(12), d.skip(4).skip(12), tail, 12, 12);
    let (c1, d1) = (c.skip(4).skip(12).skip(12), d.skip(4).skip(12).skip(12));
    lemma_follow(c1, d1, tail, 1, 1);
    lemma_follow(c1.skip(1), d1.skip(1), tail, 1, 1);
    lemma_follow(c1.skip(1).skip(1), d1.skip(1).skip(1), tail, 1, 1);
    let c2 = if c1.peek(1) != 0 {
        c1.skip(1)
    } else {
        c1.skip(1).skip(1).skip(1)
    };
    let d2 = if d1.peek(1) != 0 {
        d1.skip(1)
    } else {
        d1.skip(1).skip(1).skip(1)
    };
    assert(follows(c2, d2, tail));
    lemma_follow(c2, d2, tail, 1, 1);
    let (c3, d3) = (c2.skip(1), d2.skip(1));
    lemma_follow(c3, d3, tail, 3, 3);
    let (ca, da) = (c3.skip(3), d3.skip(3));
    lemma_follow(ca, da, tail, 1, 1);
    let (cb, db) = (ca.skip(1), da.skip(1));
    lemma_follow(cb, db, tail, 8, 8);
    lemma_follow(cb.skip(8), db.skip(8), tail, 8, 8);
    lemma_follow(cb.skip(8).skip(8), db.skip(8).skip(8), tail, 8, 8);
    lemma_follow(cb.skip(8).skip(8).skip(8), db.skip(8).skip(8).skip(8), tail, 1, 1);
    let c4 = if c2.peek(1) != 0 {
        if ca.peek(1) != 0 {
            cb.skip(8).skip(8).skip(8).skip(1)
        } else {
            cb
        }
    } else {
        c3
    };
    let d4 = if d2.peek(1) != 0 {
        if da.peek(1) != 0 {
            db.skip(8).skip(8).skip(8).skip(1)
        } else {
            db
        }
    } else {
        d3
    };
    assert(follows(c4, d4, tail));
    lemma_follow(c4, d4, tail, 1, 1);
}

/// Scaling points take no bits back.
proof fn lemma_points_onwards(
    c: Cursor,
    points: Seq<[u8; 2]>,
    count: nat,
    cap: nat,
    value_bits: int,
    scaling_bits: int,
)
    requires
        0 <= value_bits,
        0 <= scaling_bits,
    ensures
        ({
            let end = read_points(c, points, count, cap, value_bits, scaling_bits).1;
            end.fault is Some || end.rest.len() <= c.rest.len()
        }),
    decreases count - points.len(),
{
    if points.len() < count && c.fault is None {
        let c1 = c.skip(value_bits);
        let c2 = c1.skip(scaling_bits);
        if c2.fault is None && points.len() < cap {
            let next = next_point(points, c.peek(value_bits), c1.peek(scaling_bits));
            lemma_points_onwards(c2, points.push(next), count, cap, value_bits, scaling_bits);
        }
    }
}

/// More bits behind make no difference to scaling points.
proof fn lemma_follow_points(
    c: Cursor,
    d: Cursor,
    tail: Seq<bool>,
    points: Seq<[u8; 2]>,
    count: nat,
    cap: nat,
    value_bits: int,
    scaling_bits: int,
)
    requires
        follows(c, d, tail),
        0 <= value_bits,
        0 <= scaling_bits,
    ensures
        ({
            let x = read_points(c, points, count, cap, value_bits, scaling_bits);
            let y = read_points(d, points, count, cap, value_bits, scaling_bits);
            follows(x.1, y.1, tail) && (x.1.fault is None ==> x.0 == y.0)
        }),
    decreases count - points.len(),
{
    if points.len() < count && c.fault is None {
        let (c1, d1) = (c.skip(value_bits), d.skip(value_bits));
        let (c2, d2) = (c1.skip(scaling_bits), d1.skip(scaling_bits));
        lemma_follow(c, d, tail, value_bits, value_bits);
        lemma_follow(c1, d1, tail, scaling_bits, scaling_bits);
        if c2.fault is None && points.len() < cap {
            let next = next_point(points, c.peek(value_bits), c1.peek(scaling_bits));
            lemma_follow_points(
                c2,
                d2,
                tail,
                points.push(next),
                count,
                cap,
                value_bits,
                scaling_bits,
            );
        } else if d2.fault is None && points.len() < cap {
            let next = next_point(points, d.peek(value_bits), d1.peek(scaling_bits));
            lemma_points_onwards(d2, points.push(next), count, cap, value_bits, scaling_bits);
        }
    } else {
        lemma_points_onwards(d, points, count, cap, value_bits, scaling_bits);
    }
}

/// More bits behind make no difference to a scaling function.
proof fn lemma_follow_scaling(c: Cursor, d: Cursor, tail: Seq<bool>, cap: nat, chroma: bool)
    requires
        follows(c, d, tail),
    ensures
        follows(read_scaling(c, cap, chroma).1, read_scaling(d, cap, chroma).1, tail),
        read_scaling(c, cap, chroma).1.fault is None ==> read_scaling(c, cap, chroma).0
            == read_scaling(d, cap, chroma).0,
{
    let (c1, d1) = (c.skip(4), d.skip(4));
    let (c2, d2) = (c1.skip(3), d1.skip(3));
    let (c3, d3) = (c2.skip(2), d2.skip(2));
    lemma_follow(c, d, tail, 4, 4);
    lemma_follow(c1, d1, tail, 3, 3);
    lemma_follow(c2, d2, tail, 2, 2);
    lemma_follow(c3, d3, tail, 8, 8);
    let c4 = if chroma {
        c3.skip(8)
    } else {
        c3
    };
    let d4 = if chroma {
        d3.skip(8)
    } else {
        d3
    };
    assert(follows(c4, d4, tail));
    let none = Seq::<[u8; 2]>::empty();
    lemma_follow_points(
        c4,
        d4,
        tail,
        none,
        c.peek(4) as nat,
        cap,
        c1.peek(3) + 1,
        c2.peek(2) + 5,
    );
    lemma_points_onwards(d4, none, d.peek(4) as nat, cap, d1.peek(3) + 1, d2.peek(2) + 5);
}

/// More bits behind make no difference to the scaling functions.
proof fn lemma_follow_functions(c: Cursor, d: Cursor, tail: Seq<bool>, one: bool, other: bool)
    requires
        follows(c, d, tail),
        c.fault is None ==> one == other,
    ensures
        follows(read_functions(c, one).1, read_functions(d, other).1, tail),
        read_functions(c, one).1.fault is None ==> read_functions(c, one).0 == read_functions(
            d,
            other,
        ).0,
{
    reveal(read_functions);
    let y_cap = NUM_Y_POINTS as nat;
    let uv_cap = NUM_UV_POINTS as nat;
    let (c1, d1) = (read_scaling(c, y_cap, false).1, read_scaling(d, y_cap, false).1);
    lemma_follow_scaling(c, d, tail, y_cap, false);
    lemma_follow(c1, d1, tail, 1, 1);
    let (c2, d2) = (c1.skip(1), d1.skip(1));
    let (c3, d3) = (read_scaling(c2, uv_cap, true).1, read_scaling(d2, uv_cap, true).1);
    lemma_follow_scaling(c2, d2, tail, uv_cap, true);
    lemma_follow_scaling(c3, d3, tail, uv_cap, true);
}

/// Coefficients take no bits back.
proof fn lemma_codes_onwards(c: Cursor, coeffs: Seq<i8>, count: nat, bits: int)
    requires
        0 <= bits,
    ensures
        ({
            let end = read_codes(c, coeffs, count, bits).1;
            end.fault is Some || end.rest.len() <= c.rest.len()
        }),
    decreases count - coeffs.len(),
{
    if coeffs.len() < count && c.fault is None && c.skip(bits).fault is None {
        let next = (c.peek(bits) - pow2((bits - 1) as nat)) as i8;
        lemma_codes_onwards(c.skip(bits), coeffs.push(next), count, bits);
    }
}

/// More bits behind make no difference to coefficients.
proof fn lemma_follow_codes(
    c: Cursor,
    d: Cursor,
    tail: Seq<bool>,
    coeffs: Seq<i8>,
    count: nat,
    bits: int,
)
    requires
        follows(c, d, tail),
        0 <= bits,
    ensures
        ({
            let x = read_codes(c, coeffs, count, bits);
            let y = read_codes(d, coeffs, count, bits);
            follows(x.1, y.1, tail) && (x.1.fault is None ==> x.0 == y.0)
        }),
    decreases count - coeffs.len(),
{
    if coeffs.len() < count && c.fault is None {
        lemma_follow(c, d, tail, bits, bits);
        if c.skip(bits).fault is None {
            let next = (c.peek(bits) - pow2((bits - 1) as nat)) as i8;
            lemma_follow_codes(c.skip(bits), d.skip(bits), tail, coeffs.push(next), count, bits);
        } else if d.skip(bits).fault is None {
            let next = (d.peek(bits) - pow2((bits - 1) as nat)) as i8;
            lemma_codes_onwards(d.skip(bits), coeffs.push(next), count, bits);
        }
    } else {
        lemma_codes_onwards(d, coeffs, count, bits);
    }
}

/// More bits behind make no difference to a list of coefficients.
proof fn lemma_follow_coefficients(c: Cursor, d: Cursor, tail: Seq<bool>, count: nat)
    requires
        follows(c, d, tail),
    ensures
        follows(read_coefficients(c, count).1, read_coefficients(d, count).1, tail),
        read_coefficients(c, count).1.fault is None ==> read_coefficients(c, count).0
            == read_coefficients(d, count).0,
{
    lemma_follow(c, d, tail, 2, 2);
    lemma_follow_codes(c.skip(2), d.skip(2), tail, Seq::empty(), count, c.peek(2) + 5);
    lemma_codes_onwards(d.skip(2), Seq::empty(), count, d.peek(2) + 5);
}

/// More bits behind make no difference to the auto-regression.
proof fn lemma_follow_regression(c: Cursor, d: Cursor, tail: Seq<bool>, s: Scaling, t: Scaling)
    requires
        follows(c, d, tail),
        c.fault is None ==> s == t,
    ensures
        follows(read_regression(c, s).1, read_regression(d, t).1, tail),
        read_regression(c, s).1.fault is None ==> read_regression(c, s).0 == read_regression(
            d,
            t,
        ).0,
{
    reveal(read_regression);
    let (c1, d1) = (c.skip(2), d.skip(2));
    let (c2, d2) = (c1.skip(2), d1.skip(2));
    lemma_follow(c, d, tail, 2, 2);
    lemma_follow(c1, d1, tail, 2, 2);
    lemma_follow_coefficients(c2, d2, tail, 24);
    let c3 = if s.y.len() == 0 {
        c2
    } else {
        read_coefficients(c2, 24).1
    };
    let d3 = if t.y.len() == 0 {
        d2
    } else {
        read_coefficients(d2, 24).1
    };
    lemma_follow_coefficients(c3, d3, tail, 25);
    let c4 = if s.cb.len() == 0 && !s.from_luma {
        c3
    } else {
        read_coefficients(c3, 25).1
    };
    let d4 = if t.cb.len() == 0 && !t.from_luma {
        d3
    } else {
        read_coefficients(d3, 25).1
    };
    lemma_follow_coefficients(c4, d4, tail, 25);
}

/// More bits behind make no difference to the weights of a chroma plane.
proof fn lemma_follow_weights(c: Cursor, d: Cursor, tail: Seq<bool>, one: bool, other: bool)
    requires
        follows(c, d, tail),
        c.fault is None ==> one == other,
    ensures
        follows(read_weights(c, one).1, read_weights(d, other).1, tail),
        read_weights(c, one).1.fault is None ==> read_weights(c, one).0 == read_weights(
            d,
            other,
        ).0,
{
    lemma_follow(c, d, tail, 8, 8);
    lemma_follow(c.skip(8), d.skip(8), tail, 8, 8);
    lemma_follow(c.skip(8).skip(8), d.skip(8).skip(8), tail, 9, 9);
}

/// More bits behind make no difference to the rest of a film grain set.
proof fn lemma_follow_closing(c: Cursor, d: Cursor, tail: Seq<bool>, s: Scaling, t: Scaling)
    requires
        follows(c, d, tail),
        c.fault is None ==> s == t,
    ensures
        follows(read_closing(c, s).1, read_closing(d, t).1, tail),
        read_closing(c, s).1.fault is None ==> read_closing(c, s).0 == read_closing(d, t).0,
{
    reveal(read_closing);
    let (c1, d1) = (c.skip(2), d.skip(2));
    let (c2, d2) = (c1.skip(2), d1.skip(2));
    lemma_follow(c, d, tail, 2, 2);
    lemma_follow(c1, d1, tail, 2, 2);
    lemma_follow_weights(c2, d2, tail, s.cb.len() > 0, t.cb.len() > 0);
    let (c3, d3) = (read_weights(c2, s.cb.len() > 0).1, read_weights(d2, t.cb.len() > 0).1);
    lemma_follow_weights(c3, d3, tail, s.cr.len() > 0, t.cr.len() > 0);
    let (c4, d4) = (read_weights(c3, s.cr.len() > 0).1, read_weights(d3, t.cr.len() > 0).1);
    lemma_follow(c4, d4, tail, 1, 1);
    lemma_follow(c4.skip(1), d4.skip(1), tail, 1, 1);
}

/// More bits behind make no difference to a payload that does not run out.
proof fn lemma_follow_all(bits: Seq<bool>, tail: Seq<bool>)
    ensures
        follows(reading_end(bits), reading_end(bits + tail), tail),
        !ran_out(reading_end(bits).fault) ==> afgs1_grain(bits + tail) == afgs1_grain(bits),
{
    let c = Cursor { rest: bits, fault: None };
    let d = Cursor { rest: bits + tail, fault: None };
    let (c1, d1) = (read_start(c).1, read_start(d).1);
    lemma_follow_start(c, d, tail);
    let ((l, c2), (m, d2)) = (read_signal(c1), read_signal(d1));
    lemma_follow_signal(c1, d1, tail);
    let ((s, c3), (t, d3)) = (read_functions(c2, l), read_functions(d2, m));
    lemma_follow_functions(c2, d2, tail, l, m);
    let (c4, d4) = (read_regression(c3, s).1, read_regression(d3, t).1);
    lemma_follow_regression(c3, d3, tail, s, t);
    if c1.fault is Some {
        lemma_stopped(c1, l, s);
    }
    if c2.fault is Some {
        lemma_stopped(c2, l, s);
    }
    if c3.fault is Some {
        lemma_stopped(c3, l, s);
    }
    if c4.fault is Some {
        lemma_stopped(c4, l, s);
    }
    lemma_follow_closing(c4, d4, tail, s, t);
}

/// Law: of a payload that describes grain, the bytes behind the last field that is read make no
/// difference. Without them, or with others behind, it describes the same grain; with fewer bytes
/// than the fields take, it is refused because it ends early.
pub proof fn law_payload_end(payload: Seq<u8>, n: int, tail: Seq<u8>)
    requires
        parsed_payload(payload) is Ok,
        0 <= n <= payload.len(),
    ensures
        8 * n >= bits_read(bits_of(payload)) ==> points_fit(payload.take(n) + tail)
            && parsed_payload(payload.take(n) + tail) == parsed_payload(payload),
        8 * n < bits_read(bits_of(payload)) ==> points_fit(payload.take(n)) && (parsed_payload(
            payload.take(n),
        ) matches Err(Error::EndedEarly { .. })),
{
    let bits = bits_of(payload);
    let front = bits_of(payload.take(n));
    let behind = bits.skip(8 * n);
    assert(front + behind =~= bits);
    lemma_follow_all(front, behind);
    assert(bits_of(payload.take(n) + tail) =~= front + bits_of(tail));
    lemma_follow_all(front, bits_of(tail));
}

/// Where the film grain set begins, behind the stated size of the payload.
pub open spec fn set_at(bits: Seq<bool>) -> int {
    if bits[40] {
        43
    } else {
        49
    }
}

/// Where it is said whether there is only luma, behind the resolution.
pub open spec fn luma_flag_at(bits: Seq<bool>) -> int {
    set_at(bits) + 49
}

/// Where it is said whether the signal is described, behind the chroma sampling.
pub open spec fn signal_flag_at(bits: Seq<bool>) -> int {
    luma_flag_at(bits) + if bits[luma_flag_at(bits)] {
        1int
    } else {
        3int
    }
}

/// Where the scaling functions begin, behind the signal.
pub open spec fn functions_at(bits: Seq<bool>) -> int {
    let at = signal_flag_at(bits);
    at + if !bits[at] {
        2int
    } else if !bits[at + 4] {
        6int
    } else {
        31int
    }
}

/// The number in the `n` bits at `at`.
pub open spec fn number_at(bits: Seq<bool>, at: int, n: int) -> int {
    uint(bits.subrange(at, at + n)) as int
}

/// The number of bits of the scaling function at `at`.
pub open spec fn function_len(bits: Seq<bool>, at: int, chroma: bool) -> int {
    let count = number_at(bits, at, 4);
    if count == 0 {
        4
    } else {
        let point = number_at(bits, at + 4, 3) + 1 + number_at(bits, at + 7, 2) + 5;
        points_at(at, chroma) - at + count * point
    }
}

/// Where the points of the scaling function at `at` begin; those of chroma have an offset in front.
pub open spec fn points_at(at: int, chroma: bool) -> int {
    at + if chroma {
        17int
    } else {
        9int
    }
}

/// Where it is said whether chroma is scaled by luma, behind the scaling function of luma.
pub open spec fn chroma_flag_at(bits: Seq<bool>) -> int {
    functions_at(bits) + function_len(bits, functions_at(bits), false)
}

/// Where the second scaling function of chroma begins, if there is one.
pub open spec fn second_at(bits: Seq<bool>) -> int {
    chroma_flag_at(bits) + 1 + function_len(bits, chroma_flag_at(bits) + 1, true)
}

/// The bit at `i` is in the offset of the scaling function of chroma at `at`.
pub open spec fn in_offset(bits: Seq<bool>, at: int, i: int) -> bool {
    number_at(bits, at, 4) != 0 && at + 9 <= i < at + 17
}

/// The bit at `i` is in a field that is passed over: reserved bits, the stated size, the index of
/// the set, the resolution, the chroma sampling, the bit depth and the colours of the signal, or
/// the offset of a scaling function of chroma.
pub open spec fn passed_over(bits: Seq<bool>, i: int) -> bool {
    let set = set_at(bits);
    let luma = luma_flag_at(bits);
    let signal = signal_flag_at(bits);
    let chroma = chroma_flag_at(bits);
    ||| 33 <= i < 37
    ||| 41 <= i < set + 3
    ||| set + 21 <= i < luma
    ||| luma < i < signal
    ||| bits[signal] && signal < i < signal + 4
    ||| bits[signal] && bits[signal + 4] && signal + 4 < i < signal + 30
    ||| !bits[luma] && !bits[chroma] && (in_offset(bits, chroma + 1, i) || in_offset(
        bits,
        second_at(bits),
        i,
    ))
}

/// Two payloads are as long as each other and differ only in fields that are passed over.
pub open spec fn alike(a: Seq<bool>, b: Seq<bool>) -> bool {
    &&& a.len() == b.len()
    &&& forall|i: int| 0 <= i < a.len() && !passed_over(a, i) ==> #[trigger] a[i] == b[i]
}

/// Two payloads do not differ from `from` to `to`.
spec fn same(a: Seq<bool>, b: Seq<bool>, from: int, to: int) -> bool {
    forall|i: int| from <= i < to && 0 <= i < a.len() ==> #[trigger] a[i] == b[i]
}

/// Reading two payloads has come to `at` in both, or has stopped for the same reason.
pub open spec fn twins(a: Seq<bool>, b: Seq<bool>, c: Cursor, d: Cursor, at: int) -> bool {
    &&& c.fault == d.fault
    &&& c.fault is None ==> {
        &&& 0 <= at <= a.len()
        &&& c.rest == a.skip(at)
        &&& d.rest == b.skip(at)
    }
}

/// The next field of two payloads, which may differ in it.
proof fn lemma_twins_skip(a: Seq<bool>, b: Seq<bool>, c: Cursor, d: Cursor, at: int, n: int)
    requires
        a.len() == b.len(),
        twins(a, b, c, d, at),
        0 <= n,
    ensures
        twins(a, b, c.skip(n), d.skip(n), at + n),
{
    if c.fault is None && at + n <= a.len() {
        assert(a.skip(at).skip(n) =~= a.skip(at + n));
        assert(b.skip(at).skip(n) =~= b.skip(at + n));
    }
}

/// The next field of two payloads that do not differ in it.
proof fn lemma_twins_read(a: Seq<bool>, b: Seq<bool>, c: Cursor, d: Cursor, at: int, n: int)
    requires
        a.len() == b.len(),
        twins(a, b, c, d, at),
        0 <= n,
        same(a, b, at, at + n),
    ensures
        twins(a, b, c.skip(n), d.skip(n), at + n),
        c.skip(n).fault is None ==> c.peek(n) == d.peek(n) && c.peek(n) == number_at(a, at, n),
        c.skip(n).fault is None && n == 1 ==> (c.peek(1) != 0) == a[at],
{
    lemma_twins_skip(a, b, c, d, at, n);
    if c.skip(n).fault is None {
        assert(a.skip(at).take(n) =~= a.subrange(at, at + n));
        assert(b.skip(at).take(n) =~= a.subrange(at, at + n));
        if n == 1 {
            reveal_with_fuel(uint, 2);
            assert(a.subrange(at, at + 1)[0] == a[at]);
        }
    }
}

/// A scaling function has at least the field for the number of its points.
proof fn lemma_function_len(bits: Seq<bool>, at: int, chroma: bool)
    ensures
        function_len(bits, at, chroma) >= 4,
        number_at(bits, at, 4) != 0 ==> at + function_len(bits, at, chroma) >= points_at(
            at,
            chroma,
        ),
{
    let count = number_at(bits, at, 4);
    let point = number_at(bits, at + 4, 3) + 1 + number_at(bits, at + 7, 2) + 5;
    assert(count * point >= 0) by (nonlinear_arith)
        requires
            count >= 0,
            point >= 0,
    ;
}

/// The start of two payloads that are alike.
proof fn lemma_twins_start(a: Seq<bool>, b: Seq<bool>)
    requires
        alike(a, b),
    ensures
        ({
            let x = read_start(Cursor { rest: a, fault: None });
            let y = read_start(Cursor { rest: b, fault: None });
            twins(a, b, x.1, y.1, set_at(a) + 21) && (x.1.fault is None ==> x.0 == y.0)
        }),
{
    reveal(read_start);
    lemma_function_len(a, functions_at(a), false);
    lemma_function_len(a, chroma_flag_at(a) + 1, true);
    let set = set_at(a);
    assert(same(a, b, 0, 33));
    assert(same(a, b, 37, 41));
    assert(same(a, b, set + 3, set + 21));
    let (c, d) = (Cursor { rest: a, fault: None }, Cursor { rest: b, fault: None });
    assert(a.skip(0) =~= a);
    assert(b.skip(0) =~= b);
    let (c1, d1) = (c.skip(8), d.skip(8));
    let (c2, d2) = (c1.skip(16), d1.skip(16));
    lemma_twins_read(a, b, c, d, 0, 8);
    lemma_twins_read(a, b, c1, d1, 8, 16);
    lemma_twins_read(a, b, c2, d2, 24, 8);
    let c3 = c2.skip(8).refuse_if(
        c.peek(8) != 0xb5 || c1.peek(16) != 0x5890 || c2.peek(8) != 0x01,
        Error::NotAfgs1,
    );
    let d3 = d2.skip(8).refuse_if(
        d.peek(8) != 0xb5 || d1.peek(16) != 0x5890 || d2.peek(8) != 0x01,
        Error::NotAfgs1,
    );
    lemma_twins_read(a, b, c3, d3, 32, 1);
    let c4 = c3.skip(1).refuse_if(c3.peek(1) == 0, Error::GrainDisabled);
    let d4 = d3.skip(1).refuse_if(d3.peek(1) == 0, Error::GrainDisabled);
    lemma_twins_skip(a, b, c4, d4, 33, 4);
    let (c5, d5) = (c4.skip(4), d4.skip(4));
    lemma_twins_read(a, b, c5, d5, 37, 3);
    let c6 = c5.skip(3).refuse_if(c5.peek(3) != 0, Error::MultipleGrainSets);
    let d6 = d5.skip(3).refuse_if(d5.peek(3) != 0, Error::MultipleGrainSets);
    lemma_twins_read(a, b, c6, d6, 40, 1);
    let (ca, da) = (c6.skip(1), d6.skip(1));
    let n: int = if c6.peek(1) != 0 {
        2
    } else {
        8
    };
    let m: int = if d6.peek(1) != 0 {
        2
    } else {
        8
    };
    assert(ca.fault is None ==> n == m && 41 + n == set);
    lemma_twins_skip(a, b, ca, da, 41, n);
    let (cb, db) = (ca.skip(n), da.skip(m));
    assert(twins(a, b, cb, db, set));
    lemma_twins_skip(a, b, cb, db, set, 3);
    let (c7, d7) = (cb.skip(3), db.skip(3));
    lemma_twins_read(a, b, c7, d7, set + 3, 1);
    let c8 = c7.skip(1).refuse_if(c7.peek(1) == 0, Error::GrainNotApplied);
    let d8 = d7.skip(1).refuse_if(d7.peek(1) == 0, Error::GrainNotApplied);
    lemma_twins_read(a, b, c8, d8, set + 4, 16);
    lemma_twins_read(a, b, c8.skip(16), d8.skip(16), set + 20, 1);
}

/// The resolution and the signal of two payloads that are alike.
pub proof fn lemma_twins_signal(a: Seq<bool>, b: Seq<bool>, c: Cursor, d: Cursor)
    requires
        alike(a, b),
        twins(a, b, c, d, set_at(a) + 21),
    ensures
        ({
            let (x, y) = (read_signal(c), read_signal(d));
            twins(a, b, x.1, y.1, functions_at(a)) && (x.1.fault is None ==> x.0 == y.0 && x.0
                == a[luma_flag_at(a)])
        }),
{
    reveal(read_signal);
    lemma_function_len(a, functions_at(a), false);
    lemma_function_len(a, chroma_flag_at(a) + 1, true);
    let at = set_at(a) + 21;
    let luma = luma_flag_at(a);
    let signal = signal_flag_at(a);
    let start = functions_at(a);
    assert(same(a, b, luma, luma + 1));
    assert(same(a, b, signal, signal + 1));
    assert(a[signal] ==> same(a, b, signal + 4, signal + 5));
    assert(same(a, b, start - 1, start));
    lemma_twins_skip(a, b, c, d, at, 4);
    lemma_twins_skip(a, b, c.skip(4), d.skip(4), at + 4, 12);
    lemma_twins_skip(a, b, c.skip(4).skip(12), d.skip(4).skip(12), at + 16, 12);
    let (c1, d1) = (c.skip(4).skip(12).skip(12), d.skip(4).skip(12).skip(12));
    lemma_twins_read(a, b, c1, d1, luma, 1);
    lemma_twins_skip(a, b, c1.skip(1), d1.skip(1), luma + 1, 1);
    lemma_twins_skip(a, b, c1.skip(1).skip(1), d1.skip(1).skip(1), luma + 2, 1);
    let c2 = if c1.peek(1) != 0 {
        c1.skip(1)
    } else {
        c1.skip(1).skip(1).skip(1)
    };
    let d2 = if d1.peek(1) != 0 {
        d1.skip(1)
    } else {
        d1.skip(1).skip(1).skip(1)
    };
    assert(twins(a, b, c2, d2, signal));
    lemma_twins_read(a, b, c2, d2, signal, 1);
    let (c3, d3) = (c2.skip(1), d2.skip(1));
    lemma_twins_skip(a, b, c3, d3, signal + 1, 3);
    let (ca, da) = (c3.skip(3), d3.skip(3));
    if a[signal] {
        lemma_twins_read(a, b, ca, da, signal + 4, 1);
    }
    lemma_twins_skip(a, b, ca, da, signal + 4, 1);
    let (cb, db) = (ca.skip(1), da.skip(1));
    lemma_twins_skip(a, b, cb, db, signal + 5, 8);
    lemma_twins_skip(a, b, cb.skip(8), db.skip(8), signal + 13, 8);
    lemma_twins_skip(a, b, cb.skip(8).skip(8), db.skip(8).skip(8), signal + 21, 8);
    let (ce, de) = (cb.skip(8).skip(8).skip(8), db.skip(8).skip(8).skip(8));
    lemma_twins_skip(a, b, ce, de, signal + 29, 1);
    let c4 = if c2.peek(1) != 0 {
        if ca.peek(1) != 0 {
            ce.skip(1)
        } else {
            cb
        }
    } else {
        c3
    };
    let d4 = if d2.peek(1) != 0 {
        if da.peek(1) != 0 {
            de.skip(1)
        } else {
            db
        }
    } else {
        d3
    };
    assert(twins(a, b, c4, d4, start - 1));
    lemma_twins_read(a, b, c4, d4, start - 1, 1);
}

/// Scaling points in which two payloads do not differ.
proof fn lemma_twins_points(
    a: Seq<bool>,
    b: Seq<bool>,
    c: Cursor,
    d: Cursor,
    at: int,
    points: Seq<[u8; 2]>,
    count: nat,
    cap: nat,
    value_bits: int,
    scaling_bits: int,
)
    requires
        a.len() == b.len(),
        twins(a, b, c, d, at),
        points.len() <= count,
        0 <= value_bits,
        0 <= scaling_bits,
        same(a, b, at, at + (count - points.len()) * (value_bits + scaling_bits)),
    ensures
        ({
            let x = read_points(c, points, count, cap, value_bits, scaling_bits);
            let y = read_points(d, points, count, cap, value_bits, scaling_bits);
            &&& twins(
                a,
                b,
                x.1,
                y.1,
                at + (count - points.len()) * (value_bits + scaling_bits),
            )
            &&& x.1.fault is None ==> x.0 == y.0
        }),
    decreases count - points.len(),
{
    let width = value_bits + scaling_bits;
    let left = count - points.len();
    if left == 0 {
        assert(left * width == 0) by (nonlinear_arith)
            requires
                left == 0,
        ;
    } else if c.fault is None {
        assert(left * width == width + (left - 1) * width) by (nonlinear_arith);
        assert((left - 1) * width >= 0) by (nonlinear_arith)
            requires
                left >= 1,
                width >= 0,
        ;
        let (c1, d1) = (c.skip(value_bits), d.skip(value_bits));
        let (c2, d2) = (c1.skip(scaling_bits), d1.skip(scaling_bits));
        lemma_twins_read(a, b, c, d, at, value_bits);
        lemma_twins_read(a, b, c1, d1, at + value_bits, scaling_bits);
        if c2.fault is None && points.len() < cap {
            let next = next_point(points, c.peek(value_bits), c1.peek(scaling_bits));
            lemma_twins_points(
                a,
                b,
                c2,
                d2,
                at + width,
                points.push(next),
                count,
                cap,
                value_bits,
                scaling_bits,
            );
        }
    }
}

/// A scaling function in which two payloads do not differ, but for an offset.
proof fn lemma_twins_scaling(
    a: Seq<bool>,
    b: Seq<bool>,
    c: Cursor,
    d: Cursor,
    at: int,
    cap: nat,
    chroma: bool,
)
    requires
        a.len() == b.len(),
        twins(a, b, c, d, at),
        same(a, b, at, at + 4),
        number_at(a, at, 4) != 0 ==> same(a, b, at + 4, at + 9) && same(
            a,
            b,
            points_at(at, chroma),
            at + function_len(a, at, chroma),
        ),
    ensures
        ({
            let (x, y) = (read_scaling(c, cap, chroma), read_scaling(d, cap, chroma));
            &&& twins(a, b, x.1, y.1, at + function_len(a, at, chroma))
            &&& x.1.fault is None ==> x.0 == y.0
        }),
{
    let (c1, d1) = (c.skip(4), d.skip(4));
    lemma_twins_read(a, b, c, d, at, 4);
    if c1.fault is None && c.peek(4) != 0 {
        let (c2, d2) = (c1.skip(3), d1.skip(3));
        let (c3, d3) = (c2.skip(2), d2.skip(2));
        lemma_twins_read(a, b, c1, d1, at + 4, 3);
        lemma_twins_read(a, b, c2, d2, at + 7, 2);
        lemma_twins_skip(a, b, c3, d3, at + 9, 8);
        let c4 = if chroma {
            c3.skip(8)
        } else {
            c3
        };
        let d4 = if chroma {
            d3.skip(8)
        } else {
            d3
        };
        if c4.fault is None {
            lemma_twins_points(
                a,
                b,
                c4,
                d4,
                points_at(at, chroma),
                Seq::empty(),
                c.peek(4) as nat,
                cap,
                c1.peek(3) + 1,
                c2.peek(2) + 5,
            );
        }
    }
}

/// The scaling functions of two payloads that are alike, and what is behind them.
proof fn lemma_twins_functions(a: Seq<bool>, b: Seq<bool>, c: Cursor, d: Cursor, only_luma: bool)
    requires
        alike(a, b),
        twins(a, b, c, d, functions_at(a)),
        only_luma == a[luma_flag_at(a)],
    ensures
        ({
            let (x, y) = (read_functions(c, only_luma), read_functions(d, only_luma));
            x.1.fault == y.1.fault && (x.1.fault is None ==> x.0 == y.0 && x.1.rest == y.1.rest)
        }),
{
    reveal(read_functions);
    let start = functions_at(a);
    let flag = chroma_flag_at(a);
    let (first, second) = (flag + 1, second_at(a));
    let end = second + function_len(a, second, true);
    lemma_function_len(a, start, false);
    lemma_function_len(a, first, true);
    lemma_function_len(a, second, true);
    let (y_cap, uv_cap) = (NUM_Y_POINTS as nat, NUM_UV_POINTS as nat);
    assert(same(a, b, start, flag));
    lemma_twins_scaling(a, b, c, d, start, y_cap, false);
    let (c1, d1) = (read_scaling(c, y_cap, false).1, read_scaling(d, y_cap, false).1);
    if only_luma {
        assert(same(a, b, flag, a.len() as int));
        if c1.fault is None {
            assert(a.skip(flag) =~= b.skip(flag));
        }
    } else {
        assert(same(a, b, flag, flag + 1));
        lemma_twins_read(a, b, c1, d1, flag, 1);
        let (c2, d2) = (c1.skip(1), d1.skip(1));
        if a[flag] {
            assert(same(a, b, flag, a.len() as int));
            if c2.fault is None {
                assert(a.skip(first) =~= b.skip(first));
            }
        } else {
            assert(same(a, b, first, first + 4));
            assert(number_at(a, first, 4) != 0 ==> same(a, b, first + 4, first + 9) && same(
                a,
                b,
                first + 17,
                second,
            ));
            lemma_twins_scaling(a, b, c2, d2, first, uv_cap, true);
            let (c3, d3) = (read_scaling(c2, uv_cap, true).1, read_scaling(d2, uv_cap, true).1);
            assert(same(a, b, second, second + 4));
            assert(number_at(a, second, 4) != 0 ==> same(a, b, second + 4, second + 9) && same(
                a,
                b,
                second + 17,
                end,
            ));
            lemma_twins_scaling(a, b, c3, d3, second, uv_cap, true);
            let c4 = read_scaling(c3, uv_cap, true).1;
            assert(same(a, b, end, a.len() as int));
            if c4.fault is None {
                assert(a.skip(end) =~= b.skip(end));
            }
        }
    }
}

/// Law: two payloads of the same length that differ only in fields that are passed over are both
/// refused for the same reason, or describe the same grain.
pub proof fn law_passed_over(a: Seq<u8>, b: Seq<u8>)
    requires
        alike(bits_of(a), bits_of(b)),
    ensures
        afgs1_grain(bits_of(a)) == afgs1_grain(bits_of(b)),
        points_fit(a) == points_fit(b),
        parsed_payload(a) == parsed_payload(b),
{
    let (p, q) = (bits_of(a), bits_of(b));
    let (c, d) = (Cursor { rest: p, fault: None }, Cursor { rest: q, fault: None });
    let (c1, d1) = (read_start(c).1, read_start(d).1);
    lemma_twins_start(p, q);
    let ((l, c2), (m, d2)) = (read_signal(c1), read_signal(d1));
    lemma_twins_signal(p, q, c1, d1);
    let ((s, c3), (t, d3)) = (read_functions(c2, l), read_functions(d2, m));
    if c2.fault is None {
        lemma_twins_functions(p, q, c2, d2, l);
    } else {
        lemma_stopped(c2, l, s);
        lemma_stopped(d2, m, t);
    }
    let (c4, d4) = (read_regression(c3, s).1, read_regression(d3, t).1);
    if c3.fault is Some {
        lemma_stopped(c3, l, s);
        lemma_stopped(d3, m, t);
        lemma_stopped(c4, l, s);
        lemma_stopped(d4, m, t);
    }
    if c1.fault is Some {
        lemma_stopped(c1, l, s);
    }
}

/// The registration codes at the start of a payload.
pub open spec fn codes_match(bits: Seq<bool>) -> bool {
    &&& bits.len() >= 32
    &&& number_at(bits, 0, 8) == 0xb5
    &&& number_at(bits, 8, 16) == 0x5890
    &&& number_at(bits, 24, 8) == 1
}

/// What the start of a payload says.
pub proof fn lemma_start_says(bits: Seq<bool>)
    ensures
        ({
            let c = read_start(Cursor { rest: bits, fault: None }).1;
            let set = set_at(bits);
            let codes = codes_match(bits);
            let on = codes && bits.len() > 32 && bits[32];
            let one = on && bits.len() >= 40 && !bits[37] && !bits[38] && !bits[39];
            let applied = one && bits.len() > set + 3 && bits[set + 3];
            let own = applied && bits.len() > set + 20 && bits[set + 20];
            &&& c.fault is None <==> own
            &&& bits.len() >= 32 && !codes <==> c.fault == Some(Fault::Refused(Error::NotAfgs1))
            &&& codes && bits.len() > 32 && !on <==> c.fault == Some(
                Fault::Refused(Error::GrainDisabled),
            )
            &&& on && bits.len() >= 40 && !one <==> c.fault == Some(
                Fault::Refused(Error::MultipleGrainSets),
            )
            &&& one && bits.len() > set + 3 && !applied <==> c.fault == Some(
                Fault::Refused(Error::GrainNotApplied),
            )
            &&& applied && bits.len() > set + 20 && !own <==> c.fault == Some(
                Fault::Refused(Error::ReferencedGrain),
            )
            &&& own ==> c.rest == bits.skip(set + 21) && read_start(
                Cursor { rest: bits, fault: None },
            ).0 == number_at(bits, set + 4, 16)
        }),
{
    reveal(read_start);
    let a = bits;
    let set = set_at(a);
    let c = Cursor { rest: a, fault: None };
    assert(a.skip(0) =~= a);
    let c1 = c.skip(8);
    let c2 = c1.skip(16);
    lemma_twins_read(a, a, c, c, 0, 8);
    lemma_twins_read(a, a, c1, c1, 8, 16);
    lemma_twins_read(a, a, c2, c2, 24, 8);
    let c3 = c2.skip(8).refuse_if(
        c.peek(8) != 0xb5 || c1.peek(16) != 0x5890 || c2.peek(8) != 0x01,
        Error::NotAfgs1,
    );
    lemma_twins_read(a, a, c3, c3, 32, 1);
    let c4 = c3.skip(1).refuse_if(c3.peek(1) == 0, Error::GrainDisabled);
    lemma_twins_skip(a, a, c4, c4, 33, 4);
    let c5 = c4.skip(4);
    lemma_twins_read(a, a, c5, c5, 37, 3);
    if a.len() >= 40 {
        let t = a.subrange(37, 40);
        reveal_with_fuel(uint, 4);
        assert(t[0] == a[37] && t[1] == a[38] && t[2] == a[39]);
        assert(t.drop_last()[0] == a[37] && t.drop_last()[1] == a[38]);
        assert(t.drop_last().drop_last()[0] == a[37]);
        assert(number_at(a, 37, 3) == 0 <==> !a[37] && !a[38] && !a[39]);
    }
    let c6 = c5.skip(3).refuse_if(c5.peek(3) != 0, Error::MultipleGrainSets);
    lemma_twins_read(a, a, c6, c6, 40, 1);
    let ca = c6.skip(1);
    let n: int = if c6.peek(1) != 0 {
        2
    } else {
        8
    };
    lemma_twins_skip(a, a, ca, ca, 41, n);
    let cb = ca.skip(n);
    lemma_twins_skip(a, a, cb, cb, set, 3);
    let c7 = cb.skip(3);
    lemma_twins_read(a, a, c7, c7, set + 3, 1);
    let c8 = c7.skip(1).refuse_if(c7.peek(1) == 0, Error::GrainNotApplied);
    lemma_twins_read(a, a, c8, c8, set + 4, 16);
    lemma_twins_read(a, a, c8.skip(16), c8.skip(16), set + 20, 1);
}

/// What is said behind the signal.
proof fn lemma_signal_says(bits: Seq<bool>, c: Cursor)
    requires
        c.fault is None,
        set_at(bits) + 21 <= bits.len(),
        c.rest == bits.skip(set_at(bits) + 21),
    ensures
        bits.len() >= functions_at(bits) && bits[functions_at(bits) - 1] ==> read_signal(c).1.fault
            == Some(Fault::Refused(Error::PredictedScaling)),
        read_signal(c).1.fault is None ==> bits.len() >= functions_at(bits) && !bits[functions_at(
            bits,
        ) - 1],
{
    reveal(read_signal);
    let a = bits;
    let at = set_at(a) + 21;
    let luma = luma_flag_at(a);
    let signal = signal_flag_at(a);
    let start = functions_at(a);
    lemma_twins_skip(a, a, c, c, at, 4);
    lemma_twins_skip(a, a, c.skip(4), c.skip(4), at + 4, 12);
    lemma_twins_skip(a, a, c.skip(4).skip(12), c.skip(4).skip(12), at + 16, 12);
    let c1 = c.skip(4).skip(12).skip(12);
    lemma_twins_read(a, a, c1, c1, luma, 1);
    lemma_twins_skip(a, a, c1.skip(1), c1.skip(1), luma + 1, 1);
    lemma_twins_skip(a, a, c1.skip(1).skip(1), c1.skip(1).skip(1), luma + 2, 1);
    let c2 = if c1.peek(1) != 0 {
        c1.skip(1)
    } else {
        c1.skip(1).skip(1).skip(1)
    };
    lemma_twins_read(a, a, c2, c2, signal, 1);
    let c3 = c2.skip(1);
    lemma_twins_skip(a, a, c3, c3, signal + 1, 3);
    let ca = c3.skip(3);
    lemma_twins_read(a, a, ca, ca, signal + 4, 1);
    let cb = ca.skip(1);
    lemma_twins_skip(a, a, cb, cb, signal + 5, 8);
    lemma_twins_skip(a, a, cb.skip(8), cb.skip(8), signal + 13, 8);
    lemma_twins_skip(a, a, cb.skip(8).skip(8), cb.skip(8).skip(8), signal + 21, 8);
    let ce = cb.skip(8).skip(8).skip(8);
    lemma_twins_skip(a, a, ce, ce, signal + 29, 1);
    let c4 = if c2.peek(1) != 0 {
        if ca.peek(1) != 0 {
            ce.skip(1)
        } else {
            cb
        }
    } else {
        c3
    };
    lemma_twins_read(a, a, c4, c4, start - 1, 1);
}

/// Law: a payload is refused at the first of these that it shows: other registration codes, grain
/// switched off at bit 32, a number of further sets in bits 37 to 39, grain that is not applied,
/// a reference to an earlier set in place of grain, and predicted scaling functions. A payload
/// that describes grain shows none of them.
pub proof fn law_payload_refused(payload: Seq<u8>)
    ensures
        ({
            let bits = bits_of(payload);
            let set = set_at(bits);
            let start = functions_at(bits);
            let r = parsed_payload(payload);
            let coded = codes_match(bits);
            let on = coded && bits.len() > 32 && bits[32];
            let one = on && bits.len() >= 40 && !bits[37] && !bits[38] && !bits[39];
            let applied = one && bits.len() > set + 3 && bits[set + 3];
            let own = applied && bits.len() > set + 20 && bits[set + 20];
            &&& bits.len() >= 32 && !coded ==> r == Err::<GrainModel, Error>(Error::NotAfgs1)
            &&& coded && bits.len() > 32 && !bits[32] ==> r == Err::<GrainModel, Error>(
                Error::GrainDisabled,
            )
            &&& on && bits.len() >= 40 && (bits[37] || bits[38] || bits[39]) ==> r == Err::<
                GrainModel,
                Error,
            >(Error::MultipleGrainSets)
            &&& one && bits.len() > set + 3 && !bits[set + 3] ==> r == Err::<GrainModel, Error>(
                Error::GrainNotApplied,
            )
            &&& applied && bits.len() > set + 20 && !bits[set + 20] ==> r == Err::<
                GrainModel,
                Error,
            >(Error::ReferencedGrain)
            &&& own && bits.len() >= start && bits[start - 1] ==> r == Err::<GrainModel, Error>(
                Error::PredictedScaling,
            )
            &&& points_fit(payload) && r is Ok ==> own && bits.len() >= start && !bits[start - 1]
        }),
{
    let bits = bits_of(payload);
    let c1 = read_start(Cursor { rest: bits, fault: None }).1;
    let (l, c2) = read_signal(c1);
    let (s, c3) = read_functions(c2, l);
    let c4 = read_regression(c3, s).1;
    lemma_start_says(bits);
    if c1.fault is None {
        lemma_signal_says(bits, c1);
    } else {
        lemma_stopped(c1, l, s);
    }
    if c2.fault is Some {
        lemma_stopped(c2, l, s);
        lemma_stopped(c3, l, s);
        lemma_stopped(c4, l, s);
    }
}

} // verus!
