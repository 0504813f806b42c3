//! When frames are shown: timestamps of grain tables, and the order of frames.
use num_rational::Rational32;
use vstd::prelude::*;
use vstd::set_lib::{lemma_int_range, lemma_len_subset, set_int_range};

verus! {

/// The length of the units that timestamps of packets count, as a fraction of a second.
#[derive(Debug, Clone, Copy, PartialEq, Eq, Structural)]
pub struct TimeBase {
    pub num: i32,
    pub den: i32,
}

/// Timestamps of grain tables count ten-millionths of a second.
pub const UNITS_PER_SECOND: u64 = 10_000_000;

/// A number as it is taken for an unsigned one of 64 bits.
#[verifier::inline]
pub open spec fn as_unsigned(v: i32) -> int {
    if v < 0 {
        v + 0x1_0000_0000_0000_0000
    } else {
        v as int
    }
}

/// The product that a timestamp is computed from fits in 64 bits, where it is computed at all.
pub open spec fn pts_fits(pts: i64, time_base: TimeBase) -> bool {
    pts < 0 || time_base.den == 0 || pts * as_unsigned(time_base.num) * UNITS_PER_SECOND <= u64::MAX
}

/// A packet's timestamp in the units of grain tables, rounded up.
pub open spec fn grain_ts_of_pts(pts: i64, time_base: TimeBase) -> int {
    if pts < 0 || time_base.den == 0 {
        0
    } else {
        (pts * as_unsigned(time_base.num) * UNITS_PER_SECOND + as_unsigned(time_base.den) - 1)
            / as_unsigned(time_base.den)
    }
}

/// A number as an unsigned one of 64 bits.
fn unsigned(v: i32) -> (r: u64)
    ensures
        r == as_unsigned(v),
{
    if v < 0 {
        (0x1_0000_0000_0000_0000i128 + v as i128) as u64
    } else {
        v as u64
    }
}

/// Whether the product that a timestamp is computed from fits in 64 bits.
pub fn is_pts_in_range(pts: i64, time_base: TimeBase) -> (r: bool)
    ensures
        r == pts_fits(pts, time_base),
{
    if pts < 0 || time_base.den == 0 {
        return true;
    }
    let num: u64 = unsigned(time_base.num);
    match (pts as u64).checked_mul(num) {
        Some(product) => product.checked_mul(UNITS_PER_SECOND).is_some(),
        None => {
            let ghost product = pts * num;
            assert(product * UNITS_PER_SECOND > u64::MAX);
            false
        },
    }
}

/// A packet's timestamp in the units of grain tables, rounded up. Timestamps before the start
/// count as the start.
pub fn ffmpeg_pts_to_grain_ts(pts: i64, time_base: TimeBase) -> (r: u64)
    requires
        pts_fits(pts, time_base),
    ensures
        r == grain_ts_of_pts(pts, time_base),
{
    if pts < 0 {
        return 0;
    }
    let num: u64 = unsigned(time_base.num);
    let den: u64 = unsigned(time_base.den);
    if den == 0 {
        return 0;
    }
    let pts: u64 = pts as u64;
    proof {
        assert(0 <= pts * num) by (nonlinear_arith);
        assert(pts * num <= pts * num * UNITS_PER_SECOND);
    }
    let product: u64 = pts * num * UNITS_PER_SECOND;
    let whole: u64 = product / den;
    proof {
        let n = product as int;
        let d = den as int;
        let q = n / d;
        assert(n == d * q + n % d) by (nonlinear_arith)
            requires
                d > 0,
                q == n / d,
        ;
        assert((n + d - 1) / d == (if n % d == 0 {
            q
        } else {
            q + 1
        })) by (nonlinear_arith)
            requires
                d > 0,
                n >= 0,
                n == d * q + n % d,
                0 <= n % d < d,
        ;
        assert(n % d != 0 ==> q < u64::MAX) by (nonlinear_arith)
            requires
                d > 0,
                0 <= n <= u64::MAX,
                q == n / d,
                n == d * q + n % d,
        ;
    }
    if product % den == 0 {
        whole
    } else {
        whole + 1
    }
}

/// Law: a packet's timestamp in ten-millionths of a second is the least whole number that is no
/// less than the exact time, and zero before the start or without a time base. It can be computed
/// exactly where the product of the timestamp, the numerator and ten million is below 2 to the 64.
/// Negative parts of a time base count as what they are modulo 2 to the 64.
pub proof fn law_packet_time_rounded_up(pts: i64, time_base: TimeBase)
    ensures
        pts < 0 || time_base.den == 0 ==> grain_ts_of_pts(pts, time_base) == 0 && pts_fits(
            pts,
            time_base,
        ),
        pts >= 0 && time_base.den != 0 ==> ({
            let t = grain_ts_of_pts(pts, time_base);
            let num = time_base.num as int % 0x1_0000_0000_0000_0000;
            let den = time_base.den as int % 0x1_0000_0000_0000_0000;
            &&& (t - 1) * den < pts * num * 10_000_000 <= t * den
            &&& pts_fits(pts, time_base) <==> pts * num * 10_000_000 < 0x1_0000_0000_0000_0000
        }),
{
    if pts >= 0 && time_base.den != 0 {
        let num = time_base.num as int % 0x1_0000_0000_0000_0000;
        let den = time_base.den as int % 0x1_0000_0000_0000_0000;
        assert(num == as_unsigned(time_base.num));
        assert(den == as_unsigned(time_base.den));
        let x = pts * num * 10_000_000;
        let t = grain_ts_of_pts(pts, time_base);
        assert(t == (x + den - 1) / den);
        assert((t - 1) * den < x <= t * den) by (nonlinear_arith)
            requires
                den > 0,
                t == (x + den - 1) / den,
        ;
    }
}

/// `num_rational::Rational32::new` and what is in its result: the fraction in lowest terms, with
/// a positive denominator. It panics on a zero denominator and where a sign cannot be moved from
/// the denominator, which are left out here.
#[verifier::external_body]
fn lowest_terms(numer: i32, denom: i32) -> (r: (i32, i32))
    requires
        has_lowest_terms(numer, denom),
    ensures
        r.1 > 0,
        r.0 * denom == numer * r.1,
        coprime(r.0 as int, r.1 as int),
{
    Rational32::new(numer, denom).into_raw()
}

/// A fraction has lowest terms with a positive denominator that numbers of 32 bits can hold.
pub open spec fn has_lowest_terms(numer: i32, denom: i32) -> bool {
    &&& denom != 0
    &&& denom == i32::MIN ==> numer % 2 == 0
    &&& numer == i32::MIN && denom < 0 ==> denom % 2 == 0
}

/// Nothing but one divides both numbers.
pub open spec fn coprime(a: int, b: int) -> bool {
    forall|k: int| k > 1 && a % k == 0 ==> #[trigger] (b % k) != 0
}

/// Frames per second, as a fraction in lowest terms.
#[derive(Debug, Clone, Copy, PartialEq, Eq, Structural)]
pub struct FrameRate {
    pub numer: i32,
    pub denom: i32,
}

impl FrameRate {
    /// The denominator is positive.
    pub open spec fn wf(self) -> bool {
        self.denom > 0
    }

    /// The frame rate that a fraction states.
    pub fn new(numer: i32, denom: i32) -> (r: Self)
        requires
            has_lowest_terms(numer, denom),
        ensures
            r.wf(),
            r.numer * denom == numer * r.denom,
            coprime(r.numer as int, r.denom as int),
    {
        let (n, d): (i32, i32) = lowest_terms(numer, denom);
        FrameRate { numer: n, denom: d }
    }
}

/// Whether a fraction has lowest terms with a positive denominator that numbers of 32 bits can
/// hold.
pub fn is_frame_rate(numer: i32, denom: i32) -> (r: bool)
    ensures
        r == has_lowest_terms(numer, denom),
{
    let n: i64 = numer as i64;
    let d: i64 = denom as i64;
    denom != 0 && (denom != i32::MIN || is_even(n)) && (numer != i32::MIN || denom >= 0 || is_even(
        d,
    ))
}

/// Whether a number is even.
fn is_even(v: i64) -> (r: bool)
    requires
        -0x8000_0000 <= v <= 0x7fff_ffff,
    ensures
        r == (v % 2 == 0),
{
    (v + 0x8000_0000) % 2 == 0
}

/// When a frame is shown, in the units of grain tables, rounded down. There is no time without a
/// frame rate, and only 64 bits of it are kept.
pub open spec fn frame_ts(frame_index: int, rate: FrameRate) -> int {
    if rate.numer <= 0 || rate.denom <= 0 {
        0
    } else {
        (frame_index * rate.denom * UNITS_PER_SECOND / rate.numer as int) % 0x1_0000_0000_0000_0000
    }
}

/// When a frame is shown, in the units of grain tables, rounded down.
pub fn frame_index_to_grain_ts(frame_index: usize, frame_rate: FrameRate) -> (r: u64)
    ensures
        r == frame_ts(frame_index as int, frame_rate),
{
    if frame_rate.numer <= 0 || frame_rate.denom <= 0 {
        return 0;
    }
    let i: u128 = frame_index as u128;
    let d: u128 = frame_rate.denom as u128;
    let n: u128 = frame_rate.numer as u128;
    proof {
        assert(0 <= i * d <= 0xffff_ffff_ffff_ffff * 0x7fff_ffff) by (nonlinear_arith)
            requires
                0 <= i <= 0xffff_ffff_ffff_ffff,
                0 <= d <= 0x7fff_ffff,
        ;
    }
    let product: u128 = i * d * 10_000_000u128;
    let whole: u128 = product / n;
    let kept: u128 = whole % 0x1_0000_0000_0000_0000u128;
    kept as u64
}

/// Law: a frame is shown at the last whole ten-millionth of a second, `q`, that is not behind the
/// exact time, of which 64 bits are kept. Without a frame rate it is shown at the start.
pub proof fn law_frame_time_rounded_down(frame_index: int, rate: FrameRate, q: int)
    requires
        frame_index >= 0,
        rate.numer > 0 && rate.denom > 0 ==> q * rate.numer <= frame_index * rate.denom * 10_000_000
            < (q + 1) * rate.numer,
    ensures
        rate.numer > 0 && rate.denom > 0 ==> frame_ts(frame_index, rate) == q
            % 0x1_0000_0000_0000_0000,
        rate.numer <= 0 || rate.denom <= 0 ==> frame_ts(frame_index, rate) == 0,
{
    if rate.numer > 0 && rate.denom > 0 {
        let x = frame_index * rate.denom * 10_000_000;
        let n = rate.numer as int;
        assert(x / n == q) by (nonlinear_arith)
            requires
                n > 0,
                q * n <= x < (q + 1) * n,
        ;
    }
}

/// Law: where a frame is no shorter than the unit of grain tables and its time fits in 64 bits,
/// the next frame is shown later.
pub proof fn law_frames_advance(frame_index: int, rate: FrameRate)
    requires
        frame_index >= 0,
        0 < rate.numer <= rate.denom * UNITS_PER_SECOND,
        (frame_index + 1) * rate.denom * UNITS_PER_SECOND / rate.numer as int <= u64::MAX,
    ensures
        frame_ts(frame_index, rate) < frame_ts(frame_index + 1, rate),
{
    let n = rate.numer as int;
    let step = rate.denom * UNITS_PER_SECOND;
    let a = frame_index * step;
    assert(frame_index * rate.denom * UNITS_PER_SECOND == a) by (nonlinear_arith)
        requires
            a == frame_index * step,
            step == rate.denom * UNITS_PER_SECOND,
    ;
    assert((frame_index + 1) * rate.denom * UNITS_PER_SECOND == a + step) by (nonlinear_arith)
        requires
            a == frame_index * step,
            step == rate.denom * UNITS_PER_SECOND,
    ;
    assert(a >= 0) by (nonlinear_arith)
        requires
            a == frame_index * step,
            frame_index >= 0,
            step >= 0,
    ;
    assert(0 <= a / n && a / n + 1 <= (a + step) / n) by (nonlinear_arith)
        requires
            a >= 0,
            0 < n <= step,
    ;
}

/// The item at `i` comes before the one at `j` when items are ordered by their keys and then by
/// their places.
pub open spec fn comes_before(keys: Seq<int>, i: int, j: int) -> bool {
    keys[i] < keys[j] || (keys[i] == keys[j] && i < j)
}

/// The items that come before the one at `i`.
pub open spec fn earlier(keys: Seq<int>, i: int) -> Set<int> {
    Set::new(|j: int| 0 <= j < keys.len() && comes_before(keys, j, i))
}

/// How many items come before the one at `i`.
pub open spec fn rank(keys: Seq<int>, i: int) -> nat {
    earlier(keys, i).len()
}

/// The items that come before the one at `i` are some of all the others.
proof fn lemma_earlier(keys: Seq<int>, i: int)
    requires
        0 <= i < keys.len(),
    ensures
        earlier(keys, i).finite(),
        rank(keys, i) < keys.len(),
{
    let all = set_int_range(0, keys.len() as int);
    lemma_int_range(0, keys.len() as int);
    let others = all.remove(i);
    assert(earlier(keys, i).subset_of(others));
    lemma_len_subset(earlier(keys, i), others);
}

/// Law: an item that comes before another one has the smaller rank, and every rank is below the
/// number of items.
pub proof fn law_rank_orders(keys: Seq<int>, i: int, j: int)
    requires
        0 <= i < keys.len(),
        0 <= j < keys.len(),
        comes_before(keys, i, j),
    ensures
        rank(keys, i) < rank(keys, j) < keys.len(),
{
    lemma_earlier(keys, i);
    lemma_earlier(keys, j);
    let a = earlier(keys, i);
    let b = earlier(keys, j);
    assert(b.contains(i) && !a.contains(i));
    assert(a.subset_of(b.remove(i)));
    lemma_len_subset(a, b.remove(i));
}

/// The pair is not behind the other one when pairs are ordered by their first and then by their
/// second parts.
pub open spec fn pair_le(a: (i128, usize), b: (i128, usize)) -> bool {
    a.0 < b.0 || (a.0 == b.0 && a.1 <= b.1)
}

/// `<[_]>::sort`, of pairs: the same pairs, ordered by their first and then by their second
/// parts.
#[verifier::external_body]
fn sort_pairs(pairs: &mut Vec<(i128, usize)>)
    ensures
        final(pairs)@.to_multiset() == old(pairs)@.to_multiset(),
        final(pairs)@.len() == old(pairs)@.len(),
        forall|i: int, j: int|
            0 <= i <= j < final(pairs)@.len() ==> pair_le(
                #[trigger] final(pairs)@[i],
                #[trigger] final(pairs)@[j],
            ),
{
    pairs.sort()
}

/// Numbers, as specifications count.
pub open spec fn ints(keys: Seq<i128>) -> Seq<int> {
    keys.map_values(|k: i128| k as int)
}

/// The places of all items in the order of their keys, and of their places where keys are the
/// same: the item at `i` stands at its rank.
pub fn sorted_places(keys: &Vec<i128>) -> (r: Vec<usize>)
    ensures
        r@.len() == keys@.len(),
        forall|k: int| 0 <= k < r@.len() ==> (#[trigger] r@[k]) < keys@.len(),
        forall|k: int| 0 <= k < r@.len() ==> rank(ints(keys@), #[trigger] r@[k] as int) == k,
        forall|i: int|
            0 <= i < keys@.len() ==> (#[trigger] rank(ints(keys@), i)) < keys@.len() && r@[rank(
                ints(keys@),
                i,
            ) as int] == i,
        forall|k: int, l: int|
            0 <= k < l < r@.len() ==> {
                let (a, b) = (#[trigger] r@[k], #[trigger] r@[l]);
                keys@[a as int] < keys@[b as int] || (keys@[a as int] == keys@[b as int] && a < b)
            },
{
    let mut pairs: Vec<(i128, usize)> = Vec::with_capacity(keys.len());
    let mut i: usize = 0;
    while i < keys.len()
        invariant
            i <= keys@.len(),
            pairs@.len() == i,
            forall|j: int| 0 <= j < i ==> pairs@[j] == (keys@[j], j as usize),
        decreases keys@.len() - i,
    {
        pairs.push((keys[i], i));
        i = i + 1;
    }
    let ghost before = pairs@;
    sort_pairs(&mut pairs);
    let ghost after = pairs@;
    proof {
        lemma_sorted(keys@, before, after);
    }
    let mut places: Vec<usize> = Vec::with_capacity(keys.len());
    let mut k: usize = 0;
    while k < pairs.len()
        invariant
            k <= pairs@.len(),
            places@.len() == k,
            forall|j: int| 0 <= j < k ==> places@[j] == pairs@[j].1,
        decreases pairs@.len() - k,
    {
        places.push(pairs[k].1);
        k = k + 1;
    }
    places
}

/// Every pair stands at the rank of the place in it once the pairs are sorted.
proof fn lemma_sorted(keys: Seq<i128>, before: Seq<(i128, usize)>, after: Seq<(i128, usize)>)
    requires
        before.len() == keys.len(),
        keys.len() <= usize::MAX,
        forall|j: int| 0 <= j < keys.len() ==> before[j] == (keys[j], j as usize),
        after.to_multiset() == before.to_multiset(),
        after.len() == before.len(),
        forall|i: int, j: int|
            0 <= i <= j < after.len() ==> pair_le(#[trigger] after[i], #[trigger] after[j]),
    ensures
        forall|k: int|
            0 <= k < after.len() ==> (#[trigger] after[k]).1 < keys.len() && rank(
                ints(keys),
                after[k].1 as int,
            ) == k,
        forall|i: int|
            0 <= i < keys.len() ==> (#[trigger] rank(ints(keys), i)) < keys.len() && after[rank(
                ints(keys),
                i,
            ) as int].1 == i,
        forall|k: int, l: int|
            0 <= k < l < after.len() ==> keys[(#[trigger] after[k]).1 as int] < keys[(
            #[trigger] after[l]).1 as int] || (keys[after[k].1 as int] == keys[after[l].1 as int]
                && after[k].1 < after[l].1),
{
    broadcast use vstd::seq_lib::group_to_multiset_ensures;

    let n = keys.len();
    let sk = ints(keys);
    assert forall|k: int| 0 <= k < n implies (#[trigger] after[k]).1 < n && after[k].0
        == keys[after[k].1 as int] by {
        assert(after.contains(after[k]));
        assert(after.to_multiset().count(after[k]) > 0);
        assert(before.contains(after[k]));
    }
    assert(before.no_duplicates()) by {
        assert forall|i: int, j: int| 0 <= i < n && 0 <= j < n && i != j implies before[i]
            != before[j] by {}
    }
    before.lemma_multiset_has_no_duplicates();
    after.lemma_multiset_has_no_duplicates_conv();
    assert forall|k: int, l: int| 0 <= k < l < n implies after[k].1 != after[l].1 && comes_before(
        sk,
        after[k].1 as int,
        after[l].1 as int,
    ) by {
        assert(after[k] != after[l]);
        assert(pair_le(after[k], after[l]));
    }
    assert forall|k: int| 0 <= k < n implies rank(sk, (#[trigger] after[k]).1 as int) == k by {
        let i = after[k].1 as int;
        let front = after.take(k).map_values(|p: (i128, usize)| p.1 as int);
        assert(front.no_duplicates());
        front.unique_seq_to_set();
        assert forall|j: int| earlier(sk, i).contains(j) <==> #[trigger] front.to_set().contains(
            j,
        ) by {
            if earlier(sk, i).contains(j) {
                assert(before[j] == (keys[j], j as usize));
                assert(before.contains(before[j]));
                assert(before.to_multiset().count(before[j]) > 0);
                assert(after.contains(before[j]));
                let q = choose|q: int| 0 <= q < n && after[q] == before[j];
                assert(q < k) by {
                    if q > k {
                        assert(comes_before(sk, i, j));
                    }
                }
                assert(front[q] == j);
                assert(front.contains(j));
            }
            if front.to_set().contains(j) {
                assert(front.contains(j));
                let q = choose|q: int| 0 <= q < front.len() && front[q] == j;
                assert(after[q].1 == j);
            }
        }
        assert(earlier(sk, i) =~= front.to_set());
    }
    assert forall|i: int| 0 <= i < n implies (#[trigger] rank(sk, i)) < n && after[rank(
        sk,
        i,
    ) as int].1 == i by {
        assert(before.contains(before[i]));
        assert(before.to_multiset().count(before[i]) > 0);
        assert(after.contains(before[i]));
        let q = choose|q: int| 0 <= q < n && after[q] == before[i];
        assert(rank(sk, after[q].1 as int) == q);
    }
}

/// Law: a fraction with a positive denominator is a frame rate, one without a denominator is none,
/// and a negative denominator is a matter of sign, unless it or the numerator is the least number
/// that there is.
pub proof fn law_frame_rates(numer: i32, denom: i32)
    ensures
        denom > 0 ==> has_lowest_terms(numer, denom),
        denom == 0 ==> !has_lowest_terms(numer, denom),
        denom < 0 && denom > i32::MIN && numer > i32::MIN ==> has_lowest_terms(numer, denom),
{
}

} // verus!
