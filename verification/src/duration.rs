//! How exactly a time is kept when it moves to a larger unit and is read back, where division
//! and multiplication round to a nearest number.
use crate::float::lemma_constants;
use crate::float::lemma_units_order;
use crate::float::units;
use crate::float::Arithmetic;
use crate::float::Float64;
use crate::float::BILLION_BITS;
use crate::float::EXPONENT_UNIT;
use crate::float::MILLION_BITS;
use crate::float::THOUSAND_BITS;
use crate::float::TRILLION_BITS;
use crate::rounding::distance;
use crate::rounding::divided;
use crate::rounding::finite;
use crate::rounding::in_range;
use crate::rounding::largest;
use crate::rounding::lemma_largest;
use crate::rounding::lemma_power_of_two;
use crate::rounding::lemma_scaled;
use crate::rounding::miss;
use crate::rounding::nearest;
use crate::rounding::power_of_two;
use crate::rounding::rounds_products;
use crate::rounding::rounds_quotients;
use crate::rounding::units_above;
use crate::time::known_unit;
use crate::time::larger_units;
use crate::time::lemma_unit_names;
use crate::time::thousand;
use crate::time::time_in;
use crate::time::TimeUnit;
use vstd::arithmetic::power2::lemma2_to64;
use vstd::arithmetic::power2::lemma2_to64_rest;
use vstd::arithmetic::power2::lemma_pow2_adds;
use vstd::arithmetic::power2::lemma_pow2_pos;
use vstd::arithmetic::power2::lemma_pow2_strictly_increases;
use vstd::arithmetic::power2::pow2;
use vstd::prelude::*;

verus! {

/// Two to the power of 53: a number that is rounded moves by at most one part in so many.
pub const PRECISION: u64 = 0x20_0000_0000_0000;

/// The numbers between two powers of two are multiples of one step, which is the smallest of
/// them over two to the power of 52.
pub proof fn lemma_multiple(m: nat, e: nat)
    requires
        EXPONENT_UNIT <= m <= 2 * EXPONENT_UNIT,
    ensures
        units(e * EXPONENT_UNIT as nat + m) == m * pow2(e),
{
    let unit = EXPONENT_UNIT as nat;
    let bits = e * unit + m;
    if m < 2 * unit {
        assert(bits / unit == e + 1 && bits % unit == m - unit) by (nonlinear_arith)
            requires
                bits == e * unit + m,
                unit == 0x10_0000_0000_0000,
                unit <= m < 2 * unit,
        ;
    } else {
        assert(bits / unit == e + 2 && bits % unit == 0) by (nonlinear_arith)
            requires
                bits == e * unit + m,
                unit == 0x10_0000_0000_0000,
                m == 2 * unit,
        ;
        lemma2_to64();
        lemma_pow2_adds(1, e);
        let p = pow2(e);
        assert(unit * (2 * p) == (2 * unit) * p) by (nonlinear_arith);
    }
}

/// The powers of two between which a ratio lies.
proof fn lemma_between(n: int, d: int, e: nat) -> (found: nat)
    requires
        e <= 2045,
        d > 0,
        d * EXPONENT_UNIT * pow2(e) <= n,
        n < d * (2 * EXPONENT_UNIT) * pow2(2045),
    ensures
        found <= 2045,
        d * EXPONENT_UNIT * pow2(found) <= n < d * (2 * EXPONENT_UNIT) * pow2(found),
    decreases 2045 - e,
{
    if n < d * (2 * EXPONENT_UNIT) * pow2(e) {
        e
    } else {
        lemma2_to64();
        lemma_pow2_adds(1, e);
        let p = pow2(e) as int;
        let unit = EXPONENT_UNIT as int;
        assert(d * (2 * unit) * p == d * unit * (2 * p)) by (nonlinear_arith);
        lemma_between(n, d, e + 1)
    }
}

/// There is a number near every ratio in range that is not too small for full precision.
proof fn lemma_near(n: int, d: int) -> (z: Float64)
    requires
        d > 0,
        d * EXPONENT_UNIT <= n,
        in_range(n, d),
    ensures
        finite(z),
        PRECISION * miss(n, d, z) <= n,
{
    let unit = EXPONENT_UNIT as int;
    let top = pow2(2045) as int;
    lemma2_to64();
    lemma2_to64_rest();
    lemma_pow2_pos(2045);
    assert(d * unit > 0) by (nonlinear_arith)
        requires
            d > 0,
            unit > 0,
    ;
    assert(largest().value() == (2 * unit - 1) * top);
    assert(d * ((2 * unit - 1) * top) < d * (2 * unit) * top) by (nonlinear_arith)
        requires
            d > 0,
            top > 0,
    ;
    assert(d * unit * 1 == d * unit);
    let e = lemma_between(n, d, 0);
    lemma_pow2_pos(e);
    let s = pow2(e) as int;
    let w = d * s;
    assert(w > 0) by (nonlinear_arith)
        requires
            d > 0,
            s > 0,
            w == d * s,
    ;
    // The multiple of the step that is nearest to the ratio.
    let m = (2 * n + w) / (2 * w);
    let rest = (2 * n + w) % (2 * w);
    assert(2 * n + w == 2 * (m * w) + rest && 0 <= rest < 2 * w) by (nonlinear_arith)
        requires
            w > 0,
            m == (2 * n + w) / (2 * w),
            rest == (2 * n + w) % (2 * w),
    ;
    assert(unit * w <= n < 2 * unit * w) by (nonlinear_arith)
        requires
            d * unit * s <= n < d * (2 * unit) * s,
            w == d * s,
    ;
    assert(unit <= m <= 2 * unit) by (nonlinear_arith)
        requires
            2 * n + w == 2 * (m * w) + rest,
            0 <= rest < 2 * w,
            unit * w <= n < 2 * unit * w,
            w > 0,
    ;
    if e == 2045 {
        assert(n <= (2 * unit - 1) * w) by (nonlinear_arith)
            requires
                n <= d * ((2 * unit - 1) * s),
                w == d * s,
        ;
        assert(m < 2 * unit) by (nonlinear_arith)
            requires
                2 * n + w == 2 * (m * w) + rest,
                0 <= rest,
                n <= (2 * unit - 1) * w,
                w > 0,
        ;
    }
    let bits = e * EXPONENT_UNIT as nat + m as nat;
    assert(e * unit <= 2045 * unit);
    assert(e < 2045 ==> e * unit <= 2044 * unit);
    lemma_multiple(m as nat, e);
    let z = Float64 { bits: bits as u64 };
    assert(z.value() == m * s);
    assert((m * s) * d == m * w) by (nonlinear_arith)
        requires
            w == d * s,
    ;
    z
}

/// Small whole numbers of the smallest unit are numbers.
proof fn lemma_whole(m: int) -> (z: Float64)
    requires
        0 <= m < PRECISION,
    ensures
        finite(z),
        z.value() == m,
{
    lemma2_to64();
    let z = Float64 { bits: m as u64 };
    if m >= EXPONENT_UNIT {
        lemma_multiple(m as nat, 0);
    }
    z
}

/// A nearest number to a ratio in range misses it by at most one part in two to the power of
/// 53, if the ratio is whole, in units of the smallest number, or not too small for full
/// precision.
pub proof fn lemma_precision(n: int, d: int, r: Float64)
    requires
        d > 0,
        0 <= n,
        in_range(n, d),
        nearest(n, d, r),
        d * EXPONENT_UNIT <= n || n == (n / d) * d,
    ensures
        PRECISION * miss(n, d, r) <= n,
{
    if d * EXPONENT_UNIT <= n {
        let z = lemma_near(n, d);
        assert(miss(n, d, r) <= miss(n, d, z));
    } else {
        let m = n / d;
        assert(0 <= m < EXPONENT_UNIT) by (nonlinear_arith)
            requires
                m == n / d,
                0 <= n < d * EXPONENT_UNIT,
                d > 0,
        ;
        let z = lemma_whole(m);
        assert(miss(n, d, z) == 0);
        assert(miss(n, d, r) <= miss(n, d, z));
    }
}

/// How exactly a number above one thousand is divided by one thousand.
proof fn lemma_division(a: Arithmetic, time: Float64)
    requires
        rounds_quotients(a),
        finite(time),
        time.above(thousand()),
    ensures
        finite((a.divide)(time, thousand())),
        PRECISION * distance(
            time.value() - 1_000 * (a.divide)(time, thousand()).value(),
        ) <= time.value(),
{
    let p = pow2(1074) as int;
    let t = time.value();
    let r = (a.divide)(time, thousand());
    let v = r.value();
    let m = largest().value();
    lemma_constants();
    lemma_largest(time);
    lemma2_to64();
    lemma2_to64_rest();
    lemma_pow2_strictly_increases(52, 1074);
    assert(0 <= t * p <= (1_000 * p) * m && (1_000 * p) * EXPONENT_UNIT <= t * p)
        by (nonlinear_arith)
        requires
            1_000 * p < t <= m,
            p > EXPONENT_UNIT,
    ;
    assert(in_range(t * p, 1_000 * p));
    assert(nearest(t * p, 1_000 * p, r));
    lemma_precision(t * p, 1_000 * p, r);
    let gap = t - 1_000 * v;
    assert(t * p - v * (1_000 * p) == gap * p) by (nonlinear_arith)
        requires
            gap == t - 1_000 * v,
    ;
    assert(distance(gap * p) == distance(gap) * p) by (nonlinear_arith)
        requires
            p > 0,
    ;
    let g = distance(gap);
    assert(PRECISION * g <= t) by (nonlinear_arith)
        requires
            PRECISION * (g * p) <= t * p,
            p > 0,
    ;
}

/// How exactly a number is multiplied by a whole number.
proof fn lemma_multiplication(a: Arithmetic, x: Float64, c: Float64, k: int)
    requires
        rounds_products(a),
        finite(x),
        finite(c),
        0 <= x.value(),
        0 < k,
        c.value() == k * pow2(1074),
        x.value() * k <= largest().value(),
    ensures
        finite((a.multiply)(x, c)),
        PRECISION * distance((a.multiply)(x, c).value() - x.value() * k) <= x.value() * k,
{
    let p = pow2(1074) as int;
    let v = x.value();
    let w = v * k;
    let m = largest().value();
    let r = (a.multiply)(x, c);
    let u = r.value();
    lemma_pow2_pos(1074);
    assert(v * (k * p) == w * p) by (nonlinear_arith)
        requires
            w == v * k,
    ;
    assert(0 <= w && 0 <= w * p <= p * m) by (nonlinear_arith)
        requires
            w == v * k,
            0 <= v,
            0 < k,
            w <= m,
            p > 0,
    ;
    assert(in_range(w * p, p));
    assert(nearest(w * p, p, r));
    assert((w * p) / p == w) by (nonlinear_arith)
        requires
            p > 0,
    ;
    lemma_precision(w * p, p, r);
    let gap = w - u;
    assert(w * p - u * p == gap * p) by (nonlinear_arith)
        requires
            gap == w - u,
    ;
    assert(distance(gap * p) == distance(gap) * p) by (nonlinear_arith)
        requires
            p > 0,
    ;
    let g = distance(gap);
    assert(PRECISION * g <= w) by (nonlinear_arith)
        requires
            PRECISION * (g * p) <= w * p,
            p > 0,
    ;
}

/// Whether `x` is no farther from `t` than some roundings can bring it.
pub open spec fn drifted(t: int, x: int, roundings: int) -> bool {
    10 * PRECISION * distance(x - t) <= 11 * (roundings * t)
}

/// One more rounding.
proof fn lemma_drift(t: int, x: int, y: int, roundings: int)
    requires
        0 <= t,
        0 <= roundings <= 4,
        drifted(t, x, roundings),
        PRECISION * distance(y - x) <= x,
    ensures
        drifted(t, y, roundings + 1),
{
    let s = roundings * t;
    assert(0 <= s <= 4 * t && (roundings + 1) * t == s + t) by (nonlinear_arith)
        requires
            s == roundings * t,
            0 <= t,
            0 <= roundings <= 4,
    ;
    let (before, now, step) = (distance(x - t), distance(y - t), distance(y - x));
    assert(10 * PRECISION * now <= 11 * (s + t)) by (nonlinear_arith)
        requires
            now <= step + before,
            10 * PRECISION * before <= 11 * s,
            s <= 4 * t,
            0 <= t,
            PRECISION * step <= x,
            x <= t + before,
            PRECISION == 0x20_0000_0000_0000,
    ;
}

/// One thousand to the power of `n`.
pub open spec fn thousands(n: nat) -> int
    decreases n,
{
    if n == 0 {
        1
    } else {
        1_000 * thousands((n - 1) as nat)
    }
}

/// How exactly a time is kept when it moves to a larger unit so many times.
proof fn lemma_divided(a: Arithmetic, time: Float64, n: nat)
    requires
        rounds_quotients(a),
        finite(time),
        0 <= time.value(),
        n <= 4,
        forall|k: nat| k < n ==> (#[trigger] divided(a, time, k)).above(thousand()),
    ensures
        finite(divided(a, time, n)),
        0 <= divided(a, time, n).value(),
        thousands(n) > 0,
        drifted(time.value(), thousands(n) * divided(a, time, n).value(), n as int),
    decreases n,
{
    if n > 0 {
        let m = (n - 1) as nat;
        lemma_divided(a, time, m);
        let before = divided(a, time, m);
        let after = divided(a, time, n);
        assert(before.above(thousand()));
        lemma_division(a, before);
        let (c, x, y) = (thousands(m), before.value(), after.value());
        let gap = 1_000 * y - x;
        assert((1_000 * c) * y - c * x == c * gap) by (nonlinear_arith)
            requires
                gap == 1_000 * y - x,
        ;
        assert(PRECISION * distance(c * gap) <= c * x) by (nonlinear_arith)
            requires
                PRECISION * distance(gap) <= x,
                c > 0,
        ;
        lemma_drift(time.value(), c * x, (1_000 * c) * y, m as int);
    } else {
        let t = time.value();
        assert(thousands(n) * t == t) by (nonlinear_arith)
            requires
                thousands(n) == 1,
        ;
        assert(10 * PRECISION * distance(t - t) == 0) by (nonlinear_arith)
            requires
                distance(t - t) == 0,
        ;
        assert(n * t == 0) by (nonlinear_arith)
            requires
                n == 0,
        ;
    }
}

/// How many picoseconds make up the named unit.
pub open spec fn picoseconds_in(unit: Seq<char>) -> int {
    if unit == "s"@ {
        1_000_000_000_000
    } else if unit == "ms"@ {
        1_000_000_000
    } else if unit == "us"@ {
        1_000_000
    } else if unit == "ns"@ {
        1_000
    } else {
        1
    }
}

/// A time that is given in some unit, moved to the unit that it is shown in, and read back as
/// picoseconds, is the given time up to one part in 10 to the power of 15. This is so as long as
/// twice the given time, in picoseconds, is in the range of the finite numbers.
pub proof fn lemma_duration_kept(a: Arithmetic, time: Float64, unit: Seq<char>)
    requires
        rounds_quotients(a),
        rounds_products(a),
        known_unit(unit),
        finite(time),
        0 <= time.value(),
        2 * (time.value() * picoseconds_in(unit)) <= largest().value(),
    ensures
        ({
            let given = time.value() * picoseconds_in(unit);
            let read = time_in(a, time, unit)->0.picoseconds(a);
            &&& finite(read)
            &&& 1_000_000_000_000_000 * distance(read.value() - given) <= given
        }),
{
    lemma_unit_names();
    lemma_constants();
    lemma_scaled(a, time, unit);
    let shown = time_in(a, time, unit)->0;
    let n = (larger_units(unit) - units_above(shown)) as nat;
    lemma_divided(a, time, n);
    let t = time.value();
    let k = picoseconds_in(unit);
    let given = t * k;
    let v = shown.number().value();
    let x = thousands(n) * v;
    reveal_with_fuel(thousands, 5);
    if !(shown is Picosecond) {
        let c = thousands(n) * k;
        assert(c == thousands((4 - units_above(shown)) as nat));
        assert(v * c == x * k) by (nonlinear_arith)
            requires
                x == thousands(n) * v,
                c == thousands(n) * k,
        ;
        let s = n * t;
        assert(0 <= s <= 4 * t && n * given == s * k) by (nonlinear_arith)
            requires
                s == n * t,
                given == t * k,
                0 <= t,
                n <= 4,
        ;
        assert(x <= 2 * t);
        assert(x * k <= 2 * given) by (nonlinear_arith)
            requires
                x <= 2 * t,
                given == t * k,
                k > 0,
        ;
        assert(given >= 0) by (nonlinear_arith)
            requires
                given == t * k,
                k > 0,
                t >= 0,
        ;
        let gap = x - t;
        assert(x * k - given == gap * k) by (nonlinear_arith)
            requires
                gap == x - t,
                given == t * k,
        ;
        assert(10 * PRECISION * distance(gap * k) <= 11 * (s * k)) by (nonlinear_arith)
            requires
                10 * PRECISION * distance(gap) <= 11 * s,
                k > 0,
        ;
        let factor = match shown {
            TimeUnit::Second(_) => TRILLION_BITS,
            TimeUnit::Millisecond(_) => BILLION_BITS,
            TimeUnit::Microsecond(_) => MILLION_BITS,
            _ => THOUSAND_BITS,
        };
        lemma_multiplication(a, shown.number(), Float64 { bits: factor }, c);
        let read = shown.picoseconds(a).value();
        lemma_drift(given, x * k, read, n as int);
        assert((n + 1) * given <= 5 * given) by (nonlinear_arith)
            requires
                given >= 0,
                n <= 4,
        ;
    }
}

/// The number that is nearest to 10 to the power of 200.
pub open spec fn huge() -> Float64 {
    Float64 { bits: 0x6974_e718_d7d7_625a }
}

/// A time of up to 10 to the power of 200, in whatever unit, is the given time up to one part in
/// 10 to the power of 15 when it is read back as picoseconds.
pub proof fn lemma_usual_duration_kept(a: Arithmetic, time: Float64, unit: Seq<char>)
    requires
        rounds_quotients(a),
        rounds_products(a),
        known_unit(unit),
        !time.nan(),
        0 <= time.value() <= huge().value(),
    ensures
        ({
            let given = time.value() * picoseconds_in(unit);
            let read = time_in(a, time, unit)->0.picoseconds(a);
            &&& finite(read)
            &&& 1_000_000_000_000_000 * distance(read.value() - given) <= given
        }),
{
    let (t, k, h) = (time.value(), picoseconds_in(unit), power_of_two(665));
    lemma_units_order(huge().magnitude(), h.magnitude());
    lemma_units_order(h.magnitude(), time.magnitude());
    lemma_units_order(0, time.magnitude());
    lemma_power_of_two(665);
    assert(finite(time));
    lemma2_to64();
    lemma2_to64_rest();
    lemma_pow2_adds(1739, 41);
    lemma_pow2_strictly_increases(1780, 2045);
    assert(2 * (t * k) <= pow2(1739) * pow2(41)) by (nonlinear_arith)
        requires
            0 <= t <= pow2(1739),
            0 < k <= 1_000_000_000_000,
            pow2(41) == 0x200_0000_0000,
    ;
    assert(largest().value() >= pow2(2045)) by {
        let top = pow2(2045);
        assert(largest().value() == 0x1f_ffff_ffff_ffff * top);
    }
    lemma_duration_kept(a, time, unit);
}

} // verus!
