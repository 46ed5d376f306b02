//! What follows where division rounds to a nearest number, as IEEE 754 asks for.
use crate::float::lemma_constants;
use crate::float::lemma_units_order;
use crate::float::units;
use crate::float::Arithmetic;
use crate::float::Float64;
use crate::float::FloatOps;
use crate::float::EXPONENT_UNIT;
use crate::float::INFINITY_BITS;
use crate::time::known_unit;
use crate::time::larger_units;
use crate::time::lemma_unit_names;
use crate::time::one;
use crate::time::thousand;
use crate::time::time_in;
use crate::time::Comparison;
use crate::time::TimeUnit;
use vstd::arithmetic::power2::lemma2_to64;
use vstd::arithmetic::power2::lemma2_to64_rest;
use vstd::arithmetic::power2::lemma_pow2_adds;
use vstd::arithmetic::power2::lemma_pow2_pos;
use vstd::arithmetic::power2::lemma_pow2_strictly_increases;
use vstd::arithmetic::power2::pow2;
use vstd::prelude::*;

verus! {

/// Whether this is a number other than the infinities.
pub open spec fn finite(x: Float64) -> bool {
    x.magnitude() < INFINITY_BITS
}

/// The largest finite number.
pub open spec fn largest() -> Float64 {
    Float64 { bits: 0x7fef_ffff_ffff_ffff }
}

/// The distance of an integer from zero.
pub open spec fn distance(n: int) -> int {
    if n < 0 {
        -n
    } else {
        n
    }
}

/// How far `z` is from the exact ratio of `n` to `d`, in parts that depend on `d` alone.
pub open spec fn miss(n: int, d: int, z: Float64) -> int {
    distance(n - z.value() * d)
}

/// Whether the exact ratio of `n` to `d` is within the range of the finite numbers.
pub open spec fn in_range(n: int, d: int) -> bool {
    d != 0 && distance(n) <= distance(d) * largest().value()
}

/// Whether no finite number is nearer to the exact ratio of `n` to `d` than `r` is.
pub open spec fn nearest(n: int, d: int, r: Float64) -> bool {
    &&& finite(r)
    &&& forall|z: Float64| #[trigger] finite(z) ==> miss(n, d, r) <= miss(n, d, z)
}

/// Whether division gives a nearest number wherever the quotient is in range, and leaves an
/// infinity as it is when it divides by a positive number.
pub open spec fn rounds_quotients(a: Arithmetic) -> bool {
    &&& forall|x: Float64, y: Float64|
        finite(x) && finite(y) && in_range(x.value() * pow2(1074), y.value()) ==> nearest(
            x.value() * pow2(1074),
            y.value(),
            #[trigger] (a.divide)(x, y),
        )
    &&& forall|x: Float64, y: Float64|
        x.magnitude() == INFINITY_BITS && finite(y) && y.value() > 0 ==> #[trigger] (a.divide)(
            x,
            y,
        ) == x
}

/// Whether multiplication gives a nearest number wherever the product is in range.
pub open spec fn rounds_products(a: Arithmetic) -> bool {
    forall|x: Float64, y: Float64|
        finite(x) && finite(y) && in_range(x.value() * y.value(), pow2(1074) as int) ==> nearest(
            x.value() * y.value(),
            pow2(1074) as int,
            #[trigger] (a.multiply)(x, y),
        )
}

impl<
    D: Fn(Float64, Float64) -> Float64,
    M: Fn(Float64, Float64) -> Float64,
    S: Fn(Float64) -> String,
> FloatOps<D, M, S> {
    /// Whether the operations round quotients and products to a nearest number.
    pub open spec fn round(&self) -> bool {
        exists|a: Arithmetic| #[trigger]
            self.follows(a) && rounds_quotients(a) && rounds_products(a)
    }
}

/// No finite number is farther from zero than the largest one.
pub proof fn lemma_largest(x: Float64)
    requires
        finite(x),
    ensures
        distance(x.value()) <= largest().value(),
{
    lemma_units_order(x.magnitude(), largest().magnitude());
}

/// A number above one thousand, divided by one thousand, is not below one.
pub proof fn lemma_next_unit(a: Arithmetic, time: Float64)
    requires
        rounds_quotients(a),
        time.above(thousand()),
    ensures
        !(a.divide)(time, thousand()).nan(),
        (a.divide)(time, thousand()).value() >= one().value(),
{
    let p = pow2(1074) as int;
    let t = time.value();
    let q = (a.divide)(time, thousand());
    lemma_constants();
    lemma_pow2_pos(1074);
    assert(finite(one()) && finite(thousand()));
    if finite(time) {
        lemma_largest(time);
        let m = largest().value();
        assert(distance(t) == t);
        assert(t * p <= (1_000 * p) * m) by (nonlinear_arith)
            requires
                0 < t <= m,
                p > 0,
        ;
        assert(in_range(t * p, 1_000 * p));
        assert(nearest(t * p, 1_000 * p, q));
        let r = q.value();
        assert(miss(t * p, 1_000 * p, q) <= miss(t * p, 1_000 * p, one()));
        assert(t * p - p * (1_000 * p) > 0) by (nonlinear_arith)
            requires
                t > 1_000 * p,
                p > 0,
        ;
        if r < p {
            assert(r * (1_000 * p) < p * (1_000 * p)) by (nonlinear_arith)
                requires
                    r < p,
                    p > 0,
            ;
        }
    } else {
        assert(q == time);
    }
}

/// A time that was divided by one thousand so many times.
pub open spec fn divided(a: Arithmetic, time: Float64, n: nat) -> Float64
    decreases n,
{
    if n == 0 {
        time
    } else {
        (a.divide)(divided(a, time, (n - 1) as nat), thousand())
    }
}

/// How many units are larger than the one that a time is shown in.
pub open spec fn units_above(time: TimeUnit) -> nat {
    match time {
        TimeUnit::Second(_) => 0,
        TimeUnit::Millisecond(_) => 1,
        TimeUnit::Microsecond(_) => 2,
        TimeUnit::Nanosecond(_) => 3,
        TimeUnit::Picosecond(_) => 4,
    }
}

/// A time moves to the next larger unit as often as it takes to get a number that is not above
/// one thousand, and no more often, unless it runs out of units first. Once it has moved, the
/// number is not below one, where division rounds to a nearest number.
pub proof fn lemma_scaled(a: Arithmetic, time: Float64, unit: Seq<char>)
    requires
        known_unit(unit),
    ensures
        ({
            let shown = time_in(a, time, unit)->0;
            let n = larger_units(unit) - units_above(shown);
            &&& n >= 0
            &&& shown.number() == divided(a, time, n as nat)
            &&& forall|k: nat| k < n ==> (#[trigger] divided(a, time, k)).above(thousand())
            &&& shown is Second || !shown.number().above(thousand())
            &&& rounds_quotients(a) && n > 0 ==> !shown.number().nan() && shown.number().value()
                >= one().value()
        }),
{
    lemma_unit_names();
    let d0 = divided(a, time, 0);
    let d1 = divided(a, time, 1);
    let d2 = divided(a, time, 2);
    let d3 = divided(a, time, 3);
    let d4 = divided(a, time, 4);
    assert(d0 == time);
    assert(d1 == (a.divide)(d0, thousand()));
    assert(d2 == (a.divide)(d1, thousand()));
    assert(d3 == (a.divide)(d2, thousand()));
    assert(d4 == (a.divide)(d3, thousand()));
    if rounds_quotients(a) && d0.above(thousand()) {
        lemma_next_unit(a, d0);
    }
    if rounds_quotients(a) && d1.above(thousand()) {
        lemma_next_unit(a, d1);
    }
    if rounds_quotients(a) && d2.above(thousand()) {
        lemma_next_unit(a, d2);
    }
    if rounds_quotients(a) && d3.above(thousand()) {
        lemma_next_unit(a, d3);
    }
    let shown = time_in(a, time, unit)->0;
    let n = larger_units(unit) - units_above(shown);
    assert forall|k: nat| k < n implies (#[trigger] divided(a, time, k)).above(thousand()) by {
        assert(k == 0 || k == 1 || k == 2 || k == 3);
    }
}

/// Where the reciprocal of a number is a number, division finds it.
pub proof fn lemma_reciprocal(a: Arithmetic, x: Float64, y: Float64)
    requires
        rounds_quotients(a),
        finite(x),
        finite(y),
        x.value() > 0,
        y.value() > 0,
        x.value() * y.value() == pow2(1074) * pow2(1074),
    ensures
        (a.divide)(one(), x) == y,
{
    let p = pow2(1074) as int;
    let r = (a.divide)(one(), x);
    lemma_constants();
    lemma_pow2_pos(1074);
    lemma_largest(y);
    let (v, w, m) = (x.value(), y.value(), largest().value());
    assert(p * p >= 0 && p * p <= v * m) by (nonlinear_arith)
        requires
            p * p == v * w,
            0 < v,
            w <= m,
    ;
    assert(in_range(p * p, v));
    assert(nearest(p * p, v, r));
    assert(w * v == v * w) by (nonlinear_arith);
    assert(miss(p * p, v, y) == 0);
    assert(miss(p * p, v, r) <= 0);
    let u = r.value();
    assert(u == w) by (nonlinear_arith)
        requires
            u * v == w * v,
            v > 0,
    ;
    lemma_units_order(r.magnitude(), y.magnitude());
    lemma_units_order(y.magnitude(), r.magnitude());
}

/// Two to the power of `k`.
pub open spec fn power_of_two(k: int) -> Float64 {
    if k == -1023 {
        Float64 { bits: 0x8_0000_0000_0000 }
    } else {
        Float64 { bits: ((1023 + k) * EXPONENT_UNIT) as u64 }
    }
}

/// The bit patterns of powers of two stand for powers of two.
pub proof fn lemma_power_of_two(k: int)
    requires
        -1023 <= k <= 1023,
    ensures
        finite(power_of_two(k)),
        power_of_two(k).value() == pow2((1074 + k) as nat),
{
    lemma2_to64();
    lemma2_to64_rest();
    if k > -1023 {
        let unit = EXPONENT_UNIT as nat;
        let e = (1023 + k) as nat;
        let bits = e * unit;
        assert(bits / unit == e && bits % unit == 0 && bits <= 2046 * unit) by (nonlinear_arith)
            requires
                bits == e * unit,
                0 < e <= 2046,
                unit == 0x10_0000_0000_0000,
        ;
        lemma_pow2_adds(52, (e - 1) as nat);
        assert(units(bits) == pow2((1074 + k) as nat));
    }
}

/// One power of two, taken as a comparison, is as many times faster as its reciprocal is slower.
pub proof fn lemma_faster_and_slower(a: Arithmetic, k: int)
    requires
        rounds_quotients(a),
        1 <= k <= 1023,
    ensures
        Comparison(power_of_two(k)).text(a) == (a.show)(power_of_two(k)) + "x faster"@,
        Comparison(power_of_two(-k)).text(a) == (a.show)(power_of_two(k)) + "x slower"@,
{
    let x = power_of_two(k);
    let y = power_of_two(-k);
    lemma_constants();
    lemma_power_of_two(k);
    lemma_power_of_two(-k);
    lemma_pow2_strictly_increases(1074, (1074 + k) as nat);
    lemma_pow2_strictly_increases((1074 - k) as nat, 1074);
    lemma_pow2_pos((1074 - k) as nat);
    lemma_pow2_adds((1074 + k) as nat, (1074 - k) as nat);
    lemma_pow2_adds(1074, 1074);
    let (v, w) = (x.value(), y.value());
    assert(w * v == v * w) by (nonlinear_arith);
    lemma_reciprocal(a, y, x);
}

} // verus!
