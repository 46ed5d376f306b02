//! How times compare, told from the times that were measured, whatever units they are shown in.
use crate::duration::lemma_duration_kept;
use crate::duration::lemma_precision;
use crate::duration::picoseconds_in;
use crate::duration::PRECISION;
use crate::float::Arithmetic;
use crate::float::Float64;
use crate::labels::lemma_comparison_text;
use crate::rounding::distance;
use crate::rounding::finite;
use crate::rounding::in_range;
use crate::rounding::largest;
use crate::rounding::miss;
use crate::rounding::nearest;
use crate::rounding::rounds_products;
use crate::rounding::rounds_quotients;
use crate::table::compared;
use crate::time::known_unit;
use crate::time::lemma_unit_names;
use crate::time::time_in;
use crate::time::Comparison;
use crate::time::TimeUnit;
use vstd::arithmetic::power2::lemma2_to64;
use vstd::arithmetic::power2::lemma2_to64_rest;
use vstd::arithmetic::power2::lemma_pow2_adds;
use vstd::arithmetic::power2::lemma_pow2_pos;
use vstd::arithmetic::power2::lemma_pow2_strictly_increases;
use vstd::arithmetic::power2::pow2;
use vstd::prelude::*;

verus! {

/// How many picoseconds each unit has.
pub proof fn lemma_picoseconds_in()
    ensures
        picoseconds_in("ps"@) == 1,
        picoseconds_in("ns"@) == 1_000 * picoseconds_in("ps"@),
        picoseconds_in("us"@) == 1_000 * picoseconds_in("ns"@),
        picoseconds_in("ms"@) == 1_000 * picoseconds_in("us"@),
        picoseconds_in("s"@) == 1_000 * picoseconds_in("ms"@),
{
    lemma_unit_names();
}

/// A time as picoseconds is its number times the picoseconds that its unit has. How a time
/// compares is how often it goes into the first time of its row, both as picoseconds; the first
/// time itself is one time as fast.
pub proof fn lemma_compared(a: Arithmetic, time: TimeUnit, first: TimeUnit, number: Float64)
    ensures
        TimeUnit::Second(number).picoseconds(a) == (a.multiply)(
            number,
            Float64 { bits: 0x426d_1a94_a200_0000 },
        ),
        TimeUnit::Millisecond(number).picoseconds(a) == (a.multiply)(
            number,
            Float64 { bits: 0x41cd_cd65_0000_0000 },
        ),
        TimeUnit::Microsecond(number).picoseconds(a) == (a.multiply)(
            number,
            Float64 { bits: 0x412e_8480_0000_0000 },
        ),
        TimeUnit::Nanosecond(number).picoseconds(a) == (a.multiply)(
            number,
            Float64 { bits: 0x408f_4000_0000_0000 },
        ),
        TimeUnit::Picosecond(number).picoseconds(a) == number,
        first.over(time, a) == (a.divide)(first.picoseconds(a), time.picoseconds(a)),
        compared(a, time, Some(first)) == Comparison(
            (a.divide)(first.picoseconds(a), time.picoseconds(a)),
        ),
        compared(a, time, None) == Comparison(Float64 { bits: 0x3ff0_0000_0000_0000 }),
{
}

/// Whether two times are in known units, the first one not below zero and the later one above it,
/// twice each of them, in picoseconds, is in the range of the finite numbers, and neither is more
/// than two to the power of 1000 times the other, unless the first one is zero.
pub open spec fn comparable(
    first: Float64,
    first_unit: Seq<char>,
    later: Float64,
    later_unit: Seq<char>,
) -> bool {
    let x = first.value() * picoseconds_in(first_unit);
    let y = later.value() * picoseconds_in(later_unit);
    &&& known_unit(first_unit) && known_unit(later_unit)
    &&& finite(first) && finite(later)
    &&& 0 <= first.value()
    &&& 0 < later.value()
    &&& 2 * x <= largest().value()
    &&& 2 * y <= largest().value()
    &&& x <= y * pow2(1000)
    &&& first.value() == 0 || y <= x * pow2(1000)
}

/// The exact arithmetic behind [`lemma_ratio`]: `x` and `y` were read as `xr` and `yr`, and `r`
/// was rounded from their quotient.
proof fn lemma_errors(x: int, y: int, xr: int, yr: int, r: int, p: int)
    requires
        0 <= x,
        0 < y,
        0 < p,
        1_000_000_000_000_000 * distance(xr - x) <= x,
        1_000_000_000_000_000 * distance(yr - y) <= y,
        PRECISION * distance(xr * p - r * yr) <= xr * p,
    ensures
        100_000_000_000_000 * distance(r * y - x * p) <= x * p,
{
    let n: int = 1_000_000_000_000_000;
    // All in terms of the product of the first time and `p`.
    let xp = x * p;
    let xrp = xr * p;
    assert(n * distance(xrp - xp) <= xp && 0 <= xp) by (nonlinear_arith)
        requires
            n * distance(xr - x) <= x,
            0 <= x,
            0 < p,
            xp == x * p,
            xrp == xr * p,
    ;
    let ryr = r * yr;
    assert(9 * distance(xrp - ryr) <= distance(xrp) && n * distance(xrp - ryr) <= xrp)
        by (nonlinear_arith)
        requires
            PRECISION * distance(xrp - ryr) <= xrp,
            PRECISION == 0x20_0000_0000_0000,
            n == 1_000_000_000_000_000,
    ;
    assert(n * yr >= (n - 1) * y && yr > 0);
    let ry = r * y;
    assert(0 <= ryr);
    assert(0 <= r) by (nonlinear_arith)
        requires
            0 <= ryr,
            ryr == r * yr,
            yr > 0,
    ;
    assert(n * distance(ryr - ry) <= ry) by (nonlinear_arith)
        requires
            n * distance(yr - y) <= y,
            0 <= r,
            ryr == r * yr,
            ry == r * y,
    ;
}

/// Where division and multiplication round to a nearest number, the comparison of a time with
/// the first one of its row is how often the later time, as it was given, goes into the first
/// one, as it was given, up to one part in 10 to the power of 14, whatever the units.
pub proof fn lemma_ratio(
    a: Arithmetic,
    first: Float64,
    first_unit: Seq<char>,
    later: Float64,
    later_unit: Seq<char>,
)
    requires
        rounds_quotients(a),
        rounds_products(a),
        comparable(first, first_unit, later, later_unit),
    ensures
        ({
            let x = first.value() * picoseconds_in(first_unit);
            let y = later.value() * picoseconds_in(later_unit);
            let ratio = compared(
                a,
                time_in(a, later, later_unit)->0,
                Some(time_in(a, first, first_unit)->0),
            ).0;
            &&& finite(ratio)
            &&& 100_000_000_000_000 * distance(ratio.value() * y - x * pow2(1074)) <= x * pow2(1074)
        }),
{
    let p = pow2(1074) as int;
    let q = pow2(1000) as int;
    let k = picoseconds_in(first_unit);
    let l = picoseconds_in(later_unit);
    let x = first.value() * k;
    let y = later.value() * l;
    lemma_duration_kept(a, first, first_unit);
    lemma_duration_kept(a, later, later_unit);
    let u = time_in(a, first, first_unit)->0.picoseconds(a);
    let v = time_in(a, later, later_unit)->0.picoseconds(a);
    let (xr, yr) = (u.value(), v.value());
    let ratio = (a.divide)(u, v);
    assert(0 <= x && 0 < y && (first.value() == 0 ==> x == 0)) by (nonlinear_arith)
        requires
            x == first.value() * k,
            y == later.value() * l,
            0 <= first.value(),
            0 < later.value(),
            0 < k,
            0 < l,
    ;
    assert(0 <= xr <= 2 * x && x <= 2 * xr && 0 < yr <= 2 * y && y <= 2 * yr);
    lemma2_to64();
    lemma2_to64_rest();
    lemma_pow2_pos(1000);
    lemma_pow2_adds(1000, 60);
    lemma_pow2_adds(1060, 14);
    let g = pow2(60) as int;
    assert(p == q * g * 0x4000);
    let m = largest().value();
    lemma_large(p, q);
    assert(xr * p <= yr * m) by (nonlinear_arith)
        requires
            0 <= xr <= 2 * x,
            x <= y * q,
            0 < y <= 2 * yr,
            0 < p,
            0 < q,
            4 * q * p <= m,
    ;
    assert(0 <= xr * p) by (nonlinear_arith)
        requires
            0 <= xr,
            0 < p,
    ;
    assert(in_range(xr * p, yr));
    assert(nearest(xr * p, yr, ratio));
    if x > 0 {
        assert(yr * 0x10_0000_0000_0000 <= xr * p) by (nonlinear_arith)
            requires
                0 < yr <= 2 * y,
                y <= x * q,
                0 < x <= 2 * xr,
                0 < q,
                p == q * g * 0x4000,
                g == 0x1000_0000_0000_0000,
        ;
    } else {
        assert(xr * p == 0 && (xr * p) / yr == 0 && 0 * yr == 0) by (nonlinear_arith)
            requires
                xr == 0,
                yr > 0,
        ;
    }
    lemma_precision(xr * p, yr, ratio);
    assert(miss(xr * p, yr, ratio) == distance(xr * p - ratio.value() * yr));
    lemma_errors(x, y, xr, yr, ratio.value(), p);
}

/// The largest finite number leaves room for a quotient of the sort above.
proof fn lemma_large(p: int, q: int)
    requires
        p == pow2(1074),
        q == pow2(1000),
    ensures
        4 * q * p <= largest().value(),
{
    lemma2_to64();
    lemma_pow2_adds(1000, 1074);
    lemma_pow2_adds(2, 2074);
    lemma_pow2_strictly_increases(2076, 2045 + 52);
    lemma2_to64_rest();
    lemma_pow2_adds(52, 2045);
    let top = pow2(2045) as int;
    assert(largest().value() == 0x1f_ffff_ffff_ffff * top);
    assert(4 * q * p == 4 * (q * p)) by (nonlinear_arith);
}

/// A time that is clearly shorter than the first one of its row is shown as so many times faster,
/// and one that is clearly longer as so many times slower.
pub proof fn lemma_faster_or_slower(
    a: Arithmetic,
    first: Float64,
    first_unit: Seq<char>,
    later: Float64,
    later_unit: Seq<char>,
)
    requires
        rounds_quotients(a),
        rounds_products(a),
        comparable(first, first_unit, later, later_unit),
    ensures
        ({
            let x = first.value() * picoseconds_in(first_unit);
            let y = later.value() * picoseconds_in(later_unit);
            let shown = compared(
                a,
                time_in(a, later, later_unit)->0,
                Some(time_in(a, first, first_unit)->0),
            );
            &&& 10_000_000_000_000 * x > 10_000_000_000_001 * y ==> shown.text(a) == (a.show)(
                shown.0,
            ) + "x faster"@
            &&& 10_000_000_000_000 * y > 10_000_000_000_001 * x ==> shown.text(a) == (a.show)(
                (a.divide)(Float64 { bits: 0x3ff0_0000_0000_0000 }, shown.0),
            ) + "x slower"@
        }),
{
    lemma_ratio(a, first, first_unit, later, later_unit);
    let p = pow2(1074) as int;
    lemma_pow2_pos(1074);
    let x = first.value() * picoseconds_in(first_unit);
    let y = later.value() * picoseconds_in(later_unit);
    let shown = compared(
        a,
        time_in(a, later, later_unit)->0,
        Some(time_in(a, first, first_unit)->0),
    );
    let r = shown.0.value();
    lemma_comparison_text(a, shown.0);
    assert(0 < y && 0 <= x) by (nonlinear_arith)
        requires
            0 <= first.value(),
            0 < later.value(),
            0 < picoseconds_in(first_unit),
            0 < picoseconds_in(later_unit),
            x == first.value() * picoseconds_in(first_unit),
            y == later.value() * picoseconds_in(later_unit),
    ;
    let (xp, yp, ry) = (x * p, y * p, r * y);
    if 10_000_000_000_000 * x > 10_000_000_000_001 * y {
        assert(10_000_000_000_000 * xp > 10_000_000_000_001 * yp && 0 < yp) by (nonlinear_arith)
            requires
                10_000_000_000_000 * x > 10_000_000_000_001 * y,
                0 < p,
                0 < y,
                xp == x * p,
                yp == y * p,
        ;
        assert(ry > yp);
        assert(r > p) by (nonlinear_arith)
            requires
                ry > yp,
                ry == r * y,
                yp == y * p,
                0 < y,
        ;
    }
    if 10_000_000_000_000 * y > 10_000_000_000_001 * x {
        assert(10_000_000_000_000 * yp > 10_000_000_000_001 * xp && 0 <= xp) by (nonlinear_arith)
            requires
                10_000_000_000_000 * y > 10_000_000_000_001 * x,
                0 < p,
                0 <= x,
                xp == x * p,
                yp == y * p,
        ;
        assert(ry < yp);
        assert(r < p) by (nonlinear_arith)
            requires
                ry < yp,
                ry == r * y,
                yp == y * p,
                0 < y,
        ;
    }
}

} // verus!
