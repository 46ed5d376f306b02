//! What is written for a time, a comparison and an error.
use crate::duration::lemma_precision;
use crate::duration::PRECISION;
use crate::error::TableErrorView;
use crate::float::lemma_constants;
use crate::float::lemma_units_order;
use crate::float::Arithmetic;
use crate::float::Float64;
use crate::rounding::distance;
use crate::rounding::finite;
use crate::rounding::in_range;
use crate::rounding::miss;
use crate::rounding::nearest;
use crate::rounding::rounds_quotients;
use crate::rounding::units_above;
use crate::time::known_unit;
use crate::time::larger_units;
use crate::time::lemma_unit_names;
use crate::time::time_in;
use crate::time::Comparison;
use crate::time::TimeUnit;
use vstd::arithmetic::power2::lemma2_to64;
use vstd::arithmetic::power2::lemma2_to64_rest;
use vstd::arithmetic::power2::lemma_pow2_strictly_increases;
use vstd::arithmetic::power2::pow2;
use vstd::prelude::*;

verus! {

/// How numbers compare, told from their bits: the larger bits are the larger number, or the
/// smaller one where both signs are set; a positive number is above a negative one, but zero is
/// not above zero; and what is no number is not above anything, nor below it.
pub proof fn lemma_above_by_bits(x: Float64, y: Float64)
    ensures
        ({
            let sign = 0x8000_0000_0000_0000u64;
            let infinity = 0x7ff0_0000_0000_0000u64;
            let x_number = x.bits <= infinity || sign <= x.bits <= sign + infinity;
            let y_number = y.bits <= infinity || sign <= y.bits <= sign + infinity;
            x.above(y) <==> x_number && y_number && if x.bits < sign && y.bits < sign {
                x.bits > y.bits
            } else if x.bits >= sign && y.bits >= sign {
                x.bits < y.bits
            } else {
                x.bits < sign && (x.bits > 0 || y.bits > sign)
            }
        }),
{
    lemma_units_order(x.magnitude(), y.magnitude());
    lemma_units_order(y.magnitude(), x.magnitude());
    lemma_units_order(0, x.magnitude());
    lemma_units_order(0, y.magnitude());
}

/// A time that is not above one thousand keeps its unit, and any other one is that of the next
/// larger unit, with a thousandth of the number. Seconds are the largest unit. What is not one of
/// the five units' names gives no time.
pub proof fn lemma_unit_rule(a: Arithmetic, time: Float64, unit: Seq<char>)
    ensures
        ({
            let limit = Float64 { bits: 0x408f_4000_0000_0000 };
            let less = (a.divide)(time, limit);
            &&& time_in(a, time, "s"@) == Some(TimeUnit::Second(time))
            &&& time_in(a, time, "ms"@) == if time.above(limit) {
                time_in(a, less, "s"@)
            } else {
                Some(TimeUnit::Millisecond(time))
            }
            &&& time_in(a, time, "us"@) == if time.above(limit) {
                time_in(a, less, "ms"@)
            } else {
                Some(TimeUnit::Microsecond(time))
            }
            &&& time_in(a, time, "ns"@) == if time.above(limit) {
                time_in(a, less, "us"@)
            } else {
                Some(TimeUnit::Nanosecond(time))
            }
            &&& time_in(a, time, "ps"@) == if time.above(limit) {
                time_in(a, less, "ns"@)
            } else {
                Some(TimeUnit::Picosecond(time))
            }
            &&& limit.value() == 1_000 * pow2(1074)
            &&& time_in(a, time, unit) is None <==> unit != "s"@ && unit != "ms"@ && unit != "us"@
                && unit != "ns"@ && unit != "ps"@
        }),
{
    lemma_unit_names();
    lemma_constants();
}

/// A time is written as its number, a space and the name of the unit that it is in, whatever the
/// number is.
pub proof fn lemma_time_text(a: Arithmetic, number: Float64)
    ensures
        TimeUnit::Second(number).text(a) == (a.show)(number).push(' ') + "s"@,
        TimeUnit::Millisecond(number).text(a) == (a.show)(number).push(' ') + "ms"@,
        TimeUnit::Microsecond(number).text(a) == (a.show)(number).push(' ') + "us"@,
        TimeUnit::Nanosecond(number).text(a) == (a.show)(number).push(' ') + "ns"@,
        TimeUnit::Picosecond(number).text(a) == (a.show)(number).push(' ') + "ps"@,
{
    reveal_strlit("s");
    reveal_strlit("ms");
    reveal_strlit("us");
    reveal_strlit("ns");
    reveal_strlit("ps");
    reveal_strlit(" s");
    reveal_strlit(" ms");
    reveal_strlit(" us");
    reveal_strlit(" ns");
    reveal_strlit(" ps");
    let shown = (a.show)(number);
    assert(shown + " s"@ =~= shown.push(' ') + "s"@);
    assert(shown + " ms"@ =~= shown.push(' ') + "ms"@);
    assert(shown + " us"@ =~= shown.push(' ') + "us"@);
    assert(shown + " ns"@ =~= shown.push(' ') + "ns"@);
    assert(shown + " ps"@ =~= shown.push(' ') + "ps"@);
}

/// A time that is not above one thousand is written as it was given: with its number, and the
/// name of the unit that it was given in. Seconds are written so whatever the number is.
pub proof fn lemma_written_as_given(a: Arithmetic, time: Float64, unit: Seq<char>)
    requires
        time_in(a, time, unit) is Some,
        unit == "s"@ || !time.above(Float64 { bits: 0x408f_4000_0000_0000 }),
    ensures
        time_in(a, time, unit)->0.text(a) == (a.show)(time).push(' ') + unit,
{
    lemma_unit_rule(a, time, unit);
    lemma_time_text(a, time);
}

/// The name of the unit in which a time is written is that of the unit in which it is: a time
/// that was read as being in the same unit from some name is written with that name.
pub proof fn lemma_same_unit_same_name(
    a: Arithmetic,
    time: TimeUnit,
    other: Float64,
    unit: Seq<char>,
)
    requires
        !other.above(Float64 { bits: 0x408f_4000_0000_0000 }),
        time_in(a, other, unit) matches Some(read) && {
            &&& read is Second == time is Second
            &&& read is Millisecond == time is Millisecond
            &&& read is Microsecond == time is Microsecond
            &&& read is Nanosecond == time is Nanosecond
        },
    ensures
        time.text(a) == (a.show)(
            match time {
                TimeUnit::Second(number) => number,
                TimeUnit::Millisecond(number) => number,
                TimeUnit::Microsecond(number) => number,
                TimeUnit::Nanosecond(number) => number,
                TimeUnit::Picosecond(number) => number,
            },
        ).push(' ') + unit,
{
    lemma_unit_rule(a, other, unit);
    lemma_time_text(a, time.number());
}

/// A comparison above one is so many times faster; one below one is as many times slower as its
/// reciprocal says; any other one is neither.
pub proof fn lemma_comparison_text(a: Arithmetic, x: Float64)
    ensures
        ({
            let even = Float64 { bits: 0x3ff0_0000_0000_0000 };
            &&& even.value() == pow2(1074) && !even.nan()
            &&& x.above(even) ==> Comparison(x).text(a) == (a.show)(x) + "x faster"@
            &&& even.above(x) ==> Comparison(x).text(a) == (a.show)((a.divide)(even, x))
                + "x slower"@
            &&& !x.above(even) && !even.above(x) ==> Comparison(x).text(a) == (a.show)(x) + "x"@
        }),
{
    lemma_constants();
}

/// Where division rounds to a nearest number, what is below one is so many times slower that the
/// number is not below one, and that it makes up one with the comparison, up to one part in two
/// to the power of 53. This is so as long as the reciprocal is in the range of the finite numbers.
pub proof fn lemma_slower_by_reciprocal(a: Arithmetic, x: Float64) -> (q: Float64)
    requires
        rounds_quotients(a),
        finite(x),
        0 < x.value() < pow2(1074),
        in_range((pow2(1074) * pow2(1074)) as int, x.value()),
    ensures
        Comparison(x).text(a) == (a.show)(q) + "x slower"@,
        finite(q),
        q.value() >= pow2(1074),
        PRECISION * distance(pow2(1074) * pow2(1074) - q.value() * x.value()) <= pow2(1074) * pow2(
            1074,
        ),
{
    let even = Float64 { bits: 0x3ff0_0000_0000_0000 };
    let q = (a.divide)(even, x);
    let p = pow2(1074) as int;
    let v = x.value();
    let r = q.value();
    lemma_comparison_text(a, x);
    lemma2_to64();
    lemma2_to64_rest();
    lemma_pow2_strictly_increases(52, 1074);
    assert(finite(even));
    assert(nearest(p * p, v, q));
    assert(0 <= p * p && v * 0x10_0000_0000_0000 <= p * p && p * p - p * v > 0) by (nonlinear_arith)
        requires
            0 < v < p,
            0x10_0000_0000_0000 <= p,
    ;
    lemma_precision(p * p, v, q);
    assert(miss(p * p, v, q) <= miss(p * p, v, even));
    if r < p {
        assert(r * v < p * v) by (nonlinear_arith)
            requires
                r < p,
                0 < v,
        ;
    }
    q
}

/// What is said of an error names what is wrong.
pub proof fn lemma_error_messages(text: Seq<char>)
    ensures
        TableErrorView::MalformedId(text).message() == "Malformed id: "@ + text,
        TableErrorView::UnrecognizedUnit(text).message() == "Unrecognized time unit: "@ + text,
        TableErrorView::DuplicateColumn(text).message() == "Duplicate column: "@ + text,
{
}

/// The units, from the largest to the smallest, with how many are larger than each.
pub proof fn lemma_units_in_order(number: Float64, unit: Seq<char>)
    ensures
        larger_units("s"@) == 0 && units_above(TimeUnit::Second(number)) == 0,
        larger_units("ms"@) == 1 && units_above(TimeUnit::Millisecond(number)) == 1,
        larger_units("us"@) == 2 && units_above(TimeUnit::Microsecond(number)) == 2,
        larger_units("ns"@) == 3 && units_above(TimeUnit::Nanosecond(number)) == 3,
        larger_units("ps"@) == 4 && units_above(TimeUnit::Picosecond(number)) == 4,
        TimeUnit::Second(number).number() == number,
        TimeUnit::Millisecond(number).number() == number,
        TimeUnit::Microsecond(number).number() == number,
        TimeUnit::Nanosecond(number).number() == number,
        TimeUnit::Picosecond(number).number() == number,
        known_unit(unit) <==> unit == "s"@ || unit == "ms"@ || unit == "us"@ || unit == "ns"@
            || unit == "ps"@,
{
    lemma_unit_names();
}

} // verus!
