//! Measured times, and how they compare.
use crate::error::TableError;
use crate::error::TableErrorView;
use crate::float::Arithmetic;
use crate::float::Float64;
use crate::float::FloatOps;
use crate::float::BILLION_BITS;
use crate::float::MILLION_BITS;
use crate::float::ONE_BITS;
use crate::float::THOUSAND_BITS;
use crate::float::TRILLION_BITS;
use crate::rounding::lemma_scaled;
use crate::rounding::rounds_products;
use crate::rounding::rounds_quotients;
use crate::rounding::units_above;
use crate::text::same;
use vstd::prelude::*;

verus! {

/// A time in the unit that it is shown in.
#[derive(Clone, Copy, Debug)]
pub enum TimeUnit {
    Second(Float64),
    Millisecond(Float64),
    Microsecond(Float64),
    Nanosecond(Float64),
    Picosecond(Float64),
}

/// The number 1.
pub open spec fn one() -> Float64 {
    Float64 { bits: ONE_BITS }
}

/// The number of each unit that makes up one of the next larger unit.
pub open spec fn thousand() -> Float64 {
    Float64 { bits: THOUSAND_BITS }
}

/// A time given in milliseconds, in the unit that it is shown in.
pub open spec fn from_milliseconds(a: Arithmetic, time: Float64) -> TimeUnit {
    if time.above(thousand()) {
        TimeUnit::Second((a.divide)(time, thousand()))
    } else {
        TimeUnit::Millisecond(time)
    }
}

/// A time given in microseconds, in the unit that it is shown in.
pub open spec fn from_microseconds(a: Arithmetic, time: Float64) -> TimeUnit {
    if time.above(thousand()) {
        from_milliseconds(a, (a.divide)(time, thousand()))
    } else {
        TimeUnit::Microsecond(time)
    }
}

/// A time given in nanoseconds, in the unit that it is shown in.
pub open spec fn from_nanoseconds(a: Arithmetic, time: Float64) -> TimeUnit {
    if time.above(thousand()) {
        from_microseconds(a, (a.divide)(time, thousand()))
    } else {
        TimeUnit::Nanosecond(time)
    }
}

/// A time given in picoseconds, in the unit that it is shown in.
pub open spec fn from_picoseconds(a: Arithmetic, time: Float64) -> TimeUnit {
    if time.above(thousand()) {
        from_nanoseconds(a, (a.divide)(time, thousand()))
    } else {
        TimeUnit::Picosecond(time)
    }
}

/// A time given in the named unit, in the unit that it is shown in; `None` for a name that is
/// not a unit's.
pub open spec fn time_in(a: Arithmetic, time: Float64, unit: Seq<char>) -> Option<TimeUnit> {
    if unit == "s"@ {
        Some(TimeUnit::Second(time))
    } else if unit == "ms"@ {
        Some(from_milliseconds(a, time))
    } else if unit == "us"@ {
        Some(from_microseconds(a, time))
    } else if unit == "ns"@ {
        Some(from_nanoseconds(a, time))
    } else if unit == "ps"@ {
        Some(from_picoseconds(a, time))
    } else {
        None
    }
}

/// Whether the text names a time unit.
pub open spec fn known_unit(unit: Seq<char>) -> bool {
    unit == "s"@ || unit == "ms"@ || unit == "us"@ || unit == "ns"@ || unit == "ps"@
}

/// No two units have one name.
pub proof fn lemma_unit_names()
    ensures
        "s"@ != "ms"@ && "s"@ != "us"@ && "s"@ != "ns"@ && "s"@ != "ps"@,
        "ms"@ != "us"@ && "ms"@ != "ns"@ && "ms"@ != "ps"@,
        "us"@ != "ns"@ && "us"@ != "ps"@,
        "ns"@ != "ps"@,
{
    reveal_strlit("s");
    reveal_strlit("ms");
    reveal_strlit("us");
    reveal_strlit("ns");
    reveal_strlit("ps");
    assert("ms"@[0] == 'm' && "us"@[0] == 'u' && "ns"@[0] == 'n' && "ps"@[0] == 'p');
}

/// How many units are larger than the named one.
pub open spec fn larger_units(unit: Seq<char>) -> nat {
    if unit == "s"@ {
        0
    } else if unit == "ms"@ {
        1
    } else if unit == "us"@ {
        2
    } else if unit == "ns"@ {
        3
    } else {
        4
    }
}

impl TimeUnit {
    /// The number that is shown.
    pub open spec fn number(self) -> Float64 {
        match self {
            TimeUnit::Second(time) => time,
            TimeUnit::Millisecond(time) => time,
            TimeUnit::Microsecond(time) => time,
            TimeUnit::Nanosecond(time) => time,
            TimeUnit::Picosecond(time) => time,
        }
    }

    /// What is shown: the number, a space and the unit's name.
    pub open spec fn text(self, a: Arithmetic) -> Seq<char> {
        match self {
            TimeUnit::Second(time) => (a.show)(time) + " s"@,
            TimeUnit::Millisecond(time) => (a.show)(time) + " ms"@,
            TimeUnit::Microsecond(time) => (a.show)(time) + " us"@,
            TimeUnit::Nanosecond(time) => (a.show)(time) + " ns"@,
            TimeUnit::Picosecond(time) => (a.show)(time) + " ps"@,
        }
    }

    /// The time as a number of picoseconds.
    pub open spec fn picoseconds(self, a: Arithmetic) -> Float64 {
        match self {
            TimeUnit::Second(s) => (a.multiply)(s, Float64 { bits: TRILLION_BITS }),
            TimeUnit::Millisecond(ms) => (a.multiply)(ms, Float64 { bits: BILLION_BITS }),
            TimeUnit::Microsecond(us) => (a.multiply)(us, Float64 { bits: MILLION_BITS }),
            TimeUnit::Nanosecond(ns) => (a.multiply)(ns, Float64 { bits: THOUSAND_BITS }),
            TimeUnit::Picosecond(ps) => ps,
        }
    }

    /// How many times `other` goes into this time.
    pub open spec fn over(self, other: TimeUnit, a: Arithmetic) -> Float64 {
        (a.divide)(self.picoseconds(a), other.picoseconds(a))
    }

    /// Reads a time that is given in the named unit. A number above one thousand moves to the
    /// next larger unit, as long as there is one; where the operations round to a nearest
    /// number, it is not below one then.
    pub fn try_new<
        D: Fn(Float64, Float64) -> Float64,
        M: Fn(Float64, Float64) -> Float64,
        S: Fn(Float64) -> String,
    >(time: Float64, unit: &str, ops: &FloatOps<D, M, S>) -> (result: Result<TimeUnit, TableError>)
        requires
            ops.valid(),
        ensures
            result is Ok <==> known_unit(unit@),
            forall|a: Arithmetic| #[trigger]
                ops.follows(a) ==> (match result {
                    Ok(time_unit) => time_in(a, time, unit@) == Some(time_unit),
                    Err(_) => time_in(a, time, unit@) is None,
                }),
            result matches Err(error) ==> error@ == TableErrorView::UnrecognizedUnit(unit@),
            result matches Ok(shown) ==> ops.round() && units_above(shown) < larger_units(unit@)
                ==> !shown.number().nan() && shown.number().value() >= one().value(),
        decreases larger_units(unit@),
    {
        proof {
            lemma_unit_names();
            if ops.round() && known_unit(unit@) {
                let a = choose|a: Arithmetic| #[trigger]
                    ops.follows(a) && rounds_quotients(a) && rounds_products(a);
                lemma_scaled(a, time, unit@);
            }
        }
        let limit = Float64 { bits: THOUSAND_BITS };
        let scale = time.exceeds(limit);
        if same(unit, "ms") && scale {
            TimeUnit::try_new(ops.divide(time, limit), "s", ops)
        } else if same(unit, "us") && scale {
            TimeUnit::try_new(ops.divide(time, limit), "ms", ops)
        } else if same(unit, "ns") && scale {
            TimeUnit::try_new(ops.divide(time, limit), "us", ops)
        } else if same(unit, "ps") && scale {
            TimeUnit::try_new(ops.divide(time, limit), "ns", ops)
        } else if same(unit, "s") {
            Ok(TimeUnit::Second(time))
        } else if same(unit, "ms") {
            Ok(TimeUnit::Millisecond(time))
        } else if same(unit, "us") {
            Ok(TimeUnit::Microsecond(time))
        } else if same(unit, "ns") {
            Ok(TimeUnit::Nanosecond(time))
        } else if same(unit, "ps") {
            Ok(TimeUnit::Picosecond(time))
        } else {
            Err(TableError::UnrecognizedUnit(unit.to_owned()))
        }
    }

    /// What is shown: the number, a space and the unit's name.
    pub fn to_flex_str<
        D: Fn(Float64, Float64) -> Float64,
        M: Fn(Float64, Float64) -> Float64,
        S: Fn(Float64) -> String,
    >(&self, ops: &FloatOps<D, M, S>) -> (text: String)
        requires
            ops.valid(),
        ensures
            2 * text@.len() + 10 <= usize::MAX,
            forall|a: Arithmetic| #[trigger] ops.follows(a) ==> text@ == self.text(a),
    {
        proof {
            reveal_strlit(" s");
            reveal_strlit(" ms");
            reveal_strlit(" us");
            reveal_strlit(" ns");
            reveal_strlit(" ps");
        }
        match *self {
            TimeUnit::Second(time) => ops.show(time).concat(" s"),
            TimeUnit::Millisecond(time) => ops.show(time).concat(" ms"),
            TimeUnit::Microsecond(time) => ops.show(time).concat(" us"),
            TimeUnit::Nanosecond(time) => ops.show(time).concat(" ns"),
            TimeUnit::Picosecond(time) => ops.show(time).concat(" ps"),
        }
    }

    /// The number of characters that are shown.
    pub fn width<
        D: Fn(Float64, Float64) -> Float64,
        M: Fn(Float64, Float64) -> Float64,
        S: Fn(Float64) -> String,
    >(&self, ops: &FloatOps<D, M, S>) -> (width: usize)
        requires
            ops.valid(),
        ensures
            2 * width + 10 <= usize::MAX,
            forall|a: Arithmetic| #[trigger] ops.follows(a) ==> width == self.text(a).len(),
    {
        self.to_flex_str(ops).as_str().unicode_len()
    }

    /// The time as a number of picoseconds.
    pub fn as_picoseconds<
        D: Fn(Float64, Float64) -> Float64,
        M: Fn(Float64, Float64) -> Float64,
        S: Fn(Float64) -> String,
    >(&self, ops: &FloatOps<D, M, S>) -> (number: Float64)
        requires
            ops.valid(),
        ensures
            forall|a: Arithmetic| #[trigger] ops.follows(a) ==> number == self.picoseconds(a),
    {
        match *self {
            TimeUnit::Second(s) => ops.multiply(s, Float64 { bits: TRILLION_BITS }),
            TimeUnit::Millisecond(ms) => ops.multiply(ms, Float64 { bits: BILLION_BITS }),
            TimeUnit::Microsecond(us) => ops.multiply(us, Float64 { bits: MILLION_BITS }),
            TimeUnit::Nanosecond(ns) => ops.multiply(ns, Float64 { bits: THOUSAND_BITS }),
            TimeUnit::Picosecond(ps) => ps,
        }
    }

    /// How many times `rhs` goes into this time.
    pub fn div<
        D: Fn(Float64, Float64) -> Float64,
        M: Fn(Float64, Float64) -> Float64,
        S: Fn(Float64) -> String,
    >(self, rhs: TimeUnit, ops: &FloatOps<D, M, S>) -> (ratio: Float64)
        requires
            ops.valid(),
        ensures
            forall|a: Arithmetic| #[trigger] ops.follows(a) ==> ratio == self.over(rhs, a),
    {
        let unit1 = self.as_picoseconds(ops);
        let unit2 = rhs.as_picoseconds(ops);
        ops.divide(unit1, unit2)
    }
}

/// How many times as fast one time is as another.
#[derive(Clone, Copy, Debug)]
pub struct Comparison(pub Float64);

impl Default for Comparison {
    fn default() -> (comparison: Comparison)
        ensures
            comparison == Comparison(Float64 { bits: 0 }),
    {
        Comparison(Float64 { bits: 0 })
    }
}

impl Comparison {
    /// What is shown: how many times faster or slower, or, where it is neither, the number
    /// alone.
    pub open spec fn text(self, a: Arithmetic) -> Seq<char> {
        if self.0.above(one()) {
            (a.show)(self.0) + "x faster"@
        } else if one().above(self.0) {
            (a.show)((a.divide)(one(), self.0)) + "x slower"@
        } else {
            (a.show)(self.0) + "x"@
        }
    }

    /// What is shown: how many times faster or slower, or, where it is neither, the number
    /// alone.
    pub fn to_flex_str<
        D: Fn(Float64, Float64) -> Float64,
        M: Fn(Float64, Float64) -> Float64,
        S: Fn(Float64) -> String,
    >(&self, ops: &FloatOps<D, M, S>) -> (text: String)
        requires
            ops.valid(),
        ensures
            2 * text@.len() <= usize::MAX,
            forall|a: Arithmetic| #[trigger] ops.follows(a) ==> text@ == self.text(a),
    {
        proof {
            reveal_strlit("x faster");
            reveal_strlit("x slower");
            reveal_strlit("x");
        }
        let even = Float64 { bits: ONE_BITS };
        if self.0.exceeds(even) {
            ops.show(self.0).concat("x faster")
        } else if even.exceeds(self.0) {
            ops.show(ops.divide(even, self.0)).concat("x slower")
        } else {
            ops.show(self.0).concat("x")
        }
    }

    /// The number of characters that are shown.
    pub fn width<
        D: Fn(Float64, Float64) -> Float64,
        M: Fn(Float64, Float64) -> Float64,
        S: Fn(Float64) -> String,
    >(self, ops: &FloatOps<D, M, S>) -> (width: usize)
        requires
            ops.valid(),
        ensures
            2 * width <= usize::MAX,
            forall|a: Arithmetic| #[trigger] ops.follows(a) ==> width == self.text(a).len(),
    {
        self.to_flex_str(ops).as_str().unicode_len()
    }
}

/// Exactly the known units can be read. A time that is shown in any unit but the second is not
/// above one thousand.
pub proof fn lemma_shown_unit(a: Arithmetic, time: Float64, unit: Seq<char>)
    ensures
        time_in(a, time, unit) is Some <==> known_unit(unit),
        time_in(a, time, unit) matches Some(shown) ==> shown is Second || !shown.number().above(
            thousand(),
        ),
{
}

/// A time that is not above one thousand is shown in the unit that it is given in.
pub proof fn lemma_unit_kept(a: Arithmetic, time: Float64)
    requires
        !time.above(thousand()),
    ensures
        time_in(a, time, "s"@) == Some(TimeUnit::Second(time)),
        time_in(a, time, "ms"@) == Some(TimeUnit::Millisecond(time)),
        time_in(a, time, "us"@) == Some(TimeUnit::Microsecond(time)),
        time_in(a, time, "ns"@) == Some(TimeUnit::Nanosecond(time)),
        time_in(a, time, "ps"@) == Some(TimeUnit::Picosecond(time)),
{
    lemma_unit_names();
}

} // verus!
