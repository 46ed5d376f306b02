//! Double-precision numbers, held by their bit patterns, and the arithmetic done on them.
//!
//! The library compares numbers itself. It leaves division, multiplication and printing to
//! the operations in a [`FloatOps`], which work on the machine's own floating-point type.
use vstd::arithmetic::mul::lemma_mul_inequality;
use vstd::arithmetic::mul::lemma_mul_strict_inequality;
use vstd::arithmetic::power2::lemma_pow2_adds;
use vstd::arithmetic::power2::lemma_pow2_pos;
use vstd::arithmetic::power2::lemma_pow2_strictly_increases;
use vstd::arithmetic::power2::lemma2_to64;
use vstd::arithmetic::power2::lemma2_to64_rest;
use vstd::arithmetic::power2::pow2;
use vstd::prelude::*;

verus! {

/// The bit pattern of 1.0.
pub const ONE_BITS: u64 = 0x3ff0_0000_0000_0000;

/// The bit pattern of 1 000.0.
pub const THOUSAND_BITS: u64 = 0x408f_4000_0000_0000;

/// The bit pattern of 1 000 000.0.
pub const MILLION_BITS: u64 = 0x412e_8480_0000_0000;

/// The bit pattern of 1 000 000 000.0.
pub const BILLION_BITS: u64 = 0x41cd_cd65_0000_0000;

/// The bit pattern of 1 000 000 000 000.0.
pub const TRILLION_BITS: u64 = 0x426d_1a94_a200_0000;

/// The bit that holds the sign.
pub const SIGN_BIT: u64 = 0x8000_0000_0000_0000;

/// The bit pattern of positive infinity. Larger magnitudes are not numbers.
pub const INFINITY_BITS: u64 = 0x7ff0_0000_0000_0000;

/// The weight of the exponent field's lowest bit.
pub const EXPONENT_UNIT: u64 = 0x10_0000_0000_0000;

/// An IEEE 754 double-precision number, held by its bit pattern. Two of them are equal where
/// their bits are.
#[derive(Clone, Copy, Debug, PartialEq, Eq, Structural)]
pub struct Float64 {
    pub bits: u64,
}

/// The distance from zero of the number with these bits below the sign, in units of the
/// smallest positive number, two to the power of minus 1074. Infinity counts as the power of
/// two that comes after the largest finite number.
pub open spec fn units(magnitude: nat) -> nat {
    let exponent = magnitude / EXPONENT_UNIT as nat;
    let fraction = magnitude % EXPONENT_UNIT as nat;
    if exponent == 0 {
        fraction
    } else {
        (EXPONENT_UNIT + fraction) as nat * pow2((exponent - 1) as nat)
    }
}

impl Float64 {
    /// Whether the sign bit is set.
    pub open spec fn negative(self) -> bool {
        self.bits >= SIGN_BIT
    }

    /// The bits below the sign.
    pub open spec fn magnitude(self) -> nat {
        if self.negative() {
            (self.bits - SIGN_BIT) as nat
        } else {
            self.bits as nat
        }
    }

    /// Whether the bits stand for no number at all.
    pub open spec fn nan(self) -> bool {
        self.magnitude() > INFINITY_BITS
    }

    /// The number's value, in units of two to the power of minus 1074.
    pub open spec fn value(self) -> int {
        if self.negative() {
            -(units(self.magnitude()) as int)
        } else {
            units(self.magnitude()) as int
        }
    }

    /// `a > b`, as floating-point numbers compare: false where either is not a number.
    pub open spec fn above(self, other: Float64) -> bool {
        !self.nan() && !other.nan() && self.value() > other.value()
    }

    /// Whether this number is greater than `other`. Nothing is greater than a value that is
    /// not a number, nor is such a value greater than anything.
    pub fn exceeds(self, other: Float64) -> (result: bool)
        ensures
            result == self.above(other),
    {
        let left_negative = self.bits >= SIGN_BIT;
        let right_negative = other.bits >= SIGN_BIT;
        let left: u64 = if left_negative {
            self.bits - SIGN_BIT
        } else {
            self.bits
        };
        let right: u64 = if right_negative {
            other.bits - SIGN_BIT
        } else {
            other.bits
        };
        proof {
            lemma_units_order(left as nat, right as nat);
            lemma_units_order(right as nat, left as nat);
            lemma_units_order(0, left as nat);
            lemma_units_order(0, right as nat);
        }
        if left > INFINITY_BITS || right > INFINITY_BITS {
            false
        } else if left_negative {
            right_negative && left < right
        } else if right_negative {
            left > 0 || right > 0
        } else {
            left > right
        }
    }
}

/// What a set of operations computes: each is a function of its operands.
pub ghost struct Arithmetic {
    /// The quotient of two numbers.
    pub divide: spec_fn(Float64, Float64) -> Float64,
    /// The product of two numbers.
    pub multiply: spec_fn(Float64, Float64) -> Float64,
    /// A number's decimal text, with two digits after the point.
    pub show: spec_fn(Float64) -> Seq<char>,
}

/// The floating-point operations that the library leaves to its caller.
pub struct FloatOps<D, M, S> {
    /// The quotient of two numbers.
    pub divide: D,
    /// The product of two numbers.
    pub multiply: M,
    /// A number's decimal text, with two digits after the point.
    pub show: S,
}

impl<
    D: Fn(Float64, Float64) -> Float64,
    M: Fn(Float64, Float64) -> Float64,
    S: Fn(Float64) -> String,
> FloatOps<D, M, S> {
    /// Whether the operations compute what `arithmetic` says, wherever they return.
    pub open spec fn follows(&self, arithmetic: Arithmetic) -> bool {
        &&& forall|a: Float64, b: Float64, r: Float64| #[trigger]
            call_ensures(self.divide, (a, b), r) ==> r == (arithmetic.divide)(a, b)
        &&& forall|a: Float64, b: Float64, r: Float64| #[trigger]
            call_ensures(self.multiply, (a, b), r) ==> r == (arithmetic.multiply)(a, b)
        &&& forall|a: Float64, r: String| #[trigger]
            call_ensures(self.show, (a,), r) ==> r@ == (arithmetic.show)(a)
    }

    /// Whether the operations can be called on every number, depend on their operands alone,
    /// and print texts that leave room, in a width, for a second one and a unit beside them.
    pub open spec fn valid(&self) -> bool {
        &&& forall|a: Float64, b: Float64| #[trigger] call_requires(self.divide, (a, b))
        &&& forall|a: Float64, b: Float64| #[trigger] call_requires(self.multiply, (a, b))
        &&& forall|a: Float64| #[trigger] call_requires(self.show, (a,))
        &&& forall|a: Float64, r: String| #[trigger]
            call_ensures(self.show, (a,), r) ==> 2 * r@.len() + 16 <= usize::MAX
        &&& exists|arithmetic: Arithmetic| #[trigger] self.follows(arithmetic)
    }

    /// The quotient of `a` by `b`.
    pub fn divide(&self, a: Float64, b: Float64) -> (quotient: Float64)
        requires
            self.valid(),
        ensures
            call_ensures(self.divide, (a, b), quotient),
            forall|arithmetic: Arithmetic| #[trigger]
                self.follows(arithmetic) ==> quotient == (arithmetic.divide)(a, b),
    {
        (self.divide)(a, b)
    }

    /// The product of `a` and `b`.
    pub fn multiply(&self, a: Float64, b: Float64) -> (product: Float64)
        requires
            self.valid(),
        ensures
            call_ensures(self.multiply, (a, b), product),
            forall|arithmetic: Arithmetic| #[trigger]
                self.follows(arithmetic) ==> product == (arithmetic.multiply)(a, b),
    {
        (self.multiply)(a, b)
    }

    /// The decimal text of `a`.
    pub fn show(&self, a: Float64) -> (text: String)
        requires
            self.valid(),
        ensures
            2 * text@.len() + 16 <= usize::MAX,
            call_ensures(self.show, (a,), text),
            forall|arithmetic: Arithmetic| #[trigger]
                self.follows(arithmetic) ==> text@ == (arithmetic.show)(a),
    {
        (self.show)(a)
    }
}

/// The constants stand for the numbers that they are named after.
pub proof fn lemma_constants()
    ensures
        (Float64 { bits: ONE_BITS }).value() == pow2(1074),
        (Float64 { bits: THOUSAND_BITS }).value() == 1_000 * pow2(1074),
        (Float64 { bits: MILLION_BITS }).value() == 1_000_000 * pow2(1074),
        (Float64 { bits: BILLION_BITS }).value() == 1_000_000_000 * pow2(1074),
        (Float64 { bits: TRILLION_BITS }).value() == 1_000_000_000_000 * pow2(1074),
        !(Float64 { bits: ONE_BITS }).nan(),
        !(Float64 { bits: THOUSAND_BITS }).nan(),
        !(Float64 { bits: MILLION_BITS }).nan(),
        !(Float64 { bits: BILLION_BITS }).nan(),
        !(Float64 { bits: TRILLION_BITS }).nan(),
{
    lemma2_to64();
    lemma2_to64_rest();
    lemma_pow2_adds(52, 1022);
    lemma_pow2_adds(43, 1031);
    lemma_pow2_adds(33, 1041);
    lemma_pow2_adds(23, 1051);
    lemma_pow2_adds(13, 1061);
    let p1 = pow2(1031);
    let p2 = pow2(1041);
    let p3 = pow2(1051);
    let p4 = pow2(1061);
    assert(units(THOUSAND_BITS as nat) == (1_000 * 0x800_0000_0000) as nat * p1);
    assert(units(MILLION_BITS as nat) == (1_000_000 * 0x2_0000_0000) as nat * p2);
    assert(units(BILLION_BITS as nat) == (1_000_000_000 * 0x80_0000) as nat * p3);
    assert(units(TRILLION_BITS as nat) == (1_000_000_000_000 * 0x2000) as nat * p4);
    assert((1_000 * 0x800_0000_0000) as nat * p1 == 1_000 * (0x800_0000_0000nat * p1))
        by (nonlinear_arith);
    assert((1_000_000 * 0x2_0000_0000) as nat * p2 == 1_000_000 * (0x2_0000_0000nat * p2))
        by (nonlinear_arith);
    assert((1_000_000_000 * 0x80_0000) as nat * p3 == 1_000_000_000 * (0x80_0000nat * p3))
        by (nonlinear_arith);
    assert((1_000_000_000_000 * 0x2000) as nat * p4 == 1_000_000_000_000 * (0x2000nat * p4))
        by (nonlinear_arith);
}

/// Larger magnitudes are farther from zero.
pub proof fn lemma_units_order(a: nat, b: nat)
    ensures
        units(0) == 0,
        a < b ==> units(a) < units(b),
        a == b ==> units(a) == units(b),
{
    if a < b {
        let unit = EXPONENT_UNIT as nat;
        let ea = a / unit;
        let eb = b / unit;
        let fa = a % unit;
        let fb = b % unit;
        assert(ea <= eb && (ea == eb ==> fa < fb)) by (nonlinear_arith)
            requires
                a < b,
                unit == 0x10_0000_0000_0000,
                ea == a / unit,
                eb == b / unit,
                fa == a % unit,
                fb == b % unit,
        ;
        lemma2_to64();
        if eb > 0 {
            lemma_pow2_pos((eb - 1) as nat);
            lemma_mul_inequality(unit as int, (unit + fb) as int, pow2((eb - 1) as nat) as int);
            if ea == eb {
                lemma_mul_strict_inequality(
                    (unit + fa) as int,
                    (unit + fb) as int,
                    pow2((eb - 1) as nat) as int,
                );
            } else if ea == 0 {
                if eb > 1 {
                    lemma_pow2_strictly_increases(0, (eb - 1) as nat);
                }
                lemma_mul_inequality(1, pow2((eb - 1) as nat) as int, unit as int);
            } else {
                lemma_pow2_pos((ea - 1) as nat);
                lemma_mul_strict_inequality(
                    (unit + fa) as int,
                    (2 * unit) as int,
                    pow2((ea - 1) as nat) as int,
                );
                lemma_pow2_adds(1, (ea - 1) as nat);
                if ea < eb - 1 {
                    lemma_pow2_strictly_increases(ea, (eb - 1) as nat);
                }
                lemma_mul_inequality(pow2(ea) as int, pow2((eb - 1) as nat) as int, unit as int);
                let p = pow2((ea - 1) as nat);
                assert((2 * unit) * p == (2 * p) * unit) by (nonlinear_arith);
                assert(pow2((eb - 1) as nat) * unit == unit * pow2((eb - 1) as nat))
                    by (nonlinear_arith);
            }
        }
    }
}

} // verus!
