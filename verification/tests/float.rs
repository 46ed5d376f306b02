use criterion_table::float::{
    BILLION_BITS, INFINITY_BITS, MILLION_BITS, ONE_BITS, THOUSAND_BITS, TRILLION_BITS,
};
use criterion_table::{Float64, FloatOps};

fn float(x: f64) -> Float64 {
    Float64 { bits: x.to_bits() }
}

#[test]
fn order_is_that_of_the_numbers() {
    let numbers = [
        0.0,
        -0.0,
        5e-324,
        -5e-324,
        2.2250738585072014e-308,
        2.225073858507201e-308,
        1e-300,
        0.5,
        0.9999999999999999,
        1.0,
        1.0000000000000002,
        -1.0,
        999.9999999999999,
        1000.0,
        1000.0000000000001,
        -1000.0,
        1e300,
        f64::MAX,
        f64::MIN,
        f64::INFINITY,
        f64::NEG_INFINITY,
        f64::NAN,
        -f64::NAN,
    ];
    for x in numbers {
        for y in numbers {
            assert_eq!(float(x).exceeds(float(y)), x > y, "{x} > {y}");
        }
    }
}

#[test]
fn constants_are_the_named_numbers() {
    assert_eq!(ONE_BITS, 1.0f64.to_bits());
    assert_eq!(THOUSAND_BITS, 1_000.0f64.to_bits());
    assert_eq!(MILLION_BITS, 1_000_000.0f64.to_bits());
    assert_eq!(BILLION_BITS, 1_000_000_000.0f64.to_bits());
    assert_eq!(TRILLION_BITS, 1_000_000_000_000.0f64.to_bits());
    assert_eq!(INFINITY_BITS, f64::INFINITY.to_bits());
}

#[test]
fn operations_are_those_that_were_given() {
    let ops = FloatOps {
        divide: |a: Float64, b: Float64| float(f64::from_bits(a.bits) / f64::from_bits(b.bits)),
        multiply: |a: Float64, b: Float64| float(f64::from_bits(a.bits) * f64::from_bits(b.bits)),
        show: |a: Float64| format!("{:.2}", f64::from_bits(a.bits)),
    };
    assert_eq!(ops.divide(float(7.0), float(2.0)), float(3.5));
    assert_eq!(ops.multiply(float(7.0), float(2.0)), float(14.0));
    assert_eq!(ops.show(float(3.14159)), "3.14");
}
