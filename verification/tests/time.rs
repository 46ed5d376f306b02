use criterion_table::{Comparison, Float64, FloatOps, TableError, TimeUnit};

fn float(x: f64) -> Float64 {
    Float64 { bits: x.to_bits() }
}

fn value(x: Float64) -> f64 {
    f64::from_bits(x.bits)
}

fn ops() -> FloatOps<
    impl Fn(Float64, Float64) -> Float64,
    impl Fn(Float64, Float64) -> Float64,
    impl Fn(Float64) -> String,
> {
    FloatOps {
        divide: |a, b| float(value(a) / value(b)),
        multiply: |a, b| float(value(a) * value(b)),
        show: |a| format!("{:.2}", value(a)),
    }
}

fn shown(time: f64, unit: &str) -> String {
    let ops = ops();
    TimeUnit::try_new(float(time), unit, &ops)
        .unwrap()
        .to_flex_str(&ops)
}

#[test]
fn times_up_to_a_thousand_keep_their_unit() {
    assert_eq!(shown(1000.0, "s"), "1000.00 s");
    assert_eq!(shown(1000.0, "ms"), "1000.00 ms");
    assert_eq!(shown(1000.0, "us"), "1000.00 us");
    assert_eq!(shown(1000.0, "ns"), "1000.00 ns");
    assert_eq!(shown(1000.0, "ps"), "1000.00 ps");
    assert_eq!(shown(-5000.0, "ns"), "-5000.00 ns");
    assert_eq!(shown(0.125, "ms"), "0.12 ms");
}

#[test]
fn larger_times_move_to_larger_units() {
    assert_eq!(shown(1001.0, "ms"), "1.00 s");
    assert_eq!(shown(2500.0, "us"), "2.50 ms");
    assert_eq!(shown(2500.0, "ns"), "2.50 us");
    assert_eq!(shown(2500.0, "ps"), "2.50 ns");
    assert_eq!(shown(2_500_000.0, "ps"), "2.50 us");
    assert_eq!(shown(2_500_000_000.0, "ps"), "2.50 ms");
    assert_eq!(shown(2_500_000_000_000.0, "ps"), "2.50 s");
    assert_eq!(shown(2_500_000_000_000_000.0, "ps"), "2500.00 s");
}

#[test]
fn seconds_are_the_largest_unit() {
    assert_eq!(shown(123456.789, "s"), "123456.79 s");
    assert_eq!(shown(f64::INFINITY, "ps"), "inf s");
}

#[test]
fn what_is_no_number_keeps_its_unit() {
    assert_eq!(shown(f64::NAN, "ns"), "NaN ns");
}

#[test]
fn unknown_units_are_refused() {
    let ops = ops();
    for unit in ["", "m", "sec", "MS", "n s", "\u{b5}s"] {
        match TimeUnit::try_new(float(1.0), unit, &ops) {
            Err(error) => {
                assert!(matches!(&error, TableError::UnrecognizedUnit(name) if name == unit));
                assert_eq!(
                    error.message(),
                    format!("Unrecognized time unit: {}", unit)
                );
            }
            Ok(_) => panic!("{unit} is no unit"),
        }
    }
}

#[test]
fn the_variant_holds_the_number() {
    let ops = ops();
    match TimeUnit::try_new(float(1500.0), "ns", &ops).unwrap() {
        TimeUnit::Microsecond(time) => assert_eq!(value(time), 1.5),
        other => panic!("{:?}", other),
    }
}

#[test]
fn time_width_counts_characters() {
    let ops = ops();
    assert_eq!(TimeUnit::Second(float(1.0)).width(&ops), 6);
    assert_eq!(TimeUnit::Nanosecond(float(123.456)).width(&ops), 9);
}

#[test]
fn picoseconds() {
    let ops = ops();
    assert_eq!(
        value(TimeUnit::Second(float(2.0)).as_picoseconds(&ops)),
        2_000_000_000_000.0
    );
    assert_eq!(
        value(TimeUnit::Millisecond(float(2.0)).as_picoseconds(&ops)),
        2_000_000_000.0
    );
    assert_eq!(
        value(TimeUnit::Microsecond(float(2.0)).as_picoseconds(&ops)),
        2_000_000.0
    );
    assert_eq!(
        value(TimeUnit::Nanosecond(float(2.0)).as_picoseconds(&ops)),
        2_000.0
    );
    assert_eq!(
        value(TimeUnit::Picosecond(float(2.0)).as_picoseconds(&ops)),
        2.0
    );
}

#[test]
fn ratio_goes_across_units() {
    let ops = ops();
    let ratio = TimeUnit::Microsecond(float(3.0)).div(TimeUnit::Nanosecond(float(500.0)), &ops);
    assert_eq!(value(ratio), 6.0);
    let ratio = TimeUnit::Second(float(1.0)).div(TimeUnit::Picosecond(float(0.0)), &ops);
    assert_eq!(value(ratio), f64::INFINITY);
}

#[test]
fn comparisons() {
    let ops = ops();
    assert_eq!(Comparison(float(1.0)).to_flex_str(&ops), "1.00x");
    assert_eq!(Comparison(float(2.5)).to_flex_str(&ops), "2.50x faster");
    assert_eq!(Comparison(float(0.25)).to_flex_str(&ops), "4.00x slower");
    assert_eq!(Comparison(float(1.001)).to_flex_str(&ops), "1.00x faster");
    assert_eq!(Comparison(float(0.999)).to_flex_str(&ops), "1.00x slower");
    assert_eq!(Comparison(float(0.0)).to_flex_str(&ops), "infx slower");
    assert_eq!(Comparison(float(f64::NAN)).to_flex_str(&ops), "NaNx");
    assert_eq!(Comparison::default().to_flex_str(&ops), "infx slower");
}

#[test]
fn comparison_width_counts_characters() {
    let ops = ops();
    assert_eq!(Comparison(float(1.0)).width(&ops), 5);
    assert_eq!(Comparison(float(12.5)).width(&ops), 13);
    assert_eq!(Comparison(float(0.5)).width(&ops), 12);
}

#[test]
fn powers_of_two_are_as_many_times_faster_as_slower() {
    let ops = ops();
    for k in [1, 2, 10, 1022, 1023] {
        let x = 2f64.powi(k);
        // The smallest of these is not a normal number.
        let y = 1.0 / x;
        let faster = Comparison(float(x)).to_flex_str(&ops);
        let slower = Comparison(float(y)).to_flex_str(&ops);
        assert_eq!(faster, format!("{:.2}x faster", x));
        assert_eq!(slower, format!("{:.2}x slower", x));
    }
    assert_eq!(Comparison(float(4.0)).to_flex_str(&ops), "4.00x faster");
    assert_eq!(Comparison(float(0.25)).to_flex_str(&ops), "4.00x slower");
}

#[test]
fn a_time_in_a_larger_unit_is_not_below_one() {
    let above = f64::from_bits(1000f64.to_bits() + 1);
    match TimeUnit::try_new(float(above), "ns", &ops()) {
        Ok(TimeUnit::Microsecond(time)) => assert!(value(time) >= 1.0),
        other => panic!("{:?}", other),
    }
    // Two steps, to a number just above one.
    match TimeUnit::try_new(float(1_000_001.0), "ps", &ops()) {
        Ok(TimeUnit::Microsecond(time)) => assert_eq!(value(time), 1_000_001.0 / 1000.0 / 1000.0),
        other => panic!("{:?}", other),
    }
    // An infinite time ends up in seconds.
    match TimeUnit::try_new(float(f64::INFINITY), "ps", &ops()) {
        Ok(TimeUnit::Second(time)) => assert_eq!(value(time), f64::INFINITY),
        other => panic!("{:?}", other),
    }
}

#[test]
fn a_time_is_kept_when_it_moves_to_a_larger_unit() {
    let ops = ops();
    let units = [("ps", 1.0), ("ns", 1e3), ("us", 1e6), ("ms", 1e9), ("s", 1e12)];
    // Dividing by one thousand and multiplying again need not give the same number.
    let times = [0.0, 5e-324, 0.1, 999.9, 1000.1, 123_456.7, 9_999_999.9, 1.1e13, 3.3e17, 1e200];
    for (unit, picoseconds) in units {
        for time in times {
            let shown = TimeUnit::try_new(float(time), unit, &ops).unwrap();
            let read = value(shown.as_picoseconds(&ops));
            let given = time * picoseconds;
            assert!((read - given).abs() <= 1e-15 * given, "{} {}", time, unit);
        }
    }
    let shown = TimeUnit::try_new(float(4_000_000.0), "ps", &ops).unwrap();
    assert!(matches!(shown, TimeUnit::Microsecond(time) if value(time) == 4.0));
    assert_eq!(value(shown.as_picoseconds(&ops)), 4_000_000.0);
}
