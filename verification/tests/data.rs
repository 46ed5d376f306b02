use criterion_table::{
    BenchmarkComplete, BenchmarkGroupComplete, ChangeDetails, ChangeType, ColumnInfo, Comparison,
    ConfidenceInterval, CriterionTableData, Float64, FloatOps, Formatter, RawCriterionData,
    TableError, TablesConfig, Throughput, TimeUnit,
};

fn float(x: f64) -> Float64 {
    Float64 { bits: x.to_bits() }
}

fn value(x: Float64) -> f64 {
    f64::from_bits(x.bits)
}

fn ops() -> FloatOps<
    impl Fn(Float64, Float64) -> Float64,
    impl Fn(Float64, Float64) -> Float64,
    impl Fn(Float64) -> String,
> {
    FloatOps {
        divide: |a, b| float(value(a) / value(b)),
        multiply: |a, b| float(value(a) * value(b)),
        show: |a| format!("{:.2}", value(a)),
    }
}

fn interval(estimate: f64, unit: &str) -> ConfidenceInterval {
    ConfidenceInterval {
        estimate: float(estimate),
        lower_bound: float(estimate - 1.0),
        upper_bound: float(estimate + 1.0),
        unit: unit.to_string(),
    }
}

fn benchmark_in(id: &str, estimate: f64, unit: &str) -> RawCriterionData {
    RawCriterionData::Benchmark(Box::new(BenchmarkComplete {
        id: id.to_string(),
        report_directory: "reports".to_string(),
        iteration_count: vec![1, 2, 3],
        measured_values: vec![float(1.0), float(2.0)],
        unit: "ns".to_string(),
        throughput: vec![Throughput {
            per_iteration: 8,
            unit: "bytes".to_string(),
        }],
        typical: interval(estimate, unit),
        mean: interval(0.0, "ns"),
        median: interval(0.0, "ns"),
        median_abs_dev: interval(0.0, "ns"),
        slope: None,
        change: Some(ChangeDetails {
            mean: interval(0.0, "%"),
            median: interval(0.0, "%"),
            change: ChangeType::Improved,
        }),
    }))
}

fn benchmark(id: &str, estimate: f64) -> RawCriterionData {
    benchmark_in(id, estimate, "ns")
}

fn group(name: &str) -> RawCriterionData {
    RawCriterionData::BenchmarkGroup(Box::new(BenchmarkGroupComplete {
        group_name: name.to_string(),
        benchmarks: vec![],
        report_directory: "reports".to_string(),
    }))
}

/// What comes of building from these items alone, and how it ends.
fn built(items: &[RawCriterionData]) -> (CriterionTableData, Option<Result<(), TableError>>) {
    let mut data = CriterionTableData::new();
    let result = data.build_from_raw_data(items, &ops());
    (data, result)
}

/// How building ends where a benchmark cannot be added.
fn failure(result: Option<Result<(), TableError>>) -> String {
    match result {
        Some(Err(error)) => error.message(),
        other => panic!("{:?}", other),
    }
}

/// Writes one line for each call.
struct Lines;

impl Lines {
    fn line(&self, buffer: &mut String, text: String) {
        buffer.push_str(&text);
        buffer.push('\n');
    }
}

impl Formatter for Lines {
    fn start(&mut self, buffer: &mut String, comment: Option<&String>, tables: &[&str]) {
        self.line(buffer, format!("start {:?} {:?}", comment, tables));
    }

    fn end(&mut self, buffer: &mut String) {
        self.line(buffer, "end".to_string());
    }

    fn start_table(
        &mut self,
        buffer: &mut String,
        name: &str,
        comment: Option<&String>,
        columns: &[ColumnInfo],
    ) {
        let columns: Vec<(&str, usize)> = columns
            .iter()
            .map(|info| (info.name.as_str(), info.max_width))
            .collect();
        self.line(buffer, format!("table {} {:?} {:?}", name, comment, columns));
    }

    fn end_table(&mut self, buffer: &mut String) {
        self.line(buffer, "end table".to_string());
    }

    fn start_row(&mut self, buffer: &mut String, name: &str, max_width: usize) {
        self.line(buffer, format!("row {:?} {}", name, max_width));
    }

    fn end_row(&mut self, buffer: &mut String) {
        self.line(buffer, "end row".to_string());
    }

    fn used_column(
        &mut self,
        buffer: &mut String,
        time: TimeUnit,
        pct: Comparison,
        max_width: usize,
    ) {
        let ops = ops();
        self.line(
            buffer,
            format!(
                "{} | {} | {}",
                time.to_flex_str(&ops),
                pct.to_flex_str(&ops),
                max_width
            ),
        );
    }

    fn unused_column(&mut self, buffer: &mut String, max_width: usize) {
        self.line(buffer, format!("unused {}", max_width));
    }
}

fn document_with(items: &[RawCriterionData], config: &TablesConfig) -> Vec<String> {
    let data = CriterionTableData::from_raw(items, &ops()).unwrap();
    data.make_tables(Lines, config)
        .lines()
        .map(|line| line.to_string())
        .collect()
}

fn document(items: &[RawCriterionData]) -> Vec<String> {
    document_with(items, &TablesConfig::default())
}

#[test]
fn a_table_with_rows_and_columns() {
    let items = [
        benchmark("Sort/std/small", 100.0),
        benchmark("Sort/radix/small", 50.0),
        group("Sort"),
        benchmark("Sort/std/large", 2000.0),
        benchmark("Sort/merge/large", 4000.0),
    ];
    assert_eq!(
        document(&items),
        [
            "start None [\"Sort\"]",
            "table Sort None [(\"\", 5), (\"std\", 14), (\"merge\", 19), (\"radix\", 20)]",
            "row \"small\" 5",
            "100.00 ns | 1.00x | 14",
            "unused 19",
            "50.00 ns | 2.00x faster | 20",
            "end row",
            "row \"large\" 5",
            "2.00 us | 1.00x | 14",
            "4.00 us | 2.00x slower | 19",
            "unused 20",
            "end row",
            "end table",
            "end",
        ]
    );
}

#[test]
fn nothing_makes_an_empty_document() {
    assert_eq!(document(&[]), ["start None []", "end"]);
    assert_eq!(document(&[group("a"), group("b")]), ["start None []", "end"]);
}

#[test]
fn groups_change_nothing() {
    let with = [
        group("T"),
        benchmark("T/a/r", 1.0),
        group("T"),
        benchmark("T/b/r", 2.0),
        group("T"),
    ];
    let without = [benchmark("T/a/r", 1.0), benchmark("T/b/r", 2.0)];
    assert_eq!(document(&with), document(&without));
}

#[test]
fn tables_and_rows_come_in_the_order_of_the_input() {
    let items = [
        benchmark("Z/c/one", 1.0),
        benchmark("A/c/two", 1.0),
        benchmark("Z/c/three", 1.0),
        benchmark("A/c/four", 1.0),
    ];
    let lines = document(&items);
    let rows: Vec<&String> = lines
        .iter()
        .filter(|line| line.starts_with("row") || line.starts_with("start"))
        .collect();
    assert_eq!(
        rows,
        [
            "start None [\"Z\", \"A\"]",
            "row \"one\" 5",
            "row \"three\" 5",
            "row \"two\" 4",
            "row \"four\" 4",
        ]
    );
}

#[test]
fn a_row_without_a_name() {
    let items = [benchmark("T/a", 10.0), benchmark("T/b/", 5.0)];
    assert_eq!(
        document(&items),
        [
            "start None [\"T\"]",
            "table T None [(\"\", 0), (\"a\", 13), (\"b\", 19)]",
            "row \"\" 0",
            "10.00 ns | 1.00x | 13",
            "5.00 ns | 2.00x faster | 19",
            "end row",
            "end table",
            "end",
        ]
    );
}

#[test]
fn what_follows_the_row_is_ignored() {
    assert_eq!(
        document(&[benchmark("T/a/r/more/and/more", 1.0)]),
        document(&[benchmark("T/a/r", 1.0)])
    );
}

#[test]
fn a_column_without_a_name_is_not_shown() {
    let items = [benchmark("T//r", 10.0)];
    assert_eq!(
        document(&items),
        [
            "start None [\"T\"]",
            "table T None [(\"\", 13)]",
            "row \"r\" 13",
            "end row",
            "end table",
            "end",
        ]
    );
}

#[test]
fn a_long_name_makes_a_wide_column() {
    let items = [benchmark("T/\u{e9}\u{e9}\u{e9}\u{e9}\u{e9}\u{e9}\u{e9}\u{e9}\u{e9}\u{e9}\u{e9}\u{e9}\u{e9}\u{e9}\u{e9}/\u{4e2d}\u{6587}", 1.0)];
    let lines = document(&items);
    assert!(lines[1].contains("(\"\", 2)"));
    assert!(lines[1].ends_with(", 15)]"));
}

#[test]
fn rows_that_go_through_the_same_columns_show_them_in_order() {
    let items = [
        benchmark("T/x/1", 1.0),
        benchmark("T/x/2", 1.0),
        benchmark("T/y/2", 1.0),
        benchmark("T/y/1", 1.0),
        benchmark("T/z/1", 1.0),
        benchmark("T/x/3", 1.0),
    ];
    assert_eq!(
        document(&items)[1],
        "table T None [(\"\", 1), (\"x\", 12), (\"y\", 12), (\"z\", 12)]"
    );
}

#[test]
fn times_compare_with_the_first_in_their_own_row() {
    let items = [
        benchmark("T/x/1", 10.0),
        benchmark("T/y/1", 20.0),
        benchmark("T/y/2", 20.0),
        benchmark("T/x/2", 10.0),
    ];
    let lines = document(&items);
    assert_eq!(lines[3], "10.00 ns | 1.00x | 20");
    assert_eq!(lines[4], "20.00 ns | 2.00x slower | 20");
    assert_eq!(lines[7], "10.00 ns | 2.00x faster | 20");
    assert_eq!(lines[8], "20.00 ns | 1.00x | 20");
}

#[test]
fn comments_are_found_by_key() {
    let items = [benchmark("My Table/a/r", 1.0), benchmark("Other/a/q", 1.0)];
    let config = TablesConfig::new(
        Some("about all".to_string()),
        vec![
            ("my_table".to_string(), "about mine".to_string()),
            ("My Table".to_string(), "never found".to_string()),
        ],
    );
    let lines = document_with(&items, &config);
    assert_eq!(lines[0], "start Some(\"about all\") [\"My Table\", \"Other\"]");
    assert!(lines[1].starts_with("table My Table Some(\"about mine\")"));
    assert!(lines[6].starts_with("table Other None"));
}

#[test]
fn malformed_ids_are_refused() {
    for id in ["", "no slash"] {
        match CriterionTableData::from_raw(&[benchmark(id, 1.0)], &ops()) {
            Err(error) => {
                assert!(matches!(&error, TableError::MalformedId(text) if text == id));
                assert_eq!(error.message(), format!("Malformed id: {}", id));
            }
            Ok(_) => panic!("{id} is malformed"),
        }
    }
}

#[test]
fn unknown_units_end_the_build() {
    let items = [benchmark("T/a/r", 1.0), benchmark_in("T/b/r", 1.0, "h")];
    assert!(matches!(
        CriterionTableData::from_raw(&items, &ops()),
        Err(TableError::UnrecognizedUnit(unit)) if unit == "h"
    ));
}

#[test]
fn one_place_cannot_have_two_times() {
    let items = [
        benchmark("T/a/r", 1.0),
        benchmark("T/b/r", 1.0),
        benchmark("T/a/r", 2.0),
    ];
    assert!(matches!(
        CriterionTableData::from_raw(&items, &ops()),
        Err(TableError::DuplicateColumn(name)) if name == "a"
    ));
}

#[test]
fn the_first_error_counts() {
    let items = [
        benchmark("T/a/r", 1.0),
        benchmark_in("T/b/r", 1.0, "h"),
        benchmark("malformed", 1.0),
    ];
    assert!(matches!(
        CriterionTableData::from_raw(&items, &ops()),
        Err(TableError::UnrecognizedUnit(_))
    ));
    // A malformed id counts before the unit of the same benchmark.
    assert!(matches!(
        CriterionTableData::from_raw(&[benchmark_in("malformed", 1.0, "h")], &ops()),
        Err(TableError::MalformedId(_))
    ));
}

#[test]
fn a_row_in_two_tables_can_leave_a_column_without_a_place() {
    let items = [
        benchmark("A/x/r", 1.0),
        benchmark("A/y/r", 1.0),
        benchmark("B/x/r", 1.0),
    ];
    assert!(built(&items).1.is_none());
    assert!(built(&items[..2]).1.is_some());
    // So can a column without a name.
    let items = [benchmark("A//r", 1.0), benchmark("A/x/r", 1.0)];
    assert!(built(&items).1.is_none());
    // An error before it comes first.
    let items = [
        benchmark("A/x/r", 1.0),
        benchmark("A/x/r", 1.0),
        benchmark("B/x/r", 1.0),
    ];
    assert!(matches!(
        built(&items).1,
        Some(Err(TableError::DuplicateColumn(_)))
    ));
}

#[test]
fn a_row_in_two_tables_can_go_well() {
    // The column of the second table has its place from another row.
    let items = [
        benchmark("B/x/q", 1.0),
        benchmark("A/x/r", 1.0),
        benchmark("B/x/r", 1.0),
    ];
    assert!(built(&items).1.is_some());
}

#[test]
fn data_can_be_cloned() {
    let items = [benchmark("T/a/r", 1.0), benchmark("T/b/r", 2.0)];
    let data = CriterionTableData::from_raw(&items, &ops()).unwrap();
    let copy = data.clone();
    let config = TablesConfig::default();
    assert_eq!(
        data.make_tables(Lines, &config),
        copy.make_tables(Lines, &config)
    );
}

#[test]
fn everything_has_room() {
    let items = [
        benchmark("T/a/first", 123456.0),
        benchmark("T/b/first", 3.0),
        benchmark("T/a/second one", 0.001),
        benchmark("T/c/second one", 98765432.1),
    ];
    for line in document(&items) {
        if line.contains(" | ") {
            let parts: Vec<&str> = line.split(" | ").collect();
            let width: usize = parts[2].parse().unwrap();
            assert!(parts[0].chars().count() + parts[1].chars().count() <= width);
        }
    }
}

#[test]
fn tables_with_rows_of_their_own_always_fit() {
    let items = [
        benchmark("A/x/one", 1.0),
        benchmark("B/p/three", 1.0),
        benchmark("A/y/one", 1.0),
        benchmark("B/q/three", 1.0),
        benchmark("B/r/three", 1.0),
        benchmark("A/z/two", 1.0),
    ];
    let lines = document(&items);
    assert!(lines[1].ends_with("[(\"\", 3), (\"z\", 12), (\"x\", 12), (\"y\", 12)]"));
    assert!(lines
        .iter()
        .any(|line| line.ends_with("[(\"\", 5), (\"p\", 12), (\"q\", 12), (\"r\", 12)]")));
}

#[test]
fn further_benchmarks_only_add() {
    let items = [
        benchmark("T/a/r", 10.0),
        benchmark("T/b/r", 20.0),
        benchmark("T/b/q", 123456.0),
    ];
    let fewer = document(&items[..2]);
    let more = document(&items);
    assert!(fewer[1].ends_with("(\"a\", 13), (\"b\", 20)]"));
    // The new row puts nothing before the columns that are there, and narrows none.
    assert!(more[1].ends_with("(\"a\", 13), (\"b\", 20)]"));
    assert_eq!(fewer[2..5], more[2..5]);
}

#[test]
fn a_malformed_id_leaves_the_tables_as_they_are() {
    let (data, result) = built(&[benchmark("nope", 1.0)]);
    assert_eq!(failure(result), "Malformed id: nope");
    let config = TablesConfig::default();
    assert_eq!(data.make_tables(Lines, &config), "start None []\nend\n");
}

#[test]
fn an_unknown_unit_leaves_a_table_with_nothing_in_it() {
    let (data, result) = built(&[benchmark_in("t/a/r", 1.0, "xx")]);
    assert_eq!(failure(result), "Unrecognized time unit: xx");
    let config = TablesConfig::default();
    assert_eq!(
        data.make_tables(Lines, &config),
        "start None [\"t\"]\nend\n"
    );
    // What is left can be built onto.
    let mut data = data;
    let items = [benchmark("t/a/r", 1.0)];
    assert!(matches!(
        data.build_from_raw_data(&items, &ops()),
        Some(Ok(()))
    ));
    let anew = CriterionTableData::from_raw(&items, &ops()).unwrap();
    assert_eq!(
        data.make_tables(Lines, &config),
        anew.make_tables(Lines, &config)
    );
}

#[test]
fn a_duplicate_leaves_what_was_built_before() {
    let (data, result) = built(&[
        benchmark("t/a/r/x", 1.0),
        benchmark("t/a/r/y", 2.0),
        benchmark("bad", 3.0),
    ]);
    assert_eq!(failure(result), "Duplicate column: a");
    let config = TablesConfig::default();
    assert_eq!(
        data.make_tables(Lines, &config).lines().collect::<Vec<_>>(),
        [
            "start None [\"t\"]",
            "table t None [(\"\", 1), (\"a\", 12)]",
            "row \"r\" 1",
            "1.00 ns | 1.00x | 12",
            "end row",
            "end table",
            "end",
        ]
    );
}

#[test]
fn tables_can_be_built_onto() {
    let (mut data, result) = built(&[benchmark("T/a/r", 10.0)]);
    assert!(matches!(result, Some(Ok(()))));
    // The positions of columns are counted from the start, so the new column comes first.
    let result = data.build_from_raw_data(&[benchmark("T/b/r", 5.0)], &ops());
    assert!(matches!(result, Some(Ok(()))));
    let config = TablesConfig::default();
    assert_eq!(
        data.make_tables(Lines, &config).lines().collect::<Vec<_>>(),
        [
            "start None [\"T\"]",
            "table T None [(\"\", 1), (\"b\", 19), (\"a\", 13)]",
            "row \"r\" 1",
            "5.00 ns | 2.00x faster | 19",
            "10.00 ns | 1.00x | 13",
            "end row",
            "end table",
            "end",
        ]
    );
    // Data that is there already is not taken again.
    let result = data.build_from_raw_data(&[benchmark("T/a/r", 1.0)], &ops());
    assert_eq!(failure(result), "Duplicate column: a");
}

#[test]
fn a_document_is_added_to_what_is_written() {
    let items = [benchmark("T/a/r", 10.0), benchmark("U/b/q", 5.0)];
    let data = CriterionTableData::from_raw(&items, &ops()).unwrap();
    let config = TablesConfig::new(Some("all".to_string()), vec![]);
    let mut buffer = "head\n".to_string();
    data.write_document(&mut Lines, &mut buffer, &config);
    assert_eq!(
        buffer,
        format!("head\n{}", data.make_tables(Lines, &config))
    );
}

#[test]
fn a_document_is_started_and_ended_once() {
    let items = [
        benchmark("T/a/r", 10.0),
        benchmark("U/b/q", 5.0),
        benchmark("T/b/r", 20.0),
    ];
    let lines = document(&items);
    let starts: Vec<usize> = (0..lines.len())
        .filter(|i| lines[*i].starts_with("start"))
        .collect();
    let ends: Vec<usize> = (0..lines.len()).filter(|i| lines[*i] == "end").collect();
    assert_eq!(starts, [0]);
    assert_eq!(ends, [lines.len() - 1]);
}
