use criterion_table::{
    build_tables, load_config, write_report, write_tables, BenchmarkComplete,
    BenchmarkGroupComplete, ColumnInfo, Comparison, ConfidenceInterval, ConfigFile,
    CriterionTableData, Float64, FloatOps, Formatter, RawCriterionData, ReadEvent, ReadStep,
    ReportError, TableError, TablesConfig, TimeUnit,
};

fn float(x: f64) -> Float64 {
    Float64 { bits: x.to_bits() }
}

fn value(x: Float64) -> f64 {
    f64::from_bits(x.bits)
}

fn ops() -> FloatOps<
    impl Fn(Float64, Float64) -> Float64,
    impl Fn(Float64, Float64) -> Float64,
    impl Fn(Float64) -> String,
> {
    FloatOps {
        divide: |a, b| float(value(a) / value(b)),
        multiply: |a, b| float(value(a) * value(b)),
        show: |a| format!("{:.2}", value(a)),
    }
}

fn group(name: &str) -> RawCriterionData {
    RawCriterionData::BenchmarkGroup(Box::new(BenchmarkGroupComplete {
        group_name: name.to_string(),
        benchmarks: vec![],
        report_directory: String::new(),
    }))
}

/// A configuration file that is not there.
fn no_file() -> ConfigFile<String> {
    ConfigFile::NotFound
}

fn interval() -> ConfidenceInterval {
    ConfidenceInterval {
        estimate: float(5.0),
        lower_bound: float(4.0),
        upper_bound: float(6.0),
        unit: "ns".to_string(),
    }
}

fn benchmark(id: &str) -> RawCriterionData {
    RawCriterionData::Benchmark(Box::new(BenchmarkComplete {
        id: id.to_string(),
        report_directory: String::new(),
        iteration_count: vec![],
        measured_values: vec![],
        unit: String::new(),
        throughput: vec![],
        typical: interval(),
        mean: interval(),
        median: interval(),
        median_abs_dev: interval(),
        slope: None,
        change: None,
    }))
}

/// Writes the comments, and counts the calls.
struct Counter {
    calls: usize,
}

impl Formatter for Counter {
    fn start(&mut self, buffer: &mut String, comment: Option<&String>, tables: &[&str]) {
        self.calls += 1;
        if let Some(comment) = comment {
            buffer.push_str(comment);
        }
        buffer.push_str(&tables.join(","));
    }

    fn end(&mut self, buffer: &mut String) {
        self.calls += 1;
        buffer.push_str(&format!("#{}", self.calls));
    }

    fn start_table(
        &mut self,
        buffer: &mut String,
        _name: &str,
        comment: Option<&String>,
        _columns: &[ColumnInfo],
    ) {
        self.calls += 1;
        if let Some(comment) = comment {
            buffer.push_str(comment);
        }
    }

    fn end_table(&mut self, _buffer: &mut String) {
        self.calls += 1;
    }

    fn start_row(&mut self, _buffer: &mut String, _name: &str, _max_width: usize) {
        self.calls += 1;
    }

    fn end_row(&mut self, _buffer: &mut String) {
        self.calls += 1;
    }

    fn used_column(
        &mut self,
        _buffer: &mut String,
        _time: TimeUnit,
        _pct: Comparison,
        _max_width: usize,
    ) {
        self.calls += 1;
    }

    fn unused_column(&mut self, _buffer: &mut String, _max_width: usize) {
        self.calls += 1;
    }
}

#[test]
fn values_are_read_up_to_the_end() {
    let mut data = Vec::new();
    for name in ["a", "b", "c"] {
        match RawCriterionData::read_step(data, ReadEvent::Value(group(name))) {
            ReadStep::More(next) => data = next,
            other => panic!("{:?}", other),
        }
    }
    match RawCriterionData::read_step(data, ReadEvent::EndOfInput) {
        ReadStep::Done(data) => {
            let names: Vec<&str> = data
                .iter()
                .map(|item| match item {
                    RawCriterionData::BenchmarkGroup(group) => group.group_name.as_str(),
                    RawCriterionData::Benchmark(_) => panic!("no benchmark"),
                })
                .collect();
            assert_eq!(names, ["a", "b", "c"]);
        }
        other => panic!("{:?}", other),
    }
}

#[test]
fn malformed_input_is_rejected() {
    assert!(matches!(
        RawCriterionData::read_step(vec![group("a")], ReadEvent::Malformed),
        ReadStep::Rejected
    ));
}

#[test]
fn an_empty_input_holds_nothing() {
    assert!(matches!(
        RawCriterionData::read_step(vec![], ReadEvent::EndOfInput),
        ReadStep::Done(data) if data.is_empty()
    ));
}

#[test]
fn the_later_comment_counts() {
    let config = TablesConfig::new(
        None,
        vec![
            ("a".to_string(), "1".to_string()),
            ("b".to_string(), "2".to_string()),
            ("a".to_string(), "3".to_string()),
        ],
    );
    assert!(config.comments.is_none());
    assert_eq!(config.get_comment("a"), Some(&"3".to_string()));
    assert_eq!(config.get_comment("b"), Some(&"2".to_string()));
    assert_eq!(config.get_comment("c"), None);
}

#[test]
fn a_config_file_is_used() {
    let config = TablesConfig::new(Some("all".to_string()), vec![]);
    let loaded = load_config::<String>(ConfigFile::Loaded(config));
    assert!(matches!(loaded, Ok(config) if config.comments == Some("all".to_string())));
}

#[test]
fn a_missing_config_file_is_blank() {
    match load_config(no_file()) {
        Ok(config) => {
            assert!(config.comments.is_none());
            assert_eq!(config.get_comment("a"), None);
        }
        Err(reason) => panic!("{}", reason),
    }
}

#[test]
fn a_useless_config_file_is_an_error() {
    assert!(matches!(
        load_config(ConfigFile::Invalid("not TOML".to_string())),
        Err(reason) if reason == "not TOML"
    ));
    assert!(matches!(
        load_config(ConfigFile::Unreadable("denied".to_string())),
        Err(reason) if reason == "denied"
    ));
}

#[test]
fn a_report_from_results_and_config() {
    let items = [benchmark("T/a/r"), benchmark("T/b/r"), benchmark("T/a/q")];
    let config = TablesConfig::new(
        Some("head:".to_string()),
        vec![("t".to_string(), ":table".to_string())],
    );
    let report = build_tables(
        &items,
        Counter { calls: 0 },
        ConfigFile::<String>::Loaded(config),
        &ops(),
    );
    // Start and end, the table's start and end, and two rows of two columns each.
    assert!(matches!(report, Ok(text) if text == "head:T:table#12"));
    let report = build_tables(&items, Counter { calls: 0 }, no_file(), &ops());
    assert!(matches!(report, Ok(text) if text == "T#12"));
}

#[test]
fn table_errors_come_before_config_errors() {
    let broken = ConfigFile::Invalid("not TOML".to_string());
    let report = build_tables(&[benchmark("malformed")], Counter { calls: 0 }, broken, &ops());
    assert!(matches!(
        report,
        Err(ReportError::Table(TableError::MalformedId(id))) if id == "malformed"
    ));
    let broken = ConfigFile::Invalid("not TOML".to_string());
    let report = build_tables(&[benchmark("T/a")], Counter { calls: 0 }, broken, &ops());
    assert!(matches!(report, Err(ReportError::Config(reason)) if reason == "not TOML"));
}

#[test]
fn nothing_is_written_on_an_error() {
    let mut counter = Counter { calls: 0 };
    let mut buffer = "head".to_string();
    let items = [benchmark("T/a"), benchmark("malformed")];
    let result = write_report(&items, &mut counter, &mut buffer, no_file(), &ops());
    assert!(matches!(
        result,
        Err(ReportError::Table(TableError::MalformedId(_)))
    ));
    // The reason need not be a text.
    let unreadable: ConfigFile<u32> = ConfigFile::Unreadable(13);
    let result = write_report(&items[..1], &mut counter, &mut buffer, unreadable, &ops());
    assert!(matches!(result, Err(ReportError::Config(13))));
    assert_eq!(counter.calls, 0);
    assert_eq!(buffer, "head");
    let result = write_report(&items[..1], &mut counter, &mut buffer, no_file(), &ops());
    assert!(result.is_ok());
    // Start and end, the table's start and end, and one row of one column.
    assert_eq!(counter.calls, 7);
    assert_eq!(buffer, "headT#7");
}

#[test]
fn built_tables_are_written_unless_the_file_is_of_no_use() {
    let data = CriterionTableData::from_raw(&[benchmark("T/a")], &ops()).unwrap();
    let mut counter = Counter { calls: 0 };
    let mut buffer = "head".to_string();
    let invalid: ConfigFile<u32> = ConfigFile::Invalid(7);
    assert!(matches!(
        write_tables(&data, &mut counter, &mut buffer, invalid),
        Err(7)
    ));
    assert_eq!(counter.calls, 0);
    assert_eq!(buffer, "head");
    let config = TablesConfig::new(None, vec![("t".to_string(), ":table".to_string())]);
    let file: ConfigFile<u32> = ConfigFile::Loaded(config);
    assert!(write_tables(&data, &mut counter, &mut buffer, file).is_ok());
    assert_eq!(counter.calls, 7);
    assert_eq!(buffer, "headT:table#7");
}
