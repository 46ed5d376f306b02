//! Comparison tables from the benchmark results that Criterion reports.
//!
//! A benchmark's id names a table, a column and a row. [`CriterionTableData`] puts the time that
//! the benchmark reports where they cross, beside a comparison with the first time in the row,
//! and a [`Formatter`] writes the tables out.
//!
//! Floating-point arithmetic is done by the operations in a [`FloatOps`], which the caller
//! provides; everything that is decided from the numbers is decided here.
pub mod config;
pub mod contents;
pub mod data;
pub mod document;
pub mod duration;
pub mod error;
pub mod float;
pub mod format;
pub mod labels;
pub mod layout;
pub mod names;
pub mod nesting;
pub mod order;
pub mod ordered;
pub mod origin;
pub mod pieces;
pub mod placement;
pub mod progress;
pub mod ratio;
pub mod raw;
pub mod remains;
pub mod report;
pub mod room;
pub mod rounding;
pub mod soundness;
pub mod steps;
pub mod table;
pub mod text;
pub mod time;
pub mod written;

pub use crate::config::load_config;
pub use crate::config::ConfigFile;
pub use crate::config::TablesConfig;
pub use crate::data::CriterionTableData;
pub use crate::error::TableError;
pub use crate::float::Float64;
pub use crate::float::FloatOps;
pub use crate::format::Formatter;
pub use crate::raw::BenchmarkComplete;
pub use crate::raw::BenchmarkGroupComplete;
pub use crate::raw::ChangeDetails;
pub use crate::raw::ChangeType;
pub use crate::raw::ConfidenceInterval;
pub use crate::raw::RawCriterionData;
pub use crate::raw::ReadEvent;
pub use crate::raw::ReadStep;
pub use crate::raw::Throughput;
pub use crate::report::build_tables;
pub use crate::report::write_report;
pub use crate::report::write_tables;
pub use crate::report::ReportError;
pub use crate::table::ColumnInfo;
pub use crate::time::Comparison;
pub use crate::time::TimeUnit;
