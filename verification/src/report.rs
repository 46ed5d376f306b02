//! From benchmark results to the finished document.
use crate::config::lemma_comments;
use crate::config::load_config;
use crate::config::ConfigFile;
use crate::config::TablesConfig;
use crate::data::CriterionTableData;
use crate::document::document_calls;
use crate::error::TableError;
use crate::float::Arithmetic;
use crate::float::Float64;
use crate::float::FloatOps;
use crate::format::writes;
use crate::format::Formatter;
use crate::progress::build;
use crate::progress::columns_fit;
use crate::progress::Outcome;
use crate::raw::RawCriterionData;
use crate::table::TableView;
use vstd::prelude::*;

verus! {

/// Why there is no document. `E` is for the reasons that a configuration file is of no use.
#[derive(Debug)]
pub enum ReportError<E> {
    /// The tables cannot be built.
    Table(TableError),
    /// The configuration file is of no use, for the reason given.
    Config(E),
}

/// Whether the formatter can turn the one text into the other by writing out the tables, with
/// the configuration that the file gives.
pub open spec fn is_report<F: Formatter, E>(
    tables: Seq<TableView>,
    file: ConfigFile<E>,
    before: F,
    text_before: Seq<char>,
    after: F,
    text_after: Seq<char>,
) -> bool {
    exists|config: TablesConfig|
        {
            &&& #[trigger] file.gives(config)
            &&& writes(document_calls(tables, &config), before, text_before, after, text_after)
        }
}

/// Whether the formatter can make this document of the tables, with the configuration that the
/// file gives.
pub open spec fn can_make<F: Formatter, E>(
    tables: Seq<TableView>,
    file: ConfigFile<E>,
    fmt: F,
    document: Seq<char>,
) -> bool {
    exists|after: F| #[trigger] is_report(tables, file, fmt, Seq::empty(), after, document)
}

/// Writes the tables out in the format that `f` is for, with the configuration that the file
/// gives. Where the file is of no use, the formatter is not asked for anything, and nothing is
/// written.
pub fn write_tables<F: Formatter, E>(
    data: &CriterionTableData,
    f: &mut F,
    buffer: &mut String,
    file: ConfigFile<E>,
) -> (result: Result<(), E>)
    requires
        data.valid(),
    ensures
        match result {
            Ok(_) => file.refusal() is None && is_report(
                data@,
                file,
                *old(f),
                old(buffer)@,
                *final(f),
                final(buffer)@,
            ),
            Err(reason) => {
                &&& file.refusal() == Some(reason)
                &&& *final(f) == *old(f)
                &&& final(buffer)@ == old(buffer)@
            },
        },
{
    let config = match load_config(file) {
        Ok(config) => config,
        Err(reason) => {
            return Err(reason);
        },
    };
    data.write_document(f, buffer, &config);
    assert(file.gives(config));
    Ok(())
}

/// Builds the tables from the raw data, and writes them out in the format that `f` is for. The
/// configuration counts only once the tables are built. On an error the formatter is not asked
/// for anything, and nothing is written.
pub fn write_report<
    F: Formatter,
    E,
    D: Fn(Float64, Float64) -> Float64,
    M: Fn(Float64, Float64) -> Float64,
    S: Fn(Float64) -> String,
>(
    raw_data: &[RawCriterionData],
    f: &mut F,
    buffer: &mut String,
    file: ConfigFile<E>,
    ops: &FloatOps<D, M, S>,
) -> (result: Result<(), ReportError<E>>)
    requires
        ops.valid(),
        columns_fit(raw_data@),
    ensures
        result is Err ==> *final(f) == *old(f) && final(buffer)@ == old(buffer)@,
        forall|a: Arithmetic| #[trigger]
            ops.follows(a) ==> match build(a, raw_data@) {
                Outcome::Failed(error) => result matches Err(ReportError::Table(e)) && e@ == error,
                Outcome::Built(progress) => match result {
                    Ok(_) => file.refusal() is None && is_report(
                        progress.tables,
                        file,
                        *old(f),
                        old(buffer)@,
                        *final(f),
                        final(buffer)@,
                    ),
                    Err(ReportError::Config(reason)) => file.refusal() == Some(reason),
                    Err(ReportError::Table(_)) => false,
                },
                Outcome::NoPlace => false,
            },
{
    let data = match CriterionTableData::from_raw(raw_data, ops) {
        Ok(data) => data,
        Err(error) => {
            return Err(ReportError::Table(error));
        },
    };
    match write_tables(&data, f, buffer, file) {
        Ok(_) => Ok(()),
        Err(reason) => Err(ReportError::Config(reason)),
    }
}

/// Builds the tables from the raw data, and makes a document of them in the format that `fmt`
/// is for. The configuration counts only once the tables are built.
pub fn build_tables<
    F: Formatter,
    E,
    D: Fn(Float64, Float64) -> Float64,
    M: Fn(Float64, Float64) -> Float64,
    S: Fn(Float64) -> String,
>(
    raw_data: &[RawCriterionData],
    fmt: F,
    file: ConfigFile<E>,
    ops: &FloatOps<D, M, S>,
) -> (result: Result<String, ReportError<E>>)
    requires
        ops.valid(),
        columns_fit(raw_data@),
    ensures
        forall|a: Arithmetic| #[trigger]
            ops.follows(a) ==> match build(a, raw_data@) {
                Outcome::Failed(error) => result matches Err(ReportError::Table(e)) && e@ == error,
                Outcome::Built(progress) => match result {
                    Ok(document) => file.refusal() is None && can_make(
                        progress.tables,
                        file,
                        fmt,
                        document@,
                    ),
                    Err(ReportError::Config(reason)) => file.refusal() == Some(reason),
                    Err(ReportError::Table(_)) => false,
                },
                Outcome::NoPlace => false,
            },
{
    let ghost first = fmt;
    let mut fmt = fmt;
    let mut document = String::new();
    match write_report(raw_data, &mut fmt, &mut document, file, ops) {
        Ok(_) => {
            proof {
                assert forall|tables: Seq<TableView>| #[trigger]
                    is_report(tables, file, first, Seq::empty(), fmt, document@) implies can_make(
                    tables,
                    file,
                    first,
                    document@,
                ) by {}
            }
            Ok(document)
        },
        Err(error) => Err(error),
    }
}

/// A report is written with just the configuration that the file holds; without a file, with one
/// that has no comments; and not at all with a file that is of no use.
pub proof fn lemma_report<F: Formatter, E>(
    tables: Seq<TableView>,
    config: TablesConfig,
    reason: E,
    before: F,
    text_before: Seq<char>,
    after: F,
    text_after: Seq<char>,
)
    ensures
        is_report(
            tables,
            ConfigFile::<E>::Loaded(config),
            before,
            text_before,
            after,
            text_after,
        ) <==> writes(document_calls(tables, &config), before, text_before, after, text_after),
        is_report(
            tables,
            ConfigFile::<E>::NotFound,
            before,
            text_before,
            after,
            text_after,
        ) ==> exists|blank: TablesConfig|
            {
                &&& blank.comments is None
                &&& forall|key: Seq<char>| !#[trigger] blank.table_comments@.contains_key(key)
                &&& #[trigger] writes(
                    document_calls(tables, &blank),
                    before,
                    text_before,
                    after,
                    text_after,
                )
            },
        !is_report(
            tables,
            ConfigFile::Invalid(reason),
            before,
            text_before,
            after,
            text_after,
        ),
        !is_report(
            tables,
            ConfigFile::Unreadable(reason),
            before,
            text_before,
            after,
            text_after,
        ),
        can_make(tables, ConfigFile::<E>::Loaded(config), before, text_after) <==> exists|last: F|
            #[trigger] writes(
                document_calls(tables, &config),
                before,
                Seq::empty(),
                last,
                text_after,
            ),
{
    let file = ConfigFile::<E>::Loaded(config);
    assert(file.gives(config));
    let missing = ConfigFile::<E>::NotFound;
    if is_report(tables, missing, before, text_before, after, text_after) {
        let blank = choose|blank: TablesConfig|
            {
                &&& #[trigger] missing.gives(blank)
                &&& writes(document_calls(tables, &blank), before, text_before, after, text_after)
            };
        assert forall|key: Seq<char>| !#[trigger] blank.table_comments@.contains_key(key) by {
            lemma_comments(&blank, key);
        }
        assert(writes(document_calls(tables, &blank), before, text_before, after, text_after));
    }
    if can_make(tables, file, before, text_after) {
        let last = choose|last: F| #[trigger]
            is_report(tables, file, before, Seq::empty(), last, text_after);
        assert(writes(document_calls(tables, &config), before, Seq::empty(), last, text_after));
    }
    if exists|last: F| #[trigger]
        writes(document_calls(tables, &config), before, Seq::empty(), last, text_after) {
        let last = choose|last: F| #[trigger]
            writes(document_calls(tables, &config), before, Seq::empty(), last, text_after);
        assert(is_report(tables, file, before, Seq::empty(), last, text_after));
    }
}

} // verus!
