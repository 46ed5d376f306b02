//! In what order a formatter is called.
use crate::config::TablesConfig;
use crate::document::cells_calls;
use crate::document::document_calls;
use crate::document::row_calls;
use crate::document::rows_calls;
use crate::document::table_calls;
use crate::document::table_key;
use crate::document::tables_calls;
use crate::format::FormatCall;
use crate::table::ColumnInfoView;
use crate::table::RowView;
use crate::table::TableView;
use vstd::prelude::*;

verus! {

/// What a formatter is in the middle of.
pub ghost enum Level {
    /// The document has not been started.
    Before,
    /// The document, outside any table.
    Document,
    /// A table, outside any row.
    Table,
    /// A row.
    Row,
    /// The document has been ended.
    After,
}

/// What a formatter is in the middle of after a call, if the call may come now.
pub open spec fn level_after(level: Level, call: FormatCall) -> Option<Level> {
    match (level, call) {
        (Level::Before, FormatCall::Start { .. }) => Some(Level::Document),
        (Level::Document, FormatCall::StartTable { .. }) => Some(Level::Table),
        (Level::Table, FormatCall::StartRow { .. }) => Some(Level::Row),
        (Level::Row, FormatCall::UsedColumn { .. }) => Some(Level::Row),
        (Level::Row, FormatCall::UnusedColumn { .. }) => Some(Level::Row),
        (Level::Row, FormatCall::EndRow) => Some(Level::Table),
        (Level::Table, FormatCall::EndTable) => Some(Level::Document),
        (Level::Document, FormatCall::End) => Some(Level::After),
        _ => None,
    }
}

/// What a formatter is in the middle of after some calls, if they may come in this order.
pub open spec fn level_after_all(level: Level, calls: Seq<FormatCall>) -> Option<Level>
    decreases calls.len(),
{
    if calls.len() == 0 {
        Some(level)
    } else {
        match level_after_all(level, calls.drop_last()) {
            Some(middle) => level_after(middle, calls.last()),
            None => None,
        }
    }
}

/// Calls after calls.
proof fn lemma_both(level: Level, calls: Seq<FormatCall>, more: Seq<FormatCall>)
    ensures
        level_after_all(level, calls + more) == match level_after_all(level, calls) {
            Some(middle) => level_after_all(middle, more),
            None => None,
        },
    decreases more.len(),
{
    if more.len() == 0 {
        assert(calls + more =~= calls);
    } else {
        lemma_both(level, calls, more.drop_last());
        assert((calls + more).drop_last() =~= calls + more.drop_last());
        assert((calls + more).last() == more.last());
    }
}

/// One call.
proof fn lemma_single(level: Level, call: FormatCall)
    ensures
        level_after_all(level, seq![call]) == level_after(level, call),
{
    let calls = seq![call];
    assert(calls.drop_last() =~= Seq::empty());
    assert(calls.last() == call);
    reveal_with_fuel(level_after_all, 2);
}

/// The columns of a row stay within the row.
proof fn lemma_cells_nested(row: RowView, columns: Seq<ColumnInfoView>, n: nat)
    ensures
        level_after_all(Level::Row, cells_calls(row, columns, n)) == Some(Level::Row),
    decreases n,
{
    if n > 0 {
        let m = (n - 1) as nat;
        lemma_cells_nested(row, columns, m);
        assert(cells_calls(row, columns, n).drop_last() =~= cells_calls(row, columns, m));
    }
}

/// Rows are ended before their table is.
proof fn lemma_rows_nested(rows: Seq<RowView>, columns: Seq<ColumnInfoView>)
    ensures
        level_after_all(Level::Table, rows_calls(rows, columns)) == Some(Level::Table),
    decreases rows.len(),
{
    if rows.len() > 0 {
        let row = rows.last();
        lemma_rows_nested(rows.drop_last(), columns);
        let start = seq![
            FormatCall::StartRow { name: row.name, max_width: columns[0].max_width },
        ];
        let cells = cells_calls(row, columns, (columns.len() - 1) as nat);
        lemma_single(Level::Table, start[0]);
        lemma_cells_nested(row, columns, (columns.len() - 1) as nat);
        lemma_single(Level::Row, FormatCall::EndRow);
        lemma_both(Level::Table, start, cells);
        lemma_both(Level::Table, start + cells, seq![FormatCall::EndRow]);
        assert(row_calls(row, columns) =~= start + cells + seq![FormatCall::EndRow]);
        lemma_both(
            Level::Table,
            rows_calls(rows.drop_last(), columns),
            row_calls(row, columns),
        );
    }
}

/// A table is ended before the next one is started.
proof fn lemma_tables_nested(tables: Seq<TableView>, config: &TablesConfig)
    ensures
        level_after_all(Level::Document, tables_calls(tables, config)) == Some(Level::Document),
    decreases tables.len(),
{
    if tables.len() > 0 {
        let table = tables.last();
        let comment = config.comment_on(table_key(table.name));
        lemma_tables_nested(tables.drop_last(), config);
        if table.columns.len() > 0 {
            let start = seq![
                FormatCall::StartTable { name: table.name, comment, columns: table.columns },
            ];
            let rows = rows_calls(table.rows, table.columns);
            lemma_single(Level::Document, start[0]);
            lemma_rows_nested(table.rows, table.columns);
            lemma_single(Level::Table, FormatCall::EndTable);
            lemma_both(Level::Document, start, rows);
            lemma_both(Level::Document, start + rows, seq![FormatCall::EndTable]);
            assert(table_calls(table, comment) =~= start + rows + seq![FormatCall::EndTable]);
        }
        lemma_both(
            Level::Document,
            tables_calls(tables.drop_last(), config),
            table_calls(table, comment),
        );
    }
}

/// The calls that write a document are well nested: all tables come between the document's
/// start and its end, all rows between the start and the end of their table, and all columns
/// between the start and the end of their row.
pub proof fn lemma_document_nested(tables: Seq<TableView>, config: &TablesConfig)
    ensures
        level_after_all(Level::Before, document_calls(tables, config)) == Some(Level::After),
{
    let calls = document_calls(tables, config);
    let start = seq![calls[0]];
    let inner = tables_calls(tables, config);
    lemma_single(Level::Before, calls[0]);
    lemma_tables_nested(tables, config);
    lemma_single(Level::Document, FormatCall::End);
    lemma_both(Level::Before, start, inner);
    lemma_both(Level::Before, start + inner, seq![FormatCall::End]);
    assert(calls =~= start + inner + seq![FormatCall::End]);
}

/// Well-nested calls start the document once, with the first call, and end it once, with the
/// last.
pub proof fn lemma_started_and_ended_once(calls: Seq<FormatCall>)
    requires
        level_after_all(Level::Before, calls) == Some(Level::After),
    ensures
        calls.len() >= 2,
        forall|k: int| 0 <= k < calls.len() ==> (#[trigger] calls[k] is Start <==> k == 0),
        forall|k: int|
            0 <= k < calls.len() ==> (#[trigger] calls[k] is End <==> k == calls.len() - 1),
{
    lemma_start_and_end(calls);
}

/// Calls that may come in this order start the document with the first call and no other, and
/// end it with no call but the last.
proof fn lemma_start_and_end(calls: Seq<FormatCall>)
    requires
        level_after_all(Level::Before, calls) is Some,
    ensures
        level_after_all(Level::Before, calls) == Some(Level::Before) <==> calls.len() == 0,
        level_after_all(Level::Before, calls) == Some(Level::After) ==> calls.len() >= 2,
        forall|k: int| 0 <= k < calls.len() ==> (#[trigger] calls[k] is Start <==> k == 0),
        forall|k: int|
            0 <= k < calls.len() ==> (#[trigger] calls[k] is End <==> k == calls.len() - 1
                && level_after_all(Level::Before, calls) == Some(Level::After)),
    decreases calls.len(),
{
    if calls.len() > 0 {
        let fewer = calls.drop_last();
        lemma_start_and_end(fewer);
        assert forall|k: int| 0 <= k < fewer.len() implies #[trigger] calls[k] == fewer[k] by {}
    }
}

} // verus!
