//! What holds of every document that is written.
use crate::config::TablesConfig;
use crate::document::cell_call;
use crate::document::document_calls;
use crate::document::row_calls;
use crate::document::rows_calls;
use crate::document::table_calls;
use crate::document::table_key;
use crate::document::tables_calls;
use crate::float::Arithmetic;
use crate::format::FormatCall;
use crate::names::distinct;
use crate::names::lemma_distinct_position;
use crate::names::lemma_listed;
use crate::names::position;
use crate::soundness::sound;
use crate::soundness::sound_row;
use crate::soundness::sound_table;
use crate::soundness::width_of;
use crate::table::blank;
use crate::table::column_names;
use crate::table::ColumnInfoView;
use crate::table::RowView;
use crate::table::TableView;
use vstd::prelude::*;

verus! {

/// Whether what a call asks to write fits into the width that the call gives.
pub open spec fn has_room(a: Arithmetic, call: FormatCall) -> bool {
    match call {
        FormatCall::StartRow { name, max_width } => name.len() <= max_width,
        FormatCall::UsedColumn { time, pct, max_width } => time.text(a).len() + pct.text(a).len()
            <= max_width,
        _ => true,
    }
}

/// Whether each of these calls gives enough width.
pub open spec fn all_have_room(a: Arithmetic, calls: Seq<FormatCall>) -> bool {
    forall|k: int| 0 <= k < calls.len() ==> has_room(a, #[trigger] calls[k])
}

proof fn lemma_first_width(table: TableView)
    requires
        table.columns.len() > 0,
        table.columns[0].name == blank(),
        distinct(column_names(table.columns)),
    ensures
        table.columns[0].max_width == width_of(table.columns, blank()),
{
    lemma_distinct_position(column_names(table.columns), 0);
}

/// In a sound table, each call that writes a row gives enough width.
proof fn lemma_row_room(a: Arithmetic, table: TableView, i: int)
    requires
        sound_table(a, table),
        0 <= i < table.rows.len(),
    ensures
        all_have_room(a, row_calls(table.rows[i], table.columns)),
{
    let row = table.rows[i];
    let columns = table.columns;
    let calls = row_calls(row, columns);
    assert(sound_row(a, row, columns));
    lemma_first_width(table);
    assert forall|k: int| 0 <= k < calls.len() implies has_room(a, #[trigger] calls[k]) by {
        if 0 < k < calls.len() - 1 {
            let column = columns[k];
            assert(calls[k] == cell_call(row, column));
            if row.names().contains(column.name) {
                lemma_listed(row.names(), column.name);
                let j = position(row.names(), column.name);
                assert(row.columns[j].name == column.name);
                assert(column_names(columns)[k] == column.name);
                lemma_distinct_position(column_names(columns), k);
            }
        }
    }
}

proof fn lemma_rows_room(a: Arithmetic, table: TableView, n: int)
    requires
        sound_table(a, table),
        0 <= n <= table.rows.len(),
    ensures
        all_have_room(a, rows_calls(table.rows.take(n), table.columns)),
    decreases n,
{
    if n > 0 {
        lemma_rows_room(a, table, n - 1);
        lemma_row_room(a, table, n - 1);
        assert(table.rows.take(n).drop_last() =~= table.rows.take(n - 1));
        assert(table.rows.take(n).last() == table.rows[n - 1]);
    }
}

proof fn lemma_tables_room(
    a: Arithmetic,
    tables: Seq<TableView>,
    config: &TablesConfig,
    n: int,
)
    requires
        sound(a, tables),
        0 <= n <= tables.len(),
    ensures
        all_have_room(a, tables_calls(tables.take(n), config)),
    decreases n,
{
    if n > 0 {
        let table = tables[n - 1];
        lemma_tables_room(a, tables, config, n - 1);
        assert(sound_table(a, table));
        lemma_rows_room(a, table, table.rows.len() as int);
        assert(table.rows.take(table.rows.len() as int) =~= table.rows);
        assert(tables.take(n).drop_last() =~= tables.take(n - 1));
        assert(tables.take(n).last() == table);
        let calls = table_calls(table, config.comment_on(table_key(table.name)));
        let inner = rows_calls(table.rows, table.columns);
        assert(all_have_room(a, calls)) by {
            assert forall|k: int| 0 <= k < calls.len() implies has_room(a, #[trigger] calls[k]) by {
                if 0 < k < calls.len() - 1 {
                    assert(calls[k] == inner[k - 1]);
                }
            }
        }
    }
}

/// In the document that is made of sound tables, every row's name and all data fit into the
/// widths that the formatter is given for them.
pub proof fn lemma_document_room(a: Arithmetic, tables: Seq<TableView>, config: &TablesConfig)
    requires
        sound(a, tables),
    ensures
        all_have_room(a, document_calls(tables, config)),
{
    lemma_tables_room(a, tables, config, tables.len() as int);
    assert(tables.take(tables.len() as int) =~= tables);
    let calls = document_calls(tables, config);
    let inner = tables_calls(tables, config);
    assert forall|k: int| 0 <= k < calls.len() implies has_room(a, #[trigger] calls[k]) by {
        if 0 < k < calls.len() - 1 {
            assert(calls[k] == inner[k - 1]);
        }
    }
}

/// Each row of a table is written with one call for each of the table's columns, and one to
/// end it.
pub proof fn lemma_row_length(row: RowView, columns: Seq<ColumnInfoView>)
    requires
        columns.len() > 0,
    ensures
        row_calls(row, columns).len() == columns.len() + 1,
{
}

/// All data that a row of a sound table has in a column with a name is written.
pub proof fn lemma_all_written(a: Arithmetic, table: TableView, i: int, j: int)
    requires
        sound_table(a, table),
        0 <= i < table.rows.len(),
        0 <= j < table.rows[i].columns.len(),
        table.rows[i].columns[j].name != blank(),
    ensures
        ({
            let cell = table.rows[i].columns[j];
            row_calls(table.rows[i], table.columns).contains(
                FormatCall::UsedColumn {
                    time: cell.time_unit,
                    pct: cell.pct,
                    max_width: width_of(table.columns, cell.name),
                },
            )
        }),
{
    let row = table.rows[i];
    let cell = row.columns[j];
    let columns = table.columns;
    assert(sound_row(a, row, columns));
    let names = column_names(columns);
    lemma_listed(names, cell.name);
    let k = position(names, cell.name);
    assert(row.names()[j] == cell.name);
    lemma_distinct_position(row.names(), j);
    assert(k > 0);
    assert(row_calls(row, columns)[k] == cell_call(row, columns[k]));
}

} // verus!
