//! Where in the document everything is written.
use crate::config::TablesConfig;
use crate::document::cell_call;
use crate::document::document_calls;
use crate::document::row_calls;
use crate::document::rows_calls;
use crate::document::table_calls;
use crate::document::table_key;
use crate::document::tables_calls;
use crate::format::FormatCall;
use crate::names::first_at;
use crate::names::lemma_first;
use crate::progress::table_names;
use crate::table::ColumnInfoView;
use crate::table::RowView;
use crate::table::TableView;
use crate::text::lowercase;
use crate::text::replaced;
use vstd::prelude::*;

verus! {

/// How many calls write a table: one to start it, one to end it, and for each row one for each
/// column and one to end the row. A table without columns is left out.
pub open spec fn table_length(table: TableView) -> nat {
    if table.columns.len() == 0 {
        0
    } else {
        2 + table.rows.len() * (table.columns.len() + 1)
    }
}

/// How many calls write the first `t` tables.
pub open spec fn length_before(tables: Seq<TableView>, t: int) -> int
    decreases t,
{
    if t <= 0 {
        0
    } else {
        length_before(tables, t - 1) + table_length(tables[t - 1])
    }
}

/// The name that a table's comment is filed under, before it is put in lower case: that of the
/// table, with underscores for spaces.
pub open spec fn filed_as(name: Seq<char>) -> Seq<char> {
    Seq::new(
        name.len(),
        |i: int|
            if name[i] == ' ' {
                '_'
            } else {
                name[i]
            },
    )
}

/// Each call for a row is for one column of the table, in the order of the columns: the first
/// is for the row's name; every other one shows the data that the row has under the column's own
/// name, or else says that there is none.
pub proof fn lemma_row_layout(row: RowView, columns: Seq<ColumnInfoView>, k: int)
    requires
        0 < k < columns.len(),
    ensures
        row_calls(row, columns).len() == columns.len() + 1,
        row_calls(row, columns)[0] == (FormatCall::StartRow {
            name: row.name,
            max_width: columns[0].max_width,
        }),
        row_calls(row, columns)[columns.len() as int] == FormatCall::EndRow,
        (forall|j: int|
            0 <= j < row.columns.len() ==> (#[trigger] row.columns[j]).name != columns[k].name)
            ==> row_calls(row, columns)[k] == (FormatCall::UnusedColumn {
            max_width: columns[k].max_width,
        }),
        forall|j: int|
            {
                &&& 0 <= j < row.columns.len()
                &&& (#[trigger] row.columns[j]).name == columns[k].name
                &&& forall|i: int|
                    0 <= i < j ==> (#[trigger] row.columns[i]).name != columns[k].name
            } ==> row_calls(row, columns)[k] == (FormatCall::UsedColumn {
                time: row.columns[j].time_unit,
                pct: row.columns[j].pct,
                max_width: columns[k].max_width,
            }),
{
    let name = columns[k].name;
    assert(row_calls(row, columns)[k] == cell_call(row, columns[k]));
    if row.names().contains(name) {
        let j = row.names().index_of(name);
        assert(row.columns[j].name == name);
    }
    assert forall|j: int|
        {
            &&& 0 <= j < row.columns.len()
            &&& (#[trigger] row.columns[j]).name == name
            &&& forall|i: int| 0 <= i < j ==> (#[trigger] row.columns[i]).name != name
        } implies row_calls(row, columns)[k] == (FormatCall::UsedColumn {
        time: row.columns[j].time_unit,
        pct: row.columns[j].pct,
        max_width: columns[k].max_width,
    }) by {
        assert forall|i: int| 0 <= i < j implies row.names()[i] != name by {
            assert(row.columns[i].name != name);
        }
        assert(row.names()[j] == name);
        assert(first_at(row.names(), name, j));
        lemma_first(row.names(), name, j);
        assert(row.names().contains(name));
    }
}

proof fn lemma_rows_length(rows: Seq<RowView>, columns: Seq<ColumnInfoView>)
    requires
        columns.len() > 0,
    ensures
        rows_calls(rows, columns).len() == rows.len() * (columns.len() + 1),
    decreases rows.len(),
{
    if rows.len() > 0 {
        lemma_rows_length(rows.drop_last(), columns);
        let (n, w) = (rows.len() as int, columns.len() + 1);
        assert((n - 1) * w + w == n * w) by (nonlinear_arith);
    } else {
        assert(0 * (columns.len() + 1) == 0);
    }
}

proof fn lemma_rows_at(rows: Seq<RowView>, columns: Seq<ColumnInfoView>, r: int, k: int)
    requires
        0 <= r < rows.len(),
        0 <= k <= columns.len(),
        columns.len() > 0,
    ensures
        0 <= r * (columns.len() + 1) + k < rows_calls(rows, columns).len(),
        rows_calls(rows, columns)[r * (columns.len() + 1) + k] == row_calls(rows[r], columns)[k],
    decreases rows.len(),
{
    let (n, w) = (rows.len() as int, columns.len() + 1);
    lemma_rows_length(rows, columns);
    lemma_rows_length(rows.drop_last(), columns);
    assert(0 <= r * w && r * w + w <= n * w && (n - 1) * w + w == n * w) by (nonlinear_arith)
        requires
            0 <= r < n,
            0 < w,
    ;
    if r < n - 1 {
        lemma_rows_at(rows.drop_last(), columns, r, k);
    }
}

proof fn lemma_table_length(table: TableView, comment: Option<Seq<char>>)
    ensures
        table_calls(table, comment).len() == table_length(table),
{
    if table.columns.len() > 0 {
        lemma_rows_length(table.rows, table.columns);
    }
}

proof fn lemma_length_before(tables: Seq<TableView>, t: int)
    requires
        0 <= t < tables.len(),
    ensures
        length_before(tables.drop_last(), t) == length_before(tables, t),
    decreases t,
{
    if t > 0 {
        lemma_length_before(tables, t - 1);
    }
}

proof fn lemma_tables_length(tables: Seq<TableView>, config: &TablesConfig)
    ensures
        tables_calls(tables, config).len() == length_before(tables, tables.len() as int),
    decreases tables.len(),
{
    if tables.len() > 0 {
        lemma_tables_length(tables.drop_last(), config);
        lemma_length_before(tables, tables.len() - 1);
        let table = tables.last();
        lemma_table_length(table, config.comment_on(table_key(table.name)));
    }
}

proof fn lemma_tables_at(tables: Seq<TableView>, config: &TablesConfig, t: int, j: int)
    requires
        0 <= t < tables.len(),
        0 <= j < table_length(tables[t]),
    ensures
        0 <= length_before(tables, t) + j < tables_calls(tables, config).len(),
        tables_calls(tables, config)[length_before(tables, t) + j] == table_calls(
            tables[t],
            config.comment_on(table_key(tables[t].name)),
        )[j],
    decreases tables.len(),
{
    let last = tables.len() - 1;
    lemma_tables_length(tables, config);
    lemma_tables_length(tables.drop_last(), config);
    lemma_length_before(tables, t);
    lemma_length_before(tables, last);
    lemma_table_length(tables[t], config.comment_on(table_key(tables[t].name)));
    if t < last {
        lemma_tables_at(tables.drop_last(), config, t, j);
    }
}

/// The document starts with the comment on all the tables and the names of the tables, in their
/// order. It ends with the call that ends it; between the two is what writes the tables, and
/// nothing else.
pub proof fn lemma_document_layout(tables: Seq<TableView>, config: &TablesConfig)
    ensures
        ({
            let calls = document_calls(tables, config);
            &&& calls.len() == length_before(tables, tables.len() as int) + 2
            &&& calls[calls.len() - 1] == FormatCall::End
            &&& calls[0] == (FormatCall::Start {
                comment: match config.comments {
                    Some(comment) => Some(comment@),
                    None => None,
                },
                tables: Seq::new(tables.len(), |i: int| tables[i].name),
            })
        }),
{
    lemma_tables_length(tables, config);
    assert(table_names(tables) =~= Seq::new(tables.len(), |i: int| tables[i].name));
}

/// Every table that has columns, wherever it stands among the tables, is started with its name,
/// its columns, and the comment that is filed under its name in lower case with underscores for
/// spaces, if there is one. It is ended after its last row.
pub proof fn lemma_table_layout(tables: Seq<TableView>, config: &TablesConfig, t: int)
    requires
        0 <= t < tables.len(),
        tables[t].columns.len() > 0,
    ensures
        ({
            let calls = document_calls(tables, config);
            let start = 1 + length_before(tables, t);
            let key = lowercase(filed_as(tables[t].name));
            &&& 0 < start < calls.len() - 1
            &&& calls[start] == (FormatCall::StartTable {
                name: tables[t].name,
                comment: if config.table_comments@.contains_key(key) {
                    Some(config.table_comments@[key]@)
                } else {
                    None
                },
                columns: tables[t].columns,
            })
            &&& calls[start + table_length(tables[t]) - 1] == FormatCall::EndTable
        }),
{
    let table = tables[t];
    lemma_rows_length(table.rows, table.columns);
    let (n, w) = (table.rows.len() as int, table.columns.len() + 1);
    assert(0 <= n * w) by (nonlinear_arith)
        requires
            0 <= n,
            0 <= w,
    ;
    lemma_tables_at(tables, config, t, 0);
    lemma_tables_at(tables, config, t, table_length(table) - 1);
    assert(replaced(table.name, ' ', '_') =~= filed_as(table.name));
    lemma_start_in_range(tables, t);
    lemma_start_in_range(tables, tables.len() as int);
}

proof fn lemma_start_in_range(tables: Seq<TableView>, t: int)
    requires
        0 <= t <= tables.len(),
    ensures
        0 <= length_before(tables, t),
    decreases t,
{
    if t > 0 {
        lemma_start_in_range(tables, t - 1);
        let (n, w) = (tables[t - 1].rows.len() as int, tables[t - 1].columns.len() + 1);
        assert(0 <= n * w) by (nonlinear_arith)
            requires
                0 <= n,
                0 <= w,
        ;
    }
}

/// Within its table, each row is written after those before it: its name, with the width of the
/// table's first column; then, for each further column of the table, the data that the row has
/// under that column's name, or that it has none there; then the row's end.
pub proof fn lemma_cell_layout(
    tables: Seq<TableView>,
    config: &TablesConfig,
    t: int,
    r: int,
    k: int,
)
    requires
        0 <= t < tables.len(),
        0 <= r < tables[t].rows.len(),
        0 <= k <= tables[t].columns.len(),
        tables[t].columns.len() > 0,
    ensures
        ({
            let calls = document_calls(tables, config);
            let columns = tables[t].columns;
            let row = tables[t].rows[r];
            let at = 2 + length_before(tables, t) + r * (columns.len() + 1) + k;
            &&& 0 < at < calls.len() - 1
            &&& k == 0 ==> calls[at] == (FormatCall::StartRow {
                name: row.name,
                max_width: columns[0].max_width,
            })
            &&& k == columns.len() ==> calls[at] == FormatCall::EndRow
            &&& 0 < k < columns.len() && (forall|j: int|
                0 <= j < row.columns.len() ==> (#[trigger] row.columns[j]).name
                    != columns[k].name) ==> calls[at] == (FormatCall::UnusedColumn {
                max_width: columns[k].max_width,
            })
            &&& forall|j: int|
                {
                    &&& 0 < k < columns.len()
                    &&& 0 <= j < row.columns.len()
                    &&& (#[trigger] row.columns[j]).name == columns[k].name
                    &&& forall|i: int|
                        0 <= i < j ==> (#[trigger] row.columns[i]).name != columns[k].name
                } ==> calls[at] == (FormatCall::UsedColumn {
                    time: row.columns[j].time_unit,
                    pct: row.columns[j].pct,
                    max_width: columns[k].max_width,
                })
        }),
{
    let table = tables[t];
    let (n, w) = (table.rows.len() as int, table.columns.len() + 1);
    lemma_rows_length(table.rows, table.columns);
    lemma_rows_at(table.rows, table.columns, r, k);
    lemma_start_in_range(tables, t);
    lemma_tables_at(tables, config, t, 1 + r * w + k);
    if 0 < k < table.columns.len() {
        lemma_row_layout(table.rows[r], table.columns, k);
    }
}

/// Tables are written in their order, each after the end of the one before it, and the first one
/// right after the document's start.
pub proof fn lemma_tables_one_by_one(tables: Seq<TableView>, s: int, t: int)
    requires
        0 <= s < t <= tables.len(),
    ensures
        length_before(tables, 0) == 0,
        length_before(tables, s + 1) == length_before(tables, s) + if tables[s].columns.len()
            == 0 {
            0
        } else {
            2 + tables[s].rows.len() * (tables[s].columns.len() + 1)
        },
        0 <= length_before(tables, s) <= length_before(tables, s + 1) <= length_before(tables, t),
    decreases t - s,
{
    lemma_start_in_range(tables, s);
    let (n, w) = (tables[s].rows.len() as int, tables[s].columns.len() + 1);
    assert(0 <= n * w) by (nonlinear_arith)
        requires
            0 <= n,
            0 <= w,
    ;
    if s + 1 < t {
        lemma_tables_one_by_one(tables, s + 1, t);
    }
}

} // verus!
