//! Which times the document shows.
use crate::config::TablesConfig;
use crate::contents::held_cells;
use crate::contents::is_for;
use crate::contents::item_place;
use crate::contents::item_time;
use crate::contents::lemma_contents;
use crate::contents::row_cells;
use crate::contents::seen_tables;
use crate::document::cell_call;
use crate::document::document_calls;
use crate::document::row_calls;
use crate::document::rows_calls;
use crate::document::table_calls;
use crate::document::table_key;
use crate::document::tables_calls;
use crate::float::Arithmetic;
use crate::format::FormatCall;
use crate::names::lemma_distinct_position;
use crate::names::lemma_listed;
use crate::names::position;
use crate::progress::build;
use crate::progress::table_named;
use crate::progress::table_names;
use crate::progress::table_place;
use crate::progress::Outcome;
use crate::raw::RawCriterionData;
use crate::room::lemma_all_written;
use crate::soundness::lemma_sound;
use crate::soundness::sound_row;
use crate::soundness::sound_table;
use crate::soundness::uses;
use crate::soundness::width_of;
use crate::table::blank;
use crate::table::column_names;
use crate::table::ColumnInfoView;
use crate::table::RowView;
use crate::table::TableView;
use crate::time::TimeUnit;
use vstd::prelude::*;

verus! {

/// Whether a call writes this time.
pub open spec fn writes_time(call: FormatCall, time: TimeUnit) -> bool {
    call matches FormatCall::UsedColumn { time: written, .. } && written == time
}

/// The benchmark at `i` has a cell in its row.
pub proof fn lemma_item_cell(
    a: Arithmetic,
    items: Seq<RawCriterionData>,
    i: int,
    table: Seq<char>,
    row: Seq<char>,
) -> (j: int)
    requires
        0 <= i < items.len(),
        is_for(items[i], table, row),
    ensures
        0 <= j < row_cells(a, items, table, row).len(),
        row_cells(a, items, table, row)[j].name == item_place(items[i])->0.column,
        row_cells(a, items, table, row)[j].time_unit == item_time(a, items[i])->0,
    decreases items.len(),
{
    let fewer = items.drop_last();
    if i < items.len() - 1 {
        assert(fewer[i] == items[i]);
        lemma_item_cell(a, fewer, i, table, row)
    } else {
        row_cells(a, fewer, table, row).len() as int
    }
}

/// Each cell of a row comes from a benchmark.
pub proof fn lemma_cell_item(
    a: Arithmetic,
    items: Seq<RawCriterionData>,
    table: Seq<char>,
    row: Seq<char>,
    j: int,
) -> (i: int)
    requires
        0 <= j < row_cells(a, items, table, row).len(),
    ensures
        0 <= i < items.len(),
        is_for(items[i], table, row),
        row_cells(a, items, table, row)[j].name == item_place(items[i])->0.column,
        row_cells(a, items, table, row)[j].time_unit == item_time(a, items[i])->0,
    decreases items.len(),
{
    let fewer = items.drop_last();
    let before = row_cells(a, fewer, table, row);
    if j < before.len() {
        let i = lemma_cell_item(a, fewer, table, row, j);
        assert(fewer[i] == items[i]);
        i
    } else {
        items.len() - 1
    }
}

/// What is among the calls for one row is among those for all the rows.
proof fn lemma_in_rows(rows: Seq<RowView>, columns: Seq<ColumnInfoView>, i: int, call: FormatCall)
    requires
        0 <= i < rows.len(),
        row_calls(rows[i], columns).contains(call),
    ensures
        rows_calls(rows, columns).contains(call),
    decreases rows.len(),
{
    let before = rows_calls(rows.drop_last(), columns);
    let last = row_calls(rows.last(), columns);
    if i < rows.len() - 1 {
        lemma_in_rows(rows.drop_last(), columns, i, call);
        let k = before.index_of(call);
        assert(rows_calls(rows, columns)[k] == call);
    } else {
        let k = last.index_of(call);
        assert(rows_calls(rows, columns)[before.len() + k] == call);
    }
}

/// What is among the calls for one row of a table is among those for all the tables.
proof fn lemma_in_tables(
    tables: Seq<TableView>,
    config: &TablesConfig,
    t: int,
    i: int,
    call: FormatCall,
)
    requires
        0 <= t < tables.len(),
        tables[t].columns.len() > 0,
        0 <= i < tables[t].rows.len(),
        row_calls(tables[t].rows[i], tables[t].columns).contains(call),
    ensures
        tables_calls(tables, config).contains(call),
    decreases tables.len(),
{
    let before = tables_calls(tables.drop_last(), config);
    let table = tables.last();
    let last = table_calls(table, config.comment_on(table_key(table.name)));
    if t < tables.len() - 1 {
        lemma_in_tables(tables.drop_last(), config, t, i, call);
        let k = before.index_of(call);
        assert(tables_calls(tables, config)[k] == call);
    } else {
        lemma_in_rows(table.rows, table.columns, i, call);
        let k = rows_calls(table.rows, table.columns).index_of(call);
        assert(last[k + 1] == call);
        assert(tables_calls(tables, config)[before.len() + k + 1] == call);
    }
}

/// Every benchmark's time is shown, unless its column has no name.
pub proof fn lemma_every_time_shown(
    a: Arithmetic,
    items: Seq<RawCriterionData>,
    config: &TablesConfig,
    i: int,
)
    requires
        0 <= i < items.len(),
        item_place(items[i]) is Some,
        item_place(items[i])->0.column != blank(),
    ensures
        build(a, items) matches Outcome::Built(progress) ==> exists|k: int|
            {
                &&& 0 <= k < document_calls(progress.tables, config).len()
                &&& writes_time(
                    #[trigger] document_calls(progress.tables, config)[k],
                    item_time(a, items[i])->0,
                )
            },
{
    if let Outcome::Built(progress) = build(a, items) {
        let tables = progress.tables;
        let place = item_place(items[i])->0;
        lemma_contents(a, items);
        lemma_sound(a, items);
        let j = lemma_item_cell(a, items, i, place.table, place.row);
        let cells = held_cells(tables, place.table, place.row);
        assert(cells == row_cells(a, items, place.table, place.row));
        let names = table_names(tables);
        let found = table_named(tables, place.table);
        assert(names.contains(place.table));
        lemma_listed(names, place.table);
        let t = table_place(tables, place.table);
        assert(sound_table(a, tables[t]));
        assert(found.row_names().contains(place.row));
        lemma_listed(found.row_names(), place.row);
        let r = found.row_place(place.row);
        lemma_all_written(a, found, r, j);
        let calls = row_calls(found.rows[r], found.columns);
        let cell = found.rows[r].columns[j];
        let call = FormatCall::UsedColumn {
            time: cell.time_unit,
            pct: cell.pct,
            max_width: width_of(found.columns, cell.name),
        };
        assert(calls.contains(call));
        lemma_in_tables(tables, config, t, r, call);
        let k = tables_calls(tables, config).index_of(call);
        assert(document_calls(tables, config)[k + 1] == call);
    }
}

/// Whether a call writes no time, or one that some row holds.
spec fn held_by(rows: Seq<RowView>, call: FormatCall) -> bool {
    call is UsedColumn ==> exists|i: int, j: int|
        {
            &&& 0 <= i < rows.len()
            &&& 0 <= j < rows[i].columns.len()
            &&& writes_time(call, (#[trigger] rows[i].columns[j]).time_unit)
        }
}

/// Whether a call writes no time, or one that some table holds.
spec fn held_by_table(tables: Seq<TableView>, call: FormatCall) -> bool {
    call is UsedColumn ==> exists|t: int, i: int, j: int|
        {
            &&& 0 <= t < tables.len()
            &&& 0 <= i < tables[t].rows.len()
            &&& 0 <= j < tables[t].rows[i].columns.len()
            &&& writes_time(call, (#[trigger] tables[t].rows[i].columns[j]).time_unit)
        }
}

proof fn lemma_row_holds(rows: Seq<RowView>, columns: Seq<ColumnInfoView>, i: int, k: int)
    requires
        columns.len() > 0,
        0 <= i < rows.len(),
        0 <= k < row_calls(rows[i], columns).len(),
    ensures
        held_by(rows, row_calls(rows[i], columns)[k]),
{
    let row = rows[i];
    let call = row_calls(row, columns)[k];
    if call is UsedColumn {
        assert(0 < k < columns.len());
        assert(call == cell_call(row, columns[k]));
        assert(row.names().contains(columns[k].name));
        lemma_listed(row.names(), columns[k].name);
        let j = position(row.names(), columns[k].name);
        assert(writes_time(call, rows[i].columns[j].time_unit));
    }
}

proof fn lemma_rows_hold(rows: Seq<RowView>, columns: Seq<ColumnInfoView>, n: int, k: int)
    requires
        columns.len() > 0,
        0 <= n <= rows.len(),
        0 <= k < rows_calls(rows.take(n), columns).len(),
    ensures
        held_by(rows, rows_calls(rows.take(n), columns)[k]),
    decreases n,
{
    if n > 0 {
        let before = rows_calls(rows.take(n - 1), columns);
        assert(rows.take(n).drop_last() =~= rows.take(n - 1));
        assert(rows.take(n).last() == rows[n - 1]);
        if k < before.len() {
            lemma_rows_hold(rows, columns, n - 1, k);
        } else {
            lemma_row_holds(rows, columns, n - 1, k - before.len());
        }
    }
}

proof fn lemma_tables_hold(tables: Seq<TableView>, config: &TablesConfig, n: int, k: int)
    requires
        0 <= n <= tables.len(),
        0 <= k < tables_calls(tables.take(n), config).len(),
    ensures
        held_by_table(tables, tables_calls(tables.take(n), config)[k]),
    decreases n,
{
    if n > 0 {
        let before = tables_calls(tables.take(n - 1), config);
        let table = tables[n - 1];
        let last = table_calls(table, config.comment_on(table_key(table.name)));
        let call = tables_calls(tables.take(n), config)[k];
        assert(tables.take(n).drop_last() =~= tables.take(n - 1));
        assert(tables.take(n).last() == table);
        if k < before.len() {
            lemma_tables_hold(tables, config, n - 1, k);
        } else {
            let m = k - before.len();
            assert(call == last[m]);
            if 0 < m < last.len() - 1 {
                let inner = rows_calls(table.rows, table.columns);
                assert(last[m] == inner[m - 1]);
                assert(table.rows.take(table.rows.len() as int) =~= table.rows);
                lemma_rows_hold(table.rows, table.columns, table.rows.len() as int, m - 1);
                if call is UsedColumn {
                    let (i, j) = choose|i: int, j: int|
                        {
                            &&& 0 <= i < table.rows.len()
                            &&& 0 <= j < table.rows[i].columns.len()
                            &&& writes_time(call, (#[trigger] table.rows[i].columns[j]).time_unit)
                        };
                    assert(writes_time(call, tables[n - 1].rows[i].columns[j].time_unit));
                }
            }
        }
    }
}

/// Every time that is shown is a benchmark's.
pub proof fn lemma_every_shown_time_measured(
    a: Arithmetic,
    items: Seq<RawCriterionData>,
    config: &TablesConfig,
    k: int,
)
    requires
        build(a, items) is Built,
        0 <= k < document_calls(build(a, items)->Built_0.tables, config).len(),
        document_calls(build(a, items)->Built_0.tables, config)[k] is UsedColumn,
    ensures
        exists|i: int|
            {
                &&& 0 <= i < items.len()
                &&& item_place(#[trigger] items[i]) is Some
                &&& item_time(a, items[i]) is Some
                &&& writes_time(
                    document_calls(build(a, items)->Built_0.tables, config)[k],
                    item_time(a, items[i])->0,
                )
            },
{
    let tables = build(a, items)->Built_0.tables;
    let call = document_calls(tables, config)[k];
    assert(call == tables_calls(tables, config)[k - 1]);
    assert(tables.take(tables.len() as int) =~= tables);
    lemma_tables_hold(tables, config, tables.len() as int, k - 1);
    let (t, i, j) = choose|t: int, i: int, j: int|
        {
            &&& 0 <= t < tables.len()
            &&& 0 <= i < tables[t].rows.len()
            &&& 0 <= j < tables[t].rows[i].columns.len()
            &&& writes_time(call, (#[trigger] tables[t].rows[i].columns[j]).time_unit)
        };
    lemma_sound(a, items);
    lemma_contents(a, items);
    let table = tables[t];
    let row = table.rows[i];
    assert(sound_table(a, table));
    assert(table_names(tables)[t] == table.name);
    lemma_distinct_position(table_names(tables), t);
    assert(table.row_names()[i] == row.name);
    lemma_distinct_position(table.row_names(), i);
    assert(table_names(tables).contains(table.name));
    assert(table.row_names().contains(row.name));
    assert(held_cells(tables, table.name, row.name) == row.columns);
    assert(held_cells(tables, table.name, row.name) == row_cells(
        a,
        items,
        table.name,
        row.name,
    ));
    let n = lemma_cell_item(a, items, table.name, row.name, j);
    lemma_times_known(a, items, n);
    assert(item_place(items[n]) is Some);
}

/// All benchmarks that were added have times in known units.
pub proof fn lemma_times_known(a: Arithmetic, items: Seq<RawCriterionData>, i: int)
    requires
        build(a, items) is Built,
        0 <= i < items.len(),
        item_place(items[i]) is Some,
    ensures
        item_time(a, items[i]) is Some,
    decreases items.len(),
{
    if i < items.len() - 1 {
        assert(items.drop_last()[i] == items[i]);
        lemma_times_known(a, items.drop_last(), i);
    }
}

/// A table has a column for each column that a benchmark names in it, and one without a name,
/// but no others.
pub proof fn lemma_columns_named(
    a: Arithmetic,
    items: Seq<RawCriterionData>,
    table: Seq<char>,
    column: Seq<char>,
)
    requires
        seen_tables(items).contains(table),
    ensures
        build(a, items) matches Outcome::Built(progress) ==> (column_names(
            table_named(progress.tables, table).columns,
        ).contains(column) <==> (column == blank() || exists|i: int|
            {
                &&& 0 <= i < items.len()
                &&& item_place(#[trigger] items[i]) matches Some(place)
                &&& place.table == table
                &&& place.column == column
            })),
{
    if let Outcome::Built(progress) = build(a, items) {
        let tables = progress.tables;
        lemma_contents(a, items);
        lemma_sound(a, items);
        lemma_listed(table_names(tables), table);
        let found = table_named(tables, table);
        let names = column_names(found.columns);
        assert(sound_table(a, tables[table_place(tables, table)]));
        assert(names[0] == blank());
        if exists|i: int|
            {
                &&& 0 <= i < items.len()
                &&& item_place(#[trigger] items[i]) matches Some(place)
                &&& place.table == table
                &&& place.column == column
            } {
            let i = choose|i: int|
                {
                    &&& 0 <= i < items.len()
                    &&& item_place(#[trigger] items[i]) matches Some(place)
                    &&& place.table == table
                    &&& place.column == column
                };
            let row = item_place(items[i])->0.row;
            let j = lemma_item_cell(a, items, i, table, row);
            assert(held_cells(tables, table, row) == row_cells(a, items, table, row));
            assert(found.row_names().contains(row));
            lemma_listed(found.row_names(), row);
            let r = found.row_place(row);
            assert(sound_row(a, found.rows[r], found.columns));
            assert(found.rows[r].columns[j].name == column);
        }
        if names.contains(column) && column != blank() {
            assert(uses(found.rows, column));
            let r = choose|r: int|
                0 <= r < found.rows.len() && (#[trigger] found.rows[r]).names().contains(column);
            let row = found.rows[r];
            let j = row.names().index_of(column);
            assert(found.row_names()[r] == row.name);
            lemma_distinct_position(found.row_names(), r);
            assert(found.row_names().contains(row.name));
            assert(held_cells(tables, table, row.name) == row_cells(a, items, table, row.name));
            let i = lemma_cell_item(a, items, table, row.name, j);
            assert(item_place(items[i]) is Some);
        }
    }
}

} // verus!
