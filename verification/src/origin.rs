//! From the benchmark results to the places in the document where they are shown.
use crate::config::TablesConfig;
use crate::contents::held_cells;
use crate::contents::is_for;
use crate::contents::item_place;
use crate::contents::item_time;
use crate::contents::lemma_contents;
use crate::contents::lemma_has_cell;
use crate::contents::lemma_no_duplicates;
use crate::contents::row_cells;
use crate::document::document_calls;
use crate::duration::picoseconds_in;
use crate::float::Arithmetic;
use crate::float::Float64;
use crate::format::FormatCall;
use crate::layout::lemma_cell_layout;
use crate::layout::lemma_table_layout;
use crate::layout::length_before;
use crate::names::lemma_distinct_position;
use crate::names::lemma_listed;
use crate::names::position;
use crate::progress::build;
use crate::progress::build_onto;
use crate::progress::id_place;
use crate::progress::table_named;
use crate::progress::table_names;
use crate::progress::table_place;
use crate::progress::tables_left;
use crate::progress::Place;
use crate::progress::Progress;
use crate::ratio::comparable;
use crate::ratio::lemma_ratio;
use crate::raw::BenchmarkComplete;
use crate::raw::BenchmarkGroupComplete;
use crate::raw::RawCriterionData;
use crate::rounding::distance;
use crate::rounding::finite;
use crate::rounding::rounds_products;
use crate::rounding::rounds_quotients;
use crate::soundness::lemma_sound;
use crate::soundness::sound;
use crate::soundness::sound_row;
use crate::soundness::sound_table;
use crate::table::column_names;
use crate::table::compared;
use crate::table::TableView;
use crate::time::time_in;
use crate::time::Comparison;
use crate::written::lemma_cell_item;
use crate::written::lemma_item_cell;
use crate::written::lemma_times_known;
use vstd::arithmetic::power2::pow2;
use vstd::prelude::*;

verus! {

/// What counts of a benchmark is its id, which names its place, and its typical time. A group of
/// benchmarks has neither.
pub proof fn lemma_item(
    a: Arithmetic,
    benchmark: Box<BenchmarkComplete>,
    group: Box<BenchmarkGroupComplete>,
)
    ensures
        item_place(RawCriterionData::Benchmark(benchmark)) == id_place(benchmark.id@),
        item_time(a, RawCriterionData::Benchmark(benchmark)) == time_in(
            a,
            benchmark.typical.estimate,
            benchmark.typical.unit@,
        ),
        item_place(RawCriterionData::BenchmarkGroup(group)) is None,
        item_time(a, RawCriterionData::BenchmarkGroup(group)) is None,
{
}

/// A group of benchmarks changes nothing, whatever has been built before it.
pub proof fn lemma_group_ignored(
    a: Arithmetic,
    start: Progress,
    items: Seq<RawCriterionData>,
    group: Box<BenchmarkGroupComplete>,
)
    ensures
        build_onto(a, start, items.push(RawCriterionData::BenchmarkGroup(group))) == build_onto(
            a,
            start,
            items,
        ),
        tables_left(a, start, items.push(RawCriterionData::BenchmarkGroup(group))) == tables_left(
            a,
            start,
            items,
        ),
{
    assert(items.push(RawCriterionData::BenchmarkGroup(group)).drop_last() =~= items);
}

/// A table or a row that stands among sound tables is what is found under its name.
pub proof fn lemma_found_by_name(a: Arithmetic, tables: Seq<TableView>, t: int, r: int)
    requires
        sound(a, tables),
        0 <= t < tables.len(),
        0 <= r < tables[t].rows.len(),
    ensures
        table_named(tables, tables[t].name) == tables[t],
        held_cells(tables, tables[t].name, tables[t].rows[r].name) == tables[t].rows[r].columns,
{
    let table = tables[t];
    assert(sound_table(a, table));
    assert(table_names(tables)[t] == table.name);
    lemma_distinct_position(table_names(tables), t);
    assert(table_names(tables).contains(table.name));
    assert(table.row_names()[r] == table.rows[r].name);
    lemma_distinct_position(table.row_names(), r);
    assert(table.row_names().contains(table.rows[r].name));
}

/// What is not among the tables is found to be without columns and rows.
pub proof fn lemma_not_found(tables: Seq<TableView>, name: Seq<char>, row: Seq<char>)
    requires
        forall|t: int| 0 <= t < tables.len() ==> (#[trigger] tables[t]).name != name,
    ensures
        table_named(tables, name) == (TableView {
            name,
            columns: Seq::empty(),
            rows: Seq::empty(),
        }),
        held_cells(tables, name, row).len() == 0,
{
    assert(!table_names(tables).contains(name)) by {
        if table_names(tables).contains(name) {
            let t = table_names(tables).index_of(name);
            assert(tables[t].name == name);
        }
    }
    assert(!TableView::empty(name).row_names().contains(row));
}

/// The first cell of a row is from the first benchmark that names the row.
proof fn lemma_first_cell(
    a: Arithmetic,
    items: Seq<RawCriterionData>,
    table: Seq<char>,
    row: Seq<char>,
    f: int,
)
    requires
        0 <= f < items.len(),
        is_for(items[f], table, row),
        forall|m: int| 0 <= m < f ==> !is_for(#[trigger] items[m], table, row),
    ensures
        row_cells(a, items, table, row).len() > 0,
        row_cells(a, items, table, row)[0].name == item_place(items[f])->0.column,
        row_cells(a, items, table, row)[0].time_unit == item_time(a, items[f])->0,
    decreases items.len(),
{
    let fewer = items.drop_last();
    if f < items.len() - 1 {
        assert(fewer[f] == items[f]);
        assert forall|m: int| 0 <= m < f implies !is_for(#[trigger] fewer[m], table, row) by {
            assert(fewer[m] == items[m]);
        }
        lemma_first_cell(a, fewer, table, row, f);
    } else {
        assert forall|m: int| 0 <= m < fewer.len() implies !is_for(
            #[trigger] fewer[m],
            table,
            row,
        ) by {
            assert(fewer[m] == items[m]);
        }
        lemma_no_cells(a, fewer, table, row);
    }
}

proof fn lemma_no_cells(
    a: Arithmetic,
    items: Seq<RawCriterionData>,
    table: Seq<char>,
    row: Seq<char>,
)
    requires
        forall|m: int| 0 <= m < items.len() ==> !is_for(#[trigger] items[m], table, row),
    ensures
        row_cells(a, items, table, row).len() == 0,
    decreases items.len(),
{
    if items.len() > 0 {
        assert(!is_for(items[items.len() - 1], table, row));
        assert forall|m: int| 0 <= m < items.drop_last().len() implies !is_for(
            #[trigger] items.drop_last()[m],
            table,
            row,
        ) by {
            assert(items.drop_last()[m] == items[m]);
        }
        lemma_no_cells(a, items.drop_last(), table, row);
    }
}

/// Every benchmark's time is shown under its own heading: in the table, in the row and under the
/// column that its id names, with the time that it reports as typical, and compared with the
/// typical time of the first benchmark that names this row of this table. Only the column
/// without a name, which holds the names of the rows, shows no times.
pub proof fn lemma_shown_under_heading(
    a: Arithmetic,
    items: Seq<RawCriterionData>,
    config: &TablesConfig,
    i: int,
    f: int,
) -> (spot: (int, int, int))
    requires
        build(a, items) is Built,
        0 <= f <= i < items.len(),
        items[i] is Benchmark,
        items[f] is Benchmark,
        id_place(items[i]->Benchmark_0.id@)->0.column.len() > 0,
        id_place(items[f]->Benchmark_0.id@)->0.table == id_place(
            items[i]->Benchmark_0.id@,
        )->0.table,
        id_place(items[f]->Benchmark_0.id@)->0.row == id_place(items[i]->Benchmark_0.id@)->0.row,
        forall|m: int|
            0 <= m < f && (#[trigger] items[m]) is Benchmark ==> {
                let (x, y) = (
                    id_place(items[m]->Benchmark_0.id@)->0,
                    id_place(items[i]->Benchmark_0.id@)->0,
                );
                x.table != y.table || x.row != y.row
            },
    ensures
        ({
            let (t, r, k) = spot;
            let tables = build(a, items)->Built_0.tables;
            let columns = tables[t].columns;
            let calls = document_calls(tables, config);
            let start = 1 + length_before(tables, t);
            let row_start = start + 1 + r * (columns.len() + 1);
            let benchmark = items[i]->Benchmark_0;
            let place = id_place(benchmark.id@)->0;
            let time = time_in(a, benchmark.typical.estimate, benchmark.typical.unit@);
            let first = time_in(
                a,
                items[f]->Benchmark_0.typical.estimate,
                items[f]->Benchmark_0.typical.unit@,
            );
            &&& 0 <= t < tables.len() && 0 <= r < tables[t].rows.len() && 0 < k < columns.len()
            &&& 0 < start < row_start < row_start + k < calls.len()
            &&& calls[start] matches FormatCall::StartTable { name, columns: headings, .. }
            &&& name == place.table
            &&& headings.len() == columns.len()
            &&& headings[k].name == place.column
            &&& calls[row_start] matches FormatCall::StartRow { name: row_name, .. }
            &&& row_name == place.row
            &&& time is Some && first is Some
            &&& calls[row_start + k] == (FormatCall::UsedColumn {
                time: time->0,
                pct: if i == f {
                    Comparison(Float64 { bits: 0x3ff0_0000_0000_0000 })
                } else {
                    compared(a, time->0, first)
                },
                max_width: headings[k].max_width,
            })
        }),
{
    let tables = build(a, items)->Built_0.tables;
    lemma_well_formed(a, items, i);
    lemma_well_formed(a, items, f);
    let place = item_place(items[i])->0;
    lemma_contents(a, items);
    lemma_sound(a, items);
    lemma_times_known(a, items, i);
    lemma_times_known(a, items, f);
    let j = lemma_item_cell(a, items, i, place.table, place.row);
    let cells = held_cells(tables, place.table, place.row);
    assert(cells == row_cells(a, items, place.table, place.row));
    let names = table_names(tables);
    let table = table_named(tables, place.table);
    lemma_named_there(a, items, i);
    lemma_listed(names, place.table);
    let t = table_place(tables, place.table);
    assert(sound_table(a, tables[t]));
    lemma_listed(table.row_names(), place.row);
    let r = table.row_place(place.row);
    let row = table.rows[r];
    assert(row.columns == cells);
    assert(sound_row(a, row, table.columns));
    let headings = column_names(table.columns);
    assert(headings.contains(row.columns[j].name));
    lemma_listed(headings, place.column);
    let k = position(headings, place.column);
    lemma_table_layout(tables, config, t);
    lemma_cell_layout(tables, config, t, r, 0);
    lemma_cell_layout(tables, config, t, r, k);
    assert forall|m: int| 0 <= m < j implies (#[trigger] row.columns[m]).name
        != table.columns[k].name by {
        assert(row.names()[m] != row.names()[j]);
    }
    assert forall|m: int| 0 <= m < f implies !is_for(
        #[trigger] items[m],
        place.table,
        place.row,
    ) by {}
    lemma_first_cell(a, items, place.table, place.row, f);
    if i == f {
        if j > 0 {
            assert(row.names()[0] != row.names()[j]);
        }
    } else {
        if item_place(items[f]) == item_place(items[i]) {
            lemma_no_duplicates(a, items, f, i);
        }
        assert(j != 0);
    }
    let (n, w) = (table.rows.len() as int, table.columns.len() + 1);
    assert(0 <= r * w) by (nonlinear_arith)
        requires
            0 <= r,
            0 <= w,
    ;
    (t, r, k)
}

/// All benchmarks that were added have ids that name a place.
proof fn lemma_well_formed(a: Arithmetic, items: Seq<RawCriterionData>, i: int)
    requires
        build(a, items) is Built,
        0 <= i < items.len(),
        items[i] is Benchmark,
    ensures
        item_place(items[i]) is Some,
    decreases items.len(),
{
    if i < items.len() - 1 {
        assert(items.drop_last()[i] == items[i]);
        lemma_well_formed(a, items.drop_last(), i);
    }
}

/// The table and the row that a benchmark names are there.
proof fn lemma_named_there(a: Arithmetic, items: Seq<RawCriterionData>, i: int)
    requires
        build(a, items) is Built,
        0 <= i < items.len(),
        item_place(items[i]) is Some,
    ensures
        ({
            let tables = build(a, items)->Built_0.tables;
            let place = item_place(items[i])->0;
            &&& table_names(tables).contains(place.table)
            &&& table_named(tables, place.table).row_names().contains(place.row)
        }),
{
    let tables = build(a, items)->Built_0.tables;
    let place = item_place(items[i])->0;
    lemma_contents(a, items);
    let j = lemma_item_cell(a, items, i, place.table, place.row);
    assert(held_cells(tables, place.table, place.row) == row_cells(
        a,
        items,
        place.table,
        place.row,
    ));
    let table = table_named(tables, place.table);
    if !table.row_names().contains(place.row) {
        assert(table.rows_with(place.row)[table.row_place(place.row)].columns.len() == 0);
    }
    if !table_names(tables).contains(place.table) {
        assert(table.row_names() =~= Seq::empty());
    }
}

/// Every spot of the document shows what was measured for it: a time under a heading is that of
/// a benchmark whose id names the table, the column and the row, and a spot without a time is one
/// that no benchmark's id names.
pub proof fn lemma_spot_measured(
    a: Arithmetic,
    items: Seq<RawCriterionData>,
    config: &TablesConfig,
    t: int,
    r: int,
    k: int,
) -> (i: int)
    requires
        build(a, items) is Built,
        0 <= t < build(a, items)->Built_0.tables.len(),
        0 <= r < build(a, items)->Built_0.tables[t].rows.len(),
        0 < k < build(a, items)->Built_0.tables[t].columns.len(),
    ensures
        ({
            let tables = build(a, items)->Built_0.tables;
            let columns = tables[t].columns;
            let here = Place {
                table: tables[t].name,
                column: columns[k].name,
                row: tables[t].rows[r].name,
            };
            let call = document_calls(
                tables,
                config,
            )[2 + length_before(tables, t) + r * (columns.len() + 1) + k];
            &&& call matches FormatCall::UsedColumn { time, .. } ==> {
                &&& 0 <= i < items.len()
                &&& items[i] is Benchmark
                &&& id_place(items[i]->Benchmark_0.id@) == Some(here)
                &&& time_in(
                    a,
                    items[i]->Benchmark_0.typical.estimate,
                    items[i]->Benchmark_0.typical.unit@,
                ) == Some(time)
            }
            &&& !(call is UsedColumn) ==> {
                &&& call == (FormatCall::UnusedColumn { max_width: columns[k].max_width })
                &&& forall|m: int|
                    0 <= m < items.len() && #[trigger] items[m] is Benchmark ==> id_place(
                        items[m]->Benchmark_0.id@,
                    ) != Some(here)
            }
        }),
{
    let tables = build(a, items)->Built_0.tables;
    let table = tables[t];
    let row = table.rows[r];
    let name = table.columns[k].name;
    let here = Place { table: table.name, column: name, row: row.name };
    lemma_sound(a, items);
    lemma_contents(a, items);
    lemma_found_by_name(a, tables, t, r);
    assert(sound_table(a, table));
    assert(sound_row(a, row, table.columns));
    lemma_cell_layout(tables, config, t, r, k);
    assert(held_cells(tables, table.name, row.name) == row_cells(a, items, table.name, row.name));
    if row.names().contains(name) {
        let j = row.names().index_of(name);
        assert(row.columns[j].name == name);
        assert forall|m: int| 0 <= m < j implies (#[trigger] row.columns[m]).name != name by {
            assert(row.names()[m] != row.names()[j]);
        }
        let i = lemma_cell_item(a, items, table.name, row.name, j);
        lemma_times_known(a, items, i);
        i
    } else {
        assert forall|j: int| 0 <= j < row.columns.len() implies (#[trigger] row.columns[j]).name
            != name by {
            assert(row.names()[j] == row.columns[j].name);
        }
        lemma_has_cell(a, items, here);
        lemma_listed(table.row_names(), row.name);
        lemma_distinct_position(table.row_names(), r);
        assert forall|m: int| 0 <= m < items.len() && #[trigger] items[m] is Benchmark implies
            id_place(items[m]->Benchmark_0.id@) != Some(here) by {
            if id_place(items[m]->Benchmark_0.id@) == Some(here) {
                assert(item_place(items[m]) == Some(here));
            }
        }
        0
    }
}

/// Where division and multiplication round to a nearest number, a benchmark that is not the first
/// one of its row is shown with how often its typical time, as it was given, goes into that of
/// the first one, as it was given, up to one part in 10 to the power of 14, whatever the units.
pub proof fn lemma_shown_ratio(
    a: Arithmetic,
    items: Seq<RawCriterionData>,
    config: &TablesConfig,
    i: int,
    f: int,
) -> (at: int)
    requires
        rounds_quotients(a),
        rounds_products(a),
        build(a, items) is Built,
        0 <= f < i < items.len(),
        items[i] is Benchmark,
        items[f] is Benchmark,
        id_place(items[i]->Benchmark_0.id@)->0.column.len() > 0,
        id_place(items[f]->Benchmark_0.id@)->0.table == id_place(
            items[i]->Benchmark_0.id@,
        )->0.table,
        id_place(items[f]->Benchmark_0.id@)->0.row == id_place(items[i]->Benchmark_0.id@)->0.row,
        forall|m: int|
            0 <= m < f && (#[trigger] items[m]) is Benchmark ==> {
                let (x, y) = (
                    id_place(items[m]->Benchmark_0.id@)->0,
                    id_place(items[i]->Benchmark_0.id@)->0,
                );
                x.table != y.table || x.row != y.row
            },
        comparable(
            items[f]->Benchmark_0.typical.estimate,
            items[f]->Benchmark_0.typical.unit@,
            items[i]->Benchmark_0.typical.estimate,
            items[i]->Benchmark_0.typical.unit@,
        ),
    ensures
        ({
            let calls = document_calls(build(a, items)->Built_0.tables, config);
            let (first, later) = (
                items[f]->Benchmark_0.typical,
                items[i]->Benchmark_0.typical,
            );
            let x = first.estimate.value() * picoseconds_in(first.unit@);
            let y = later.estimate.value() * picoseconds_in(later.unit@);
            &&& 0 <= at < calls.len()
            &&& calls[at] matches FormatCall::UsedColumn { time, pct, .. }
            &&& time_in(a, later.estimate, later.unit@) == Some(time)
            &&& finite(pct.0)
            &&& 100_000_000_000_000 * distance(pct.0.value() * y - x * pow2(1074)) <= x * pow2(1074)
        }),
{
    let (t, r, k) = lemma_shown_under_heading(a, items, config, i, f);
    let (first, later) = (items[f]->Benchmark_0.typical, items[i]->Benchmark_0.typical);
    lemma_ratio(a, first.estimate, first.unit@, later.estimate, later.unit@);
    let tables = build(a, items)->Built_0.tables;
    2 + length_before(tables, t) + r * (tables[t].columns.len() + 1) + k
}

} // verus!
