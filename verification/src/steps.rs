//! What one more item does to whatever has been built before it.
use crate::error::TableErrorView;
use crate::float::Arithmetic;
use crate::names::first_at;
use crate::names::lemma_first;
use crate::names::lemma_listed;
use crate::progress::build;
use crate::progress::build_onto;
use crate::progress::columns_fit;
use crate::progress::columns_fit_onto;
use crate::progress::id_place;
use crate::progress::left_behind;
use crate::progress::lemma_fits;
use crate::progress::lemma_malformed_id;
use crate::progress::table_named;
use crate::progress::table_names;
use crate::progress::table_place;
use crate::progress::tables_left;
use crate::progress::tables_with;
use crate::progress::Outcome;
use crate::progress::Progress;
use crate::raw::BenchmarkComplete;
use crate::raw::BenchmarkGroupComplete;
use crate::raw::RawCriterionData;
use crate::table::column_names;
use crate::table::widened;
use crate::table::TableView;
use crate::time::time_in;
use vstd::prelude::*;

verus! {

/// Items are added one after the other, and the first one that cannot be added ends it all. What
/// is left then is what that item leaves of what was built before it.
pub proof fn lemma_one_after_the_other(
    a: Arithmetic,
    start: Progress,
    items: Seq<RawCriterionData>,
    item: RawCriterionData,
)
    ensures
        build_onto(a, start, Seq::empty()) == Outcome::Built(start),
        tables_left(a, start, Seq::empty()) == start.tables,
        build_onto(a, start, items) matches Outcome::Built(progress) ==> {
            &&& build_onto(a, start, items.push(item)) == progress.with_item(a, item)
            &&& tables_left(a, start, items) == progress.tables
            &&& progress.with_item(a, item) matches Outcome::Built(after) ==> tables_left(
                a,
                start,
                items.push(item),
            ) == after.tables
            &&& item is Benchmark && !(progress.with_item(a, item) is Built) ==> tables_left(
                a,
                start,
                items.push(item),
            ) == left_behind(progress.tables, *item->Benchmark_0)
        },
        !(build_onto(a, start, items) is Built) ==> {
            &&& build_onto(a, start, items.push(item)) == build_onto(a, start, items)
            &&& tables_left(a, start, items.push(item)) == tables_left(a, start, items)
        },
{
    assert(items.push(item).drop_last() =~= items);
    assert(items.push(item).last() == item);
}

/// A column has its place in a table where some column has its name, and can otherwise be put in
/// anywhere among the columns, after the first one has been made.
pub proof fn lemma_has_place(table: TableView, idx: int, row: Seq<char>, column: Seq<char>)
    ensures
        ({
            let columns = widened(table.columns, 0, Seq::empty(), row.len());
            table.has_place(idx, row, column) <==> idx <= columns.len() || exists|j: int|
                0 <= j < columns.len() && (#[trigger] columns[j]).name == column
        }),
{
    let columns = widened(table.columns, 0, Seq::empty(), row.len());
    assert(table.with_row(row).columns == columns);
    if column_names(columns).contains(column) {
        let j = column_names(columns).index_of(column);
        assert(columns[j].name == column);
    }
    if exists|j: int| 0 <= j < columns.len() && (#[trigger] columns[j]).name == column {
        let j = choose|j: int| 0 <= j < columns.len() && (#[trigger] columns[j]).name == column;
        assert(column_names(columns)[j] == column);
    }
}

/// What a benchmark does to the table that its id names, which is new if none has that name: the
/// typical time goes where the named row and column cross, at the position that says how often
/// the row's name has come up. No other table changes. An id without a slash, an unknown unit and
/// a place that has data already are refused, in this order; a column that has no place in its
/// table ends everything.
pub proof fn lemma_benchmark_added(
    a: Arithmetic,
    before: Progress,
    benchmark: Box<BenchmarkComplete>,
    group: Box<BenchmarkGroupComplete>,
    t: int,
    table: TableView,
)
    requires
        0 <= t <= before.tables.len(),
        forall|i: int|
            0 <= i < t ==> (#[trigger] before.tables[i]).name != id_place(benchmark.id@)->0.table,
        t < before.tables.len() ==> {
            &&& table == before.tables[t]
            &&& table.name == id_place(benchmark.id@)->0.table
        },
        t == before.tables.len() ==> table == (TableView {
            name: id_place(benchmark.id@)->0.table,
            columns: Seq::empty(),
            rows: Seq::empty(),
        }),
    ensures
        ({
            let after = before.with_item(a, RawCriterionData::Benchmark(benchmark));
            let left = left_behind(before.tables, *benchmark);
            let tables = if t < before.tables.len() {
                before.tables
            } else {
                before.tables.push(table)
            };
            let unit = benchmark.typical.unit@;
            let place = id_place(benchmark.id@)->0;
            let idx: nat = if before.positions.contains_key(place.row) {
                before.positions[place.row] + 1
            } else {
                1
            };
            if !benchmark.id@.contains('/') {
                &&& after == Outcome::Failed(TableErrorView::MalformedId(benchmark.id@))
                &&& left == before.tables
            } else if unit != "s"@ && unit != "ms"@ && unit != "us"@ && unit != "ns"@ && unit
                != "ps"@ {
                &&& after == Outcome::Failed(TableErrorView::UnrecognizedUnit(unit))
                &&& left == tables
            } else if table.has_cell(place.row, place.column) {
                &&& after == Outcome::Failed(TableErrorView::DuplicateColumn(place.column))
                &&& left == tables.update(t, table.with_row(place.row))
            } else if !table.has_place(idx as int, place.row, place.column) {
                &&& after == Outcome::NoPlace
                &&& left == tables
            } else {
                &&& after matches Outcome::Built(progress)
                &&& progress.tables == tables.update(
                    t,
                    table.with_cell(
                        a,
                        idx as int,
                        place.column,
                        place.row,
                        time_in(a, benchmark.typical.estimate, unit)->0,
                    ),
                )
                &&& progress.positions == before.positions.insert(place.row, idx)
            }
        }),
        before.with_item(a, RawCriterionData::BenchmarkGroup(group)) == Outcome::Built(before),
{
    lemma_malformed_id(benchmark.id@);
    let names = table_names(before.tables);
    let name = id_place(benchmark.id@)->0.table;
    assert forall|i: int| 0 <= i < t implies names[i] != name by {
        assert(before.tables[i].name != name);
    }
    if t < before.tables.len() {
        assert(names[t] == name);
        assert(first_at(names, name, t));
        lemma_first(names, name, t);
        assert(names.contains(name));
    } else if names.contains(name) {
        lemma_listed(names, name);
    }
    assert(table_place(before.tables, name) == t);
    assert(table_named(before.tables, name) == table);
    assert(tables_with(before.tables, name) == if t < before.tables.len() {
        before.tables
    } else {
        before.tables.push(table)
    });
}

/// Building starts from the tables that are there, with no row name having come up. Building from
/// items alone starts from no tables. The columns have their places just where building does not
/// end for want of one, whatever the arithmetic.
pub proof fn lemma_start(
    a: Arithmetic,
    tables: Seq<TableView>,
    start: Progress,
    items: Seq<RawCriterionData>,
)
    ensures
        Progress::onto(tables) == (Progress { tables, positions: Map::empty() }),
        build(a, items) == build_onto(
            a,
            Progress { tables: Seq::empty(), positions: Map::empty() },
            items,
        ),
        columns_fit_onto(start, items) <==> !(build_onto(a, start, items) is NoPlace),
        columns_fit(items) <==> !(build(a, items) is NoPlace),
{
    if !(build_onto(a, start, items) is NoPlace) {
        lemma_fits(a, start, items);
    }
    if !(build(a, items) is NoPlace) {
        lemma_fits(a, Progress::start(), items);
    }
}

} // verus!
