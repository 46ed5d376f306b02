//! What the tables hold, told from the benchmark results alone.
use crate::error::TableErrorView;
use crate::float::Arithmetic;
use crate::names::distinct;
use crate::names::lemma_distinct_position;
use crate::names::lemma_listed;
use crate::progress::build;
use crate::progress::id_place;
use crate::progress::lemma_build_ends;
use crate::progress::table_named;
use crate::progress::table_names;
use crate::progress::table_place;
use crate::progress::tables_with;
use crate::progress::Outcome;
use crate::progress::Place;
use crate::progress::Progress;
use crate::raw::RawCriterionData;
use crate::soundness::lemma_sound;
use crate::soundness::lemma_widened;
use crate::soundness::sound;
use crate::soundness::sound_table;
use crate::soundness::width_of;
use crate::table::blank;
use crate::table::column_names;
use crate::table::next_position;
use crate::table::wider;
use crate::table::ColumnView;
use crate::table::RowView;
use crate::table::TableView;
use crate::time::time_in;
use crate::time::TimeUnit;
use vstd::prelude::*;

verus! {

/// Whether an item is a benchmark.
pub open spec fn is_benchmark(item: RawCriterionData) -> bool {
    item is Benchmark
}

/// The place that an item names.
pub open spec fn item_place(item: RawCriterionData) -> Option<Place> {
    match item {
        RawCriterionData::Benchmark(benchmark) => id_place(benchmark.id@),
        RawCriterionData::BenchmarkGroup(_) => None,
    }
}

/// The time that an item reports.
pub open spec fn item_time(a: Arithmetic, item: RawCriterionData) -> Option<TimeUnit> {
    match item {
        RawCriterionData::Benchmark(benchmark) => time_in(
            a,
            benchmark.typical.estimate,
            benchmark.typical.unit@,
        ),
        RawCriterionData::BenchmarkGroup(_) => None,
    }
}

/// Whether an item is a benchmark for the named row of the named table.
pub open spec fn is_for(item: RawCriterionData, table: Seq<char>, row: Seq<char>) -> bool {
    item_place(item) matches Some(place) && place.table == table && place.row == row
}

/// The times for one row: those of the benchmarks that name it, in their order.
pub open spec fn row_cells(
    a: Arithmetic,
    items: Seq<RawCriterionData>,
    table: Seq<char>,
    row: Seq<char>,
) -> Seq<ColumnView>
    decreases items.len(),
{
    if items.len() == 0 {
        Seq::empty()
    } else {
        let before = row_cells(a, items.drop_last(), table, row);
        if is_for(items.last(), table, row) {
            (RowView { name: row, columns: before }).with_column(
                a,
                item_place(items.last())->0.column,
                item_time(a, items.last())->0,
            ).columns
        } else {
            before
        }
    }
}

/// What the tables hold in the named row of the named table.
pub open spec fn held_cells(
    tables: Seq<TableView>,
    table: Seq<char>,
    row: Seq<char>,
) -> Seq<ColumnView> {
    let found = table_named(tables, table);
    found.rows_with(row)[found.row_place(row)].columns
}

/// The names, with one more at the end unless it is among them.
pub open spec fn with_name(names: Seq<Seq<char>>, name: Seq<char>) -> Seq<Seq<char>> {
    if names.contains(name) {
        names
    } else {
        names.push(name)
    }
}

/// The tables that benchmarks name, in the order in which they first come up.
pub open spec fn seen_tables(items: Seq<RawCriterionData>) -> Seq<Seq<char>>
    decreases items.len(),
{
    if items.len() == 0 {
        Seq::empty()
    } else {
        let before = seen_tables(items.drop_last());
        match item_place(items.last()) {
            Some(place) => with_name(before, place.table),
            None => before,
        }
    }
}

/// The rows that benchmarks name in a table, in the order in which they first come up.
pub open spec fn seen_rows(items: Seq<RawCriterionData>, table: Seq<char>) -> Seq<Seq<char>>
    decreases items.len(),
{
    if items.len() == 0 {
        Seq::empty()
    } else {
        let before = seen_rows(items.drop_last(), table);
        match item_place(items.last()) {
            Some(place) => if place.table == table {
                with_name(before, place.row)
            } else {
                before
            },
            None => before,
        }
    }
}

/// How many benchmarks name a row, in whatever table.
pub open spec fn row_count(items: Seq<RawCriterionData>, row: Seq<char>) -> nat
    decreases items.len(),
{
    if items.len() == 0 {
        0
    } else {
        let before = row_count(items.drop_last(), row);
        match item_place(items.last()) {
            Some(place) => if place.row == row {
                before + 1
            } else {
                before
            },
            None => before,
        }
    }
}

/// What one step that succeeds does.
pub proof fn lemma_step(a: Arithmetic, items: Seq<RawCriterionData>)
    requires
        items.len() > 0,
        build(a, items) is Built,
    ensures
        build(a, items.drop_last()) is Built,
        item_place(items.last()) matches Some(place) ==> {
            &&& item_time(a, items.last()) is Some
            &&& build(a, items.drop_last())->Built_0.with_time(
                a,
                place,
                item_time(a, items.last())->0,
            ) == build(a, items)
        },
        item_place(items.last()) is None ==> build(a, items) == build(a, items.drop_last()),
{
}

/// A table that is changed in its place is found there; every other table is found as before.
pub proof fn lemma_table_update(tables: Seq<TableView>, changed: TableView)
    requires
        distinct(table_names(tables)),
    ensures
        ({
            let after = tables_with(tables, changed.name).update(
                table_place(tables, changed.name),
                changed,
            );
            &&& table_names(after) == with_name(table_names(tables), changed.name)
            &&& table_named(after, changed.name) == changed
            &&& forall|name: Seq<char>|
                name != changed.name ==> #[trigger] table_named(after, name) == table_named(
                    tables,
                    name,
                )
        }),
{
    let names = table_names(tables);
    let at = table_place(tables, changed.name);
    let after = tables_with(tables, changed.name).update(at, changed);
    let after_names = table_names(after);
    if names.contains(changed.name) {
        lemma_listed(names, changed.name);
    }
    assert(after_names =~= with_name(names, changed.name));
    assert(after_names[at] == changed.name);
    lemma_distinct_position(after_names, at);
    assert forall|name: Seq<char>| name != changed.name implies #[trigger] table_named(after, name)
        == table_named(tables, name) by {
        if names.contains(name) {
            lemma_listed(names, name);
            let p = table_place(tables, name);
            assert(after_names[p] == name);
            lemma_distinct_position(after_names, p);
        } else if after_names.contains(name) {
            let p = after_names.index_of(name);
            assert(names[p] == name);
        }
    }
}

/// A row that gets one more column is found with it; every other row is found as before.
pub proof fn lemma_row_update(
    a: Arithmetic,
    table: TableView,
    idx: int,
    column: Seq<char>,
    row: Seq<char>,
    time: TimeUnit,
)
    requires
        distinct(table.row_names()),
    ensures
        ({
            let after = table.with_cell(a, idx, column, row, time);
            let old_row = table.rows_with(row)[table.row_place(row)];
            &&& after.name == table.name
            &&& after.row_names() == with_name(table.row_names(), row)
            &&& after.rows_with(row)[after.row_place(row)] == old_row.with_column(
                a,
                column,
                time,
            )
            &&& old_row.name == row
            &&& forall|name: Seq<char>|
                #![trigger after.row_place(name)]
                name != row ==> after.rows_with(name)[after.row_place(name)].columns
                    == table.rows_with(name)[table.row_place(name)].columns
        }),
{
    let names = table.row_names();
    let at = table.row_place(row);
    let after = table.with_cell(a, idx, column, row, time);
    let after_names = after.row_names();
    if names.contains(row) {
        lemma_listed(names, row);
    }
    assert(after_names =~= with_name(names, row));
    assert(after_names[at] == row);
    lemma_distinct_position(after_names, at);
    assert forall|name: Seq<char>|
        #![trigger after.row_place(name)]
        name != row implies after.rows_with(name)[after.row_place(name)].columns
        == table.rows_with(name)[table.row_place(name)].columns by {
        if names.contains(name) {
            lemma_listed(names, name);
            let p = table.row_place(name);
            assert(after_names[p] == name);
            lemma_distinct_position(after_names, p);
        } else if after_names.contains(name) {
            let p = after_names.index_of(name);
            assert(names[p] == name);
        }
    }
}

/// Every row holds the times of exactly the benchmarks that name it, in their order. The tables
/// and their rows stand in the order in which benchmarks first name them.
pub proof fn lemma_contents(a: Arithmetic, items: Seq<RawCriterionData>)
    ensures
        build(a, items) matches Outcome::Built(progress) ==> {
            &&& table_names(progress.tables) == seen_tables(items)
            &&& forall|table: Seq<char>| #[trigger]
                table_named(progress.tables, table).row_names() == seen_rows(items, table)
            &&& forall|table: Seq<char>, row: Seq<char>| #[trigger]
                held_cells(progress.tables, table, row) == row_cells(a, items, table, row)
        },
    decreases items.len(),
{
    if build(a, items) is Built {
        let progress = build(a, items)->Built_0;
        if items.len() == 0 {
            assert(table_names(progress.tables) =~= seen_tables(items));
            assert forall|table: Seq<char>| #[trigger]
                table_named(progress.tables, table).row_names() == seen_rows(items, table) by {
                assert(table_named(progress.tables, table).row_names() =~= Seq::empty());
            }
        } else {
            lemma_step(a, items);
            lemma_contents(a, items.drop_last());
            lemma_sound(a, items.drop_last());
            let before = build(a, items.drop_last())->Built_0;
            if let Some(place) = item_place(items.last()) {
                let time = item_time(a, items.last())->0;
                let idx = next_position(before.positions, place.row) as int;
                let old_table = table_named(before.tables, place.table);
                let new_table = old_table.with_cell(a, idx, place.column, place.row, time);
                lemma_named_sound(a, before.tables, place.table);
                lemma_row_update(a, old_table, idx, place.column, place.row, time);
                lemma_table_update(before.tables, new_table);
                assert forall|table: Seq<char>| #[trigger]
                    table_named(progress.tables, table).row_names() == seen_rows(items, table) by {
                    assert(table_named(before.tables, table).row_names() == seen_rows(
                        items.drop_last(),
                        table,
                    ));
                }
                assert forall|table: Seq<char>, row: Seq<char>| #[trigger]
                    held_cells(progress.tables, table, row) == row_cells(
                        a,
                        items,
                        table,
                        row,
                    ) by {
                    assert(held_cells(before.tables, table, row) == row_cells(
                        a,
                        items.drop_last(),
                        table,
                        row,
                    ));
                    if table == place.table {
                        assert(table_named(progress.tables, table) == new_table);
                        assert(new_table.row_place(row) == new_table.row_place(row));
                    }
                }
            }
        }
    }
}

/// A table that is found by its name has that name, and rows without repetition.
pub proof fn lemma_named_sound(a: Arithmetic, tables: Seq<TableView>, name: Seq<char>)
    requires
        sound(a, tables),
    ensures
        table_named(tables, name).name == name,
        distinct(table_named(tables, name).row_names()),
        distinct(table_names(tables)),
        sound_table(a, table_named(tables, name)) || table_named(tables, name)
            == TableView::empty(name),
{
    let names = table_names(tables);
    if names.contains(name) {
        lemma_listed(names, name);
        assert(sound_table(a, tables[table_place(tables, name)]));
    }
}

/// The position for a row's next column says how many benchmarks have named the row so far.
pub proof fn lemma_positions(a: Arithmetic, items: Seq<RawCriterionData>, row: Seq<char>)
    ensures
        build(a, items) matches Outcome::Built(progress) ==> next_position(
            progress.positions,
            row,
        ) == row_count(items, row) + 1,
    decreases items.len(),
{
    if build(a, items) is Built && items.len() > 0 {
        lemma_step(a, items);
        lemma_positions(a, items.drop_last(), row);
    }
}

/// Items that are no benchmarks change nothing.
pub proof fn lemma_groups_ignored(a: Arithmetic, items: Seq<RawCriterionData>)
    ensures
        build(a, items) == build(
            a,
            items.filter(|item: RawCriterionData| is_benchmark(item)),
        ),
    decreases items.len(),
{
    reveal(Seq::filter);
    let benchmark = |item: RawCriterionData| is_benchmark(item);
    if items.len() > 0 {
        lemma_groups_ignored(a, items.drop_last());
        let before = items.drop_last().filter(benchmark);
        if is_benchmark(items.last()) {
            assert(items.filter(benchmark) =~= before.push(items.last()));
            assert(before.push(items.last()).drop_last() =~= before);
        } else {
            assert(items.filter(benchmark) =~= before);
        }
    } else {
        assert(items.filter(benchmark) =~= items);
    }
}

/// Among the times for a row is one for a column if and only if some benchmark names that
/// place.
proof fn lemma_row_cells_names(a: Arithmetic, items: Seq<RawCriterionData>, place: Place)
    ensures
        (RowView {
            name: place.row,
            columns: row_cells(a, items, place.table, place.row),
        }).names().contains(place.column) <==> exists|i: int|
            0 <= i < items.len() && item_place(#[trigger] items[i]) == Some(place),
    decreases items.len(),
{
    let cells = row_cells(a, items, place.table, place.row);
    let row = RowView { name: place.row, columns: cells };
    if items.len() > 0 {
        let fewer = items.drop_last();
        lemma_row_cells_names(a, fewer, place);
        let before = RowView {
            name: place.row,
            columns: row_cells(a, fewer, place.table, place.row),
        };
        let last = items.len() - 1;
        if is_for(items.last(), place.table, place.row) {
            let named = item_place(items.last())->0.column;
            assert(row.names() =~= before.names().push(named));
            if before.names().contains(place.column) {
                let j = before.names().index_of(place.column);
                assert(row.names()[j] == place.column);
            }
            if named == place.column {
                assert(row.names()[before.names().len() as int] == place.column);
                assert(item_place(items[last]) == Some(place));
            } else if row.names().contains(place.column) {
                let j = row.names().index_of(place.column);
                assert(before.names()[j] == place.column);
            }
        } else {
            assert(item_place(items[last]) != Some(place));
        }
        if exists|i: int| 0 <= i < fewer.len() && item_place(#[trigger] fewer[i]) == Some(place) {
            let i = choose|i: int|
                0 <= i < fewer.len() && item_place(#[trigger] fewer[i]) == Some(place);
            assert(item_place(items[i]) == Some(place));
        }
        if exists|i: int| 0 <= i < items.len() && item_place(#[trigger] items[i]) == Some(place) {
            let i = choose|i: int|
                0 <= i < items.len() && item_place(#[trigger] items[i]) == Some(place);
            if i < last {
                assert(item_place(fewer[i]) == Some(place));
            }
        }
    } else {
        assert(row.names() =~= Seq::empty());
    }
}

/// A place holds data if and only if some benchmark has named it.
pub proof fn lemma_has_cell(a: Arithmetic, items: Seq<RawCriterionData>, place: Place)
    ensures
        build(a, items) matches Outcome::Built(progress) ==> (table_named(
            progress.tables,
            place.table,
        ).has_cell(place.row, place.column) <==> exists|i: int|
            0 <= i < items.len() && item_place(#[trigger] items[i]) == Some(place)),
{
    if let Outcome::Built(progress) = build(a, items) {
        lemma_contents(a, items);
        lemma_row_cells_names(a, items, place);
        let found = table_named(progress.tables, place.table);
        let row = found.rows_with(place.row)[found.row_place(place.row)];
        assert(held_cells(progress.tables, place.table, place.row) == row_cells(
            a,
            items,
            place.table,
            place.row,
        ));
        assert(row.names() =~= (RowView { name: place.row, columns: row.columns }).names());
    }
}

/// No two benchmarks can have one place: building ends with the second of them, if not before.
pub proof fn lemma_no_duplicates(a: Arithmetic, items: Seq<RawCriterionData>, i: int, j: int)
    requires
        0 <= i < j < items.len(),
        item_place(items[i]) is Some,
        item_place(items[i]) == item_place(items[j]),
    ensures
        !(build(a, items) is Built),
        build(a, items.take(j)) is Built && item_time(a, items[j]) is Some ==> build(a, items)
            == Outcome::Failed(
            TableErrorView::DuplicateColumn(item_place(items[i])->0.column),
        ),
{
    let prefix = items.take(j);
    let next = items.take(j + 1);
    let place = item_place(items[i])->0;
    assert(next.drop_last() =~= prefix);
    assert(next.last() == items[j]);
    if build(a, prefix) is Built {
        lemma_has_cell(a, prefix, place);
        assert(item_place(prefix[i]) == Some(place));
        assert(!(build(a, next) is Built));
        lemma_build_ends(a, Progress::start(), items, j + 1);
    } else {
        lemma_build_ends(a, Progress::start(), items, j);
    }
}

/// Further benchmarks change no time that a row holds already: they add times after it.
pub proof fn lemma_cells_stay(
    a: Arithmetic,
    items: Seq<RawCriterionData>,
    n: int,
    table: Seq<char>,
    row: Seq<char>,
)
    requires
        0 <= n <= items.len(),
    ensures
        row_cells(a, items.take(n), table, row).is_prefix_of(row_cells(a, items, table, row)),
    decreases items.len() - n,
{
    if n == items.len() {
        assert(items.take(n) =~= items);
    } else {
        assert(items.take(n + 1).drop_last() =~= items.take(n));
        lemma_cells_stay(a, items, n + 1, table, row);
    }
}

/// Further benchmarks take no column away, and make none narrower.
pub proof fn lemma_columns_stay(
    a: Arithmetic,
    items: Seq<RawCriterionData>,
    n: int,
    table: Seq<char>,
    name: Seq<char>,
)
    requires
        0 <= n <= items.len(),
        build(a, items) is Built,
        build(a, items.take(n)) is Built,
        column_names(table_named(build(a, items.take(n))->Built_0.tables, table).columns).contains(
            name,
        ),
    ensures
        ({
            let before = table_named(build(a, items.take(n))->Built_0.tables, table).columns;
            let after = table_named(build(a, items)->Built_0.tables, table).columns;
            &&& column_names(after).contains(name)
            &&& width_of(before, name) <= width_of(after, name)
        }),
    decreases items.len() - n,
{
    if n == items.len() {
        assert(items.take(n) =~= items);
    } else {
        let next = items.take(n + 1);
        assert(next.drop_last() =~= items.take(n));
        if !(build(a, next) is Built) {
            lemma_build_ends(a, Progress::start(), items, n + 1);
        }
        lemma_step(a, next);
        lemma_sound(a, items.take(n));
        let progress = build(a, items.take(n))->Built_0;
        if let Some(place) = item_place(next.last()) {
            let time = item_time(a, next.last())->0;
            let idx = next_position(progress.positions, place.row) as int;
            let old_table = table_named(progress.tables, place.table);
            let new_table = old_table.with_cell(a, idx, place.column, place.row, time);
            lemma_named_sound(a, progress.tables, place.table);
            lemma_table_update(progress.tables, new_table);
            assert(distinct(column_names(old_table.columns)));
            lemma_widened(old_table.columns, 0, blank(), place.row.len());
            lemma_widened(
                old_table.with_row(place.row).columns,
                idx,
                place.column,
                wider(
                    old_table.new_cell(a, place.column, place.row, time).width(a),
                    place.column.len(),
                ),
            );
            if table == place.table {
                assert(column_names(old_table.with_row(place.row).columns).contains(name));
                assert(column_names(new_table.columns).contains(name));
            } else {
                assert(table_named(build(a, next)->Built_0.tables, table) == table_named(
                    progress.tables,
                    table,
                ));
            }
        }
        lemma_columns_stay(a, items, n + 1, table, name);
    }
}

} // verus!
