//! What is left of the tables when building ends, whether it ended well or not.
use crate::float::Arithmetic;
use crate::names::lemma_listed;
use crate::progress::build_onto;
use crate::progress::id_place;
use crate::progress::left_behind;
use crate::progress::lemma_table_stands;
use crate::progress::table_named;
use crate::progress::table_names;
use crate::progress::table_place;
use crate::progress::tables_left;
use crate::progress::tables_with;
use crate::progress::Outcome;
use crate::progress::Progress;
use crate::raw::BenchmarkComplete;
use crate::raw::RawCriterionData;
use crate::soundness::lemma_time_sound;
use crate::soundness::sound_row;
use crate::soundness::sound_table;
use crate::soundness::tidy;
use crate::soundness::width_of;
use crate::table::blank;
use crate::table::column_names;
use crate::table::TableView;
use crate::time::time_in;
use vstd::prelude::*;

verus! {

/// A row that has data is there, and the first column is wide enough for its name: to ask for
/// both once more changes nothing.
proof fn lemma_row_there(a: Arithmetic, table: TableView, row: Seq<char>, column: Seq<char>)
    requires
        sound_table(a, table) || table == TableView::empty(table.name),
        table.has_cell(row, column),
    ensures
        sound_table(a, table),
        table.with_row(row) == table,
{
    let names = table.row_names();
    if !names.contains(row) {
        assert(table.rows_with(row)[table.row_place(row)].names() =~= Seq::empty());
    }
    lemma_listed(names, row);
    let at = table.row_place(row);
    assert(names[at] == row);
    assert(sound_row(a, table.rows[at], table.columns));
    assert(column_names(table.columns)[0] == blank());
    lemma_listed(column_names(table.columns), blank());
    assert(width_of(table.columns, blank()) >= row.len());
    assert(table.with_row(row).columns =~= table.columns);
}

/// A benchmark that cannot be added changes nothing that was built before: it leaves at most a
/// new table behind, with nothing in it, and that only where its id is well formed.
pub proof fn lemma_left_behind(
    a: Arithmetic,
    tables: Seq<TableView>,
    benchmark: BenchmarkComplete,
)
    requires
        tidy(a, tables),
    ensures
        tidy(a, left_behind(tables, benchmark)),
        left_behind(tables, benchmark) == match id_place(benchmark.id@) {
            Some(place) => tables_with(tables, place.table),
            None => tables,
        },
{
    if let Some(place) = id_place(benchmark.id@) {
        lemma_table_stands(tables, place.table);
        let table = table_named(tables, place.table);
        let after = tables_with(tables, place.table);
        assert(after[table_place(tables, place.table)] == table);
        if table.has_cell(place.row, place.column) {
            lemma_row_there(a, table, place.row, place.column);
        }
        if !table_names(tables).contains(place.table) {
            assert(table_names(after) =~= table_names(tables).push(place.table));
        }
    }
}

/// However building ends, tidy tables are left tidy.
pub proof fn lemma_left_tidy(a: Arithmetic, start: Progress, items: Seq<RawCriterionData>)
    requires
        tidy(a, start.tables),
    ensures
        tidy(a, tables_left(a, start, items)),
    decreases items.len(),
{
    if items.len() > 0 {
        lemma_left_tidy(a, start, items.drop_last());
        if let Outcome::Built(before) = build_onto(a, start, items.drop_last()) {
            assert(tables_left(a, start, items.drop_last()) == before.tables);
            if let RawCriterionData::Benchmark(benchmark) = items.last() {
                lemma_left_behind(a, before.tables, *benchmark);
                if let Some(place) = id_place(benchmark.id@) {
                    if let Some(time) = time_in(
                        a,
                        benchmark.typical.estimate,
                        benchmark.typical.unit@,
                    ) {
                        lemma_time_sound(a, before, place, time);
                    }
                }
            }
        }
    }
}

} // verus!
