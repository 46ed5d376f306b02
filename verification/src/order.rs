//! In what order tables, rows and columns stand, what makes room for what, and what is refused.
use crate::contents::item_place;
use crate::contents::item_time;
use crate::contents::lemma_contents;
use crate::contents::lemma_has_cell;
use crate::contents::lemma_named_sound;
use crate::contents::lemma_positions;
use crate::contents::lemma_table_update;
use crate::contents::row_count;
use crate::contents::seen_rows;
use crate::contents::seen_tables;
use crate::error::TableErrorView;
use crate::float::Arithmetic;
use crate::names::lemma_distinct_position;
use crate::names::lemma_listed;
use crate::progress::build;
use crate::progress::id_place;
use crate::progress::lemma_malformed_id;
use crate::progress::table_named;
use crate::progress::table_names;
use crate::progress::Outcome;
use crate::raw::BenchmarkComplete;
use crate::raw::RawCriterionData;
use crate::soundness::lemma_sound;
use crate::soundness::sound_row;
use crate::soundness::sound_table;
use crate::soundness::width_of;
use crate::table::blank;
use crate::table::column_names;
use crate::table::next_position;
use crate::table::TableView;
use vstd::prelude::*;

verus! {

/// Whether an item is a benchmark whose id names the row, in whatever table.
pub open spec fn counts_for(item: RawCriterionData, row: Seq<char>) -> bool {
    &&& item is Benchmark
    &&& id_place(item->Benchmark_0.id@) matches Some(place)
    &&& place.row == row
}

/// How often a row has come up is the number of benchmarks that name it.
pub proof fn lemma_row_count(items: Seq<RawCriterionData>, row: Seq<char>)
    ensures
        row_count(items, row) == items.filter(
            |item: RawCriterionData| counts_for(item, row),
        ).len(),
    decreases items.len(),
{
    reveal(Seq::filter);
    if items.len() > 0 {
        lemma_row_count(items.drop_last(), row);
    }
}

/// The columns that a table has once it has any: the one without a name comes first.
pub open spec fn headed(names: Seq<Seq<char>>) -> Seq<Seq<char>> {
    if names.len() == 0 {
        seq![Seq::empty()]
    } else {
        names
    }
}

/// One more benchmark is refused where its id has no slash, where its unit is none of the five,
/// or where an earlier benchmark has the same place; the first of these that holds is the reason
/// that is given. Otherwise its column goes where it stands already, or else as many places
/// after the first column as there are benchmarks, with this one, that name its row in whatever
/// table; it has no place if the table has fewer columns. Every other column keeps its order, and
/// every other table stays as it is.
pub proof fn lemma_one_more(
    a: Arithmetic,
    items: Seq<RawCriterionData>,
    benchmark: Box<BenchmarkComplete>,
)
    requires
        build(a, items) is Built,
    ensures
        ({
            let after = build(a, items.push(RawCriterionData::Benchmark(benchmark)));
            let before = build(a, items)->Built_0.tables;
            let id = benchmark.id@;
            let unit = benchmark.typical.unit@;
            let place = id_place(id)->0;
            let taken = exists|i: int|
                {
                    &&& 0 <= i < items.len()
                    &&& #[trigger] items[i] is Benchmark
                    &&& id_place(items[i]->Benchmark_0.id@) == Some(place)
                };
            let names = headed(column_names(table_named(before, place.table).columns));
            let count = items.filter(
                |item: RawCriterionData| counts_for(item, place.row),
            ).len() as int + 1;
            if !id.contains('/') {
                after == Outcome::Failed(TableErrorView::MalformedId(id))
            } else if unit != "s"@ && unit != "ms"@ && unit != "us"@ && unit != "ns"@ && unit
                != "ps"@ {
                after == Outcome::Failed(TableErrorView::UnrecognizedUnit(unit))
            } else if taken {
                after == Outcome::Failed(TableErrorView::DuplicateColumn(place.column))
            } else if !names.contains(place.column) && count > names.len() {
                after == Outcome::NoPlace
            } else {
                &&& after matches Outcome::Built(progress)
                &&& column_names(table_named(progress.tables, place.table).columns) == if
                    names.contains(place.column) {
                    names
                } else {
                    names.insert(count, place.column)
                }
                &&& forall|name: Seq<char>|
                    name != place.table ==> #[trigger] table_named(progress.tables, name)
                        == table_named(before, name)
            }
        }),
{
    let next = items.push(RawCriterionData::Benchmark(benchmark));
    assert(next.drop_last() =~= items);
    assert(next.last() == RawCriterionData::Benchmark(benchmark));
    lemma_malformed_id(benchmark.id@);
    let before = build(a, items)->Built_0;
    if id_place(benchmark.id@) is Some && item_time(a, next.last()) is Some {
        let place = id_place(benchmark.id@)->0;
        let time = item_time(a, next.last())->0;
        lemma_has_cell(a, items, place);
        assert((exists|i: int|
            {
                &&& 0 <= i < items.len()
                &&& #[trigger] items[i] is Benchmark
                &&& id_place(items[i]->Benchmark_0.id@) == Some(place)
            }) <==> exists|i: int|
            0 <= i < items.len() && item_place(#[trigger] items[i]) == Some(place)) by {
            if exists|i: int|
                {
                    &&& 0 <= i < items.len()
                    &&& #[trigger] items[i] is Benchmark
                    &&& id_place(items[i]->Benchmark_0.id@) == Some(place)
                } {
                let i = choose|i: int|
                    {
                        &&& 0 <= i < items.len()
                        &&& #[trigger] items[i] is Benchmark
                        &&& id_place(items[i]->Benchmark_0.id@) == Some(place)
                    };
                assert(item_place(items[i]) == Some(place));
            }
            if exists|i: int| 0 <= i < items.len() && item_place(#[trigger] items[i]) == Some(
                place,
            ) {
                let i = choose|i: int|
                    0 <= i < items.len() && item_place(#[trigger] items[i]) == Some(place);
                assert(items[i] is Benchmark);
            }
        }
        lemma_positions(a, items, place.row);
        lemma_row_count(items, place.row);
        lemma_sound(a, items);
        lemma_named_sound(a, before.tables, place.table);
        let table = table_named(before.tables, place.table);
        let idx = next_position(before.positions, place.row) as int;
        let old = column_names(table.columns);
        let base = table.with_row(place.row).columns;
        assert(column_names(base) =~= headed(old)) by {
            if old.len() > 0 {
                assert(old[0] == blank());
                assert(old.contains(blank()));
                lemma_listed(old, blank());
            } else {
                assert(!old.contains(blank()));
            }
        }
        assert(base.len() == column_names(base).len());
        if !table.has_cell(place.row, place.column) && table.has_place(
            idx,
            place.row,
            place.column,
        ) {
            let changed = table.with_cell(a, idx, place.column, place.row, time);
            if column_names(base).contains(place.column) {
                lemma_listed(column_names(base), place.column);
                assert(column_names(changed.columns) =~= column_names(base));
            } else {
                assert(column_names(changed.columns) =~= column_names(base).insert(
                    idx,
                    place.column,
                ));
            }
            lemma_table_update(before.tables, changed);
        }
    }
}

/// A name that comes up later stands later.
proof fn lemma_seen_tables(items: Seq<RawCriterionData>, i: int, j: int) -> (n: int)
    requires
        0 <= i < j < seen_tables(items).len(),
    ensures
        0 <= n < items.len(),
        item_place(items[n]) is Some,
        item_place(items[n])->0.table == seen_tables(items)[i],
        forall|m: int|
            0 <= m <= n && item_place(#[trigger] items[m]) is Some ==> item_place(
                items[m],
            )->0.table != seen_tables(items)[j],
    decreases items.len(),
{
    let fewer = items.drop_last();
    let before = seen_tables(fewer);
    let n = if j < before.len() {
        lemma_seen_tables(fewer, i, j)
    } else {
        lemma_table_seen(fewer, before[i])
    };
    assert(fewer[n] == items[n]);
    assert forall|m: int| 0 <= m <= n && item_place(#[trigger] items[m]) is Some implies item_place(
        items[m],
    )->0.table != seen_tables(items)[j] by {
        assert(fewer[m] == items[m]);
        if j >= before.len() {
            lemma_seen_table(fewer, m);
        }
    }
    n
}

/// A table that is among those seen was named.
proof fn lemma_table_seen(items: Seq<RawCriterionData>, table: Seq<char>) -> (n: int)
    requires
        seen_tables(items).contains(table),
    ensures
        0 <= n < items.len(),
        item_place(items[n]) is Some,
        item_place(items[n])->0.table == table,
    decreases items.len(),
{
    let fewer = items.drop_last();
    if items.len() > 0 && seen_tables(fewer).contains(table) {
        let n = lemma_table_seen(fewer, table);
        assert(fewer[n] == items[n]);
        n
    } else {
        assert(items.len() > 0);
        items.len() - 1
    }
}

/// A table that is named is among those seen.
proof fn lemma_seen_table(items: Seq<RawCriterionData>, m: int)
    requires
        0 <= m < items.len(),
        item_place(items[m]) is Some,
    ensures
        seen_tables(items).contains(item_place(items[m])->0.table),
    decreases items.len(),
{
    let fewer = items.drop_last();
    let name = item_place(items[m])->0.table;
    if m < items.len() - 1 {
        assert(fewer[m] == items[m]);
        lemma_seen_table(fewer, m);
        let k = seen_tables(fewer).index_of(name);
        assert(seen_tables(items)[k] == name);
    } else {
        let before = seen_tables(fewer);
        if !before.contains(name) {
            assert(seen_tables(items)[before.len() as int] == name);
        }
    }
}

/// Tables stand in the order in which benchmarks first name them: before the first benchmark that
/// names a table comes one that names any table that stands before it. Every table is named by
/// some benchmark.
pub proof fn lemma_tables_in_order(a: Arithmetic, items: Seq<RawCriterionData>, i: int, j: int) -> (
    n: int)
    requires
        build(a, items) is Built,
        0 <= i <= j < build(a, items)->Built_0.tables.len(),
    ensures
        ({
            let tables = build(a, items)->Built_0.tables;
            &&& 0 <= n < items.len()
            &&& item_place(items[n]) is Some
            &&& item_place(items[n])->0.table == tables[i].name
            &&& i < j ==> forall|m: int|
                0 <= m <= n && item_place(#[trigger] items[m]) is Some ==> item_place(
                    items[m],
                )->0.table != tables[j].name
        }),
{
    lemma_contents(a, items);
    let names = table_names(build(a, items)->Built_0.tables);
    assert(names[i] == build(a, items)->Built_0.tables[i].name);
    assert(names[j] == build(a, items)->Built_0.tables[j].name);
    if i < j {
        lemma_seen_tables(items, i, j)
    } else {
        lemma_table_seen(items, names[i])
    }
}

proof fn lemma_seen_rows(items: Seq<RawCriterionData>, table: Seq<char>, i: int, j: int) -> (n: int)
    requires
        0 <= i < j < seen_rows(items, table).len(),
    ensures
        0 <= n < items.len(),
        item_place(items[n]) is Some,
        item_place(items[n])->0.table == table,
        item_place(items[n])->0.row == seen_rows(items, table)[i],
        forall|m: int|
            0 <= m <= n && item_place(#[trigger] items[m]) is Some && item_place(
                items[m],
            )->0.table == table ==> item_place(items[m])->0.row != seen_rows(items, table)[j],
    decreases items.len(),
{
    let fewer = items.drop_last();
    let before = seen_rows(fewer, table);
    let n = if j < before.len() {
        lemma_seen_rows(fewer, table, i, j)
    } else {
        lemma_row_seen(fewer, table, before[i])
    };
    assert(fewer[n] == items[n]);
    assert forall|m: int|
        0 <= m <= n && item_place(#[trigger] items[m]) is Some && item_place(items[m])->0.table
            == table implies item_place(items[m])->0.row != seen_rows(items, table)[j] by {
        assert(fewer[m] == items[m]);
        if j >= before.len() {
            lemma_seen_row(fewer, table, m);
        }
    }
    n
}

proof fn lemma_row_seen(items: Seq<RawCriterionData>, table: Seq<char>, row: Seq<char>) -> (n: int)
    requires
        seen_rows(items, table).contains(row),
    ensures
        0 <= n < items.len(),
        item_place(items[n]) is Some,
        item_place(items[n])->0.table == table,
        item_place(items[n])->0.row == row,
    decreases items.len(),
{
    let fewer = items.drop_last();
    if items.len() > 0 && seen_rows(fewer, table).contains(row) {
        let n = lemma_row_seen(fewer, table, row);
        assert(fewer[n] == items[n]);
        n
    } else {
        assert(items.len() > 0);
        items.len() - 1
    }
}

proof fn lemma_seen_row(items: Seq<RawCriterionData>, table: Seq<char>, m: int)
    requires
        0 <= m < items.len(),
        item_place(items[m]) is Some,
        item_place(items[m])->0.table == table,
    ensures
        seen_rows(items, table).contains(item_place(items[m])->0.row),
    decreases items.len(),
{
    let fewer = items.drop_last();
    let name = item_place(items[m])->0.row;
    if m < items.len() - 1 {
        assert(fewer[m] == items[m]);
        lemma_seen_row(fewer, table, m);
        let k = seen_rows(fewer, table).index_of(name);
        assert(seen_rows(items, table)[k] == name);
    } else {
        let before = seen_rows(fewer, table);
        if !before.contains(name) {
            assert(seen_rows(items, table)[before.len() as int] == name);
        }
    }
}

/// The rows of a table stand in the order in which benchmarks first name them in that table, and
/// every row is named by some benchmark.
pub proof fn lemma_rows_in_order(
    a: Arithmetic,
    items: Seq<RawCriterionData>,
    t: int,
    i: int,
    j: int,
) -> (n: int)
    requires
        build(a, items) is Built,
        0 <= t < build(a, items)->Built_0.tables.len(),
        0 <= i <= j < build(a, items)->Built_0.tables[t].rows.len(),
    ensures
        ({
            let table = build(a, items)->Built_0.tables[t];
            &&& 0 <= n < items.len()
            &&& item_place(items[n]) is Some
            &&& item_place(items[n])->0.table == table.name
            &&& item_place(items[n])->0.row == table.rows[i].name
            &&& i < j ==> forall|m: int|
                0 <= m <= n && item_place(#[trigger] items[m]) is Some && item_place(
                    items[m],
                )->0.table == table.name ==> item_place(items[m])->0.row != table.rows[j].name
        }),
{
    let tables = build(a, items)->Built_0.tables;
    let table = tables[t];
    lemma_contents(a, items);
    lemma_sound(a, items);
    assert(table_names(tables)[t] == table.name);
    lemma_distinct_position(table_names(tables), t);
    assert(table_names(tables).contains(table.name));
    assert(table_named(tables, table.name) == table);
    let rows = table.row_names();
    assert(rows == seen_rows(items, table.name));
    assert(rows[i] == table.rows[i].name);
    assert(rows[j] == table.rows[j].name);
    if i < j {
        lemma_seen_rows(items, table.name, i, j)
    } else {
        lemma_row_seen(items, table.name, rows[i])
    }
}

/// A column is wide enough for its name, for all data in it, and, if it is the first, for the
/// names of all rows; and it is no wider than the widest of these.
pub proof fn lemma_width(a: Arithmetic, table: TableView, k: int)
    requires
        sound_table(a, table),
        0 <= k < table.columns.len(),
    ensures
        ({
            let name = table.columns[k].name;
            let width = table.columns[k].max_width;
            &&& k == 0 <==> name.len() == 0
            &&& name.len() <= width
            &&& forall|r: int|
                k == 0 && 0 <= r < table.rows.len() ==> (#[trigger] table.rows[r]).name.len()
                    <= width
            &&& forall|r: int, j: int|
                0 <= r < table.rows.len() && 0 <= j < table.rows[r].columns.len() && (
                #[trigger] table.rows[r].columns[j]).name == name
                    ==> table.rows[r].columns[j].time_unit.text(a).len()
                    + table.rows[r].columns[j].pct.text(a).len() <= width
            &&& {
                ||| k > 0 && width == name.len()
                ||| k == 0 && exists|r: int|
                    0 <= r < table.rows.len() && (#[trigger] table.rows[r]).name.len() == width
                ||| exists|r: int, j: int|
                    {
                        &&& 0 <= r < table.rows.len()
                        &&& 0 <= j < table.rows[r].columns.len()
                        &&& (#[trigger] table.rows[r].columns[j]).name == name
                        &&& table.rows[r].columns[j].time_unit.text(a).len()
                            + table.rows[r].columns[j].pct.text(a).len() == width
                    }
            }
        }),
{
    let names = column_names(table.columns);
    let name = table.columns[k].name;
    assert(names[k] == name);
    assert(names[0] == blank());
    lemma_distinct_position(names, k);
    lemma_distinct_position(names, 0);
    assert(names.contains(name));
    assert(name.len() == 0 ==> name =~= blank());
    assert(width_of(table.columns, name) == table.columns[k].max_width);
    assert forall|r: int| k == 0 && 0 <= r < table.rows.len() implies (
    #[trigger] table.rows[r]).name.len() <= table.columns[k].max_width by {
        assert(sound_row(a, table.rows[r], table.columns));
    }
    assert forall|r: int, j: int|
        0 <= r < table.rows.len() && 0 <= j < table.rows[r].columns.len() && (
        #[trigger] table.rows[r].columns[j]).name == name implies
        table.rows[r].columns[j].time_unit.text(a).len() + table.rows[r].columns[j].pct.text(
        a,
    ).len() <= table.columns[k].max_width by {
        assert(sound_row(a, table.rows[r], table.columns));
    }
}

} // verus!
