//! Where the columns of a table go.
use crate::contents::held_cells;
use crate::contents::item_place;
use crate::contents::item_time;
use crate::contents::lemma_contents;
use crate::contents::lemma_has_cell;
use crate::contents::lemma_positions;
use crate::contents::row_cells;
use crate::contents::row_count;
use crate::float::Arithmetic;
use crate::names::distinct;
use crate::names::lemma_distinct_position;
use crate::names::lemma_listed;
use crate::progress::build;
use crate::progress::build_onto;
use crate::progress::columns_fit;
use crate::progress::table_named;
use crate::progress::table_names;
use crate::progress::table_place;
use crate::progress::Outcome;
use crate::progress::Progress;
use crate::raw::RawCriterionData;
use crate::soundness::lemma_sound;
use crate::soundness::lemma_widened;
use crate::soundness::sound_row;
use crate::soundness::sound_table;
use crate::table::blank;
use crate::table::column_names;
use crate::table::next_position;
use vstd::prelude::*;
use vstd::set_lib::lemma_len_subset;

verus! {

/// Whether benchmarks that name one row name one table too, and no benchmark names the column
/// without a name.
pub open spec fn separate(items: Seq<RawCriterionData>) -> bool {
    &&& forall|i: int, j: int|
        {
            &&& 0 <= i < items.len()
            &&& 0 <= j < items.len()
            &&& #[trigger] item_place(items[i]) is Some
            &&& #[trigger] item_place(items[j]) is Some
            &&& item_place(items[i])->0.row == item_place(items[j])->0.row
        } ==> item_place(items[i])->0.table == item_place(items[j])->0.table
    &&& forall|i: int|
        0 <= i < items.len() && #[trigger] item_place(items[i]) is Some ==> item_place(
            items[i],
        )->0.column != blank()
}

/// A list without repetition is no longer than one that holds all its names.
proof fn lemma_no_longer(short: Seq<Seq<char>>, long: Seq<Seq<char>>)
    requires
        distinct(short),
        forall|i: int| 0 <= i < short.len() ==> long.contains(#[trigger] short[i]),
    ensures
        short.len() <= long.len(),
{
    assert(short.no_duplicates());
    short.unique_seq_to_set();
    long.lemma_cardinality_of_set();
    assert(short.to_set().subset_of(long.to_set())) by {
        assert forall|name: Seq<char>| short.to_set().contains(name) implies long.to_set().contains(
            name,
        ) by {
            let i = short.index_of(name);
            assert(long.contains(short[i]));
        }
    }
    lemma_len_subset(short.to_set(), long.to_set());
}

/// Where no other table has the row, the row holds a time for every benchmark that names it.
proof fn lemma_row_filled(
    a: Arithmetic,
    items: Seq<RawCriterionData>,
    table: Seq<char>,
    row: Seq<char>,
)
    requires
        forall|i: int|
            0 <= i < items.len() && #[trigger] item_place(items[i]) is Some ==> {
                &&& item_place(items[i])->0.row == row ==> item_place(items[i])->0.table == table
                &&& item_place(items[i])->0.column != blank()
            },
    ensures
        row_cells(a, items, table, row).len() == row_count(items, row),
        forall|j: int|
            0 <= j < row_cells(a, items, table, row).len() ==> (#[trigger] row_cells(
                a,
                items,
                table,
                row,
            )[j]).name != blank(),
    decreases items.len(),
{
    if items.len() > 0 {
        let fewer = items.drop_last();
        assert forall|i: int|
            0 <= i < fewer.len() && #[trigger] item_place(fewer[i]) is Some implies {
            &&& item_place(fewer[i])->0.row == row ==> item_place(fewer[i])->0.table == table
            &&& item_place(fewer[i])->0.column != blank()
        } by {
            assert(item_place(items[i]) is Some);
        }
        lemma_row_filled(a, fewer, table, row);
        assert(item_place(items[items.len() - 1]) == item_place(items.last()));
    }
}

/// Benchmark results in which no two tables share a row's name, and no column is without a
/// name, always give every column a place.
pub proof fn lemma_separate_fits(items: Seq<RawCriterionData>)
    requires
        separate(items),
    ensures
        columns_fit(items),
{
    assert forall|a: Arithmetic|
        !(#[trigger] build_onto(a, Progress::start(), items) is NoPlace) by {
        lemma_separate_places(a, items);
    }
}

proof fn lemma_separate_places(a: Arithmetic, items: Seq<RawCriterionData>)
    requires
        separate(items),
    ensures
        !(build(a, items) is NoPlace),
    decreases items.len(),
{
    if items.len() > 0 {
        let fewer = items.drop_last();
        assert(separate(fewer)) by {
            assert forall|i: int| 0 <= i < fewer.len() implies #[trigger] item_place(fewer[i])
                == item_place(items[i]) by {}
        }
        lemma_separate_places(a, fewer);
        if build(a, fewer) is Built && item_place(items.last()) is Some && item_time(
            a,
            items.last(),
        ) is Some {
            let before = build(a, fewer)->Built_0;
            let place = item_place(items.last())->0;
            assert(item_place(items[items.len() - 1]) == Some(place));
            assert forall|i: int|
                0 <= i < fewer.len() && #[trigger] item_place(fewer[i]) is Some implies {
                &&& item_place(fewer[i])->0.row == place.row ==> item_place(fewer[i])->0.table
                    == place.table
                &&& item_place(fewer[i])->0.column != blank()
            } by {
                assert(item_place(items[i]) is Some);
            }
            lemma_row_filled(a, fewer, place.table, place.row);
            lemma_positions(a, fewer, place.row);
            lemma_contents(a, fewer);
            lemma_sound(a, fewer);
            let table = table_named(before.tables, place.table);
            let cells = held_cells(before.tables, place.table, place.row);
            assert(cells == row_cells(a, fewer, place.table, place.row));
            let names = table_names(before.tables);
            if names.contains(place.table) {
                lemma_listed(names, place.table);
                assert(sound_table(a, before.tables[table_place(before.tables, place.table)]));
            }
            assert(distinct(column_names(table.columns)));
            lemma_widened(table.columns, 0, blank(), place.row.len());
            if cells.len() > 0 {
                let at = table.row_place(place.row);
                if table.row_names().contains(place.row) {
                    lemma_listed(table.row_names(), place.row);
                }
                let row = table.rows[at];
                assert(sound_row(a, row, table.columns));
                let all = column_names(table.columns);
                let some = row.names().push(blank());
                assert(all[0] == blank());
                assert forall|i: int| 0 <= i < some.len() implies all.contains(
                    #[trigger] some[i],
                ) by {
                    if i < row.names().len() {
                        assert(some[i] == row.columns[i].name);
                    }
                }
                assert forall|i: int, j: int| 0 <= i < j < some.len() implies some[i]
                    != some[j] by {
                    assert(some[i] == row.names()[i]);
                    assert(some[i] == cells[i].name);
                    if j < row.names().len() {
                        assert(some[j] == row.names()[j]);
                    }
                }
                lemma_no_longer(some, all);
                assert(all.contains(blank()));
                lemma_listed(all, blank());
                assert(table.with_row(place.row).columns.len() == table.columns.len());
            }
            assert(table.has_place(
                next_position(before.positions, place.row) as int,
                place.row,
                place.column,
            ));
        }
    }
}

/// The most benchmarks that name one row.
pub open spec fn longest_row(items: Seq<RawCriterionData>) -> nat
    decreases items.len(),
{
    if items.len() == 0 {
        0
    } else {
        let before = longest_row(items.drop_last());
        match item_place(items.last()) {
            Some(place) => if row_count(items, place.row) > before {
                row_count(items, place.row)
            } else {
                before
            },
            None => before,
        }
    }
}

/// Whether the benchmarks go through the same columns, in the same order, in every row of one
/// table. A row may stop early, and rows may be reported in turn.
pub open spec fn regular(
    items: Seq<RawCriterionData>,
    table: Seq<char>,
    columns: Seq<Seq<char>>,
) -> bool {
    &&& distinct(columns)
    &&& !columns.contains(blank())
    &&& forall|i: int|
        0 <= i < items.len() && #[trigger] items[i] is Benchmark ==> {
            &&& item_place(items[i]) matches Some(place)
            &&& place.table == table
            &&& row_count(items.take(i), place.row) < columns.len()
            &&& place.column == columns[row_count(items.take(i), place.row) as int]
        }
}

/// No row comes up more often than the longest row.
proof fn lemma_longest(items: Seq<RawCriterionData>, row: Seq<char>)
    ensures
        row_count(items, row) <= longest_row(items),
    decreases items.len(),
{
    if items.len() > 0 {
        lemma_longest(items.drop_last(), row);
    }
}

/// A row has come up more often after a benchmark that names it than before it.
proof fn lemma_count_grows(items: Seq<RawCriterionData>, i: int, row: Seq<char>)
    requires
        0 <= i < items.len(),
        item_place(items[i]) is Some,
        item_place(items[i])->0.row == row,
    ensures
        row_count(items.take(i), row) < row_count(items, row),
    decreases items.len(),
{
    let fewer = items.drop_last();
    if i < items.len() - 1 {
        assert(fewer.take(i) =~= items.take(i));
        assert(fewer[i] == items[i]);
        lemma_count_grows(fewer, i, row);
    } else {
        assert(items.take(i) =~= fewer);
    }
}

/// A table whose rows all go through the same columns shows these columns, in this order, as
/// far as the longest row goes, after the column that holds the names of the rows. Such results
/// are never refused, as long as their time units are known.
pub proof fn lemma_regular_order(
    a: Arithmetic,
    items: Seq<RawCriterionData>,
    table: Seq<char>,
    columns: Seq<Seq<char>>,
)
    requires
        regular(items, table, columns),
        forall|i: int|
            0 <= i < items.len() && #[trigger] items[i] is Benchmark ==> item_time(a, items[i])
                is Some,
    ensures
        build(a, items) matches Outcome::Built(progress) && longest_row(items) <= columns.len()
            && column_names(table_named(progress.tables, table).columns) == if longest_row(items)
            == 0 {
            Seq::<Seq<char>>::empty()
        } else {
            seq![blank()] + columns.take(longest_row(items) as int)
        },
    decreases items.len(),
{
    if items.len() == 0 {
        let progress = build(a, items)->Built_0;
        assert(column_names(table_named(progress.tables, table).columns) =~= Seq::empty());
    } else {
        let fewer = items.drop_last();
        let last = items.len() - 1;
        assert(items.take(last) =~= fewer);
        assert forall|i: int| 0 <= i < fewer.len() && #[trigger] fewer[i] is Benchmark implies {
            &&& item_place(fewer[i]) matches Some(place)
            &&& place.table == table
            &&& row_count(fewer.take(i), place.row) < columns.len()
            &&& place.column == columns[row_count(fewer.take(i), place.row) as int]
            &&& item_time(a, fewer[i]) is Some
        } by {
            assert(fewer.take(i) =~= items.take(i));
            assert(items[i] is Benchmark);
        }
        lemma_regular_order(a, fewer, table, columns);
        if items[last] is Benchmark {
            let place = item_place(items[last])->0;
            let k = row_count(fewer, place.row);
            lemma_has_cell(a, fewer, place);
            if exists|i: int|
                0 <= i < fewer.len() && item_place(#[trigger] fewer[i]) == Some(place) {
                let i = choose|i: int|
                    0 <= i < fewer.len() && item_place(#[trigger] fewer[i]) == Some(place);
                assert(fewer[i] is Benchmark);
                lemma_count_grows(fewer, i, place.row);
                assert(columns[row_count(fewer.take(i), place.row) as int] == columns[k as int]);
                assert(false);
            }
            lemma_regular_columns(a, items, table, columns);
        }
    }
}

proof fn lemma_regular_columns(
    a: Arithmetic,
    items: Seq<RawCriterionData>,
    table: Seq<char>,
    columns: Seq<Seq<char>>,
)
    requires
        items.len() > 0,
        regular(items, table, columns),
        items.last() is Benchmark,
        item_time(a, items.last()) is Some,
        build(a, items.drop_last()) is Built,
        longest_row(items.drop_last()) <= columns.len(),
        !table_named(build(a, items.drop_last())->Built_0.tables, table).has_cell(
            item_place(items.last())->0.row,
            item_place(items.last())->0.column,
        ),
        column_names(table_named(build(a, items.drop_last())->Built_0.tables, table).columns)
            == if longest_row(items.drop_last()) == 0 {
            Seq::<Seq<char>>::empty()
        } else {
            seq![blank()] + columns.take(longest_row(items.drop_last()) as int)
        },
    ensures
        build(a, items) matches Outcome::Built(progress) && longest_row(items) <= columns.len()
            && column_names(table_named(progress.tables, table).columns) == seq![blank()]
            + columns.take(longest_row(items) as int) && longest_row(items) > 0,
{
    let fewer = items.drop_last();
    let last = items.len() - 1;
    assert(items.take(last) =~= fewer);
    assert(items[last] == items.last());
    let before = build(a, fewer)->Built_0;
    let place = item_place(items.last())->0;
    let time = item_time(a, items.last())->0;
    let k = row_count(fewer, place.row);
    let m = longest_row(fewer);
    let old_table = table_named(before.tables, table);
    lemma_positions(a, fewer, place.row);
    lemma_longest(fewer, place.row);
    let idx = next_position(before.positions, place.row) as int;
    let c0 = old_table.columns;
    let c1 = old_table.with_row(place.row).columns;
    let shown = seq![blank()] + columns.take(m as int);
    assert(column_names(c1) =~= shown) by {
        if m == 0 {
            assert(c0.len() == column_names(c0).len());
            assert(!column_names(c0).contains(blank()));
        } else {
            assert(column_names(c0)[0] == blank());
            lemma_listed(column_names(c0), blank());
        }
    }
    assert(c1.len() == column_names(c1).len());
    assert(old_table.has_place(idx, place.row, place.column));
    let new_table = old_table.with_cell(a, idx, place.column, place.row, time);
    let c2 = new_table.columns;
    if k < m {
        assert(shown[k as int + 1] == place.column);
        lemma_listed(column_names(c1), place.column);
        assert(column_names(c2) =~= shown);
    } else {
        assert(!shown.contains(place.column)) by {
            if shown.contains(place.column) {
                let i = shown.index_of(place.column);
                if i > 0 {
                    assert(columns[i - 1] == columns[k as int]);
                } else {
                    assert(columns[k as int] == blank());
                }
            }
        }
        assert(column_names(c2) =~= column_names(c1).insert(idx, place.column));
        assert(column_names(c2) =~= seq![blank()] + columns.take(m as int + 1));
    }
    let progress = build(a, items)->Built_0;
    let names = table_names(before.tables);
    if names.contains(table) {
        lemma_listed(names, table);
    }
    let at = table_place(before.tables, table);
    lemma_sound(a, fewer);
    let after_names = table_names(progress.tables);
    assert(progress.tables[at] == new_table);
    assert(after_names[at] == table);
    lemma_sound(a, items);
    lemma_distinct_position(after_names, at);
}

} // verus!
