//! What holds of every table that is built.
use crate::float::Arithmetic;
use crate::names::distinct;
use crate::names::lemma_distinct_position;
use crate::names::lemma_listed;
use crate::names::position;
use crate::progress::build;
use crate::progress::id_place;
use crate::progress::table_named;
use crate::progress::table_names;
use crate::progress::table_place;
use crate::progress::tables_with;
use crate::progress::Outcome;
use crate::progress::Place;
use crate::progress::Progress;
use crate::raw::RawCriterionData;
use crate::table::blank;
use crate::table::column_names;
use crate::table::compared;
use crate::table::next_position;
use crate::table::widened;
use crate::table::wider;
use crate::table::ColumnInfoView;
use crate::table::RowView;
use crate::table::TableView;
use crate::time::time_in;
use crate::time::TimeUnit;
use vstd::prelude::*;

verus! {

/// The width of the named column.
pub open spec fn width_of(columns: Seq<ColumnInfoView>, name: Seq<char>) -> nat {
    columns[position(column_names(columns), name)].max_width
}

/// Making a column wider, or putting one in, leaves every other column as it was, narrows none,
/// and brings no name in twice.
pub proof fn lemma_widened(
    columns: Seq<ColumnInfoView>,
    idx: int,
    name: Seq<char>,
    width: nat,
)
    requires
        distinct(column_names(columns)),
        column_names(columns).contains(name) || 0 <= idx <= columns.len(),
    ensures
        ({
            let after = widened(columns, idx, name, width);
            &&& distinct(column_names(after))
            &&& forall|n: Seq<char>| #[trigger]
                column_names(after).contains(n) <==> (column_names(columns).contains(n) || n
                    == name)
            &&& width_of(after, name) == if column_names(columns).contains(name) {
                wider(width_of(columns, name), width)
            } else {
                width
            }
            &&& forall|n: Seq<char>|
                n != name && #[trigger] column_names(columns).contains(n) ==> width_of(after, n)
                    == width_of(columns, n)
            &&& after.len() > 0
            &&& columns.len() == 0 ==> after[0].name == name
            &&& columns.len() > 0 && (column_names(columns).contains(name) || idx > 0)
                ==> after[0].name == columns[0].name
        }),
{
    let after = widened(columns, idx, name, width);
    let names = column_names(columns);
    let after_names = column_names(after);
    if names.contains(name) {
        lemma_listed(names, name);
        assert(after_names =~= names);
        assert forall|n: Seq<char>| n != name && #[trigger] names.contains(n) implies width_of(
            after,
            n,
        ) == width_of(columns, n) by {
            lemma_listed(names, n);
        }
    } else {
        assert(after_names =~= names.insert(idx, name));
        assert forall|i: int, j: int| 0 <= i < j < after_names.len() implies after_names[i]
            != after_names[j] by {
            let p = if i < idx {
                i
            } else {
                i - 1
            };
            let q = if j < idx {
                j
            } else {
                j - 1
            };
            if i != idx {
                assert(after_names[i] == names[p]);
            }
            if j != idx {
                assert(after_names[j] == names[q]);
            }
        }
        assert(after_names[idx] == name);
        lemma_distinct_position(after_names, idx);
        assert forall|n: Seq<char>| #[trigger] names.contains(n) implies after_names.contains(n)
            && width_of(after, n) == width_of(columns, n) by {
            lemma_listed(names, n);
            let p = position(names, n);
            let q = if p < idx {
                p
            } else {
                p + 1
            };
            assert(after_names[q] == n);
            lemma_distinct_position(after_names, q);
        }
        assert forall|n: Seq<char>| #[trigger] after_names.contains(n) implies names.contains(n)
            || n == name by {
            let q = after_names.index_of(n);
            if q < idx {
                assert(names[q] == n);
            } else if q > idx {
                assert(names[q - 1] == n);
            }
        }
    }
}

/// What holds of a row in a table with these columns: it has data, in distinct columns of the
/// table, which are wide enough for it; and every time is compared with that in the row's first
/// column, which itself counts as one time as fast.
pub open spec fn sound_row(a: Arithmetic, row: RowView, columns: Seq<ColumnInfoView>) -> bool {
    &&& row.columns.len() > 0
    &&& distinct(row.names())
    &&& row.name.len() <= width_of(columns, blank())
    &&& forall|j: int|
        0 <= j < row.columns.len() ==> {
            let cell = #[trigger] row.columns[j];
            &&& column_names(columns).contains(cell.name)
            &&& cell.width(a) <= width_of(columns, cell.name)
            &&& cell.pct == compared(
                a,
                cell.time_unit,
                if j == 0 {
                    None
                } else {
                    Some(row.columns[0].time_unit)
                },
            )
        }
}

/// Whether some row has data in the named column that takes up the given width.
pub open spec fn shows(a: Arithmetic, rows: Seq<RowView>, name: Seq<char>, width: nat) -> bool {
    exists|i: int, j: int|
        {
            &&& 0 <= i < rows.len()
            &&& 0 <= j < rows[i].columns.len()
            &&& (#[trigger] rows[i].columns[j]).name == name
            &&& rows[i].columns[j].width(a) == width
        }
}

/// Whether some row's name takes up the given width.
pub open spec fn names_row(rows: Seq<RowView>, width: nat) -> bool {
    exists|i: int| 0 <= i < rows.len() && (#[trigger] rows[i]).name.len() == width
}

/// Whether some row has data in the named column.
pub open spec fn uses(rows: Seq<RowView>, name: Seq<char>) -> bool {
    exists|i: int| 0 <= i < rows.len() && (#[trigger] rows[i]).names().contains(name)
}

/// What holds of a table: the first column, and no other, is without a name; no column and no
/// row comes twice; no column and no row is without data; and every column is as wide as its
/// name and its data ask for, but no wider.
pub open spec fn sound_table(a: Arithmetic, table: TableView) -> bool {
    &&& table.columns.len() > 0
    &&& table.columns[0].name == blank()
    &&& distinct(column_names(table.columns))
    &&& table.rows.len() > 0
    &&& distinct(table.row_names())
    &&& forall|i: int|
        0 <= i < table.rows.len() ==> sound_row(a, #[trigger] table.rows[i], table.columns)
    &&& forall|name: Seq<char>| #[trigger]
        column_names(table.columns).contains(name) ==> {
            &&& name.len() <= width_of(table.columns, name)
            &&& name == blank() || uses(table.rows, name)
            &&& {
                ||| name != blank() && width_of(table.columns, name) == name.len()
                ||| name == blank() && names_row(table.rows, width_of(table.columns, name))
                ||| shows(a, table.rows, name, width_of(table.columns, name))
            }
        }
}

/// What holds of all the tables: no two have one name, and each is sound.
pub open spec fn sound(a: Arithmetic, tables: Seq<TableView>) -> bool {
    &&& distinct(table_names(tables))
    &&& forall|i: int| 0 <= i < tables.len() ==> sound_table(a, #[trigger] tables[i])
}

/// What holds of the tables at all times, however building ends: no two have one name, and each
/// is sound, but for those that have nothing in them yet.
pub open spec fn tidy(a: Arithmetic, tables: Seq<TableView>) -> bool {
    &&& distinct(table_names(tables))
    &&& forall|i: int|
        0 <= i < tables.len() ==> sound_table(a, #[trigger] tables[i]) || tables[i]
            == TableView::empty(tables[i].name)
}

/// A table stays sound when it gets one more time, and becomes sound when it gets its first.
pub proof fn lemma_cell_sound(
    a: Arithmetic,
    table: TableView,
    idx: int,
    column: Seq<char>,
    row: Seq<char>,
    time: TimeUnit,
)
    requires
        sound_table(a, table) || table == TableView::empty(table.name),
        idx >= 1,
        !table.has_cell(row, column),
        table.has_place(idx, row, column),
    ensures
        sound_table(a, table.with_cell(a, idx, column, row, time)),
{
    let after = table.with_cell(a, idx, column, row, time);
    let old_names = table.row_names();
    let place = table.row_place(row);
    let rows = table.rows_with(row);
    let cell = table.new_cell(a, column, row, time);
    let width = wider(cell.width(a), column.len());
    let c0 = table.columns;
    let c1 = table.with_row(row).columns;
    let c2 = after.columns;
    assert(distinct(column_names(c0)));
    assert(c0.len() > 0 ==> column_names(c0)[0] == blank());
    lemma_widened(c0, 0, blank(), row.len());
    lemma_widened(c1, idx, column, width);
    assert(c1[0].name == blank());
    assert(c2[0].name == blank());
    assert(column_names(c1).contains(blank()));
    assert(column_names(c2).contains(blank()));
    assert(column_names(c2).contains(column));
    // The rows.
    if old_names.contains(row) {
        lemma_listed(old_names, row);
    }
    let names = after.row_names();
    assert(names =~= if old_names.contains(row) {
        old_names
    } else {
        old_names.push(row)
    });
    assert(distinct(names));
    let old_row = rows[place];
    let new_row = after.rows[place];
    assert(old_row.name == row);
    assert(new_row.names() =~= old_row.names().push(column));
    assert(old_row.columns.len() > 0 ==> sound_row(a, old_row, c0));
    assert(distinct(new_row.names())) by {
        assert forall|i: int, j: int| 0 <= i < j < new_row.names().len() implies new_row.names()[i]
            != new_row.names()[j] by {
            assert(i < old_row.names().len() ==> old_row.names()[i] == new_row.names()[i]);
        }
    }
    // No column gets narrower.
    assert forall|n: Seq<char>| #[trigger] column_names(c0).contains(n) implies {
        &&& column_names(c2).contains(n)
        &&& width_of(c0, n) <= width_of(c2, n)
    } by {
        assert(column_names(c1).contains(n));
    }
    assert(row.len() <= width_of(c2, blank()));
    assert(width <= width_of(c2, column));
    assert forall|i: int| 0 <= i < after.rows.len() implies sound_row(
        a,
        #[trigger] after.rows[i],
        c2,
    ) by {
        if i != place {
            assert(after.rows[i] == table.rows[i]);
            assert(sound_row(a, table.rows[i], c0));
            if c0.len() > 0 {
                assert(column_names(c0).contains(blank()));
            }
        } else {
            assert forall|j: int| 0 <= j < new_row.columns.len() implies {
                let data = #[trigger] new_row.columns[j];
                &&& column_names(c2).contains(data.name)
                &&& data.width(a) <= width_of(c2, data.name)
                &&& data.pct == compared(
                    a,
                    data.time_unit,
                    if j == 0 {
                        None
                    } else {
                        Some(new_row.columns[0].time_unit)
                    },
                )
            } by {
                if j < old_row.columns.len() {
                    assert(new_row.columns[j] == old_row.columns[j]);
                } else {
                    assert(new_row.columns[j] == cell);
                }
            }
        }
    }
    // The columns.
    lemma_cell_columns(a, table, idx, column, row, time);
}

/// After a table got one more time, every column is as wide as its name and its data ask for,
/// but no wider, and no column but the first is without data.
proof fn lemma_cell_columns(
    a: Arithmetic,
    table: TableView,
    idx: int,
    column: Seq<char>,
    row: Seq<char>,
    time: TimeUnit,
)
    requires
        sound_table(a, table) || table == TableView::empty(table.name),
        idx >= 1,
        !table.has_cell(row, column),
        table.has_place(idx, row, column),
    ensures
        ({
            let after = table.with_cell(a, idx, column, row, time);
            forall|name: Seq<char>| #[trigger]
                column_names(after.columns).contains(name) ==> {
                    &&& name.len() <= width_of(after.columns, name)
                    &&& name == blank() || uses(after.rows, name)
                    &&& {
                        ||| name != blank() && width_of(after.columns, name) == name.len()
                        ||| name == blank() && names_row(
                            after.rows,
                            width_of(after.columns, name),
                        )
                        ||| shows(a, after.rows, name, width_of(after.columns, name))
                    }
                }
        }),
{
    let after = table.with_cell(a, idx, column, row, time);
    let old_names = table.row_names();
    let place = table.row_place(row);
    let rows = table.rows_with(row);
    let cell = table.new_cell(a, column, row, time);
    let width = wider(cell.width(a), column.len());
    let c0 = table.columns;
    let c1 = table.with_row(row).columns;
    let c2 = after.columns;
    assert(distinct(column_names(c0)));
    lemma_widened(c0, 0, blank(), row.len());
    lemma_widened(c1, idx, column, width);
    if old_names.contains(row) {
        lemma_listed(old_names, row);
    }
    let old_row = rows[place];
    let new_row = after.rows[place];
    assert(new_row.names() =~= old_row.names().push(column));
    assert(new_row.names()[old_row.columns.len() as int] == column);
    assert(new_row.names().contains(column));
    let last = old_row.columns.len() as int;
    assert(after.rows[place].columns[last] == cell);
    assert forall|name: Seq<char>| #[trigger] column_names(c2).contains(name) implies {
        &&& name.len() <= width_of(c2, name)
        &&& name == blank() || uses(after.rows, name)
        &&& {
            ||| name != blank() && width_of(c2, name) == name.len()
            ||| name == blank() && names_row(after.rows, width_of(c2, name))
            ||| shows(a, after.rows, name, width_of(c2, name))
        }
    } by {
        assert(column_names(c0).contains(name) ==> column_names(c1).contains(name));
        let w = width_of(c2, name);
        if column_names(c0).contains(name) {
            let w0 = width_of(c0, name);
            if uses(table.rows, name) {
                let i = choose|i: int|
                    0 <= i < table.rows.len() && (#[trigger] table.rows[i]).names().contains(name);
                let j = table.rows[i].names().index_of(name);
                assert(after.rows[i].names()[j] == name);
                assert(after.rows[i].names().contains(name));
            }
            if shows(a, table.rows, name, w0) {
                let (i, j) = choose|i: int, j: int|
                    {
                        &&& 0 <= i < table.rows.len()
                        &&& 0 <= j < table.rows[i].columns.len()
                        &&& (#[trigger] table.rows[i].columns[j]).name == name
                        &&& table.rows[i].columns[j].width(a) == w0
                    };
                assert(after.rows[i].columns[j] == table.rows[i].columns[j]);
                assert(shows(a, after.rows, name, w0));
            }
            if names_row(table.rows, w0) {
                let i = choose|i: int|
                    0 <= i < table.rows.len() && (#[trigger] table.rows[i]).name.len() == w0;
                assert(after.rows[i].name == table.rows[i].name);
                assert(names_row(after.rows, w0));
            }
        }
        assert(after.rows[place].name.len() == row.len());
        assert(names_row(after.rows, row.len()));
        if name == column {
            assert(uses(after.rows, name));
            assert(shows(a, after.rows, name, cell.width(a)));
        }
    }
}

/// Every result of building is sound.
pub proof fn lemma_sound(a: Arithmetic, items: Seq<RawCriterionData>)
    ensures
        build(a, items) matches Outcome::Built(progress) ==> sound(a, progress.tables),
    decreases items.len(),
{
    if items.len() > 0 {
        lemma_sound(a, items.drop_last());
        if let Outcome::Built(before) = build(a, items.drop_last()) {
            if let RawCriterionData::Benchmark(benchmark) = items.last() {
                if let Some(place) = id_place(benchmark.id@) {
                    if let Some(time) = time_in(
                        a,
                        benchmark.typical.estimate,
                        benchmark.typical.unit@,
                    ) {
                        lemma_time_sound(a, before, place, time);
                    }
                }
            }
        }
    }
}

/// Tidy tables stay tidy, and sound tables stay sound, when a time is put in its place.
pub proof fn lemma_time_sound(a: Arithmetic, before: Progress, place: Place, time: TimeUnit)
    requires
        tidy(a, before.tables),
    ensures
        before.with_time(a, place, time) matches Outcome::Built(after) ==> {
            &&& tidy(a, after.tables)
            &&& sound(a, before.tables) ==> sound(a, after.tables)
        },
{
    let idx = next_position(before.positions, place.row) as int;
    let table = table_named(before.tables, place.table);
    let at = table_place(before.tables, place.table);
    let names = table_names(before.tables);
    if let Outcome::Built(after) = before.with_time(a, place, time) {
        if names.contains(place.table) {
            lemma_listed(names, place.table);
        }
        lemma_cell_sound(a, table, idx, place.column, place.row, time);
        let tables = tables_with(before.tables, place.table);
        assert(table_names(after.tables) =~= if names.contains(place.table) {
            names
        } else {
            names.push(place.table)
        });
        assert(sound_table(a, after.tables[at]));
        assert forall|i: int| 0 <= i < after.tables.len() && i != at implies #[trigger]
            after.tables[i] == before.tables[i] by {
            assert(tables[i] == before.tables[i]);
        }
    }
}

} // verus!
