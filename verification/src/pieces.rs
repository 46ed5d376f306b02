//! What becomes of a table's parts when one time is added to it, whatever was there before.
use crate::document::table_key;
use crate::float::Arithmetic;
use crate::float::Float64;
use crate::layout::filed_as;
use crate::names::first_at;
use crate::names::lemma_first;
use crate::names::lemma_listed;
use crate::table::column_names;
use crate::table::next_position;
use crate::table::widened;
use crate::table::wider;
use crate::table::ColumnInfoView;
use crate::table::ColumnView;
use crate::table::Row;
use crate::table::RowView;
use crate::table::Table;
use crate::table::TableView;
use crate::text::lowercase;
use crate::text::replaced;
use crate::time::Comparison;
use crate::time::TimeUnit;
use vstd::prelude::*;

verus! {

/// A name is looked up by writing it in lower case, with underscores for spaces.
pub proof fn lemma_key(name: Seq<char>)
    ensures
        table_key(name) == lowercase(filed_as(name)),
        filed_as(name).len() == name.len(),
        forall|i: int|
            0 <= i < name.len() ==> #[trigger] filed_as(name)[i] == if name[i] == ' ' {
                '_'
            } else {
                name[i]
            },
{
    assert(replaced(name, ' ', '_') =~= filed_as(name));
}

/// The wider of two widths leaves room for both, and is one of them.
pub proof fn lemma_wider(a: nat, b: nat)
    ensures
        wider(a, b) >= a,
        wider(a, b) >= b,
        wider(a, b) == a || wider(a, b) == b,
{
}

/// Data take up as many characters as the time and the comparison have together.
pub proof fn lemma_cell_width(a: Arithmetic, cell: ColumnView)
    ensures
        cell.width(a) == cell.time_unit.text(a).len() + cell.pct.text(a).len(),
{
}

/// A row name that has come up so often comes up once more; one that has not comes up first.
pub proof fn lemma_next_position(positions: Map<Seq<char>, nat>, row: Seq<char>)
    ensures
        positions.contains_key(row) ==> next_position(positions, row) == positions[row] + 1,
        !positions.contains_key(row) ==> next_position(positions, row) == 1,
{
}

/// A time that is added to a row comes after those that are there, which stay as they are. It is
/// compared with the first of them, both as picoseconds; if there is none, it counts as one.
pub proof fn lemma_time_added(
    a: Arithmetic,
    row: RowView,
    name: Seq<char>,
    time: TimeUnit,
)
    ensures
        ({
            let after = row.with_column(a, name, time);
            let last = row.columns.len() as int;
            &&& after.name == row.name
            &&& after.columns.len() == last + 1
            &&& forall|j: int| 0 <= j < last ==> #[trigger] after.columns[j] == row.columns[j]
            &&& after.columns[last].name == name
            &&& after.columns[last].time_unit == time
            &&& after.columns[last].pct == if last == 0 {
                Comparison(Float64 { bits: 0x3ff0_0000_0000_0000 })
            } else {
                Comparison(
                    (a.divide)(row.columns[0].time_unit.picoseconds(a), time.picoseconds(a)),
                )
            }
            &&& row.new_column(a, name, time) == after.columns[last]
            &&& last == 0 ==> row.first_time() is None
            &&& last > 0 ==> row.first_time() == Some(row.columns[0].time_unit)
        }),
{
}

/// A column that is there gets wider if need be; one that is not is put in where it is said to
/// go. No other column changes, and none changes its order.
pub proof fn lemma_column_widened(
    columns: Seq<ColumnInfoView>,
    idx: int,
    name: Seq<char>,
    width: nat,
    at: int,
)
    ensures
        ({
            let after = widened(columns, idx, name, width);
            let first = 0 <= at < columns.len() && columns[at].name == name && forall|j: int|
                0 <= j < at ==> (#[trigger] columns[j]).name != name;
            let new = forall|j: int|
                0 <= j < columns.len() ==> (#[trigger] columns[j]).name != name;
            &&& first ==> {
                &&& after.len() == columns.len()
                &&& after[at].name == name
                &&& after[at].max_width == if columns[at].max_width >= width {
                    columns[at].max_width
                } else {
                    width
                }
                &&& forall|j: int|
                    0 <= j < columns.len() && j != at ==> #[trigger] after[j] == columns[j]
            }
            &&& new && 0 <= idx <= columns.len() ==> {
                &&& after.len() == columns.len() + 1
                &&& after[idx].name == name
                &&& after[idx].max_width == width
                &&& forall|j: int| 0 <= j < idx ==> #[trigger] after[j] == columns[j]
                &&& forall|j: int| idx < j < after.len() ==> #[trigger] after[j] == columns[j - 1]
            }
        }),
{
    let names = column_names(columns);
    let first = 0 <= at < columns.len() && columns[at].name == name && forall|j: int|
        0 <= j < at ==> (#[trigger] columns[j]).name != name;
    if first {
        assert forall|j: int| 0 <= j < at implies names[j] != name by {
            assert(columns[j].name != name);
        }
        assert(names[at] == name);
        assert(first_at(names, name, at));
        lemma_first(names, name, at);
        assert(names.contains(name));
    } else if names.contains(name) {
        let j = names.index_of(name);
        assert(columns[j].name == name);
    }
}

/// A time that is put into a table leaves the table's name and all other rows as they are. Its
/// row gets the time; a row that is not there yet comes last. The first column is wide enough
/// for the row's name, and the time's own column for its name and the data.
pub proof fn lemma_time_placed(
    a: Arithmetic,
    table: TableView,
    idx: int,
    column: Seq<char>,
    row: Seq<char>,
    time: TimeUnit,
    at: int,
    old_row: RowView,
)
    requires
        0 <= at < table.rows.len() ==> old_row == table.rows[at] && old_row.name == row,
        at == table.rows.len() ==> old_row == (RowView { name: row, columns: Seq::empty() }),
        forall|r: int| 0 <= r < table.rows.len() && r < at ==> (#[trigger] table.rows[r]).name
            != row,
        0 <= at <= table.rows.len(),
    ensures
        ({
            let after = table.with_cell(a, idx, column, row, time);
            let new_row = old_row.with_column(a, column, time);
            let cell = new_row.columns[old_row.columns.len() as int];
            let data = cell.time_unit.text(a).len() + cell.pct.text(a).len();
            &&& after.name == table.name
            &&& after.rows.len() == if at < table.rows.len() {
                table.rows.len()
            } else {
                table.rows.len() + 1
            }
            &&& after.rows[at] == new_row
            &&& forall|r: int|
                0 <= r < table.rows.len() && r != at ==> #[trigger] after.rows[r] == table.rows[r]
            &&& after.columns == widened(
                widened(table.columns, 0, Seq::empty(), row.len()),
                idx,
                column,
                if data >= column.len() {
                    data
                } else {
                    column.len()
                },
            )
            &&& table.with_row(row).columns == widened(table.columns, 0, Seq::empty(), row.len())
            &&& table.with_row(row).name == table.name
            &&& table.with_row(row).rows == if at < table.rows.len() {
                table.rows
            } else {
                table.rows.push(old_row)
            }
            &&& table.has_cell(row, column) <==> exists|j: int|
                0 <= j < old_row.columns.len() && (#[trigger] old_row.columns[j]).name == column
        }),
{
    let names = table.row_names();
    assert forall|r: int| 0 <= r < table.rows.len() && r < at implies names[r] != row by {
        assert(table.rows[r].name != row);
    }
    if at < table.rows.len() {
        assert(names[at] == row);
        assert(first_at(names, row, at));
        lemma_first(names, row, at);
        assert(names.contains(row));
    } else if names.contains(row) {
        lemma_listed(names, row);
    }
    assert(table.rows_with(row)[table.row_place(row)] == old_row);
    if old_row.names().contains(column) {
        let j = old_row.names().index_of(column);
        assert(old_row.columns[j].name == column);
    }
    if exists|j: int|
        0 <= j < old_row.columns.len() && (#[trigger] old_row.columns[j]).name == column {
        let j = choose|j: int|
            0 <= j < old_row.columns.len() && (#[trigger] old_row.columns[j]).name == column;
        assert(old_row.names()[j] == column);
    }
}

/// What is known of a row and a table is what they hold, item by item.
pub proof fn lemma_held(row: &Row, table: &Table, j: int)
    ensures
        row@.name == row.name@,
        row@.columns.len() == row.column_data@.len(),
        0 <= j < row.column_data@.len() ==> {
            &&& row@.columns[j].name == row.column_data@[j].name@
            &&& row@.columns[j].time_unit == row.column_data@[j].time_unit
            &&& row@.columns[j].pct == row.column_data@[j].pct
        },
        table@.name == table.name@,
        table@.rows.len() == table.rows@.len(),
        0 <= j < table.rows@.len() ==> table@.rows[j] == table.rows@[j]@,
        table@.columns.len() == table.columns.0@.len(),
        0 <= j < table.columns.0@.len() ==> {
            &&& table@.columns[j].name == table.columns.0@[j].name@
            &&& table@.columns[j].max_width == table.columns.0@[j].max_width
        },
{
}

} // verus!
