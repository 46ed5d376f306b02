//! What tables a sequence of benchmark results makes.
use crate::error::TableErrorView;
use crate::float::Arithmetic;
use crate::names::lemma_listed;
use crate::names::position;
use crate::raw::BenchmarkComplete;
use crate::raw::RawCriterionData;
use crate::table::blank;
use crate::table::column_names;
use crate::table::next_position;
use crate::table::widened;
use crate::table::wider;
use crate::table::ColumnInfoView;
use crate::table::RowView;
use crate::table::TableView;
use crate::text::fields;
use crate::text::lemma_fields;
use crate::text::lemma_fields_of_both;
use crate::text::lemma_one_field;
use crate::time::known_unit;
use crate::time::time_in;
use crate::time::TimeUnit;
use vstd::prelude::*;

verus! {

/// What a benchmark's id names.
pub ghost struct Place {
    pub table: Seq<char>,
    pub column: Seq<char>,
    pub row: Seq<char>,
}

/// The table, the column and the row that an id names, in this order, between slashes. An id
/// that names no row stands for the row without a name. What follows a row's name is of no
/// account.
pub open spec fn id_place(id: Seq<char>) -> Option<Place> {
    let parts = fields(id, '/');
    if parts.len() < 2 {
        None
    } else {
        Some(
            Place {
                table: parts[0],
                column: parts[1],
                row: if parts.len() > 2 {
                    parts[2]
                } else {
                    blank()
                },
            },
        )
    }
}

/// The place that three names without slashes are the id of, with slashes between them.
pub proof fn lemma_id_names(place: Place)
    requires
        !place.table.contains('/'),
        !place.column.contains('/'),
        !place.row.contains('/'),
    ensures
        id_place(place.table.push('/') + (place.column.push('/') + place.row)) == Some(place),
        place.row == blank() ==> id_place(place.table.push('/') + place.column) == Some(place),
{
    lemma_one_field(place.table, '/');
    lemma_one_field(place.column, '/');
    lemma_one_field(place.row, '/');
    lemma_fields_of_both(place.column, place.row, '/');
    lemma_fields_of_both(place.table, place.column.push('/') + place.row, '/');
    lemma_fields_of_both(place.table, place.column, '/');
}

/// Whatever follows three names without slashes, after one more slash, changes nothing.
pub proof fn lemma_id_with_rest(place: Place, rest: Seq<char>)
    requires
        !place.table.contains('/'),
        !place.column.contains('/'),
        !place.row.contains('/'),
    ensures
        id_place(
            (place.table.push('/') + (place.column.push('/') + place.row)).push('/') + rest,
        ) == Some(place),
{
    let id = place.table.push('/') + (place.column.push('/') + place.row);
    lemma_one_field(place.table, '/');
    lemma_one_field(place.column, '/');
    lemma_one_field(place.row, '/');
    lemma_fields_of_both(place.column, place.row, '/');
    lemma_fields_of_both(place.table, place.column.push('/') + place.row, '/');
    lemma_fields_of_both(id, rest, '/');
}

/// An id is malformed if and only if it has no slash.
pub proof fn lemma_malformed_id(id: Seq<char>)
    ensures
        id_place(id) is None <==> !id.contains('/'),
{
    lemma_fields(id, '/');
}

/// An id that names no row has the same place as one that names the row without a name.
pub proof fn lemma_blank_row(id: Seq<char>)
    requires
        fields(id, '/').len() == 2,
    ensures
        id_place(id.push('/')) == id_place(id),
{
    lemma_fields_of_both(id, Seq::empty(), '/');
    assert(id.push('/') + Seq::empty() =~= id.push('/'));
}

/// What follows a row's name changes nothing.
pub proof fn lemma_rest_ignored(id: Seq<char>, rest: Seq<char>)
    requires
        fields(id, '/').len() > 2,
    ensures
        id_place(id.push('/') + rest) == id_place(id),
{
    lemma_fields_of_both(id, rest, '/');
    lemma_fields(rest, '/');
}

/// The tables that have been built so far, and how often each row name has come up.
pub ghost struct Progress {
    pub tables: Seq<TableView>,
    pub positions: Map<Seq<char>, nat>,
}

/// What building has come to.
pub ghost enum Outcome {
    /// All went well.
    Built(Progress),
    /// A benchmark could not be added.
    Failed(TableErrorView),
    /// A column would have to be put in past the end of its table's columns.
    NoPlace,
}

/// The names of the tables.
pub open spec fn table_names(tables: Seq<TableView>) -> Seq<Seq<char>> {
    tables.map_values(|table: TableView| table.name)
}

/// The tables, among them one with this name.
pub open spec fn tables_with(tables: Seq<TableView>, name: Seq<char>) -> Seq<TableView> {
    if table_names(tables).contains(name) {
        tables
    } else {
        tables.push(TableView::empty(name))
    }
}

/// The place of the table with this name: where it stands, or where it would be added.
pub open spec fn table_place(tables: Seq<TableView>, name: Seq<char>) -> int {
    if table_names(tables).contains(name) {
        position(table_names(tables), name)
    } else {
        tables.len() as int
    }
}

/// The table with this name, or an empty one.
pub open spec fn table_named(tables: Seq<TableView>, name: Seq<char>) -> TableView {
    tables_with(tables, name)[table_place(tables, name)]
}

/// The named table stands in its place; putting it there once more changes nothing.
pub proof fn lemma_table_stands(tables: Seq<TableView>, name: Seq<char>)
    ensures
        0 <= table_place(tables, name) < tables_with(tables, name).len(),
        table_named(tables, name).name == name,
        tables_with(tables, name).update(table_place(tables, name), table_named(tables, name))
            == tables_with(tables, name),
{
    if table_names(tables).contains(name) {
        lemma_listed(table_names(tables), name);
    }
    assert(tables_with(tables, name).update(
        table_place(tables, name),
        table_named(tables, name),
    ) =~= tables_with(tables, name));
}

impl Progress {
    /// Nothing has been built.
    pub open spec fn start() -> Progress {
        Progress::onto(Seq::empty())
    }

    /// These tables are there, and no row name has come up.
    pub open spec fn onto(tables: Seq<TableView>) -> Progress {
        Progress { tables, positions: Map::empty() }
    }

    /// A time put in its place. A column that is new to its table is put in at the position
    /// that says how often the row's name has come up, in whatever table.
    pub open spec fn with_time(self, a: Arithmetic, place: Place, time: TimeUnit) -> Outcome {
        let idx = next_position(self.positions, place.row);
        let table = table_named(self.tables, place.table);
        if table.has_cell(place.row, place.column) {
            Outcome::Failed(TableErrorView::DuplicateColumn(place.column))
        } else if !table.has_place(idx as int, place.row, place.column) {
            Outcome::NoPlace
        } else {
            Outcome::Built(
                Progress {
                    tables: tables_with(self.tables, place.table).update(
                        table_place(self.tables, place.table),
                        table.with_cell(a, idx as int, place.column, place.row, time),
                    ),
                    positions: self.positions.insert(place.row, idx),
                },
            )
        }
    }

    /// One benchmark added.
    pub open spec fn with_benchmark(self, a: Arithmetic, benchmark: BenchmarkComplete) -> Outcome {
        match id_place(benchmark.id@) {
            None => Outcome::Failed(TableErrorView::MalformedId(benchmark.id@)),
            Some(place) => match time_in(
                a,
                benchmark.typical.estimate,
                benchmark.typical.unit@,
            ) {
                None => Outcome::Failed(
                    TableErrorView::UnrecognizedUnit(benchmark.typical.unit@),
                ),
                Some(time) => self.with_time(a, place, time),
            },
        }
    }

    /// One item added. Only benchmarks count.
    pub open spec fn with_item(self, a: Arithmetic, item: RawCriterionData) -> Outcome {
        match item {
            RawCriterionData::Benchmark(benchmark) => self.with_benchmark(a, *benchmark),
            RawCriterionData::BenchmarkGroup(_) => Outcome::Built(self),
        }
    }
}

/// What building onto some progress, from these items, one after the other, comes to. It ends
/// with the first benchmark that cannot be added.
pub open spec fn build_onto(
    a: Arithmetic,
    start: Progress,
    items: Seq<RawCriterionData>,
) -> Outcome
    decreases items.len(),
{
    if items.len() == 0 {
        Outcome::Built(start)
    } else {
        match build_onto(a, start, items.drop_last()) {
            Outcome::Built(progress) => progress.with_item(a, items.last()),
            ended => ended,
        }
    }
}

/// What building from these items alone comes to.
pub open spec fn build(a: Arithmetic, items: Seq<RawCriterionData>) -> Outcome {
    build_onto(a, Progress::start(), items)
}

/// What a benchmark that cannot be added leaves of the tables. A malformed id leaves them as
/// they are. Otherwise the named table is there afterwards; and where the place has data
/// already, the first column is wide enough for the row's name.
pub open spec fn left_behind(
    tables: Seq<TableView>,
    benchmark: BenchmarkComplete,
) -> Seq<TableView> {
    match id_place(benchmark.id@) {
        None => tables,
        Some(place) => if known_unit(benchmark.typical.unit@) && table_named(
            tables,
            place.table,
        ).has_cell(place.row, place.column) {
            tables_with(tables, place.table).update(
                table_place(tables, place.table),
                table_named(tables, place.table).with_row(place.row),
            )
        } else {
            tables_with(tables, place.table)
        },
    }
}

/// The tables once building onto some progress has ended, whatever it came to: all that was
/// built, as the benchmark that could not be added, if there is one, leaves it.
pub open spec fn tables_left(
    a: Arithmetic,
    start: Progress,
    items: Seq<RawCriterionData>,
) -> Seq<TableView>
    decreases items.len(),
{
    if items.len() == 0 {
        start.tables
    } else {
        match build_onto(a, start, items.drop_last()) {
            Outcome::Built(progress) => match progress.with_item(a, items.last()) {
                Outcome::Built(after) => after.tables,
                _ => left_behind(progress.tables, *items.last()->Benchmark_0),
            },
            _ => tables_left(a, start, items.drop_last()),
        }
    }
}

/// Whether every column has a place in its table when it comes up, up to the first benchmark
/// that cannot be added. Where columns go does not depend on the times.
pub open spec fn columns_fit_onto(start: Progress, items: Seq<RawCriterionData>) -> bool {
    forall|a: Arithmetic| !(#[trigger] build_onto(a, start, items) is NoPlace)
}

/// Whether every column has a place in its table, when nothing has been built before.
pub open spec fn columns_fit(items: Seq<RawCriterionData>) -> bool {
    columns_fit_onto(Progress::start(), items)
}

/// Once building has ended early, further items change nothing.
pub proof fn lemma_build_ends(
    a: Arithmetic,
    start: Progress,
    items: Seq<RawCriterionData>,
    n: int,
)
    requires
        0 <= n <= items.len(),
        !(build_onto(a, start, items.take(n)) is Built),
    ensures
        build_onto(a, start, items) == build_onto(a, start, items.take(n)),
        tables_left(a, start, items) == tables_left(a, start, items.take(n)),
    decreases items.len() - n,
{
    if n == items.len() {
        assert(items.take(n) =~= items);
    } else {
        assert(items.take(n + 1).drop_last() =~= items.take(n));
        lemma_build_ends(a, start, items, n + 1);
    }
}

/// The first benchmark that cannot be added decides what building comes to, and what it leaves
/// of the tables that were built before it.
pub proof fn lemma_first_failure(
    a: Arithmetic,
    start: Progress,
    items: Seq<RawCriterionData>,
    n: int,
    progress: Progress,
)
    requires
        0 <= n < items.len(),
        build_onto(a, start, items.take(n)) == Outcome::Built(progress),
        !(progress.with_item(a, items[n]) is Built),
    ensures
        items[n] is Benchmark,
        build_onto(a, start, items) == progress.with_item(a, items[n]),
        tables_left(a, start, items) == left_behind(progress.tables, *items[n]->Benchmark_0),
{
    let next = items.take(n + 1);
    assert(next.drop_last() =~= items.take(n));
    assert(next.last() == items[n]);
    lemma_build_ends(a, start, items, n + 1);
}

/// Where building ends well, what is left is all that was built.
pub proof fn lemma_built_left(a: Arithmetic, start: Progress, items: Seq<RawCriterionData>)
    ensures
        build_onto(a, start, items) matches Outcome::Built(progress) ==> tables_left(
            a,
            start,
            items,
        ) == progress.tables,
{
}

/// What of a row decides where columns go.
pub ghost struct RowShape {
    pub name: Seq<char>,
    pub columns: Seq<Seq<char>>,
}

/// What of a table decides where columns go.
pub ghost struct TableShape {
    pub name: Seq<char>,
    pub columns: Seq<Seq<char>>,
    pub rows: Seq<RowShape>,
}

/// A row without its times.
pub open spec fn row_shape(row: RowView) -> RowShape {
    RowShape { name: row.name, columns: row.names() }
}

/// A table without its times and widths.
pub open spec fn table_shape(table: TableView) -> TableShape {
    TableShape {
        name: table.name,
        columns: column_names(table.columns),
        rows: table.rows.map_values(|row: RowView| row_shape(row)),
    }
}

/// The tables without their times and widths.
pub open spec fn shapes(tables: Seq<TableView>) -> Seq<TableShape> {
    tables.map_values(|table: TableView| table_shape(table))
}

/// Making a column wider or putting one in gives the same names, whatever the widths.
proof fn lemma_widened_names(
    columns: Seq<ColumnInfoView>,
    other: Seq<ColumnInfoView>,
    idx: int,
    name: Seq<char>,
    width: nat,
    other_width: nat,
)
    requires
        column_names(columns) == column_names(other),
        column_names(columns).contains(name) || 0 <= idx <= columns.len(),
    ensures
        column_names(widened(columns, idx, name, width)) == column_names(
            widened(other, idx, name, other_width),
        ),
{
    let names = column_names(columns);
    assert(columns.len() == names.len() && other.len() == column_names(other).len());
    if names.contains(name) {
        lemma_listed(names, name);
        assert(column_names(widened(columns, idx, name, width)) =~= names);
        assert(column_names(widened(other, idx, name, other_width)) =~= names);
    } else {
        assert(column_names(widened(columns, idx, name, width)) =~= names.insert(idx, name));
        assert(column_names(widened(other, idx, name, other_width)) =~= names.insert(idx, name));
    }
}

/// Tables of one shape have the same rows and columns, and still have one shape when each gets
/// a time in the same place.
proof fn lemma_table_alike(
    a: Arithmetic,
    b: Arithmetic,
    x: TableView,
    y: TableView,
    idx: int,
    column: Seq<char>,
    row: Seq<char>,
    s: TimeUnit,
    t: TimeUnit,
)
    requires
        table_shape(x) == table_shape(y),
        idx >= 0,
    ensures
        x.has_cell(row, column) == y.has_cell(row, column),
        x.has_place(idx, row, column) == y.has_place(idx, row, column),
        x.has_place(idx, row, column) ==> table_shape(x.with_cell(a, idx, column, row, s))
            == table_shape(y.with_cell(b, idx, column, row, t)),
{
    let names = x.row_names();
    assert(table_shape(x).rows.len() == x.rows.len() && table_shape(y).rows.len() == y.rows.len());
    assert forall|i: int| 0 <= i < x.rows.len() implies row_shape(#[trigger] x.rows[i])
        == row_shape(y.rows[i]) by {
        assert(table_shape(x).rows[i] == row_shape(x.rows[i]));
        assert(table_shape(y).rows[i] == row_shape(y.rows[i]));
    }
    assert(names =~= y.row_names());
    let place = x.row_place(row);
    if names.contains(row) {
        lemma_listed(names, row);
    }
    let rx = x.rows_with(row);
    let ry = y.rows_with(row);
    assert(row_shape(rx[place]) == row_shape(ry[place]));
    lemma_widened_names(x.columns, y.columns, 0, blank(), row.len(), row.len());
    let cx = x.with_row(row).columns;
    let cy = y.with_row(row).columns;
    assert(cx.len() == column_names(cx).len() && cy.len() == column_names(cy).len());
    if x.has_place(idx, row, column) {
        let fx = x.with_cell(a, idx, column, row, s);
        let fy = y.with_cell(b, idx, column, row, t);
        lemma_widened_names(
            cx,
            cy,
            idx,
            column,
            wider(x.new_cell(a, column, row, s).width(a), column.len()),
            wider(y.new_cell(b, column, row, t).width(b), column.len()),
        );
        assert(rx[place].with_column(a, column, s).names() =~= rx[place].names().push(column));
        assert(ry[place].with_column(b, column, t).names() =~= ry[place].names().push(column));
        assert forall|i: int| 0 <= i < fx.rows.len() implies row_shape(#[trigger] fx.rows[i])
            == row_shape(fy.rows[i]) by {
            if i != place {
                assert(fx.rows[i] == rx[i] && fy.rows[i] == ry[i]);
            }
        }
        assert(table_shape(fx).rows =~= table_shape(fy).rows);
    }
}

/// Whether two outcomes differ in times and widths alone.
pub open spec fn alike(x: Outcome, y: Outcome) -> bool {
    match (x, y) {
        (Outcome::Built(p), Outcome::Built(q)) => shapes(p.tables) == shapes(q.tables)
            && p.positions == q.positions,
        (Outcome::Failed(e), Outcome::Failed(f)) => e == f,
        (Outcome::NoPlace, Outcome::NoPlace) => true,
        _ => false,
    }
}

/// Progress of one shape is still of one shape when a benchmark is added.
proof fn lemma_benchmark_alike(
    a: Arithmetic,
    b: Arithmetic,
    p: Progress,
    q: Progress,
    benchmark: BenchmarkComplete,
)
    requires
        shapes(p.tables) == shapes(q.tables),
        p.positions == q.positions,
    ensures
        alike(p.with_benchmark(a, benchmark), q.with_benchmark(b, benchmark)),
{
    let time = benchmark.typical.estimate;
    let unit = benchmark.typical.unit@;
    if let Some(place) = id_place(benchmark.id@) {
        if known_unit(unit) {
            let s = time_in(a, time, unit)->0;
            let t = time_in(b, time, unit)->0;
            let idx = next_position(p.positions, place.row) as int;
            let names = table_names(p.tables);
            assert(shapes(p.tables).len() == p.tables.len());
            assert(shapes(q.tables).len() == q.tables.len());
            assert forall|i: int| 0 <= i < p.tables.len() implies table_shape(
                #[trigger] p.tables[i],
            ) == table_shape(q.tables[i]) by {
                assert(shapes(p.tables)[i] == table_shape(p.tables[i]));
                assert(shapes(q.tables)[i] == table_shape(q.tables[i]));
            }
            assert(names =~= table_names(q.tables));
            if names.contains(place.table) {
                lemma_listed(names, place.table);
            }
            let at = table_place(p.tables, place.table);
            let x = table_named(p.tables, place.table);
            let y = table_named(q.tables, place.table);
            assert(table_shape(x) == table_shape(y));
            lemma_table_alike(a, b, x, y, idx, place.column, place.row, s, t);
            if x.has_place(idx, place.row, place.column) {
                let fx = tables_with(p.tables, place.table).update(
                    at,
                    x.with_cell(a, idx, place.column, place.row, s),
                );
                let fy = tables_with(q.tables, place.table).update(
                    at,
                    y.with_cell(b, idx, place.column, place.row, t),
                );
                assert forall|i: int| 0 <= i < fx.len() implies table_shape(#[trigger] fx[i])
                    == table_shape(fy[i]) by {
                    if i != at {
                        assert(fx[i] == tables_with(p.tables, place.table)[i]);
                        assert(fy[i] == tables_with(q.tables, place.table)[i]);
                    }
                }
                assert(shapes(fx) =~= shapes(fy));
            }
        }
    }
}

/// Outcomes under two kinds of arithmetic differ in times and widths alone.
pub proof fn lemma_alike(
    a: Arithmetic,
    b: Arithmetic,
    start: Progress,
    items: Seq<RawCriterionData>,
)
    ensures
        alike(build_onto(a, start, items), build_onto(b, start, items)),
    decreases items.len(),
{
    if items.len() > 0 {
        lemma_alike(a, b, start, items.drop_last());
        if let (Outcome::Built(p), Outcome::Built(q)) = (
            build_onto(a, start, items.drop_last()),
            build_onto(b, start, items.drop_last()),
        ) {
            if let RawCriterionData::Benchmark(benchmark) = items.last() {
                lemma_benchmark_alike(a, b, p, q, *benchmark);
            }
        }
    }
}

/// Where columns go does not depend on the times, so one kind of arithmetic tells for all.
pub proof fn lemma_fits(a: Arithmetic, start: Progress, items: Seq<RawCriterionData>)
    requires
        !(build_onto(a, start, items) is NoPlace),
    ensures
        columns_fit_onto(start, items),
{
    assert forall|b: Arithmetic| !(#[trigger] build_onto(b, start, items) is NoPlace) by {
        lemma_alike(a, b, start, items);
    }
}

} // verus!
