//! A comparison table: its columns, its rows, and the data where they cross.
use crate::error::TableError;
use crate::error::TableErrorView;
use crate::float::Arithmetic;
use crate::float::Float64;
use crate::float::FloatOps;
use crate::float::ONE_BITS;
use crate::names::distinct;
use crate::names::first_at;
use crate::names::lemma_distinct_position;
use crate::names::lemma_first;
use crate::names::lemma_listed;
use crate::names::position;
use crate::ordered::entries;
use crate::ordered::index_map_default;
use crate::ordered::index_map_get;
use crate::ordered::index_map_insert;
use crate::ordered::OrderedMap;
use crate::text::same;
use crate::time::one;
use crate::time::Comparison;
use crate::time::TimeUnit;
use indexmap::IndexMap;
use vstd::prelude::*;

verus! {

/// A column's name, and the width that its widest text asks for.
#[derive(Debug)]
pub struct ColumnInfo {
    pub name: String,
    pub max_width: usize,
}

/// A [`ColumnInfo`] as mathematical values.
pub ghost struct ColumnInfoView {
    pub name: Seq<char>,
    pub max_width: nat,
}

impl View for ColumnInfo {
    type V = ColumnInfoView;

    open spec fn view(&self) -> ColumnInfoView {
        ColumnInfoView { name: self.name@, max_width: self.max_width as nat }
    }
}

impl Clone for ColumnInfo {
    fn clone(&self) -> (copy: ColumnInfo)
        ensures
            copy@ == self@,
    {
        ColumnInfo { name: self.name.clone(), max_width: self.max_width }
    }
}

/// The larger of two widths.
pub open spec fn wider(a: nat, b: nat) -> nat {
    if a >= b {
        a
    } else {
        b
    }
}

impl ColumnInfo {
    /// A column of the given width.
    pub fn new(name: String, width: usize) -> (info: ColumnInfo)
        ensures
            info.name == name,
            info.max_width == width,
    {
        ColumnInfo { name, max_width: width }
    }

    /// Makes the column at least as wide as `width`.
    pub fn update_info(&mut self, width: usize)
        ensures
            final(self).name == old(self).name,
            final(self)@.max_width == wider(old(self)@.max_width, width as nat),
    {
        if self.max_width < width {
            self.max_width = width;
        }
    }
}

/// What a table shows in one column of one row.
#[derive(Debug)]
pub struct Column {
    pub name: String,
    pub time_unit: TimeUnit,
    pub pct: Comparison,
}

/// A [`Column`] as mathematical values.
pub ghost struct ColumnView {
    pub name: Seq<char>,
    pub time_unit: TimeUnit,
    pub pct: Comparison,
}

impl View for Column {
    type V = ColumnView;

    open spec fn view(&self) -> ColumnView {
        ColumnView { name: self.name@, time_unit: self.time_unit, pct: self.pct }
    }
}

impl Clone for Column {
    fn clone(&self) -> (copy: Column)
        ensures
            copy@ == self@,
    {
        Column { name: self.name.clone(), time_unit: self.time_unit, pct: self.pct }
    }
}

/// How a time compares with the time in the first column of its row. A time that is the first
/// itself is one time as fast.
pub open spec fn compared(
    a: Arithmetic,
    time_unit: TimeUnit,
    first: Option<TimeUnit>,
) -> Comparison {
    match first {
        Some(first) => Comparison(first.over(time_unit, a)),
        None => Comparison(one()),
    }
}

impl ColumnView {
    /// The characters that the time and the comparison take up.
    pub open spec fn width(self, a: Arithmetic) -> nat {
        self.time_unit.text(a).len() + self.pct.text(a).len()
    }
}

impl Column {
    /// The data for one column, where `first_col_time` is the time in the row's first column,
    /// if there is one already.
    pub fn new<
        D: Fn(Float64, Float64) -> Float64,
        M: Fn(Float64, Float64) -> Float64,
        S: Fn(Float64) -> String,
    >(
        name: String,
        time_unit: TimeUnit,
        first_col_time: Option<TimeUnit>,
        ops: &FloatOps<D, M, S>,
    ) -> (column: Column)
        requires
            ops.valid(),
        ensures
            column.name == name,
            column.time_unit == time_unit,
            forall|a: Arithmetic| #[trigger]
                ops.follows(a) ==> column.pct == compared(a, time_unit, first_col_time),
    {
        let pct = match first_col_time {
            Some(first_col_time) => Comparison(first_col_time.div(time_unit, ops)),
            None => Comparison(Float64 { bits: ONE_BITS }),
        };
        Column { name, time_unit, pct }
    }

    /// The characters that the time and the comparison take up. Spaces and other characters
    /// that a formatter puts around them are not counted.
    pub fn width<
        D: Fn(Float64, Float64) -> Float64,
        M: Fn(Float64, Float64) -> Float64,
        S: Fn(Float64) -> String,
    >(&self, ops: &FloatOps<D, M, S>) -> (width: usize)
        requires
            ops.valid(),
        ensures
            forall|a: Arithmetic| #[trigger] ops.follows(a) ==> width == self@.width(a),
    {
        self.time_unit.width(ops) + self.pct.width(ops)
    }
}

/// One row of a table.
#[derive(Debug)]
pub struct Row {
    pub name: String,
    pub column_data: OrderedMap<Column>,
}

/// A [`Row`] as mathematical values, its columns in the order in which they were added.
pub ghost struct RowView {
    pub name: Seq<char>,
    pub columns: Seq<ColumnView>,
}

impl View for Row {
    type V = RowView;

    open spec fn view(&self) -> RowView {
        RowView {
            name: self.name@,
            columns: self.column_data@.map_values(|column: Column| column@),
        }
    }
}

impl Clone for Row {
    fn clone(&self) -> (copy: Row)
        ensures
            copy@ == self@,
            self.valid() ==> copy.valid(),
    {
        let copy = Row { name: self.name.clone(), column_data: self.column_data.clone() };
        proof {
            assert forall|i: int| 0 <= i < self.column_data@.len() implies (
            #[trigger] copy.column_data@[i])@ == self.column_data@[i]@ by {
                assert(cloned(self.column_data@[i], copy.column_data@[i]));
            }
            assert(copy@.columns =~= self@.columns);
        }
        copy
    }
}

impl RowView {
    /// The names of the columns that the row has data in.
    pub open spec fn names(self) -> Seq<Seq<char>> {
        self.columns.map_values(|column: ColumnView| column.name)
    }

    /// The time in the row's first column.
    pub open spec fn first_time(self) -> Option<TimeUnit> {
        if self.columns.len() > 0 {
            Some(self.columns[0].time_unit)
        } else {
            None
        }
    }

    /// The data that a column would have if it were added now.
    pub open spec fn new_column(
        self,
        a: Arithmetic,
        name: Seq<char>,
        time_unit: TimeUnit,
    ) -> ColumnView {
        ColumnView { name, time_unit, pct: compared(a, time_unit, self.first_time()) }
    }

    /// The row with one more column.
    pub open spec fn with_column(
        self,
        a: Arithmetic,
        name: Seq<char>,
        time_unit: TimeUnit,
    ) -> RowView {
        RowView { columns: self.columns.push(self.new_column(a, name, time_unit)), ..self }
    }
}

impl Row {
    /// Whether each column's data is found under the column's name.
    pub open spec fn valid(&self) -> bool {
        &&& self.column_data.valid()
        &&& self.column_data.keys() == self@.names()
    }

    /// A row without data.
    pub fn new(name: String) -> (row: Row)
        ensures
            row.valid(),
            row@ == (RowView { name: name@, columns: Seq::empty() }),
    {
        let row = Row { name, column_data: OrderedMap::new() };
        assert(row@.columns =~= Seq::empty());
        assert(row@.names() =~= Seq::empty());
        row
    }

    /// The time in the first column that was added to this row. Rows of one table can start
    /// with different columns, so their times can be compared with those of different columns.
    pub fn first_column_time(&self) -> (time: Option<TimeUnit>)
        ensures
            time == self@.first_time(),
    {
        if self.column_data.len() > 0 {
            Some(self.column_data.at(0).time_unit)
        } else {
            None
        }
    }

    /// Adds the data for one column. A row has at most one time for each column.
    pub fn add_column<
        D: Fn(Float64, Float64) -> Float64,
        M: Fn(Float64, Float64) -> Float64,
        S: Fn(Float64) -> String,
    >(&mut self, name: String, time_unit: TimeUnit, ops: &FloatOps<D, M, S>) -> (result: Result<
        &Column,
        TableError,
    >)
        requires
            old(self).valid(),
            ops.valid(),
        ensures
            final(self).valid(),
            match result {
                Ok(column) => {
                    &&& !old(self)@.names().contains(name@)
                    &&& forall|a: Arithmetic| #[trigger]
                        ops.follows(a) ==> {
                            &&& final(self)@ == old(self)@.with_column(a, name@, time_unit)
                            &&& column@ == old(self)@.new_column(a, name@, time_unit)
                        }
                },
                Err(error) => {
                    &&& old(self)@.names().contains(name@)
                    &&& error@ == TableErrorView::DuplicateColumn(name@)
                    &&& final(self)@ == old(self)@
                },
            },
    {
        let first_time = self.first_column_time();
        match self.column_data.find(name.as_str()) {
            Some(i) => {
                proof {
                    self.column_data.lemma_valid();
                    assert(self@.names()[i as int] == name@);
                }
                Err(TableError::DuplicateColumn(name))
            },
            None => {
                let column = Column::new(name.clone(), time_unit, first_time, ops);
                let ghost added = column;
                let place = self.column_data.len();
                self.column_data.push(name, column);
                proof {
                    assert(self@.columns =~= old(self)@.columns.push(added@));
                    assert(self@.names() =~= old(self)@.names().push(name@));
                }
                Ok(self.column_data.at(place))
            },
        }
    }
}

/// The names of a table's columns.
pub open spec fn column_names(columns: Seq<ColumnInfoView>) -> Seq<Seq<char>> {
    columns.map_values(|column: ColumnInfoView| column.name)
}

/// The columns after the one named `name` was made at least `width` wide. A column that was not
/// there yet is put in at `idx`.
pub open spec fn widened(
    columns: Seq<ColumnInfoView>,
    idx: int,
    name: Seq<char>,
    width: nat,
) -> Seq<ColumnInfoView> {
    let names = column_names(columns);
    if names.contains(name) {
        let i = position(names, name);
        columns.update(i, ColumnInfoView { name, max_width: wider(columns[i].max_width, width) })
    } else {
        columns.insert(idx, ColumnInfoView { name, max_width: width })
    }
}

/// The columns of a table, in the order in which they are shown.
#[derive(Debug)]
pub struct ColumnInfoVec(pub Vec<ColumnInfo>);

impl View for ColumnInfoVec {
    type V = Seq<ColumnInfoView>;

    open spec fn view(&self) -> Seq<ColumnInfoView> {
        self.0@.map_values(|info: ColumnInfo| info@)
    }
}

impl Clone for ColumnInfoVec {
    fn clone(&self) -> (copy: ColumnInfoVec)
        ensures
            copy@ == self@,
    {
        let copy = ColumnInfoVec(self.0.clone());
        proof {
            assert forall|i: int| 0 <= i < self.0@.len() implies (#[trigger] copy.0@[i])@
                == self.0@[i]@ by {
                assert(cloned(self.0@[i], copy.0@[i]));
            }
            assert(copy@ =~= self@);
        }
        copy
    }
}

impl ColumnInfoVec {
    /// No columns.
    pub fn new() -> (columns: ColumnInfoVec)
        ensures
            columns@ == Seq::<ColumnInfoView>::empty(),
    {
        let columns = ColumnInfoVec(Vec::new());
        assert(columns@ =~= Seq::empty());
        columns
    }

    /// The place of the first column with this name.
    pub fn find(&self, name: &str) -> (place: Option<usize>)
        ensures
            match place {
                Some(i) => first_at(column_names(self@), name@, i as int),
                None => !column_names(self@).contains(name@),
            },
    {
        let ghost names = column_names(self@);
        let mut i: usize = 0;
        while i < self.0.len()
            invariant
                i <= self.0@.len(),
                names == column_names(self@),
                forall|j: int| 0 <= j < i ==> #[trigger] names[j] != name@,
            decreases self.0@.len() - i,
        {
            assert(names[i as int] == self.0@[i as int].name@);
            if same(self.0[i].name.as_str(), name) {
                return Some(i);
            }
            i += 1;
        }
        None
    }

    /// Makes the column named `name` at least `width` wide. A column that is not there yet is
    /// put in at `idx`.
    pub fn update_column_info(&mut self, idx: usize, name: String, width: usize)
        requires
            column_names(old(self)@).contains(name@) || idx <= old(self)@.len(),
        ensures
            final(self)@ == widened(old(self)@, idx as int, name@, width as nat),
    {
        match self.find(name.as_str()) {
            Some(i) => {
                proof {
                    lemma_first(column_names(self@), name@, i as int);
                }
                self.0[i].update_info(width);
            },
            None => {
                self.0.insert(idx, ColumnInfo::new(name, width));
            },
        }
        assert(self@ =~= widened(old(self)@, idx as int, name@, width as nat));
    }
}

/// A table of benchmark times.
#[derive(Debug)]
pub struct Table {
    pub name: String,
    pub columns: ColumnInfoVec,
    pub rows: OrderedMap<Row>,
}

/// A [`Table`] as mathematical values.
pub ghost struct TableView {
    pub name: Seq<char>,
    /// The columns, in the order in which they are shown.
    pub columns: Seq<ColumnInfoView>,
    /// The rows, in the order in which they are shown.
    pub rows: Seq<RowView>,
}

impl View for Table {
    type V = TableView;

    open spec fn view(&self) -> TableView {
        TableView {
            name: self.name@,
            columns: self.columns@,
            rows: self.rows@.map_values(|row: Row| row@),
        }
    }
}

impl Clone for Table {
    fn clone(&self) -> (copy: Table)
        ensures
            copy@ == self@,
            self.valid() ==> copy.valid(),
    {
        let copy = Table {
            name: self.name.clone(),
            columns: self.columns.clone(),
            rows: self.rows.clone(),
        };
        proof {
            assert forall|i: int| 0 <= i < self.rows@.len() implies {
                &&& (#[trigger] copy.rows@[i])@ == self.rows@[i]@
                &&& self.rows@[i].valid() ==> copy.rows@[i].valid()
            } by {
                assert(cloned(self.rows@[i], copy.rows@[i]));
            }
            assert(copy@.rows =~= self@.rows);
        }
        copy
    }
}

/// A name without characters.
pub open spec fn blank() -> Seq<char> {
    Seq::empty()
}

impl TableView {
    /// A table without data.
    pub open spec fn empty(name: Seq<char>) -> TableView {
        TableView { name, columns: Seq::empty(), rows: Seq::empty() }
    }

    /// The names of the rows.
    pub open spec fn row_names(self) -> Seq<Seq<char>> {
        self.rows.map_values(|row: RowView| row.name)
    }

    /// The rows, among them one with this name.
    pub open spec fn rows_with(self, name: Seq<char>) -> Seq<RowView> {
        if self.row_names().contains(name) {
            self.rows
        } else {
            self.rows.push(RowView { name, columns: Seq::empty() })
        }
    }

    /// The place of the row with this name: where it stands, or where it would be added.
    pub open spec fn row_place(self, name: Seq<char>) -> int {
        if self.row_names().contains(name) {
            position(self.row_names(), name)
        } else {
            self.rows.len() as int
        }
    }

    /// The table with a row of this name, and a first column, without a name, that is wide
    /// enough for the row's name.
    pub open spec fn with_row(self, name: Seq<char>) -> TableView {
        TableView {
            columns: widened(self.columns, 0, blank(), name.len()),
            rows: self.rows_with(name),
            ..self
        }
    }

    /// Whether the named row has data in the named column.
    pub open spec fn has_cell(self, row: Seq<char>, column: Seq<char>) -> bool {
        self.rows_with(row)[self.row_place(row)].names().contains(column)
    }

    /// Whether a column can be put in at `idx` once the named row is there: it has its place
    /// already, or `idx` is no more than one past the last column.
    pub open spec fn has_place(self, idx: int, row: Seq<char>, column: Seq<char>) -> bool {
        column_names(self.with_row(row).columns).contains(column) || idx
            <= self.with_row(row).columns.len()
    }

    /// The data that is put where the named row and column cross.
    pub open spec fn new_cell(
        self,
        a: Arithmetic,
        column: Seq<char>,
        row: Seq<char>,
        time: TimeUnit,
    ) -> ColumnView {
        self.rows_with(row)[self.row_place(row)].new_column(a, column, time)
    }

    /// The table with a time where the named row and column cross. The column is wide enough
    /// for both the data and the column's name.
    pub open spec fn with_cell(
        self,
        a: Arithmetic,
        idx: int,
        column: Seq<char>,
        row: Seq<char>,
        time: TimeUnit,
    ) -> TableView {
        let place = self.row_place(row);
        let rows = self.rows_with(row);
        TableView {
            columns: widened(
                self.with_row(row).columns,
                idx,
                column,
                wider(self.new_cell(a, column, row, time).width(a), column.len()),
            ),
            rows: rows.update(place, rows[place].with_column(a, column, time)),
            ..self
        }
    }
}

impl Table {
    /// Whether each row is found under its name.
    pub open spec fn valid(&self) -> bool {
        &&& self.rows.valid()
        &&& self.rows.keys() == self@.row_names()
        &&& forall|i: int| 0 <= i < self.rows@.len() ==> (#[trigger] self.rows@[i]).valid()
    }

    /// A table without data.
    pub fn new(name: String) -> (table: Table)
        ensures
            table.valid(),
            table@ == TableView::empty(name@),
    {
        let table = Table { name, columns: ColumnInfoVec::new(), rows: OrderedMap::new() };
        assert(table@.rows =~= Seq::empty());
        assert(table@.row_names() =~= Seq::empty());
        table
    }

    /// The row with this name, which is added if it is not there yet.
    pub fn get_row(&mut self, name: String) -> (row: &mut Row)
        requires
            old(self).valid(),
        ensures
            row.valid(),
            row@ == old(self)@.rows_with(name@)[old(self)@.row_place(name@)],
            row@.name == name@,
            final(self)@ == (TableView {
                rows: old(self)@.rows_with(name@).update(
                    old(self)@.row_place(name@),
                    final(row)@,
                ),
                ..old(self)@
            }),
            final(row).valid() && final(row)@.name == name@ ==> final(self).valid(),
    {
        proof {
            self.rows.lemma_valid();
        }
        let place = match self.rows.find(name.as_str()) {
            Some(i) => {
                proof {
                    lemma_distinct_position(self@.row_names(), i as int);
                    assert(self@.row_names()[i as int] == name@);
                }
                i
            },
            None => {
                let i = self.rows.len();
                let row = Row::new(name.clone());
                let ghost added = row;
                self.rows.push(name, row);
                proof {
                    assert(self@.rows =~= old(self)@.rows.push(added@));
                    assert(self@.row_names() =~= old(self)@.row_names().push(name@));
                }
                i
            },
        };
        let ghost before = *self;
        let row = self.rows.at_mut(place);
        proof {
            assert(after_borrow(self)@.rows =~= before@.rows.update(place as int, final(row)@));
            assert(final(row)@.name == name@ ==> after_borrow(self)@.row_names()
                =~= before@.row_names());
        }
        row
    }

    /// Whether [`Table::add_column_data`] can be asked to put a time where the named row and
    /// column cross: the row has data in that column, the column has its place already, or it
    /// can be put in at `idx`.
    pub fn has_room(&self, idx: usize, column_name: &str, row_name: &str) -> (result: bool)
        requires
            self.valid(),
        ensures
            result == (self@.has_cell(row_name@, column_name@) || self@.has_place(
                idx as int,
                row_name@,
                column_name@,
            )),
    {
        let ghost names = column_names(self@.columns);
        let ghost after = column_names(self@.with_row(row_name@).columns);
        let has_blank = match self.columns.find("") {
            Some(_) => true,
            None => false,
        };
        let listed = match self.columns.find(column_name) {
            Some(_) => true,
            None => false,
        };
        proof {
            reveal_strlit("");
            assert(""@ =~= blank());
            if names.contains(blank()) {
                lemma_listed(names, blank());
                assert(after =~= names);
            } else {
                assert(after =~= names.insert(0, blank()));
                assert(after[0] == blank());
                if names.contains(column_name@) {
                    let i = names.index_of(column_name@);
                    assert(after[i + 1] == column_name@);
                }
                if after.contains(column_name@) {
                    let i = after.index_of(column_name@);
                    if i > 0 {
                        assert(names[i - 1] == column_name@);
                    }
                }
            }
        }
        if listed || same(column_name, "") {
            return true;
        }
        if has_blank && idx <= self.columns.0.len() {
            return true;
        }
        if !has_blank && (idx == 0 || idx - 1 <= self.columns.0.len()) {
            return true;
        }
        proof {
            self.rows.lemma_valid();
        }
        match self.rows.find(row_name) {
            Some(i) => {
                let row = self.rows.at(i);
                proof {
                    assert(self@.row_names()[i as int] == row_name@);
                    lemma_distinct_position(self@.row_names(), i as int);
                    row.column_data.lemma_valid();
                }
                match row.column_data.find(column_name) {
                    Some(_) => true,
                    None => false,
                }
            },
            None => false,
        }
    }

    /// Puts a time where the named row and column cross. A column that is new to the table is
    /// put in at `idx`.
    pub fn add_column_data<
        D: Fn(Float64, Float64) -> Float64,
        M: Fn(Float64, Float64) -> Float64,
        S: Fn(Float64) -> String,
    >(
        &mut self,
        idx: usize,
        column_name: String,
        row_name: String,
        time: TimeUnit,
        ops: &FloatOps<D, M, S>,
    ) -> (result: Result<(), TableError>)
        requires
            old(self).valid(),
            ops.valid(),
            old(self)@.has_cell(row_name@, column_name@) || old(self)@.has_place(
                idx as int,
                row_name@,
                column_name@,
            ),
        ensures
            final(self).valid(),
            match result {
                Ok(_) => {
                    &&& !old(self)@.has_cell(row_name@, column_name@)
                    &&& forall|a: Arithmetic| #[trigger]
                        ops.follows(a) ==> final(self)@ == old(self)@.with_cell(
                            a,
                            idx as int,
                            column_name@,
                            row_name@,
                            time,
                        )
                },
                Err(error) => {
                    &&& old(self)@.has_cell(row_name@, column_name@)
                    &&& error@ == TableErrorView::DuplicateColumn(column_name@)
                    &&& final(self)@ == old(self)@.with_row(row_name@)
                },
            },
    {
        // The first column has no name. It holds the names of the rows.
        self.columns.update_column_info(0, String::new(), row_name.as_str().unicode_len());
        let ghost place = self@.row_place(row_name@);
        let ghost rows = self@.rows_with(row_name@);
        assert(self@.rows =~= old(self)@.rows);
        assert(self@.row_names() =~= old(self)@.row_names());
        proof {
            if self@.row_names().contains(row_name@) {
                lemma_listed(self@.row_names(), row_name@);
            }
        }
        let width = {
            let row = self.get_row(row_name);
            match row.add_column(column_name.clone(), time, ops) {
                Ok(column) => Ok(column.width(ops)),
                Err(error) => Err(error),
            }
        };
        match width {
            Ok(data_width) => {
                let name_width = column_name.as_str().unicode_len();
                let width: usize = if data_width >= name_width {
                    data_width
                } else {
                    name_width
                };
                self.columns.update_column_info(idx, column_name, width);
                Ok(())
            },
            Err(error) => {
                assert(rows.update(place, rows[place]) =~= rows);
                Err(error)
            },
        }
    }
}

/// How many times each row name has come up.
#[derive(Debug)]
pub struct ColumnPosition(IndexMap<String, usize>);

impl View for ColumnPosition {
    type V = Map<Seq<char>, nat>;

    closed spec fn view(&self) -> Map<Seq<char>, nat> {
        counts(entries(self.0))
    }
}

/// The value stored for each key.
spec fn counts(entries: Seq<(Seq<char>, usize)>) -> Map<Seq<char>, nat> {
    let keys = entries.map_values(|entry: (Seq<char>, usize)| entry.0);
    Map::new(
        |key: Seq<char>| keys.contains(key),
        |key: Seq<char>| entries[position(keys, key)].1 as nat,
    )
}

/// How often a row name has come up once it comes up again.
pub open spec fn next_position(positions: Map<Seq<char>, nat>, row: Seq<char>) -> nat {
    if positions.contains_key(row) {
        positions[row] + 1
    } else {
        1
    }
}

impl ColumnPosition {
    /// Whether each name is counted once.
    pub closed spec fn valid(&self) -> bool {
        distinct(entries(self.0).map_values(|entry: (Seq<char>, usize)| entry.0))
    }

    /// No name has come up.
    pub fn new() -> (positions: ColumnPosition)
        ensures
            positions.valid(),
            positions@ == Map::<Seq<char>, nat>::empty(),
    {
        let positions = ColumnPosition(index_map_default());
        assert(positions@ =~= Map::empty());
        positions
    }

    /// Counts a row name, and returns how often it has come up.
    pub fn next_idx(&mut self, row_name: String) -> (idx: usize)
        requires
            old(self).valid(),
            next_position(old(self)@, row_name@) <= usize::MAX,
        ensures
            final(self).valid(),
            idx == next_position(old(self)@, row_name@),
            final(self)@ == old(self)@.insert(row_name@, idx as nat),
    {
        let ghost before = entries(self.0);
        let ghost keys = before.map_values(|entry: (Seq<char>, usize)| entry.0);
        let idx: usize = match index_map_get(&self.0, row_name.as_str()) {
            Some(count) => {
                proof {
                    let i = choose|i: int|
                        0 <= i < before.len() && #[trigger] before[i] == (row_name@, count);
                    assert(keys[i] == row_name@);
                    lemma_distinct_position(keys, i);
                }
                count + 1
            },
            None => {
                assert(!keys.contains(row_name@));
                1
            },
        };
        let replaced = index_map_insert(&mut self.0, row_name, idx);
        proof {
            let after = entries(self.0);
            let new_keys = after.map_values(|entry: (Seq<char>, usize)| entry.0);
            if replaced is Some {
                assert(new_keys =~= keys);
                let i = choose|i: int|
                    {
                        &&& 0 <= i < before.len()
                        &&& #[trigger] before[i] == (row_name@, replaced->0)
                        &&& after == before.update(i, (row_name@, idx))
                    };
                assert(keys[i] == row_name@);
                lemma_distinct_position(keys, i);
                assert forall|key: Seq<char>|
                    keys.contains(key) && key != row_name@ implies #[trigger] position(keys, key)
                    != i && 0 <= position(keys, key) < keys.len() by {
                    lemma_listed(keys, key);
                }
                assert(self@ =~= old(self)@.insert(row_name@, idx as nat));
            } else {
                assert(new_keys =~= keys.push(row_name@));
                let last = keys.len() as int;
                assert(!keys.contains(row_name@)) by {
                    if keys.contains(row_name@) {
                        let i = keys.index_of(row_name@);
                        assert(before[i].0 == row_name@);
                    }
                }
                assert(distinct(new_keys));
                assert(new_keys[last] == row_name@);
                lemma_distinct_position(new_keys, last);
                assert forall|key: Seq<char>| keys.contains(key) implies {
                    &&& #[trigger] new_keys.contains(key)
                    &&& position(new_keys, key) == position(keys, key)
                    &&& 0 <= position(keys, key) < keys.len()
                } by {
                    lemma_listed(keys, key);
                    let i = position(keys, key);
                    assert(new_keys[i] == key);
                    lemma_distinct_position(new_keys, i);
                }
                assert forall|key: Seq<char>| new_keys.contains(key) implies key == row_name@
                    || keys.contains(key) by {
                    let i = new_keys.index_of(key);
                    if i < last {
                        assert(keys[i] == key);
                    }
                }
                assert(self@ =~= old(self)@.insert(row_name@, idx as nat));
            }
        }
        idx
    }
}

} // verus!
