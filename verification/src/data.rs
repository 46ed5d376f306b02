//! All the tables, built from raw benchmark results.
use crate::progress::build;
use crate::progress::build_onto;
use crate::progress::columns_fit;
use crate::progress::columns_fit_onto;
use crate::progress::id_place;
use crate::progress::left_behind;
use crate::progress::lemma_first_failure;
use crate::progress::lemma_fits;
use crate::progress::lemma_table_stands;
use crate::progress::table_named;
use crate::progress::table_names;
use crate::progress::table_place;
use crate::progress::tables_left;
use crate::progress::tables_with;
use crate::progress::Outcome;
use crate::progress::Progress;
use crate::config::TablesConfig;
use crate::document::document_calls;
use crate::document::lemma_writes_both;
use crate::document::table_calls;
use crate::document::table_key;
use crate::document::tables_calls;
use crate::document::write_table;
use crate::error::TableError;
use crate::float::Arithmetic;
use crate::float::Float64;
use crate::float::FloatOps;
use crate::format::lemma_writes_more;
use crate::format::optional_text;
use crate::format::texts;
use crate::format::writes;
use crate::format::FormatCall;
use crate::format::Formatter;
use crate::names::lemma_distinct_position;
use crate::ordered::OrderedMap;
use crate::raw::BenchmarkComplete;
use crate::raw::RawCriterionData;
use crate::table::ColumnPosition;
use crate::table::Table;
use crate::table::TableView;
use crate::text::ascii;
use crate::text::ascii_lowercase;
use crate::text::replace;
use crate::text::replaced;
use crate::text::split;
use crate::text::to_lower;
use crate::time::TimeUnit;
use vstd::prelude::*;

verus! {

/// What came of adding one benchmark.
enum Placement {
    Placed,
    Failed(TableError),
    NoPlace,
}

/// Fully processed Criterion benchmark data, ready for formatting.
#[derive(Debug)]
pub struct CriterionTableData {
    tables: OrderedMap<Table>,
}

impl View for CriterionTableData {
    type V = Seq<TableView>;

    closed spec fn view(&self) -> Seq<TableView> {
        self.tables@.map_values(|table: Table| table@)
    }
}

impl Clone for CriterionTableData {
    fn clone(&self) -> (copy: CriterionTableData)
        ensures
            copy@ == self@,
            self.valid() ==> copy.valid(),
    {
        let copy = CriterionTableData { tables: self.tables.clone() };
        proof {
            assert forall|i: int| 0 <= i < self.tables@.len() implies {
                &&& (#[trigger] copy.tables@[i])@ == self.tables@[i]@
                &&& self.tables@[i].valid() ==> copy.tables@[i].valid()
            } by {
                assert(cloned(self.tables@[i], copy.tables@[i]));
            }
            assert(copy@ =~= self@);
        }
        copy
    }
}

impl CriterionTableData {
    /// Whether each table is found under its name, and so in each table each row, and in each
    /// row each column.
    pub closed spec fn valid(&self) -> bool {
        &&& self.tables.valid()
        &&& self.tables.keys() == table_names(self@)
        &&& forall|i: int| 0 <= i < self.tables@.len() ==> (#[trigger] self.tables@[i]).valid()
    }

    /// No tables.
    pub fn new() -> (data: CriterionTableData)
        ensures
            data.valid(),
            data@ == Seq::<TableView>::empty(),
    {
        let data = CriterionTableData { tables: OrderedMap::new() };
        assert(data@ =~= Seq::empty());
        assert(table_names(data@) =~= Seq::empty());
        data
    }

    /// The table with this name, which is added if it is not there yet.
    fn get_table(&mut self, name: String) -> (table: &mut Table)
        requires
            old(self).valid(),
        ensures
            table.valid(),
            table@ == table_named(old(self)@, name@),
            table@.name == name@,
            final(self)@ == tables_with(old(self)@, name@).update(
                table_place(old(self)@, name@),
                final(table)@,
            ),
            final(table).valid() && final(table)@.name == name@ ==> final(self).valid(),
    {
        proof {
            self.tables.lemma_valid();
        }
        let place = match self.tables.find(name.as_str()) {
            Some(i) => {
                proof {
                    lemma_distinct_position(table_names(self@), i as int);
                    assert(table_names(self@)[i as int] == name@);
                }
                i
            },
            None => {
                let i = self.tables.len();
                let table = Table::new(name.clone());
                let ghost added = table;
                self.tables.push(name, table);
                proof {
                    assert(self@ =~= old(self)@.push(added@));
                    assert(table_names(self@) =~= table_names(old(self)@).push(name@));
                }
                i
            },
        };
        let ghost before = *self;
        let table = self.tables.at_mut(place);
        proof {
            assert(after_borrow(self)@ =~= before@.update(place as int, final(table)@));
            assert(final(table)@.name == name@ ==> table_names(after_borrow(self)@)
                =~= table_names(before@));
        }
        table
    }

    /// Adds one benchmark.
    fn add_benchmark<
        D: Fn(Float64, Float64) -> Float64,
        M: Fn(Float64, Float64) -> Float64,
        S: Fn(Float64) -> String,
    >(
        &mut self,
        col_pos: &mut ColumnPosition,
        bm: &BenchmarkComplete,
        ops: &FloatOps<D, M, S>,
    ) -> (result: Placement)
        requires
            old(self).valid(),
            old(col_pos).valid(),
            ops.valid(),
            forall|row: Seq<char>| #[trigger]
                old(col_pos)@.contains_key(row) ==> old(col_pos)@[row] < usize::MAX,
        ensures
            final(self).valid(),
            final(col_pos).valid(),
            forall|a: Arithmetic| #[trigger]
                ops.follows(a) ==> (Progress {
                    tables: old(self)@,
                    positions: old(col_pos)@,
                }).with_benchmark(a, *bm) == match result {
                    Placement::Placed => Outcome::Built(
                        Progress { tables: final(self)@, positions: final(col_pos)@ },
                    ),
                    Placement::Failed(error) => Outcome::Failed(error@),
                    Placement::NoPlace => Outcome::NoPlace,
                },
            !(result is Placed) ==> final(self)@ == left_behind(old(self)@, *bm),
    {
        // The id names the table, the column and the row, in this order.
        let mut parts = split(bm.id.as_str(), '/');
        if parts.len() < 2 {
            return Placement::Failed(TableError::MalformedId(bm.id.clone()));
        }
        let table_name = parts.remove(0);
        let column_name = parts.remove(0);
        // Without a row name, the row has a blank name.
        let row_name = if parts.len() > 0 {
            parts.remove(0)
        } else {
            String::new()
        };
        let ghost place = id_place(bm.id@)->0;
        assert(place.table == table_name@ && place.column == column_name@ && place.row
            == row_name@);
        proof {
            lemma_table_stands(self@, place.table);
        }
        let table = self.get_table(table_name);
        let time_unit = match TimeUnit::try_new(
            bm.typical.estimate,
            bm.typical.unit.as_str(),
            ops,
        ) {
            Ok(time_unit) => time_unit,
            Err(error) => {
                return Placement::Failed(error);
            },
        };
        let idx = col_pos.next_idx(row_name.clone());
        if !table.has_room(idx, column_name.as_str(), row_name.as_str()) {
            return Placement::NoPlace;
        }
        match table.add_column_data(idx, column_name, row_name, time_unit, ops) {
            Ok(_) => Placement::Placed,
            Err(error) => Placement::Failed(error),
        }
    }

    /// Adds the raw data to the tables, one item after the other. An error says why an item
    /// could not be added; `None` says that a column would have to be put in past the end of
    /// its table's columns. Either way, what was built before that item stays, as the item
    /// leaves it.
    pub fn build_from_raw_data<
        D: Fn(Float64, Float64) -> Float64,
        M: Fn(Float64, Float64) -> Float64,
        S: Fn(Float64) -> String,
    >(&mut self, raw_data: &[RawCriterionData], ops: &FloatOps<D, M, S>) -> (result: Option<
        Result<(), TableError>,
    >)
        requires
            old(self).valid(),
            ops.valid(),
        ensures
            final(self).valid(),
            result is None <==> !columns_fit_onto(Progress::onto(old(self)@), raw_data@),
            forall|a: Arithmetic| #[trigger]
                ops.follows(a) ==> {
                    &&& final(self)@ == tables_left(a, Progress::onto(old(self)@), raw_data@)
                    &&& match result {
                        Some(Ok(_)) => build_onto(
                            a,
                            Progress::onto(old(self)@),
                            raw_data@,
                        ) matches Outcome::Built(progress) && progress.tables == final(self)@,
                        Some(Err(error)) => build_onto(a, Progress::onto(old(self)@), raw_data@)
                            == Outcome::Failed(error@),
                        None => build_onto(a, Progress::onto(old(self)@), raw_data@) is NoPlace,
                    }
                },
    {
        let ghost sample = choose|a: Arithmetic| #[trigger] ops.follows(a);
        let ghost start = Progress::onto(self@);
        let mut col_pos = ColumnPosition::new();
        let mut i: usize = 0;
        while i < raw_data.len()
            invariant
                i <= raw_data@.len(),
                start == Progress::onto(old(self)@),
                ops.valid(),
                ops.follows(sample),
                self.valid(),
                col_pos.valid(),
                forall|row: Seq<char>| #[trigger]
                    col_pos@.contains_key(row) ==> col_pos@[row] <= i,
                forall|a: Arithmetic| #[trigger]
                    ops.follows(a) ==> build_onto(a, start, raw_data@.take(i as int))
                        == Outcome::Built(Progress { tables: self@, positions: col_pos@ }),
            decreases raw_data@.len() - i,
        {
            let ghost before = Progress { tables: self@, positions: col_pos@ };
            let ghost next = raw_data@.take(i + 1);
            proof {
                assert(next.drop_last() =~= raw_data@.take(i as int));
                assert(next.last() == raw_data@[i as int]);
            }
            // Only benchmark data counts.
            if let RawCriterionData::Benchmark(bm) = &raw_data[i] {
                match self.add_benchmark(&mut col_pos, bm, ops) {
                    Placement::Placed => {},
                    Placement::Failed(error) => {
                        proof {
                            assert forall|a: Arithmetic| #[trigger] ops.follows(a) implies {
                                &&& build_onto(a, start, raw_data@) == Outcome::Failed(error@)
                                &&& tables_left(a, start, raw_data@) == self@
                            } by {
                                lemma_first_failure(a, start, raw_data@, i as int, before);
                            }
                            lemma_fits(sample, start, raw_data@);
                        }
                        return Some(Err(error));
                    },
                    Placement::NoPlace => {
                        proof {
                            assert forall|a: Arithmetic| #[trigger] ops.follows(a) implies {
                                &&& build_onto(a, start, raw_data@) is NoPlace
                                &&& tables_left(a, start, raw_data@) == self@
                            } by {
                                lemma_first_failure(a, start, raw_data@, i as int, before);
                            }
                        }
                        return None;
                    },
                }
            }
            i += 1;
        }
        proof {
            assert(raw_data@.take(i as int) =~= raw_data@);
            lemma_fits(sample, start, raw_data@);
        }
        Some(Ok(()))
    }

    /// Builds table data from the input raw Criterion data.
    pub fn from_raw<
        D: Fn(Float64, Float64) -> Float64,
        M: Fn(Float64, Float64) -> Float64,
        S: Fn(Float64) -> String,
    >(raw_data: &[RawCriterionData], ops: &FloatOps<D, M, S>) -> (result: Result<
        CriterionTableData,
        TableError,
    >)
        requires
            ops.valid(),
            columns_fit(raw_data@),
        ensures
            result matches Ok(data) ==> data.valid(),
            forall|a: Arithmetic| #[trigger]
                ops.follows(a) ==> match result {
                    Ok(data) => build(a, raw_data@) matches Outcome::Built(progress)
                        && progress.tables == data@,
                    Err(error) => build(a, raw_data@) == Outcome::Failed(error@),
                },
    {
        let mut data = CriterionTableData::new();
        match data.build_from_raw_data(raw_data, ops).unwrap() {
            Ok(_) => Ok(data),
            Err(error) => Err(error),
        }
    }

    /// The key under which the comment on a table is filed.
    pub fn encode_key(name: &str) -> (key: String)
        ensures
            key@ == table_key(name@),
            ascii(name@) ==> key@ == replaced(name@, ' ', '_').map_values(
                |c: char| ascii_lowercase(c),
            ),
    {
        let spaced = replace(name, ' ', '_');
        assert(ascii(name@) ==> ascii(spaced@));
        to_lower(spaced.as_str())
    }

    /// Writes all the tables out: the document's start with the names of all the tables, each
    /// table in turn with its comment, and the document's end. The formatter is asked for
    /// nothing else, and all its calls get the same buffer.
    pub fn write_document<F: Formatter>(
        &self,
        f: &mut F,
        buffer: &mut String,
        config: &TablesConfig,
    )
        requires
            self.valid(),
        ensures
            writes(
                document_calls(self@, config),
                *old(f),
                old(buffer)@,
                *final(f),
                final(buffer)@,
            ),
    {
        let ghost first = *f;
        let ghost first_text = buffer@;
        // The document starts with the names of all the tables.
        let mut names: Vec<&str> = Vec::new();
        let mut i: usize = 0;
        while i < self.tables.len()
            invariant
                i <= self.tables@.len(),
                names@.len() == i,
                forall|j: int| 0 <= j < i ==> #[trigger] names@[j]@ == self.tables@[j].name@,
            decreases self.tables@.len() - i,
        {
            names.push(self.tables.at(i).name.as_str());
            i += 1;
        }
        assert(texts(names@) =~= table_names(self@));
        f.start(buffer, config.comments.as_ref(), names.as_slice());
        let ghost start = FormatCall::Start {
            comment: config.comment(),
            tables: table_names(self@),
        };
        let ghost mut done = seq![start];
        proof {
            lemma_writes_more(
                Seq::empty(),
                start,
                first,
                first_text,
                first,
                first_text,
                *f,
                buffer@,
            );
            assert(Seq::empty().push(start) =~= done);
            assert(self@.take(0) =~= Seq::empty());
            assert(done =~= seq![start] + tables_calls(self@.take(0), config));
        }
        let mut i: usize = 0;
        while i < self.tables.len()
            invariant
                i <= self.tables@.len(),
                self.valid(),
                done == seq![start] + tables_calls(self@.take(i as int), config),
                writes(done, first, first_text, *f, buffer@),
            decreases self.tables@.len() - i,
        {
            let ghost middle = *f;
            let ghost middle_text = buffer@;
            let table = self.tables.at(i);
            let key = CriterionTableData::encode_key(table.name.as_str());
            let comment = config.get_comment(key.as_str());
            let ghost calls = table_calls(table@, optional_text(comment));
            write_table(f, buffer, table, comment);
            proof {
                lemma_writes_both(
                    done,
                    calls,
                    first,
                    first_text,
                    middle,
                    middle_text,
                    *f,
                    buffer@,
                );
                let next = self@.take(i + 1);
                assert(next.drop_last() =~= self@.take(i as int));
                assert(next.last() == table@);
                done = done + calls;
                assert(done =~= seq![start] + tables_calls(next, config));
            }
            i += 1;
        }
        let ghost middle = *f;
        let ghost middle_text = buffer@;
        f.end(buffer);
        proof {
            assert(self@.take(i as int) =~= self@);
            lemma_writes_more(
                done,
                FormatCall::End,
                first,
                first_text,
                middle,
                middle_text,
                *f,
                buffer@,
            );
            assert(done.push(FormatCall::End) =~= document_calls(self@, config));
        }
    }

    /// Writes all the tables, in the format that `f` is for.
    pub fn make_tables<F: Formatter>(&self, f: F, config: &TablesConfig) -> (document: String)
        requires
            self.valid(),
        ensures
            exists|after: F| #[trigger]
                writes(document_calls(self@, config), f, Seq::empty(), after, document@),
    {
        let mut f = f;
        let mut buffer = String::new();
        self.write_document(&mut f, &mut buffer, config);
        buffer
    }
}

} // verus!
