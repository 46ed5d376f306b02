//! Which calls write out a table.
use crate::config::TablesConfig;
use crate::format::infos;
use crate::format::lemma_writes_more;
use crate::format::optional_text;
use crate::format::writes;
use crate::format::FormatCall;
use crate::format::Formatter;
use crate::names::distinct;
use crate::names::lemma_distinct_position;
use crate::names::position;
use crate::progress::table_names;
use crate::table::ColumnInfo;
use crate::table::ColumnInfoView;
use crate::table::Row;
use crate::table::RowView;
use crate::table::Table;
use crate::table::TableView;
use crate::text::lowercase;
use crate::text::replaced;
use vstd::prelude::*;

verus! {

/// The key under which the comment on a table is filed: the table's name in lower case, with
/// underscores for spaces.
pub open spec fn table_key(name: Seq<char>) -> Seq<char> {
    lowercase(replaced(name, ' ', '_'))
}

/// The call that writes one column of a row.
pub open spec fn cell_call(row: RowView, column: ColumnInfoView) -> FormatCall {
    if row.names().contains(column.name) {
        let cell = row.columns[position(row.names(), column.name)];
        FormatCall::UsedColumn {
            time: cell.time_unit,
            pct: cell.pct,
            max_width: column.max_width,
        }
    } else {
        FormatCall::UnusedColumn { max_width: column.max_width }
    }
}

/// The calls that write the first `n` columns after the first one.
pub open spec fn cells_calls(row: RowView, columns: Seq<ColumnInfoView>, n: nat) -> Seq<
    FormatCall,
> {
    Seq::new(n, |i: int| cell_call(row, columns[i + 1]))
}

/// The calls that write a row: its name, in the first column, and then every other column of
/// the table, whether the row has data in it or not.
pub open spec fn row_calls(row: RowView, columns: Seq<ColumnInfoView>) -> Seq<FormatCall> {
    seq![FormatCall::StartRow { name: row.name, max_width: columns[0].max_width }] + cells_calls(
        row,
        columns,
        (columns.len() - 1) as nat,
    ) + seq![FormatCall::EndRow]
}

/// The calls that write rows, one after the other.
pub open spec fn rows_calls(rows: Seq<RowView>, columns: Seq<ColumnInfoView>) -> Seq<FormatCall>
    decreases rows.len(),
{
    if rows.len() == 0 {
        Seq::empty()
    } else {
        rows_calls(rows.drop_last(), columns) + row_calls(rows.last(), columns)
    }
}

/// The calls that write a table, with the comment on it. A table without columns is left out.
pub open spec fn table_calls(table: TableView, comment: Option<Seq<char>>) -> Seq<FormatCall> {
    if table.columns.len() == 0 {
        Seq::empty()
    } else {
        seq![
            FormatCall::StartTable { name: table.name, comment, columns: table.columns },
        ] + rows_calls(table.rows, table.columns) + seq![FormatCall::EndTable]
    }
}

/// The calls that write tables, one after the other.
pub open spec fn tables_calls(tables: Seq<TableView>, config: &TablesConfig) -> Seq<FormatCall>
    decreases tables.len(),
{
    if tables.len() == 0 {
        Seq::empty()
    } else {
        tables_calls(tables.drop_last(), config) + table_calls(
            tables.last(),
            config.comment_on(table_key(tables.last().name)),
        )
    }
}

/// The calls that write the whole document.
pub open spec fn document_calls(tables: Seq<TableView>, config: &TablesConfig) -> Seq<FormatCall> {
    seq![FormatCall::Start { comment: config.comment(), tables: table_names(tables) }]
        + tables_calls(tables, config) + seq![FormatCall::End]
}

/// What is written by some calls, and then by others, is written by them all.
pub proof fn lemma_writes_both<F: Formatter>(
    calls: Seq<FormatCall>,
    more: Seq<FormatCall>,
    before: F,
    text_before: Seq<char>,
    middle: F,
    text_middle: Seq<char>,
    after: F,
    text_after: Seq<char>,
)
    requires
        writes(calls, before, text_before, middle, text_middle),
        writes(more, middle, text_middle, after, text_after),
    ensures
        writes(calls + more, before, text_before, after, text_after),
    decreases more.len(),
{
    if more.len() == 0 {
        assert(calls + more =~= calls);
    } else {
        let (late, text_late) = choose|late: F, text_late: Seq<char>|
            {
                &&& writes(more.drop_last(), middle, text_middle, late, text_late)
                &&& #[trigger] F::responds(more.last(), late, text_late, after, text_after)
            };
        lemma_writes_both(
            calls,
            more.drop_last(),
            before,
            text_before,
            middle,
            text_middle,
            late,
            text_late,
        );
        lemma_writes_more(
            calls + more.drop_last(),
            more.last(),
            before,
            text_before,
            late,
            text_late,
            after,
            text_after,
        );
        assert((calls + more.drop_last()).push(more.last()) =~= calls + more);
    }
}

/// Writes one row.
pub fn write_row<F: Formatter>(
    f: &mut F,
    buffer: &mut String,
    row: &Row,
    columns: &[ColumnInfo],
)
    requires
        row.valid(),
        columns@.len() > 0,
    ensures
        writes(
            row_calls(row@, infos(columns@)),
            *old(f),
            old(buffer)@,
            *final(f),
            final(buffer)@,
        ),
{
    let ghost shown = infos(columns@);
    let ghost first = *f;
    let ghost first_text = buffer@;
    f.start_row(buffer, row.name.as_str(), columns[0].max_width);
    let ghost start = FormatCall::StartRow { name: row@.name, max_width: shown[0].max_width };
    let ghost mut done = seq![start];
    proof {
        lemma_writes_more(
            Seq::empty(),
            start,
            first,
            first_text,
            first,
            first_text,
            *f,
            buffer@,
        );
        assert(Seq::empty().push(start) =~= done);
        assert(done =~= seq![start] + cells_calls(row@, shown, 0));
        row.column_data.lemma_valid();
    }
    let mut i: usize = 1;
    while i < columns.len()
        invariant
            1 <= i <= columns@.len(),
            row.valid(),
            row.column_data.keys().len() == row.column_data@.len(),
            distinct(row.column_data.keys()),
            shown == infos(columns@),
            done == seq![start] + cells_calls(row@, shown, (i - 1) as nat),
            writes(done, first, first_text, *f, buffer@),
        decreases columns@.len() - i,
    {
        let ghost middle = *f;
        let ghost middle_text = buffer@;
        let column = &columns[i];
        match row.column_data.get(column.name.as_str()) {
            Some(data) => {
                proof {
                    let place = choose|place: int|
                        {
                            &&& 0 <= place < row.column_data@.len()
                            &&& #[trigger] row.column_data.keys()[place] == column.name@
                            &&& *data == row.column_data@[place]
                        };
                    assert(row@.names()[place] == column.name@);
                    lemma_distinct_position(row@.names(), place);
                }
                f.used_column(buffer, data.time_unit, data.pct, column.max_width);
            },
            None => {
                f.unused_column(buffer, column.max_width);
            },
        }
        proof {
            let call = cell_call(row@, shown[i as int]);
            lemma_writes_more(
                done,
                call,
                first,
                first_text,
                middle,
                middle_text,
                *f,
                buffer@,
            );
            done = done.push(call);
            assert(done =~= seq![start] + cells_calls(row@, shown, i as nat));
        }
        i += 1;
    }
    let ghost middle = *f;
    let ghost middle_text = buffer@;
    f.end_row(buffer);
    proof {
        lemma_writes_more(
            done,
            FormatCall::EndRow,
            first,
            first_text,
            middle,
            middle_text,
            *f,
            buffer@,
        );
        assert(done.push(FormatCall::EndRow) =~= row_calls(row@, shown));
    }
}

/// Writes one table, with the comment on it.
pub fn write_table<F: Formatter>(
    f: &mut F,
    buffer: &mut String,
    table: &Table,
    comment: Option<&String>,
)
    requires
        table.valid(),
    ensures
        writes(
            table_calls(table@, optional_text(comment)),
            *old(f),
            old(buffer)@,
            *final(f),
            final(buffer)@,
        ),
{
    let columns = table.columns.0.as_slice();
    let ghost shown = table@.columns;
    if columns.len() == 0 {
        return ;
    }
    let ghost first = *f;
    let ghost first_text = buffer@;
    f.start_table(buffer, table.name.as_str(), comment, columns);
    let ghost start = FormatCall::StartTable {
        name: table@.name,
        comment: optional_text(comment),
        columns: shown,
    };
    let ghost mut done = seq![start];
    proof {
        lemma_writes_more(
            Seq::empty(),
            start,
            first,
            first_text,
            first,
            first_text,
            *f,
            buffer@,
        );
        assert(Seq::empty().push(start) =~= done);
        assert(table@.rows.take(0) =~= Seq::empty());
        assert(done =~= seq![start] + rows_calls(table@.rows.take(0), shown));
    }
    let mut i: usize = 0;
    while i < table.rows.len()
        invariant
            i <= table.rows@.len(),
            table.valid(),
            columns@ == table.columns.0@,
            columns@.len() > 0,
            shown == table@.columns,
            done == seq![start] + rows_calls(table@.rows.take(i as int), shown),
            writes(done, first, first_text, *f, buffer@),
        decreases table.rows@.len() - i,
    {
        let ghost middle = *f;
        let ghost middle_text = buffer@;
        write_row(f, buffer, table.rows.at(i), columns);
        proof {
            let row = table@.rows[i as int];
            assert(row == table.rows@[i as int]@);
            lemma_writes_both(
                done,
                row_calls(row, shown),
                first,
                first_text,
                middle,
                middle_text,
                *f,
                buffer@,
            );
            let next = table@.rows.take(i + 1);
            assert(next.drop_last() =~= table@.rows.take(i as int));
            assert(next.last() == row);
            done = done + row_calls(row, shown);
            assert(done =~= seq![start] + rows_calls(next, shown));
        }
        i += 1;
    }
    let ghost middle = *f;
    let ghost middle_text = buffer@;
    f.end_table(buffer);
    proof {
        assert(table@.rows.take(i as int) =~= table@.rows);
        lemma_writes_more(
            done,
            FormatCall::EndTable,
            first,
            first_text,
            middle,
            middle_text,
            *f,
            buffer@,
        );
        assert(done.push(FormatCall::EndTable) =~= table_calls(table@, optional_text(comment)));
    }
}

} // verus!
