//! How tables are written out.
use crate::table::ColumnInfo;
use crate::table::ColumnInfoView;
use crate::time::Comparison;
use crate::time::TimeUnit;
use vstd::prelude::*;

verus! {

/// One call of a formatter's methods, with what it is told.
pub ghost enum FormatCall {
    /// The document starts.
    Start { comment: Option<Seq<char>>, tables: Seq<Seq<char>> },
    /// The document ends.
    End,
    /// A table starts.
    StartTable { name: Seq<char>, comment: Option<Seq<char>>, columns: Seq<ColumnInfoView> },
    /// The table ends.
    EndTable,
    /// A row starts, whose name has this much room.
    StartRow { name: Seq<char>, max_width: nat },
    /// The row ends.
    EndRow,
    /// A column in which the row has data.
    UsedColumn { time: TimeUnit, pct: Comparison, max_width: nat },
    /// A column in which the row has no data.
    UnusedColumn { max_width: nat },
}

/// The text, where there is one.
pub open spec fn optional_text(text: Option<&String>) -> Option<Seq<char>> {
    match text {
        Some(text) => Some(text@),
        None => None,
    }
}

/// The text of each name.
pub open spec fn texts(names: Seq<&str>) -> Seq<Seq<char>> {
    names.map_values(|name: &str| name@)
}

/// The columns as mathematical values.
pub open spec fn infos(columns: Seq<ColumnInfo>) -> Seq<ColumnInfoView> {
    columns.map_values(|info: ColumnInfo| info@)
}

/// Writes tables in some output format. Each method adds to the end of the document, or changes
/// it in any other way that the format asks for.
pub trait Formatter: Sized {
    /// Whether a call can take the formatter from `before` to `after`, and the document with
    /// it from `text_before` to `text_after`. A formatter that does not say what its calls do
    /// can do anything.
    open spec fn responds(
        call: FormatCall,
        before: Self,
        text_before: Seq<char>,
        after: Self,
        text_after: Seq<char>,
    ) -> bool {
        true
    }

    /// Starts the document, with the comment on all the tables and the tables' names.
    fn start(&mut self, buffer: &mut String, comment: Option<&String>, tables: &[&str])
        ensures
            Self::responds(
                FormatCall::Start { comment: optional_text(comment), tables: texts(tables@) },
                *old(self),
                old(buffer)@,
                *final(self),
                final(buffer)@,
            ),
    ;

    /// Ends the document.
    fn end(&mut self, buffer: &mut String)
        ensures
            Self::responds(
                FormatCall::End,
                *old(self),
                old(buffer)@,
                *final(self),
                final(buffer)@,
            ),
    ;

    /// Starts a table. The first column has no name, and holds the names of the rows.
    fn start_table(
        &mut self,
        buffer: &mut String,
        name: &str,
        comment: Option<&String>,
        columns: &[ColumnInfo],
    )
        ensures
            Self::responds(
                FormatCall::StartTable {
                    name: name@,
                    comment: optional_text(comment),
                    columns: infos(columns@),
                },
                *old(self),
                old(buffer)@,
                *final(self),
                final(buffer)@,
            ),
    ;

    /// Ends the table.
    fn end_table(&mut self, buffer: &mut String)
        ensures
            Self::responds(
                FormatCall::EndTable,
                *old(self),
                old(buffer)@,
                *final(self),
                final(buffer)@,
            ),
    ;

    /// Starts a row, whose name has `max_width` characters of room.
    fn start_row(&mut self, buffer: &mut String, name: &str, max_width: usize)
        ensures
            Self::responds(
                FormatCall::StartRow { name: name@, max_width: max_width as nat },
                *old(self),
                old(buffer)@,
                *final(self),
                final(buffer)@,
            ),
    ;

    /// Ends the row.
    fn end_row(&mut self, buffer: &mut String)
        ensures
            Self::responds(
                FormatCall::EndRow,
                *old(self),
                old(buffer)@,
                *final(self),
                final(buffer)@,
            ),
    ;

    /// Writes a column in which the row has data.
    fn used_column(
        &mut self,
        buffer: &mut String,
        time: TimeUnit,
        pct: Comparison,
        max_width: usize,
    )
        ensures
            Self::responds(
                FormatCall::UsedColumn { time, pct, max_width: max_width as nat },
                *old(self),
                old(buffer)@,
                *final(self),
                final(buffer)@,
            ),
    ;

    /// Writes a column in which the row has no data.
    fn unused_column(&mut self, buffer: &mut String, max_width: usize)
        ensures
            Self::responds(
                FormatCall::UnusedColumn { max_width: max_width as nat },
                *old(self),
                old(buffer)@,
                *final(self),
                final(buffer)@,
            ),
    ;
}

/// Whether these calls, one after the other, can take the formatter from `before` to `after`,
/// and the document with it from `text_before` to `text_after`.
pub open spec fn writes<F: Formatter>(
    calls: Seq<FormatCall>,
    before: F,
    text_before: Seq<char>,
    after: F,
    text_after: Seq<char>,
) -> bool
    decreases calls.len(),
{
    if calls.len() == 0 {
        before == after && text_before == text_after
    } else {
        exists|middle: F, text_middle: Seq<char>|
            {
                &&& writes(
                    calls.drop_last(),
                    before,
                    text_before,
                    middle,
                    text_middle,
                )
                &&& #[trigger] F::responds(calls.last(), middle, text_middle, after, text_after)
            }
    }
}

/// One more call adds to what was written before it.
pub proof fn lemma_writes_more<F: Formatter>(
    calls: Seq<FormatCall>,
    call: FormatCall,
    before: F,
    text_before: Seq<char>,
    middle: F,
    text_middle: Seq<char>,
    after: F,
    text_after: Seq<char>,
)
    requires
        writes(calls, before, text_before, middle, text_middle),
        F::responds(call, middle, text_middle, after, text_after),
    ensures
        writes(calls.push(call), before, text_before, after, text_after),
{
    assert(calls.push(call).drop_last() =~= calls);
    assert(calls.push(call).last() == call);
}

/// What a formatter is told in a call is what it is given: the text of a comment, the text of
/// each name, and the name and the width of each column, in their order.
pub proof fn lemma_told(
    comment: Option<&String>,
    names: Seq<&str>,
    columns: Seq<ColumnInfo>,
    i: int,
)
    ensures
        optional_text(comment) is Some <==> comment is Some,
        comment is Some ==> optional_text(comment)->0 == comment->0@,
        texts(names).len() == names.len(),
        0 <= i < names.len() ==> texts(names)[i] == names[i]@,
        infos(columns).len() == columns.len(),
        0 <= i < columns.len() ==> infos(columns)[i].name == columns[i].name@
            && infos(columns)[i].max_width == columns[i].max_width,
{
}

/// No calls change nothing, and what some calls and then others write goes through a point
/// between the two: no call is left out, and none is made besides.
pub proof fn lemma_writes_split<F: Formatter>(
    calls: Seq<FormatCall>,
    call: FormatCall,
    before: F,
    text_before: Seq<char>,
    after: F,
    text_after: Seq<char>,
)
    ensures
        writes(Seq::empty(), before, text_before, after, text_after) <==> before == after
            && text_before == text_after,
        writes(calls.push(call), before, text_before, after, text_after) <==> exists|
            middle: F,
            text_middle: Seq<char>,
        |
            {
                &&& writes(calls, before, text_before, middle, text_middle)
                &&& #[trigger] F::responds(call, middle, text_middle, after, text_after)
            },
{
    assert(calls.push(call).drop_last() =~= calls);
    assert(calls.push(call).last() == call);
}

} // verus!
