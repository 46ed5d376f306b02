//! Why a table cannot be built.
use vstd::prelude::*;

verus! {

/// Why a benchmark could not be added to its table.
#[derive(Debug)]
pub enum TableError {
    /// The id does not name both a table and a column.
    MalformedId(String),
    /// The time unit is not one that is known.
    UnrecognizedUnit(String),
    /// The row already has data in this column.
    DuplicateColumn(String),
}

/// A [`TableError`], with its text as a sequence of characters.
pub ghost enum TableErrorView {
    MalformedId(Seq<char>),
    UnrecognizedUnit(Seq<char>),
    DuplicateColumn(Seq<char>),
}

impl View for TableError {
    type V = TableErrorView;

    open spec fn view(&self) -> TableErrorView {
        match *self {
            TableError::MalformedId(id) => TableErrorView::MalformedId(id@),
            TableError::UnrecognizedUnit(unit) => TableErrorView::UnrecognizedUnit(unit@),
            TableError::DuplicateColumn(name) => TableErrorView::DuplicateColumn(name@),
        }
    }
}

impl TableErrorView {
    /// The error as a sentence.
    pub open spec fn message(self) -> Seq<char> {
        match self {
            TableErrorView::MalformedId(id) => "Malformed id: "@ + id,
            TableErrorView::UnrecognizedUnit(unit) => "Unrecognized time unit: "@ + unit,
            TableErrorView::DuplicateColumn(name) => "Duplicate column: "@ + name,
        }
    }
}

impl TableError {
    /// The error as a sentence.
    pub fn message(&self) -> (text: String)
        ensures
            text@ == self@.message(),
            match *self {
                TableError::MalformedId(id) => text@ == "Malformed id: "@ + id@,
                TableError::UnrecognizedUnit(unit) => text@ == "Unrecognized time unit: "@ + unit@,
                TableError::DuplicateColumn(name) => text@ == "Duplicate column: "@ + name@,
            },
    {
        match self {
            TableError::MalformedId(id) => "Malformed id: ".to_owned().concat(id.as_str()),
            TableError::UnrecognizedUnit(unit) => "Unrecognized time unit: ".to_owned().concat(
                unit.as_str(),
            ),
            TableError::DuplicateColumn(name) => "Duplicate column: ".to_owned().concat(
                name.as_str(),
            ),
        }
    }
}

} // verus!
