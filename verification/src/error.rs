//! What can be wrong with a snapshot or with a statement to render.

use vstd::prelude::*;
use crate::text::{quote, quoted};

verus! {

/// The two families of failure.
#[derive(Debug, Clone, Copy, PartialEq, Eq, Structural)]
pub enum ErrorKind {
    /// A snapshot contradicts itself.
    Integrity,
    /// An operation has no valid SQL text.
    Render,
}

/// A failure of the comparison, naming the table, column or index at fault.
#[derive(Debug, PartialEq, Eq)]
pub enum DiffError {
    /// Two tables of one snapshot share a name.
    TableCollision { table: String },
    /// Two columns of one table share a name.
    ColumnCollision { table: String, column: String },
    /// Two indexes of one table share a name.
    IndexCollision { table: String, index: String },
    /// An index covers a column that its table does not have.
    UnknownIndexColumn { table: String, index: String, column: String },
    /// An index that has to be written out covers no column.
    EmptyIndex { table: String, index: String },
}

/// The mathematical value of a [`DiffError`].
pub enum DiffErrorView {
    TableCollision { table: Seq<char> },
    ColumnCollision { table: Seq<char>, column: Seq<char> },
    IndexCollision { table: Seq<char>, index: Seq<char> },
    UnknownIndexColumn { table: Seq<char>, index: Seq<char>, column: Seq<char> },
    EmptyIndex { table: Seq<char>, index: Seq<char> },
}

impl DeepView for DiffError {
    type V = DiffErrorView;

    open spec fn deep_view(&self) -> DiffErrorView {
        match self {
            DiffError::TableCollision { table } => DiffErrorView::TableCollision { table: table@ },
            DiffError::ColumnCollision { table, column } => DiffErrorView::ColumnCollision {
                table: table@,
                column: column@,
            },
            DiffError::IndexCollision { table, index } => DiffErrorView::IndexCollision {
                table: table@,
                index: index@,
            },
            DiffError::UnknownIndexColumn { table, index, column } => {
                DiffErrorView::UnknownIndexColumn { table: table@, index: index@, column: column@ }
            },
            DiffError::EmptyIndex { table, index } => DiffErrorView::EmptyIndex {
                table: table@,
                index: index@,
            },
        }
    }
}

impl View for DiffError {
    type V = DiffErrorView;

    open spec fn view(&self) -> DiffErrorView {
        self.deep_view()
    }
}

/// The family a failure belongs to.
pub open spec fn error_kind(e: DiffErrorView) -> ErrorKind {
    match e {
        DiffErrorView::EmptyIndex { .. } => ErrorKind::Render,
        _ => ErrorKind::Integrity,
    }
}

/// The sentence that describes a failure.
pub open spec fn error_text(e: DiffErrorView) -> Seq<char> {
    match e {
        DiffErrorView::TableCollision { table } => "table "@ + quoted(table)
            + " occurs more than once"@,
        DiffErrorView::ColumnCollision { table, column } => "column "@ + quoted(column)
            + " occurs more than once in table "@ + quoted(table),
        DiffErrorView::IndexCollision { table, index } => "index "@ + quoted(index)
            + " occurs more than once in table "@ + quoted(table),
        DiffErrorView::UnknownIndexColumn { table, index, column } => "index "@ + quoted(index)
            + " of table "@ + quoted(table) + " covers the unknown column "@ + quoted(column),
        DiffErrorView::EmptyIndex { table, index } => "index "@ + quoted(index) + " of table "@
            + quoted(table) + " covers no column"@,
    }
}

impl DiffError {
    /// The family this failure belongs to.
    pub fn kind(&self) -> (kind: ErrorKind)
        ensures
            kind == error_kind(self@),
    {
        match self {
            DiffError::EmptyIndex { .. } => ErrorKind::Render,
            _ => ErrorKind::Integrity,
        }
    }

    /// The sentence that describes this failure.
    pub fn message(&self) -> (text: String)
        ensures
            text@ == error_text(self@),
    {
        match self {
            DiffError::TableCollision { table } => {
                let mut text = String::from_str("table ");
                text.append(quote(table.as_str()).as_str());
                text.append(" occurs more than once");
                text
            },
            DiffError::ColumnCollision { table, column } => {
                let mut text = String::from_str("column ");
                text.append(quote(column.as_str()).as_str());
                text.append(" occurs more than once in table ");
                text.append(quote(table.as_str()).as_str());
                text
            },
            DiffError::IndexCollision { table, index } => {
                let mut text = String::from_str("index ");
                text.append(quote(index.as_str()).as_str());
                text.append(" occurs more than once in table ");
                text.append(quote(table.as_str()).as_str());
                text
            },
            DiffError::UnknownIndexColumn { table, index, column } => {
                let mut text = String::from_str("index ");
                text.append(quote(index.as_str()).as_str());
                text.append(" of table ");
                text.append(quote(table.as_str()).as_str());
                text.append(" covers the unknown column ");
                text.append(quote(column.as_str()).as_str());
                text
            },
            DiffError::EmptyIndex { table, index } => {
                let mut text = String::from_str("index ");
                text.append(quote(index.as_str()).as_str());
                text.append(" of table ");
                text.append(quote(table.as_str()).as_str());
                text.append(" covers no column");
                text
            },
        }
    }
}

} // verus!
