//! The operations that a comparison plans, and the statement each one stands
//! for.

use vstd::prelude::*;
use crate::model::{listing, TableModel};
use crate::render::{
    add_column_text, add_index_text, column_text, drop_column_text, drop_index_text,
    drop_table_text, implicit_primary, index_text, modify_column_text,
};
use crate::table::{ColumnView, IndexView};
use crate::text::{join, quoted};

verus! {

/// One step of a migration.
pub enum Operation {
    /// Create a table with these columns and these indexes.
    CreateTable { table_name: Seq<char>, columns: Seq<ColumnView>, indexes: Seq<IndexView> },
    /// Drop a table with all that it holds.
    DropTable { table_name: Seq<char> },
    /// Drop an index.
    DropIndex { index: IndexView },
    /// Add a column after the column named, or first where none is named.
    AddColumn { column: ColumnView, after: Seq<char> },
    /// Redefine a column, and place it after the column named, or first where
    /// none is named.
    ModifyColumn { column: ColumnView, after: Seq<char> },
    /// Drop a column.
    DropColumn { column: ColumnView },
    /// Add an index.
    AddIndex { index: IndexView },
}

/// The definitions of the columns, column by column.
pub open spec fn column_texts(columns: Seq<ColumnView>) -> Seq<Seq<char>> {
    columns.map_values(|column: ColumnView| column_text(column))
}

/// The definitions of the indexes, index by index.
pub open spec fn index_texts(indexes: Seq<IndexView>) -> Seq<Seq<char>> {
    indexes.map_values(|index: IndexView| index_text(index))
}

/// The statement that creates a table: the definitions of its columns and
/// then those of its indexes, one to a line.
pub open spec fn create_table_text(
    table_name: Seq<char>,
    columns: Seq<ColumnView>,
    indexes: Seq<IndexView>,
) -> Seq<char> {
    "CREATE TABLE "@ + quoted(table_name) + "(\n"@ + join(
        column_texts(columns) + index_texts(indexes),
        ",\n"@,
    ) + ");"@
}

/// The SQL statement of an operation.
pub open spec fn statement(op: Operation) -> Seq<char> {
    match op {
        Operation::CreateTable { table_name, columns, indexes } => create_table_text(
            table_name,
            columns,
            indexes,
        ),
        Operation::DropTable { table_name } => drop_table_text(table_name),
        Operation::DropIndex { index } => drop_index_text(index),
        Operation::AddColumn { column, after } => add_column_text(column, after),
        Operation::ModifyColumn { column, after } => modify_column_text(column, after),
        Operation::DropColumn { column } => drop_column_text(column),
        Operation::AddIndex { index } => add_index_text(index),
    }
}

/// The SQL statements of a row of operations.
pub open spec fn statements(ops: Seq<Operation>) -> Seq<Seq<char>> {
    ops.map_values(|op: Operation| statement(op))
}

/// The test that keeps the indexes that are written out.
pub open spec fn is_explicit() -> spec_fn(IndexView) -> bool {
    |index: IndexView| !implicit_primary(index)
}

/// The indexes of a table that are written out, in the ascending order of
/// their names.
pub open spec fn explicit_indexes(indexes: Map<Seq<char>, IndexView>) -> Seq<IndexView> {
    listing(indexes).filter(is_explicit())
}

/// The operation that creates a table: all its columns in their order, and
/// all its indexes but an implicit primary key.
pub open spec fn create_table(table: TableModel) -> Operation {
    Operation::CreateTable {
        table_name: table.table_name,
        columns: table.columns,
        indexes: explicit_indexes(table.indexes),
    }
}

} // verus!
