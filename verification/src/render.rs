//! The DDL renderer: one SQL statement for each operation.

use vstd::prelude::*;
use crate::error::{DiffError, DiffErrorView};
use crate::matcher::{lemma_listing_from, map_indexes};
use crate::model::{index_map, index_names, listing, table_model};
use crate::names::lists_ascending;
use crate::operation::{column_texts, create_table, index_texts, is_explicit, statement};
use crate::table::{Column, ColumnView, Index, IndexView, Table};
use crate::text::{join, join_strings, push_item, quote, quote_all, quoted, quoted_all, reads};
use crate::validate::{lemma_valid_table, table_violation, valid_table, validate_table};

verus! {

/// The index stands for the primary key of an auto-increment column, which is
/// written with the column and never as an index of its own.
pub open spec fn implicit_primary(index: IndexView) -> bool {
    index.index_name == "PRIMARY"@ && index.extra == "auto_increment"@
}

/// The index has to be written out and covers no column.
pub open spec fn unrenderable(index: IndexView) -> bool {
    !implicit_primary(index) && index.column_names.len() == 0
}

/// The definition of a column as it stands in `CREATE TABLE` and `ALTER TABLE`.
pub open spec fn column_text(column: ColumnView) -> Seq<char> {
    quoted(column.column_name) + " "@ + column.column_type + " "@ + (if column.is_nullable
        == "YES"@ {
        "NULL"@
    } else {
        "NOT NULL"@
    }) + " "@ + (match column.column_default {
        Some(value) => "DEFAULT "@ + value,
        None => Seq::empty(),
    }) + " "@ + (if column.extra == "auto_increment"@ {
        "PRIMARY KEY AUTO_INCREMENT"@
    } else {
        Seq::empty()
    }) + " COMMENT '"@ + column.column_comment + "'"@
}

/// Where a column goes: first, or after the column named.
pub open spec fn anchor_text(after: Seq<char>) -> Seq<char> {
    if after.len() == 0 {
        " FIRST"@
    } else {
        " AFTER "@ + quoted(after)
    }
}

/// The statement that adds a column.
pub open spec fn add_column_text(column: ColumnView, after: Seq<char>) -> Seq<char> {
    "ALTER TABLE "@ + quoted(column.table_name) + " ADD COLUMN "@ + column_text(column)
        + anchor_text(after) + ";"@
}

/// The statement that redefines a column.
pub open spec fn modify_column_text(column: ColumnView, after: Seq<char>) -> Seq<char> {
    "ALTER TABLE "@ + quoted(column.table_name) + " MODIFY COLUMN "@ + column_text(column)
        + anchor_text(after) + ";"@
}

/// The statement that drops a column.
pub open spec fn drop_column_text(column: ColumnView) -> Seq<char> {
    "ALTER TABLE "@ + quoted(column.table_name) + " DROP COLUMN "@ + quoted(column.column_name)
        + ";"@
}

/// How an index is introduced: as the primary key, as a unique index or as a
/// plain one.
pub open spec fn index_head(index: IndexView) -> Seq<char> {
    if index.non_unique {
        "INDEX "@ + quoted(index.index_name)
    } else if index.index_name == "PRIMARY"@ {
        "PRIMARY KEY"@
    } else {
        "UNIQUE INDEX "@ + quoted(index.index_name)
    }
}

/// The definition of an index; empty for an implicit primary key.
pub open spec fn index_text(index: IndexView) -> Seq<char> {
    if implicit_primary(index) {
        Seq::empty()
    } else {
        index_head(index) + " ("@ + join(quoted_all(index.column_names), ","@) + ") USING "@
            + index.index_type
    }
}

/// The statement that adds an index; empty for an implicit primary key.
pub open spec fn add_index_text(index: IndexView) -> Seq<char> {
    if implicit_primary(index) {
        Seq::empty()
    } else {
        "ALTER TABLE "@ + quoted(index.table_name) + " ADD "@ + index_text(index) + ";"@
    }
}

/// The statement that drops an index.
pub open spec fn drop_index_text(index: IndexView) -> Seq<char> {
    "ALTER TABLE "@ + quoted(index.table_name) + " DROP INDEX "@ + quoted(index.index_name) + ";"@
}

/// The statement that drops a table.
pub open spec fn drop_table_text(table_name: Seq<char>) -> Seq<char> {
    "DROP TABLE IF EXISTS "@ + quoted(table_name) + ";"@
}

/// The failure that an index without columns gives.
pub open spec fn empty_index_error(index: IndexView) -> DiffErrorView {
    DiffErrorView::EmptyIndex { table: index.table_name, index: index.index_name }
}

/// Renders the definition of a column.
pub fn generate_column(column: &Column) -> (text: String)
    ensures
        text@ == column_text(column@),
{
    let mut text = quote(column.column_name.as_str());
    text.append(" ");
    text.append(column.column_type.as_str());
    text.append(" ");
    if reads(&column.is_nullable, "YES") {
        text.append("NULL");
    } else {
        text.append("NOT NULL");
    }
    text.append(" ");
    match &column.column_default {
        Some(value) => {
            let mut part = String::from_str("DEFAULT ");
            part.append(value.as_str());
            text.append(part.as_str());
        },
        None => {
            assert(text@ + Seq::<char>::empty() =~= text@);
        },
    }
    text.append(" ");
    if reads(&column.extra, "auto_increment") {
        text.append("PRIMARY KEY AUTO_INCREMENT");
    } else {
        assert(text@ + Seq::<char>::empty() =~= text@);
    }
    text.append(" COMMENT '");
    text.append(column.column_comment.as_str());
    text.append("'");
    text
}

/// Renders where a column goes.
fn generate_anchor(prev_column_name: &String) -> (text: String)
    ensures
        text@ == anchor_text(prev_column_name@),
{
    if prev_column_name.as_str().is_empty() {
        String::from_str(" FIRST")
    } else {
        let mut text = String::from_str(" AFTER ");
        text.append(quote(prev_column_name.as_str()).as_str());
        text
    }
}

/// Renders the statement that adds a column after the column named, or first
/// where no column is named.
pub fn generate_add_column(column: &Column, prev_column_name: String) -> (statement: String)
    ensures
        statement@ == add_column_text(column@, prev_column_name@),
{
    let mut statement = String::from_str("ALTER TABLE ");
    statement.append(quote(column.table_name.as_str()).as_str());
    statement.append(" ADD COLUMN ");
    statement.append(generate_column(column).as_str());
    statement.append(generate_anchor(&prev_column_name).as_str());
    statement.append(";");
    statement
}

/// Renders the statement that redefines a column and places it after the
/// column named, or first where no column is named.
pub fn generate_modify_column(column: &Column, prev_column_name: String) -> (statement: String)
    ensures
        statement@ == modify_column_text(column@, prev_column_name@),
{
    let mut statement = String::from_str("ALTER TABLE ");
    statement.append(quote(column.table_name.as_str()).as_str());
    statement.append(" MODIFY COLUMN ");
    statement.append(generate_column(column).as_str());
    statement.append(generate_anchor(&prev_column_name).as_str());
    statement.append(";");
    statement
}

/// Renders the statement that drops a column.
pub fn generate_drop_column(column: &Column) -> (statement: String)
    ensures
        statement@ == drop_column_text(column@),
{
    let mut statement = String::from_str("ALTER TABLE ");
    statement.append(quote(column.table_name.as_str()).as_str());
    statement.append(" DROP COLUMN ");
    statement.append(quote(column.column_name.as_str()).as_str());
    statement.append(";");
    statement
}

/// Whether the index is an implicit primary key.
pub fn is_implicit_primary(index: &Index) -> (implicit: bool)
    ensures
        implicit == implicit_primary(index@),
{
    reads(&index.index_name, "PRIMARY") && reads(&index.extra, "auto_increment")
}

/// Renders how an index is introduced.
fn generate_index_head(index: &Index) -> (text: String)
    ensures
        text@ == index_head(index@),
{
    if index.non_unique {
        let mut head = String::from_str("INDEX ");
        head.append(quote(index.index_name.as_str()).as_str());
        head
    } else if reads(&index.index_name, "PRIMARY") {
        String::from_str("PRIMARY KEY")
    } else {
        let mut head = String::from_str("UNIQUE INDEX ");
        head.append(quote(index.index_name.as_str()).as_str());
        head
    }
}

/// Renders the definition of an index. An implicit primary key has none and
/// gives the empty text; another index without columns is refused.
pub fn generate_index(index: &Index) -> (result: Result<String, DiffError>)
    ensures
        match result {
            Ok(text) => !unrenderable(index@) && text@ == index_text(index@),
            Err(e) => unrenderable(index@) && e@ == empty_index_error(index@),
        },
{
    if is_implicit_primary(index) {
        return Ok(String::new());
    }
    if index.column_names.len() == 0 {
        return Err(
            DiffError::EmptyIndex {
                table: index.table_name.clone(),
                index: index.index_name.clone(),
            },
        );
    }
    let mut text = generate_index_head(index);
    text.append(" (");
    text.append(join_strings(&quote_all(&index.column_names), ",").as_str());
    text.append(") USING ");
    text.append(index.index_type.as_str());
    Ok(text)
}

/// Renders the statement that adds an index. An implicit primary key gives
/// the empty text; another index without columns is refused.
pub fn generate_add_index(index: &Index) -> (result: Result<String, DiffError>)
    ensures
        match result {
            Ok(statement) => !unrenderable(index@) && statement@ == add_index_text(index@),
            Err(e) => unrenderable(index@) && e@ == empty_index_error(index@),
        },
{
    match generate_index(index) {
        Err(e) => Err(e),
        Ok(index_detail) => {
            if index_detail.as_str().is_empty() {
                proof {
                    lemma_index_text_empty(index@);
                }
                Ok(String::new())
            } else {
                let mut statement = String::from_str("ALTER TABLE ");
                statement.append(quote(index.table_name.as_str()).as_str());
                statement.append(" ADD ");
                statement.append(index_detail.as_str());
                statement.append(";");
                Ok(statement)
            }
        },
    }
}

/// Only an implicit primary key has an empty definition.
pub proof fn lemma_index_text_empty(index: IndexView)
    ensures
        index_text(index).len() == 0 <==> implicit_primary(index),
{
    if !implicit_primary(index) {
        reveal_strlit(") USING ");
        assert(index_text(index).len() >= ") USING "@.len());
    }
}

/// Renders the statement that drops an index.
pub fn generate_drop_index(index: &Index) -> (statement: String)
    ensures
        statement@ == drop_index_text(index@),
{
    let mut statement = String::from_str("ALTER TABLE ");
    statement.append(quote(index.table_name.as_str()).as_str());
    statement.append(" DROP INDEX ");
    statement.append(quote(index.index_name.as_str()).as_str());
    statement.append(";");
    statement
}

/// Renders the statement that drops a table.
pub fn generate_drop_table(table: &Table) -> (statement: String)
    ensures
        statement@ == drop_table_text(table@.table_name),
{
    let mut statement = String::from_str("DROP TABLE IF EXISTS ");
    statement.append(quote(table.table_name.as_str()).as_str());
    statement.append(";");
    statement
}

/// Renders the statement that creates a table: its columns in their order,
/// then its indexes in the ascending order of their names, an implicit
/// primary key left out. A table that is not valid is refused.
pub fn generate_create_table(table: &Table) -> (result: Result<String, DiffError>)
    ensures
        match result {
            Ok(text) => valid_table(table@) && text@ == statement(create_table(table_model(table@))),
            Err(e) => table_violation(table@) == Some(e@),
        },
{
    match validate_table(table) {
        Err(e) => {
            return Err(e);
        },
        Ok(_) => {},
    }
    let mut list: Vec<String> = Vec::new();
    let mut i: usize = 0;
    while i < table.columns.len()
        invariant
            i <= table.columns.len(),
            list.deep_view() == column_texts(table@.columns.take(i as int)),
        decreases table.columns.len() - i,
    {
        push_item(&mut list, generate_column(&table.columns[i]));
        proof {
            let columns = table@.columns;
            assert(columns.take(i as int + 1) =~= columns.take(i as int).push(columns[i as int]));
            assert(column_texts(columns.take(i as int + 1)) =~= column_texts(
                columns.take(i as int),
            ).push(column_text(columns[i as int])));
        }
        i += 1;
    }
    assert(table@.columns.take(table.columns.len() as int) =~= table@.columns);
    let indexes = map_indexes(&table.indexes);
    let ghost listed = listing(index_map(table@.indexes));
    let mut k: usize = 0;
    assert(listed.take(0).filter(is_explicit()) =~= Seq::empty());
    assert(list.deep_view() =~= column_texts(table@.columns) + index_texts(
        Seq::<IndexView>::empty(),
    ));
    while k < indexes.len()
        invariant
            k <= indexes.len(),
            valid_table(table@),
            indexes.deep_view() == listed,
            listed == listing(index_map(table@.indexes)),
            lists_ascending(
                index_names(indexes.deep_view()),
                index_map(table@.indexes).dom(),
            ),
            list.deep_view() == column_texts(table@.columns) + index_texts(
                listed.take(k as int).filter(is_explicit()),
            ),
        decreases indexes.len() - k,
    {
        let index = &indexes[k];
        proof {
            let kept = listed.take(k as int).filter(is_explicit());
            assert(listed.take(k as int + 1) =~= listed.take(k as int).push(listed[k as int]));
            Seq::lemma_filter_push(listed.take(k as int), listed[k as int], is_explicit());
            assert(index_texts(kept.push(listed[k as int])) =~= index_texts(kept).push(
                index_text(listed[k as int]),
            ));
            let at = lemma_listing_from(
                index_names(table@.indexes),
                table@.indexes,
                index_names(indexes.deep_view()),
                k as int,
            );
            lemma_valid_table(table@);
            assert(!unrenderable(table@.indexes[at]));
        }
        if !is_implicit_primary(index) {
            match generate_index(index) {
                Ok(index_detail) => {
                    push_item(&mut list, index_detail);
                },
                Err(_) => {
                    assert(false);
                },
            }
        }
        k += 1;
    }
    assert(listed.take(indexes.len() as int) =~= listed);
    let mut result = String::from_str("CREATE TABLE ");
    result.append(quote(table.table_name.as_str()).as_str());
    result.append("(\n");
    result.append(join_strings(&list, ",\n").as_str());
    result.append(");");
    Ok(result)
}

} // verus!
