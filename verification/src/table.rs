//! The snapshot model: tables, their ordered columns and their named indexes.

use vstd::prelude::*;

verus! {

/// One column of a table, as the catalog describes it.
#[derive(Debug, PartialEq, Eq)]
pub struct Column {
    pub table_name: String,
    pub column_name: String,
    pub original_position: u8,
    pub column_default: Option<String>,
    pub is_nullable: String,
    pub column_type: String,
    pub extra: String,
    pub column_comment: String,
}

/// The mathematical value of a [`Column`].
pub struct ColumnView {
    pub table_name: Seq<char>,
    pub column_name: Seq<char>,
    pub original_position: u8,
    pub column_default: Option<Seq<char>>,
    pub is_nullable: Seq<char>,
    pub column_type: Seq<char>,
    pub extra: Seq<char>,
    pub column_comment: Seq<char>,
}

/// One index of a table, with the columns it covers in their order.
#[derive(Debug, PartialEq, Eq)]
pub struct Index {
    pub table_name: String,
    pub index_name: String,
    pub non_unique: bool,
    pub column_names: Vec<String>,
    pub index_type: String,
    pub extra: String,
}

/// The mathematical value of an [`Index`].
pub struct IndexView {
    pub table_name: Seq<char>,
    pub index_name: Seq<char>,
    pub non_unique: bool,
    pub column_names: Seq<Seq<char>>,
    pub index_type: Seq<char>,
    pub extra: Seq<char>,
}

/// One table: its columns in ordinal order and its indexes.
#[derive(Debug, PartialEq, Eq)]
pub struct Table {
    pub table_name: String,
    pub columns: Vec<Column>,
    pub indexes: Vec<Index>,
}

/// The mathematical value of a [`Table`].
pub struct TableView {
    pub table_name: Seq<char>,
    pub columns: Seq<ColumnView>,
    pub indexes: Seq<IndexView>,
}

impl DeepView for Column {
    type V = ColumnView;

    open spec fn deep_view(&self) -> ColumnView {
        ColumnView {
            table_name: self.table_name@,
            column_name: self.column_name@,
            original_position: self.original_position,
            column_default: self.column_default.deep_view(),
            is_nullable: self.is_nullable@,
            column_type: self.column_type@,
            extra: self.extra@,
            column_comment: self.column_comment@,
        }
    }
}

impl View for Column {
    type V = ColumnView;

    open spec fn view(&self) -> ColumnView {
        self.deep_view()
    }
}

impl DeepView for Index {
    type V = IndexView;

    open spec fn deep_view(&self) -> IndexView {
        IndexView {
            table_name: self.table_name@,
            index_name: self.index_name@,
            non_unique: self.non_unique,
            column_names: self.column_names.deep_view(),
            index_type: self.index_type@,
            extra: self.extra@,
        }
    }
}

impl View for Index {
    type V = IndexView;

    open spec fn view(&self) -> IndexView {
        self.deep_view()
    }
}

impl DeepView for Table {
    type V = TableView;

    open spec fn deep_view(&self) -> TableView {
        TableView {
            table_name: self.table_name@,
            columns: self.columns.deep_view(),
            indexes: self.indexes.deep_view(),
        }
    }
}

impl View for Table {
    type V = TableView;

    open spec fn view(&self) -> TableView {
        self.deep_view()
    }
}

/// A copy of a list of strings.
pub(crate) fn clone_strings(strings: &Vec<String>) -> (copy: Vec<String>)
    ensures
        copy.deep_view() == strings.deep_view(),
{
    let mut copy: Vec<String> = Vec::new();
    let mut i: usize = 0;
    while i < strings.len()
        invariant
            i <= strings.len(),
            copy.len() == i,
            forall|k: int| 0 <= k < i ==> copy[k]@ == strings[k]@,
        decreases strings.len() - i,
    {
        copy.push(strings[i].clone());
        i += 1;
    }
    assert(copy.deep_view() =~= strings.deep_view());
    copy
}

/// A copy of a list of columns.
pub(crate) fn clone_columns(columns: &Vec<Column>) -> (copy: Vec<Column>)
    ensures
        copy.deep_view() == columns.deep_view(),
{
    let mut copy: Vec<Column> = Vec::new();
    let mut i: usize = 0;
    while i < columns.len()
        invariant
            i <= columns.len(),
            copy.len() == i,
            forall|k: int| 0 <= k < i ==> copy[k]@ == columns[k]@,
        decreases columns.len() - i,
    {
        copy.push(columns[i].clone());
        i += 1;
    }
    assert(copy.deep_view() =~= columns.deep_view());
    copy
}

/// A copy of a list of indexes.
pub(crate) fn clone_indexes(indexes: &Vec<Index>) -> (copy: Vec<Index>)
    ensures
        copy.deep_view() == indexes.deep_view(),
{
    let mut copy: Vec<Index> = Vec::new();
    let mut i: usize = 0;
    while i < indexes.len()
        invariant
            i <= indexes.len(),
            copy.len() == i,
            forall|k: int| 0 <= k < i ==> copy[k]@ == indexes[k]@,
        decreases indexes.len() - i,
    {
        copy.push(indexes[i].clone());
        i += 1;
    }
    assert(copy.deep_view() =~= indexes.deep_view());
    copy
}

impl Clone for Column {
    fn clone(&self) -> (copy: Self)
        ensures
            copy@ == self@,
    {
        Column {
            table_name: self.table_name.clone(),
            column_name: self.column_name.clone(),
            original_position: self.original_position,
            column_default: match &self.column_default {
                Some(text) => Some(text.clone()),
                None => None,
            },
            is_nullable: self.is_nullable.clone(),
            column_type: self.column_type.clone(),
            extra: self.extra.clone(),
            column_comment: self.column_comment.clone(),
        }
    }
}

impl Clone for Index {
    fn clone(&self) -> (copy: Self)
        ensures
            copy@ == self@,
    {
        Index {
            table_name: self.table_name.clone(),
            index_name: self.index_name.clone(),
            non_unique: self.non_unique,
            column_names: clone_strings(&self.column_names),
            index_type: self.index_type.clone(),
            extra: self.extra.clone(),
        }
    }
}

impl Clone for Table {
    fn clone(&self) -> (copy: Self)
        ensures
            copy@ == self@,
    {
        Table {
            table_name: self.table_name.clone(),
            columns: clone_columns(&self.columns),
            indexes: clone_indexes(&self.indexes),
        }
    }
}

} // verus!
