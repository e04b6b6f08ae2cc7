//! From catalog rows to a snapshot: the rows of each index are put together,
//! columns and indexes are grouped by the table that owns them, and the
//! tables are assembled. Reading the catalog itself is left to the caller.

use vstd::prelude::*;
use crate::model::positions;
use crate::names::{
    ascending, ascending_order, lemma_ascending_lists, lemma_last_position, lists_ascending, picked,
    position_of,
};
use crate::table::{
    clone_columns, clone_indexes, Column, ColumnView, Index, IndexView, Table, TableView,
};
use crate::text::push_item;

verus! {

/// One row of the catalog's list of indexed columns: one column of one index.
#[derive(Debug, PartialEq, Eq)]
pub struct IndexRow {
    pub table_name: String,
    pub index_name: String,
    pub non_unique: i8,
    pub column_name: String,
    pub index_type: String,
    pub extra: String,
}

/// The mathematical value of an [`IndexRow`].
pub struct IndexRowView {
    pub table_name: Seq<char>,
    pub index_name: Seq<char>,
    pub non_unique: i8,
    pub column_name: Seq<char>,
    pub index_type: Seq<char>,
    pub extra: Seq<char>,
}

impl DeepView for IndexRow {
    type V = IndexRowView;

    open spec fn deep_view(&self) -> IndexRowView {
        IndexRowView {
            table_name: self.table_name@,
            index_name: self.index_name@,
            non_unique: self.non_unique,
            column_name: self.column_name@,
            index_type: self.index_type@,
            extra: self.extra@,
        }
    }
}

impl View for IndexRow {
    type V = IndexRowView;

    open spec fn view(&self) -> IndexRowView {
        self.deep_view()
    }
}

/// Two rows belong to the same index of the same table.
pub open spec fn same_index_rows(row: IndexRowView, other: IndexRowView) -> bool {
    other.table_name == row.table_name && other.index_name == row.index_name
}

/// The test that keeps the rows of the index that `row` belongs to.
pub open spec fn of_same_index(row: IndexRowView) -> spec_fn(IndexRowView) -> bool {
    |other: IndexRowView| same_index_rows(row, other)
}

/// No earlier row belongs to the index of the row at position `i`.
pub open spec fn opens(rows: Seq<IndexRowView>, i: int) -> bool {
    forall|j: int| 0 <= j < i ==> !same_index_rows(rows[i], #[trigger] rows[j])
}

/// The test that keeps the positions of the rows that open an index.
pub open spec fn opens_index(rows: Seq<IndexRowView>) -> spec_fn(int) -> bool {
    |i: int| opens(rows, i)
}

/// The columns that the rows name, row by row.
pub open spec fn row_columns(rows: Seq<IndexRowView>) -> Seq<Seq<char>> {
    rows.map_values(|row: IndexRowView| row.column_name)
}

/// The columns that the index of `row` covers, in the order of the rows.
pub open spec fn covered_columns(rows: Seq<IndexRowView>, row: IndexRowView) -> Seq<Seq<char>> {
    row_columns(rows.filter(of_same_index(row)))
}

/// The names that the groups stand under.
pub open spec fn group_names<T>(groups: Seq<(Seq<char>, T)>) -> Seq<Seq<char>> {
    groups.map_values(|group: (Seq<char>, T)| group.0)
}

/// The index that the row at position `i` opens: what the row says of it,
/// and the columns of all its rows.
pub open spec fn index_from(rows: Seq<IndexRowView>) -> spec_fn(int) -> IndexView {
    |i: int|
        IndexView {
            table_name: rows[i].table_name,
            index_name: rows[i].index_name,
            non_unique: rows[i].non_unique == 1,
            column_names: covered_columns(rows, rows[i]),
            index_type: rows[i].index_type,
            extra: rows[i].extra,
        }
}

/// The indexes that the rows describe, in the order in which the rows open
/// them.
pub open spec fn collected_indexes(rows: Seq<IndexRowView>) -> Seq<IndexView> {
    positions(rows.len()).filter(opens_index(rows)).map_values(index_from(rows))
}

/// The tables that own the columns, column by column.
pub open spec fn column_owners(columns: Seq<ColumnView>) -> Seq<Seq<char>> {
    columns.map_values(|column: ColumnView| column.table_name)
}

/// The tables that own the indexes, index by index.
pub open spec fn index_owners(indexes: Seq<IndexView>) -> Seq<Seq<char>> {
    indexes.map_values(|index: IndexView| index.table_name)
}

/// The test that keeps the columns of one table.
pub open spec fn column_of(table: Seq<char>) -> spec_fn(ColumnView) -> bool {
    |column: ColumnView| column.table_name == table
}

/// The test that keeps the indexes of one table.
pub open spec fn index_of(table: Seq<char>) -> spec_fn(IndexView) -> bool {
    |index: IndexView| index.table_name == table
}

/// The columns grouped by table: the tables in the ascending order of their
/// names, each with its columns in the order in which they were handed in.
pub open spec fn column_groups(columns: Seq<ColumnView>) -> Seq<(Seq<char>, Seq<ColumnView>)> {
    ascending(column_owners(columns).to_set()).map_values(
        |table: Seq<char>| (table, columns.filter(column_of(table))),
    )
}

/// The indexes grouped by table: the tables in the ascending order of their
/// names, each with its indexes in the order in which they were handed in.
pub open spec fn index_groups(indexes: Seq<IndexView>) -> Seq<(Seq<char>, Seq<IndexView>)> {
    ascending(index_owners(indexes).to_set()).map_values(
        |table: Seq<char>| (table, indexes.filter(index_of(table))),
    )
}

/// The tables that own a column, in the ascending order of their names, each
/// with its columns and its indexes. An index of a table without columns
/// belongs to no table.
pub open spec fn assembled(columns: Seq<ColumnView>, indexes: Seq<IndexView>) -> Seq<TableView> {
    ascending(column_owners(columns).to_set()).map_values(
        |table: Seq<char>|
            TableView {
                table_name: table,
                columns: columns.filter(column_of(table)),
                indexes: indexes.filter(index_of(table)),
            },
    )
}

/// The catalog query for the columns of a schema, up to the schema's name.
pub const COLUMNS_QUERY_HEAD: &'static str = "SELECT
         TABLE_NAME AS table_name,
         COLUMN_NAME AS column_name,
         ORDINAL_POSITION AS original_position,
         CAST(COLUMN_DEFAULT AS CHAR) AS column_default,
         IS_NULLABLE AS is_nullable,
         CAST(COLUMN_TYPE AS CHAR) AS column_type,
         EXTRA AS extra,
         CAST(COLUMN_COMMENT AS CHAR) AS column_comment
         FROM INFORMATION_SCHEMA.COLUMNS
         WHERE TABLE_SCHEMA = '";

/// The catalog query for the columns of a schema, behind the schema's name.
pub const COLUMNS_QUERY_TAIL: &'static str = "' ORDER BY TABLE_NAME, ORDINAL_POSITION;";

/// The catalog query for the indexed columns of a schema, up to the schema's
/// name.
pub const INDEXES_QUERY_HEAD: &'static str = "SELECT
         t1.TABLE_NAME AS table_name,
         t1.INDEX_NAME AS index_name,
         t1.NON_UNIQUE AS non_unique,
         t1.COLUMN_NAME AS column_name,
         CAST(t1.INDEX_TYPE AS CHAR) AS index_type,
         t2.extra AS extra
         FROM INFORMATION_SCHEMA.STATISTICS t1
         INNER JOIN INFORMATION_SCHEMA.COLUMNS t2
         ON t1.TABLE_SCHEMA = t2.TABLE_SCHEMA AND t1.TABLE_NAME = t2.TABLE_NAME AND t1.COLUMN_NAME = t2.COLUMN_NAME
         WHERE t1.TABLE_SCHEMA = '";

/// The catalog query for the indexed columns of a schema, behind the
/// schema's name.
pub const INDEXES_QUERY_TAIL: &'static str =
    "' ORDER BY t1.TABLE_NAME, t1.INDEX_NAME, t1.SEQ_IN_INDEX;";

/// Writes the query that lists the columns of a schema, table by table and
/// in ordinal order.
pub fn columns_query(schema: &str) -> (query: String)
    ensures
        query@ == COLUMNS_QUERY_HEAD@ + schema@ + COLUMNS_QUERY_TAIL@,
{
    let mut query = String::from_str(COLUMNS_QUERY_HEAD);
    query.append(schema);
    query.append(COLUMNS_QUERY_TAIL);
    query
}

/// Writes the query that lists the indexed columns of a schema, index by
/// index and in the order of the columns within an index.
pub fn indexes_query(schema: &str) -> (query: String)
    ensures
        query@ == INDEXES_QUERY_HEAD@ + schema@ + INDEXES_QUERY_TAIL@,
{
    let mut query = String::from_str(INDEXES_QUERY_HEAD);
    query.append(schema);
    query.append(INDEXES_QUERY_TAIL);
    query
}

/// Whether two rows belong to the same index.
fn rows_of_same_index(row: &IndexRow, other: &IndexRow) -> (same: bool)
    ensures
        same == same_index_rows(row@, other@),
{
    other.table_name == row.table_name && other.index_name == row.index_name
}

/// The columns of the index that `rows[i]` belongs to.
fn columns_covered(rows: &Vec<IndexRow>, i: usize) -> (names: Vec<String>)
    requires
        i < rows.len(),
    ensures
        names.deep_view() == covered_columns(rows.deep_view(), rows[i as int]@),
{
    let ghost all = rows.deep_view();
    let ghost keep = of_same_index(rows[i as int]@);
    let mut names: Vec<String> = Vec::new();
    let mut j: usize = 0;
    assert(all.take(0).filter(keep) =~= Seq::empty());
    assert(names.deep_view() =~= row_columns(all.take(0).filter(keep)));
    while j < rows.len()
        invariant
            j <= rows.len(),
            i < rows.len(),
            all == rows.deep_view(),
            keep == of_same_index(rows[i as int]@),
            names.deep_view() == row_columns(all.take(j as int).filter(keep)),
        decreases rows.len() - j,
    {
        proof {
            assert(all.take(j as int + 1) =~= all.take(j as int).push(all[j as int]));
            Seq::lemma_filter_push(all.take(j as int), all[j as int], keep);
        }
        let ghost kept = all.take(j as int).filter(keep);
        assert(all[j as int] == rows[j as int]@);
        if rows_of_same_index(&rows[i], &rows[j]) {
            push_item(&mut names, rows[j].column_name.clone());
            assert(row_columns(kept.push(all[j as int])) =~= row_columns(kept).push(
                all[j as int].column_name,
            ));
        }
        j += 1;
    }
    assert(all.take(rows.len() as int) =~= all);
    names
}

/// Puts the rows of each index together: one index for each pair of table
/// and index name, in the order in which the rows open them, with the
/// columns of its rows in their order. What else is known of an index is
/// taken from its first row.
pub fn collect_indexes(rows: &Vec<IndexRow>) -> (indexes: Vec<Index>)
    ensures
        indexes.deep_view() == collected_indexes(rows.deep_view()),
{
    let ghost all = rows.deep_view();
    let ghost at = positions(all.len());
    let ghost opening = opens_index(all);
    let mut indexes: Vec<Index> = Vec::new();
    let mut i: usize = 0;
    assert(at.take(0).filter(opening) =~= Seq::empty());
    assert(indexes.deep_view() =~= at.take(0).filter(opening).map_values(index_from(all)));
    while i < rows.len()
        invariant
            i <= rows.len(),
            all == rows.deep_view(),
            at == positions(all.len()),
            opening == opens_index(all),
            indexes.deep_view() == at.take(i as int).filter(opening).map_values(index_from(all)),
        decreases rows.len() - i,
    {
        let mut first = true;
        let mut j: usize = 0;
        while j < i
            invariant
                j <= i,
                i < rows.len(),
                all == rows.deep_view(),
                first == forall|q: int|
                    0 <= q < j ==> !same_index_rows(all[i as int], #[trigger] all[q]),
            decreases i - j,
        {
            assert(all[j as int] == rows[j as int]@);
            assert(all[i as int] == rows[i as int]@);
            if rows_of_same_index(&rows[i], &rows[j]) {
                first = false;
            }
            j += 1;
        }
        proof {
            assert(at.take(i as int + 1) =~= at.take(i as int).push(i as int));
            Seq::lemma_filter_push(at.take(i as int), i as int, opening);
            assert(first == opens(all, i as int));
        }
        let ghost opened = at.take(i as int).filter(opening);
        if first {
            let row = &rows[i];
            assert(all[i as int] == rows[i as int]@);
            push_item(
                &mut indexes,
                Index {
                    table_name: row.table_name.clone(),
                    index_name: row.index_name.clone(),
                    non_unique: row.non_unique == 1,
                    column_names: columns_covered(rows, i),
                    index_type: row.index_type.clone(),
                    extra: row.extra.clone(),
                },
            );
            assert(opened.push(i as int).map_values(index_from(all)) =~= opened.map_values(
                index_from(all),
            ).push(index_from(all)(i as int)));
        }
        i += 1;
    }
    assert(at.take(rows.len() as int) =~= at);
    indexes
}

/// The tables that own the columns, column by column.
fn owners_of_columns(columns: &Vec<Column>) -> (owners: Vec<String>)
    ensures
        owners.len() == columns.len(),
        owners.deep_view() == column_owners(columns.deep_view()),
{
    let mut owners: Vec<String> = Vec::new();
    let mut i: usize = 0;
    while i < columns.len()
        invariant
            i <= columns.len(),
            owners.len() == i,
            forall|k: int| 0 <= k < i ==> owners[k]@ == columns[k]@.table_name,
        decreases columns.len() - i,
    {
        owners.push(columns[i].table_name.clone());
        i += 1;
    }
    assert(owners.deep_view() =~= column_owners(columns.deep_view()));
    owners
}

/// The tables that own the indexes, index by index.
fn owners_of_indexes(indexes: &Vec<Index>) -> (owners: Vec<String>)
    ensures
        owners.len() == indexes.len(),
        owners.deep_view() == index_owners(indexes.deep_view()),
{
    let mut owners: Vec<String> = Vec::new();
    let mut i: usize = 0;
    while i < indexes.len()
        invariant
            i <= indexes.len(),
            owners.len() == i,
            forall|k: int| 0 <= k < i ==> owners[k]@ == indexes[k]@.table_name,
        decreases indexes.len() - i,
    {
        owners.push(indexes[i].table_name.clone());
        i += 1;
    }
    assert(owners.deep_view() =~= index_owners(indexes.deep_view()));
    owners
}

/// The columns of one table, in their order.
fn columns_of_table(columns: &Vec<Column>, table: &String) -> (members: Vec<Column>)
    ensures
        members.deep_view() == columns.deep_view().filter(column_of(table@)),
{
    let ghost all = columns.deep_view();
    let ghost keep = column_of(table@);
    let mut members: Vec<Column> = Vec::new();
    let mut i: usize = 0;
    assert(all.take(0).filter(keep) =~= Seq::empty());
    assert(members.deep_view() =~= all.take(0).filter(keep));
    while i < columns.len()
        invariant
            i <= columns.len(),
            all == columns.deep_view(),
            keep == column_of(table@),
            members.deep_view() == all.take(i as int).filter(keep),
        decreases columns.len() - i,
    {
        proof {
            assert(all.take(i as int + 1) =~= all.take(i as int).push(all[i as int]));
            Seq::lemma_filter_push(all.take(i as int), all[i as int], keep);
        }
        let ghost kept = all.take(i as int).filter(keep);
        if columns[i].table_name == *table {
            members.push(columns[i].clone());
            assert(members.deep_view() =~= kept.push(all[i as int]));
        }
        i += 1;
    }
    assert(all.take(columns.len() as int) =~= all);
    members
}

/// The indexes of one table, in their order.
fn indexes_of_table(indexes: &Vec<Index>, table: &String) -> (members: Vec<Index>)
    ensures
        members.deep_view() == indexes.deep_view().filter(index_of(table@)),
{
    let ghost all = indexes.deep_view();
    let ghost keep = index_of(table@);
    let mut members: Vec<Index> = Vec::new();
    let mut i: usize = 0;
    assert(all.take(0).filter(keep) =~= Seq::empty());
    assert(members.deep_view() =~= all.take(0).filter(keep));
    while i < indexes.len()
        invariant
            i <= indexes.len(),
            all == indexes.deep_view(),
            keep == index_of(table@),
            members.deep_view() == all.take(i as int).filter(keep),
        decreases indexes.len() - i,
    {
        proof {
            assert(all.take(i as int + 1) =~= all.take(i as int).push(all[i as int]));
            Seq::lemma_filter_push(all.take(i as int), all[i as int], keep);
        }
        let ghost kept = all.take(i as int).filter(keep);
        if indexes[i].table_name == *table {
            members.push(indexes[i].clone());
            assert(members.deep_view() =~= kept.push(all[i as int]));
        }
        i += 1;
    }
    assert(all.take(indexes.len() as int) =~= all);
    members
}

/// Groups the columns by the table that owns them.
pub fn group_columns(columns: Vec<Column>) -> (groups: Vec<(String, Vec<Column>)>)
    ensures
        groups.deep_view() == column_groups(columns.deep_view()),
{
    let owners = owners_of_columns(&columns);
    let order = ascending_order(&owners);
    let ghost tables = ascending(column_owners(columns.deep_view()).to_set());
    let mut groups: Vec<(String, Vec<Column>)> = Vec::new();
    let mut k: usize = 0;
    while k < order.len()
        invariant
            k <= order.len(),
            groups.len() == k,
            owners.deep_view() == column_owners(columns.deep_view()),
            tables == picked(owners.deep_view(), order@),
            forall|j: int| 0 <= j < order.len() ==> order[j] < owners.len(),
            forall|j: int|
                0 <= j < k ==> (#[trigger] groups[j]).deep_view() == (
                    tables[j],
                    columns.deep_view().filter(column_of(tables[j])),
                ),
        decreases order.len() - k,
    {
        let table = owners[order[k]].clone();
        let members = columns_of_table(&columns, &table);
        groups.push((table, members));
        k += 1;
    }
    assert(groups.deep_view() =~= column_groups(columns.deep_view()));
    groups
}

/// Groups the indexes by the table that owns them.
pub fn group_indexes(indexes: Vec<Index>) -> (groups: Vec<(String, Vec<Index>)>)
    ensures
        groups.deep_view() == index_groups(indexes.deep_view()),
{
    let owners = owners_of_indexes(&indexes);
    let order = ascending_order(&owners);
    let ghost tables = ascending(index_owners(indexes.deep_view()).to_set());
    let mut groups: Vec<(String, Vec<Index>)> = Vec::new();
    let mut k: usize = 0;
    while k < order.len()
        invariant
            k <= order.len(),
            groups.len() == k,
            owners.deep_view() == index_owners(indexes.deep_view()),
            tables == picked(owners.deep_view(), order@),
            forall|j: int| 0 <= j < order.len() ==> order[j] < owners.len(),
            forall|j: int|
                0 <= j < k ==> (#[trigger] groups[j]).deep_view() == (
                    tables[j],
                    indexes.deep_view().filter(index_of(tables[j])),
                ),
        decreases order.len() - k,
    {
        let table = owners[order[k]].clone();
        let members = indexes_of_table(&indexes, &table);
        groups.push((table, members));
        k += 1;
    }
    assert(groups.deep_view() =~= index_groups(indexes.deep_view()));
    groups
}

/// Where no item passes the test, nothing is kept.
proof fn lemma_filter_nothing<T>(items: Seq<T>, keep: spec_fn(T) -> bool)
    requires
        forall|i: int| 0 <= i < items.len() ==> !keep(#[trigger] items[i]),
    ensures
        items.filter(keep) == Seq::<T>::empty(),
{
    if items.filter(keep).len() > 0 {
        items.lemma_filter_pred(keep, 0);
        let found = items.filter(keep)[0];
        assert(items.filter(keep).contains(found));
        items.lemma_filter_contains_rev(keep, found);
        let i = choose|i: int| 0 <= i < items.len() && items[i] == found;
        assert(!keep(items[i]));
    }
    assert(items.filter(keep) =~= Seq::<T>::empty());
}

/// The names of the tables that the groups stand for.
fn names_of_index_groups(groups: &Vec<(String, Vec<Index>)>) -> (names: Vec<String>)
    ensures
        names.len() == groups.len(),
        names.deep_view() == group_names(groups.deep_view()),
{
    let mut names: Vec<String> = Vec::new();
    let mut i: usize = 0;
    while i < groups.len()
        invariant
            i <= groups.len(),
            names.len() == i,
            forall|k: int| 0 <= k < i ==> names[k]@ == (#[trigger] groups[k]).0@,
        decreases groups.len() - i,
    {
        names.push(groups[i].0.clone());
        i += 1;
    }
    assert(names.deep_view() =~= group_names(groups.deep_view()));
    names
}

/// Assembles the tables of a snapshot from the columns and the indexes of
/// the catalog: one table for each table that owns a column, in the
/// ascending order of the table names.
pub fn assemble_tables(columns: Vec<Column>, indexes: Vec<Index>) -> (tables: Vec<Table>)
    ensures
        tables.deep_view() == assembled(columns.deep_view(), indexes.deep_view()),
{
    let ghost all_columns = columns.deep_view();
    let ghost all_indexes = indexes.deep_view();
    let mut result: Vec<Table> = Vec::new();

    let columns = group_columns(columns);
    let indexes = group_indexes(indexes);
    let index_tables = names_of_index_groups(&indexes);
    let ghost owners = ascending(column_owners(all_columns).to_set());
    let ghost index_owner_names = ascending(index_owners(all_indexes).to_set());
    proof {
        lemma_ascending_lists(index_owners(all_indexes));
        assert(index_tables.deep_view() =~= index_owner_names);
    }
    let mut k: usize = 0;
    assert(columns.deep_view().len() == owners.len());
    while k < columns.len()
        invariant
            k <= columns.len(),
            columns.len() == owners.len(),
            result.len() == k,
            columns.deep_view() == column_groups(all_columns),
            indexes.deep_view() == index_groups(all_indexes),
            owners == ascending(column_owners(all_columns).to_set()),
            index_owner_names == ascending(index_owners(all_indexes).to_set()),
            index_tables.deep_view() == index_owner_names,
            lists_ascending(index_owner_names, index_owners(all_indexes).to_set()),
            forall|j: int|
                0 <= j < k ==> (#[trigger] result[j])@ == (TableView {
                    table_name: owners[j],
                    columns: all_columns.filter(column_of(owners[j])),
                    indexes: all_indexes.filter(index_of(owners[j])),
                }),
        decreases columns.len() - k,
    {
        let table_name = columns[k].0.clone();
        let members = clone_columns(&columns[k].1);
        proof {
            assert(columns[k as int].deep_view() == columns.deep_view()[k as int]);
            lemma_last_position(index_owner_names, table_name@);
            assert(indexes.deep_view().len() == index_owner_names.len());
        }
        let found = match position_of(&index_tables, &table_name) {
            Some(p) => {
                proof {
                    assert(indexes[p as int].deep_view() == indexes.deep_view()[p as int]);
                }
                clone_indexes(&indexes[p].1)
            },
            None => {
                proof {
                    assert forall|i: int| 0 <= i < all_indexes.len() implies !index_of(table_name@)(
                        #[trigger] all_indexes[i],
                    ) by {
                        if all_indexes[i].table_name == table_name@ {
                            assert(index_owners(all_indexes)[i] == table_name@);
                            assert(index_owners(all_indexes).contains(table_name@));
                        }
                    }
                    lemma_filter_nothing(all_indexes, index_of(table_name@));
                }
                let nothing: Vec<Index> = Vec::new();
                assert(nothing.deep_view() =~= Seq::<IndexView>::empty());
                nothing
            },
        };
        result.push(Table { table_name, columns: members, indexes: found });
        k += 1;
    }
    assert forall|j: int| 0 <= j < result.len() implies result.deep_view()[j] == assembled(
        all_columns,
        all_indexes,
    )[j] by {
        assert(result[j]@ == result.deep_view()[j]);
    }
    assert(result.deep_view() =~= assembled(all_columns, all_indexes));
    result
}

} // verus!
