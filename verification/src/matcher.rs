//! The matcher: tables, columns and indexes are found by name, and listed in
//! the ascending order of their names.

use vstd::prelude::*;
use crate::model::{
    column_map, column_names, index_map, index_names, keyed, lemma_keyed_dom, listing, table_names,
};
use crate::names::{
    ascending, ascending_order, last_position, lemma_ascending_is, lemma_last_position,
    lists_ascending, picked,
};
use crate::table::{Column, Index, Table, TableView};

verus! {

/// The tables of a snapshot by name, each with its columns and indexes as
/// they were handed in.
pub open spec fn table_map(tables: Seq<TableView>) -> Map<Seq<char>, TableView> {
    keyed(table_names(tables), tables)
}

/// Items picked in the ascending order of their names are the listing of the
/// mapping that the names make of them.
pub proof fn lemma_sorted_is_listing<T>(
    names: Seq<Seq<char>>,
    items: Seq<T>,
    order: Seq<usize>,
    sorted: Seq<T>,
)
    requires
        names.len() == items.len(),
        forall|k: int| 0 <= k < order.len() ==> order[k] < names.len(),
        lists_ascending(picked(names, order), names.to_set()),
        forall|k: int|
            0 <= k < order.len() ==> last_position(names, #[trigger] names[order[k] as int])
                == Some(order[k] as int),
        sorted.len() == order.len(),
        forall|k: int| 0 <= k < order.len() ==> sorted[k] == items[order[k] as int],
    ensures
        picked(names, order) == ascending(keyed(names, items).dom()),
        sorted == listing(keyed(names, items)),
{
    let items_by_name = keyed(names, items);
    lemma_keyed_dom(names, items);
    lemma_ascending_is(picked(names, order), names.to_set());
    assert forall|k: int| 0 <= k < order.len() implies sorted[k] == listing(items_by_name)[k] by {
        assert(picked(names, order)[k] == names[order[k] as int]);
    }
    assert(sorted =~= listing(items_by_name));
}

/// Listing a mapping and keying the listing by its names gives the mapping
/// back.
pub proof fn lemma_listing_keyed<T>(items: Map<Seq<char>, T>, names: Seq<Seq<char>>)
    requires
        lists_ascending(names, items.dom()),
    ensures
        keyed(names, listing(items)) == items,
{
    lemma_ascending_is(names, items.dom());
    lemma_keyed_dom(names, listing(items));
    assert forall|name: Seq<char>| items.dom().contains(name) implies keyed(
        names,
        listing(items),
    )[name] == items[name] by {
        assert(names.contains(name));
        lemma_last_position(names, name);
    }
    assert forall|name: Seq<char>| items.dom().contains(name) <==> names.to_set().contains(
        name,
    ) by {}
    assert(keyed(names, listing(items)) =~= items);
}

/// Each value of a listing is the last item of its name.
pub proof fn lemma_listing_from<T>(
    names: Seq<Seq<char>>,
    items: Seq<T>,
    listed_names: Seq<Seq<char>>,
    k: int,
) -> (i: int)
    requires
        names.len() == items.len(),
        lists_ascending(listed_names, keyed(names, items).dom()),
        0 <= k < listed_names.len(),
    ensures
        0 <= i < items.len(),
        names[i] == listed_names[k],
        last_position(names, listed_names[k]) == Some(i),
        keyed(names, items).dom().contains(listed_names[k]),
        keyed(names, items)[listed_names[k]] == items[i],
        listing(keyed(names, items)).len() == listed_names.len(),
        listing(keyed(names, items))[k] == items[i],
{
    lemma_ascending_is(listed_names, keyed(names, items).dom());
    assert(listed_names.contains(listed_names[k]));
    lemma_last_position(names, listed_names[k]);
    last_position(names, listed_names[k]).unwrap()
}

/// The names of the tables, in their order.
pub fn names_of_tables(tables: &Vec<Table>) -> (names: Vec<String>)
    ensures
        names.len() == tables.len(),
        names.deep_view() == table_names(tables.deep_view()),
{
    let mut names: Vec<String> = Vec::new();
    let mut i: usize = 0;
    while i < tables.len()
        invariant
            i <= tables.len(),
            names.len() == i,
            forall|k: int| 0 <= k < i ==> names[k]@ == tables[k]@.table_name,
        decreases tables.len() - i,
    {
        names.push(tables[i].table_name.clone());
        i += 1;
    }
    assert(names.deep_view() =~= table_names(tables.deep_view()));
    names
}

/// The names of the columns, in their order.
pub fn names_of_columns(columns: &Vec<Column>) -> (names: Vec<String>)
    ensures
        names.len() == columns.len(),
        names.deep_view() == column_names(columns.deep_view()),
{
    let mut names: Vec<String> = Vec::new();
    let mut i: usize = 0;
    while i < columns.len()
        invariant
            i <= columns.len(),
            names.len() == i,
            forall|k: int| 0 <= k < i ==> names[k]@ == columns[k]@.column_name,
        decreases columns.len() - i,
    {
        names.push(columns[i].column_name.clone());
        i += 1;
    }
    assert(names.deep_view() =~= column_names(columns.deep_view()));
    names
}

/// The names of the indexes, in their order.
pub fn names_of_indexes(indexes: &Vec<Index>) -> (names: Vec<String>)
    ensures
        names.len() == indexes.len(),
        names.deep_view() == index_names(indexes.deep_view()),
{
    let mut names: Vec<String> = Vec::new();
    let mut i: usize = 0;
    while i < indexes.len()
        invariant
            i <= indexes.len(),
            names.len() == i,
            forall|k: int| 0 <= k < i ==> names[k]@ == indexes[k]@.index_name,
        decreases indexes.len() - i,
    {
        names.push(indexes[i].index_name.clone());
        i += 1;
    }
    assert(names.deep_view() =~= index_names(indexes.deep_view()));
    names
}

/// Keys the tables by name: the result lists them in the ascending order of
/// their names, and of tables that share a name it keeps the last.
pub fn map_tables(tables: Vec<Table>) -> (sorted: Vec<Table>)
    ensures
        sorted.deep_view() == listing(table_map(tables.deep_view())),
        table_names(sorted.deep_view()) == ascending(table_map(tables.deep_view()).dom()),
        lists_ascending(table_names(sorted.deep_view()), table_map(tables.deep_view()).dom()),
        table_map(sorted.deep_view()) == table_map(tables.deep_view()),
{
    let names = names_of_tables(&tables);
    let order = ascending_order(&names);
    let mut sorted: Vec<Table> = Vec::new();
    let mut k: usize = 0;
    while k < order.len()
        invariant
            k <= order.len(),
            sorted.len() == k,
            names.len() == tables.len(),
            forall|j: int| 0 <= j < order.len() ==> order[j] < names.len(),
            forall|j: int| 0 <= j < k ==> sorted[j]@ == tables[order[j] as int]@,
        decreases order.len() - k,
    {
        sorted.push(tables[order[k]].clone());
        k += 1;
    }
    proof {
        let raw = tables.deep_view();
        lemma_sorted_is_listing(table_names(raw), raw, order@, sorted.deep_view());
        assert(table_names(sorted.deep_view()) =~= picked(table_names(raw), order@));
        lemma_keyed_dom(table_names(raw), raw);
        lemma_listing_keyed(table_map(raw), table_names(sorted.deep_view()));
    }
    sorted
}

/// Keys the columns by name: the result lists them in the ascending order of
/// their names, and of columns that share a name it keeps the last.
pub fn map_columns(columns: &Vec<Column>) -> (sorted: Vec<Column>)
    ensures
        sorted.deep_view() == listing(column_map(columns.deep_view())),
        column_names(sorted.deep_view()) == ascending(column_map(columns.deep_view()).dom()),
        lists_ascending(column_names(sorted.deep_view()), column_map(columns.deep_view()).dom()),
        column_map(sorted.deep_view()) == column_map(columns.deep_view()),
{
    let names = names_of_columns(columns);
    let order = ascending_order(&names);
    let mut sorted: Vec<Column> = Vec::new();
    let mut k: usize = 0;
    while k < order.len()
        invariant
            k <= order.len(),
            sorted.len() == k,
            names.len() == columns.len(),
            forall|j: int| 0 <= j < order.len() ==> order[j] < names.len(),
            forall|j: int| 0 <= j < k ==> sorted[j]@ == columns[order[j] as int]@,
        decreases order.len() - k,
    {
        sorted.push(columns[order[k]].clone());
        k += 1;
    }
    proof {
        let raw = columns.deep_view();
        lemma_sorted_is_listing(column_names(raw), raw, order@, sorted.deep_view());
        assert(column_names(sorted.deep_view()) =~= picked(column_names(raw), order@));
        lemma_keyed_dom(column_names(raw), raw);
        lemma_listing_keyed(column_map(raw), column_names(sorted.deep_view()));
    }
    sorted
}

/// Keys the indexes by name: the result lists them in the ascending order of
/// their names, and of indexes that share a name it keeps the last.
pub fn map_indexes(indexes: &Vec<Index>) -> (sorted: Vec<Index>)
    ensures
        sorted.deep_view() == listing(index_map(indexes.deep_view())),
        index_names(sorted.deep_view()) == ascending(index_map(indexes.deep_view()).dom()),
        lists_ascending(index_names(sorted.deep_view()), index_map(indexes.deep_view()).dom()),
        index_map(sorted.deep_view()) == index_map(indexes.deep_view()),
{
    let names = names_of_indexes(indexes);
    let order = ascending_order(&names);
    let mut sorted: Vec<Index> = Vec::new();
    let mut k: usize = 0;
    while k < order.len()
        invariant
            k <= order.len(),
            sorted.len() == k,
            names.len() == indexes.len(),
            forall|j: int| 0 <= j < order.len() ==> order[j] < names.len(),
            forall|j: int| 0 <= j < k ==> sorted[j]@ == indexes[order[j] as int]@,
        decreases order.len() - k,
    {
        sorted.push(indexes[order[k]].clone());
        k += 1;
    }
    proof {
        let raw = indexes.deep_view();
        lemma_sorted_is_listing(index_names(raw), raw, order@, sorted.deep_view());
        assert(index_names(sorted.deep_view()) =~= picked(index_names(raw), order@));
        lemma_keyed_dom(index_names(raw), raw);
        lemma_listing_keyed(index_map(raw), index_names(sorted.deep_view()));
    }
    sorted
}

} // verus!
