//! The snapshot as a mapping: tables by name, and within a table the indexes
//! and the columns by name. Whatever the comparison says of a snapshot it says
//! of these mappings, so the order in which tables and indexes are handed in
//! has no part in it.

use vstd::prelude::*;
use crate::names::{ascending, last_position, lemma_ascending_lists, lemma_last_position};
use crate::table::{ColumnView, IndexView, TableView};

verus! {

/// The names of the tables, table by table.
pub open spec fn table_names(tables: Seq<TableView>) -> Seq<Seq<char>> {
    tables.map_values(|table: TableView| table.table_name)
}

/// The names of the columns, column by column.
pub open spec fn column_names(columns: Seq<ColumnView>) -> Seq<Seq<char>> {
    columns.map_values(|column: ColumnView| column.column_name)
}

/// The names of the indexes, index by index.
pub open spec fn index_names(indexes: Seq<IndexView>) -> Seq<Seq<char>> {
    indexes.map_values(|index: IndexView| index.index_name)
}

/// The items by their names. Where a name occurs more than once the last item
/// of that name stands for it.
pub open spec fn keyed<T>(names: Seq<Seq<char>>, items: Seq<T>) -> Map<Seq<char>, T> {
    Map::new(
        |name: Seq<char>| last_position(names, name) is Some,
        |name: Seq<char>| items[last_position(names, name).unwrap()],
    )
}

/// The values of a mapping in the ascending order of their names.
pub open spec fn listing<T>(items: Map<Seq<char>, T>) -> Seq<T> {
    ascending(items.dom()).map_values(|name: Seq<char>| items[name])
}

/// The columns of a table by name.
pub open spec fn column_map(columns: Seq<ColumnView>) -> Map<Seq<char>, ColumnView> {
    keyed(column_names(columns), columns)
}

/// The indexes of a table by name.
pub open spec fn index_map(indexes: Seq<IndexView>) -> Map<Seq<char>, IndexView> {
    keyed(index_names(indexes), indexes)
}

/// A table as the comparison sees it: its columns in their order, its indexes
/// by name.
pub struct TableModel {
    pub table_name: Seq<char>,
    pub columns: Seq<ColumnView>,
    pub indexes: Map<Seq<char>, IndexView>,
}

/// A table with its indexes put by name.
pub open spec fn table_model(table: TableView) -> TableModel {
    TableModel {
        table_name: table.table_name,
        columns: table.columns,
        indexes: index_map(table.indexes),
    }
}

/// Each table with its indexes put by name.
pub open spec fn table_models(tables: Seq<TableView>) -> Seq<TableModel> {
    tables.map_values(|table: TableView| table_model(table))
}

/// A snapshot: the tables of a schema by name.
pub open spec fn snapshot(tables: Seq<TableView>) -> Map<Seq<char>, TableModel> {
    keyed(table_names(tables), table_models(tables))
}

/// The positions `0, 1, ..` below `n`.
pub open spec fn positions(n: nat) -> Seq<int> {
    Seq::new(n, |i: int| i)
}

/// What `each` yields for the items in turn, one after the other.
pub open spec fn gather<A, B>(items: Seq<A>, each: spec_fn(A) -> Seq<B>) -> Seq<B>
    decreases items.len(),
{
    if items.len() == 0 {
        Seq::empty()
    } else {
        gather(items.drop_last(), each) + each(items.last())
    }
}

/// The names of a mapping made by `keyed` are the names it was made from.
pub proof fn lemma_keyed_dom<T>(names: Seq<Seq<char>>, items: Seq<T>)
    ensures
        keyed(names, items).dom() =~= names.to_set(),
{
    assert forall|name: Seq<char>| keyed(names, items).dom().contains(name) <==> names.to_set().contains(
        name,
    ) by {
        lemma_last_position(names, name);
    }
}

/// Gathering over one item more appends what that item yields.
pub proof fn lemma_gather_step<A, B>(items: Seq<A>, each: spec_fn(A) -> Seq<B>, i: int)
    requires
        0 <= i < items.len(),
    ensures
        gather(items.take(i + 1), each) == gather(items.take(i), each) + each(items[i]),
{
    assert(items.take(i + 1).drop_last() =~= items.take(i));
}

/// What has been gathered came from one of the items: the result names the
/// item and the place among what that item yields.
pub proof fn lemma_gather_member<A, B>(items: Seq<A>, each: spec_fn(A) -> Seq<B>, j: int) -> (found:
    (int, int))
    requires
        0 <= j < gather(items, each).len(),
    ensures
        0 <= found.0 < items.len(),
        0 <= found.1 < each(items[found.0]).len(),
        each(items[found.0])[found.1] == gather(items, each)[j],
    decreases items.len(),
{
    let front = gather(items.drop_last(), each);
    if j < front.len() {
        lemma_gather_member(items.drop_last(), each, j)
    } else {
        (items.len() - 1, j - front.len())
    }
}

/// Where no item yields anything, nothing is gathered.
pub proof fn lemma_gather_nothing<A, B>(items: Seq<A>, each: spec_fn(A) -> Seq<B>)
    requires
        forall|i: int| 0 <= i < items.len() ==> (#[trigger] each(items[i])).len() == 0,
    ensures
        gather(items, each) == Seq::<B>::empty(),
    decreases items.len(),
{
    if items.len() > 0 {
        assert forall|i: int| 0 <= i < items.drop_last().len() implies (#[trigger] each(
            items.drop_last()[i],
        )).len() == 0 by {
            assert(items.drop_last()[i] == items[i]);
        }
        lemma_gather_nothing(items.drop_last(), each);
        assert(each(items[items.len() - 1]).len() == 0);
        assert(gather(items, each) =~= Seq::<B>::empty());
    }
}

/// What holds of all that each item yields holds of all that is gathered.
pub proof fn lemma_gather_all<A, B>(
    items: Seq<A>,
    each: spec_fn(A) -> Seq<B>,
    holds: spec_fn(B) -> bool,
)
    requires
        forall|i: int, j: int|
            0 <= i < items.len() && 0 <= j < each(items[i]).len() ==> holds(
                #[trigger] each(items[i])[j],
            ),
    ensures
        forall|j: int| 0 <= j < gather(items, each).len() ==> holds(#[trigger] gather(items, each)[j]),
{
    assert forall|j: int| 0 <= j < gather(items, each).len() implies holds(
        #[trigger] gather(items, each)[j],
    ) by {
        let found = lemma_gather_member(items, each, j);
        assert(holds(each(items[found.0])[found.1]));
    }
}

/// The names of a mapping made from a list are listed in ascending order.
pub proof fn lemma_keyed_listed<T>(names: Seq<Seq<char>>, items: Seq<T>)
    ensures
        forall|k: int|
            0 <= k < ascending(keyed(names, items).dom()).len() ==> keyed(
                names,
                items,
            ).contains_key(#[trigger] ascending(keyed(names, items).dom())[k]),
{
    lemma_keyed_dom(names, items);
    lemma_ascending_lists(names);
    let listed = ascending(keyed(names, items).dom());
    assert forall|k: int| 0 <= k < listed.len() implies keyed(names, items).contains_key(
        #[trigger] listed[k],
    ) by {
        assert(listed.contains(listed[k]));
    }
}

} // verus!
