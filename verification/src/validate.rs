//! The integrity of a snapshot: names that collide, indexes over columns that
//! do not exist, indexes that cannot be written out. The first fault, in the
//! order in which a snapshot is read, is the one reported.

use vstd::prelude::*;
use crate::error::{DiffError, DiffErrorView};
use crate::matcher::{names_of_columns, names_of_indexes, names_of_tables};
use crate::model::{column_names, index_names, table_names};
use crate::names::{lemma_last_position, position_of};
use crate::render::{is_implicit_primary, unrenderable};
use crate::table::{Index, IndexView, Table, TableView};

verus! {

/// The first fault if there is one, else the second.
pub open spec fn or_else(first: Option<DiffErrorView>, second: Option<DiffErrorView>) -> Option<
    DiffErrorView,
> {
    match first {
        Some(e) => Some(e),
        None => second,
    }
}

/// The first fault among the outcomes of a row of checks.
pub open spec fn first_failure(checks: Seq<Option<DiffErrorView>>) -> Option<DiffErrorView>
    decreases checks.len(),
{
    if checks.len() == 0 {
        None
    } else {
        or_else(first_failure(checks.drop_last()), checks.last())
    }
}

/// The name at position `j` stands at an earlier position too.
pub open spec fn occurs_before(names: Seq<Seq<char>>, j: int) -> bool {
    names.take(j).contains(names[j])
}

/// For each table, whether its name collides with that of an earlier table.
pub open spec fn table_collisions(tables: Seq<TableView>) -> Seq<Option<DiffErrorView>> {
    Seq::new(
        tables.len(),
        |j: int|
            if occurs_before(table_names(tables), j) {
                Some(DiffErrorView::TableCollision { table: tables[j].table_name })
            } else {
                None
            },
    )
}

/// For each column, whether its name collides with that of an earlier column.
pub open spec fn column_collisions(table: TableView) -> Seq<Option<DiffErrorView>> {
    Seq::new(
        table.columns.len(),
        |j: int|
            if occurs_before(column_names(table.columns), j) {
                Some(
                    DiffErrorView::ColumnCollision {
                        table: table.table_name,
                        column: table.columns[j].column_name,
                    },
                )
            } else {
                None
            },
    )
}

/// For each index, whether its name collides with that of an earlier index.
pub open spec fn index_collisions(table: TableView) -> Seq<Option<DiffErrorView>> {
    Seq::new(
        table.indexes.len(),
        |j: int|
            if occurs_before(index_names(table.indexes), j) {
                Some(
                    DiffErrorView::IndexCollision {
                        table: table.table_name,
                        index: table.indexes[j].index_name,
                    },
                )
            } else {
                None
            },
    )
}

/// For each column that an index covers, whether the table lacks it.
pub open spec fn unknown_columns(table: TableView, index: IndexView) -> Seq<Option<DiffErrorView>> {
    Seq::new(
        index.column_names.len(),
        |k: int|
            if column_names(table.columns).contains(index.column_names[k]) {
                None
            } else {
                Some(
                    DiffErrorView::UnknownIndexColumn {
                        table: table.table_name,
                        index: index.index_name,
                        column: index.column_names[k],
                    },
                )
            },
    )
}

/// What is wrong with an index of a table: it has to be written out and covers
/// no column, or it covers a column that the table lacks.
pub open spec fn index_violation(table: TableView, index: IndexView) -> Option<DiffErrorView> {
    if unrenderable(index) {
        Some(DiffErrorView::EmptyIndex { table: table.table_name, index: index.index_name })
    } else {
        first_failure(unknown_columns(table, index))
    }
}

/// For each index of the table, what is wrong with it.
pub open spec fn index_violations(table: TableView) -> Seq<Option<DiffErrorView>> {
    Seq::new(table.indexes.len(), |i: int| index_violation(table, table.indexes[i]))
}

/// What is wrong with a table: first a collision among its columns, then one
/// among its indexes, then the first faulty index.
pub open spec fn table_violation(table: TableView) -> Option<DiffErrorView> {
    or_else(
        first_failure(column_collisions(table)),
        or_else(first_failure(index_collisions(table)), first_failure(index_violations(table))),
    )
}

/// For each table of the snapshot, what is wrong with it.
pub open spec fn table_violations(tables: Seq<TableView>) -> Seq<Option<DiffErrorView>> {
    Seq::new(tables.len(), |i: int| table_violation(tables[i]))
}

/// What is wrong with a snapshot: first a collision among its tables, then
/// the first faulty table.
pub open spec fn snapshot_violation(tables: Seq<TableView>) -> Option<DiffErrorView> {
    or_else(first_failure(table_collisions(tables)), first_failure(table_violations(tables)))
}

/// The table holds no two columns and no two indexes of one name, and each
/// index can be written out and covers columns of the table only.
pub open spec fn valid_table(table: TableView) -> bool {
    table_violation(table) is None
}

/// The snapshot holds no two tables of one name, and each table is valid.
pub open spec fn valid_snapshot(tables: Seq<TableView>) -> bool {
    snapshot_violation(tables) is None
}

/// The first fault of a row of checks stands where all checks before it
/// passed.
pub proof fn lemma_first_failure_at(checks: Seq<Option<DiffErrorView>>, i: int)
    requires
        0 <= i < checks.len(),
        checks[i] is Some,
        forall|k: int| 0 <= k < i ==> checks[k] is None,
    ensures
        first_failure(checks) == checks[i],
    decreases checks.len(),
{
    if i < checks.len() - 1 {
        lemma_first_failure_at(checks.drop_last(), i);
    } else {
        lemma_first_failure_none(checks.drop_last());
    }
}

/// A row of checks has no fault exactly when every check passed.
pub proof fn lemma_first_failure_none(checks: Seq<Option<DiffErrorView>>)
    ensures
        first_failure(checks) is None <==> forall|k: int| 0 <= k < checks.len() ==> checks[k] is None,
    decreases checks.len(),
{
    if checks.len() > 0 {
        lemma_first_failure_none(checks.drop_last());
        if first_failure(checks) is None {
            assert forall|k: int| 0 <= k < checks.len() implies checks[k] is None by {
                if k < checks.len() - 1 {
                    assert(checks.drop_last()[k] == checks[k]);
                }
            }
        } else if forall|k: int| 0 <= k < checks.len() ==> checks[k] is None {
            assert forall|k: int| 0 <= k < checks.drop_last().len() implies checks.drop_last()[k] is None by {
                assert(checks.drop_last()[k] == checks[k]);
            }
        }
    }
}

/// Finds the first name that stands at an earlier position too.
pub fn first_collision(names: &Vec<String>) -> (at: Option<usize>)
    ensures
        match at {
            Some(j) => j < names.len() && occurs_before(names.deep_view(), j as int) && forall|
                k: int,
            | 0 <= k < j ==> !occurs_before(names.deep_view(), k),
            None => forall|k: int| 0 <= k < names.len() ==> !occurs_before(names.deep_view(), k),
        },
{
    let ghost all = names.deep_view();
    let mut j: usize = 0;
    while j < names.len()
        invariant
            j <= names.len(),
            all == names.deep_view(),
            forall|k: int| 0 <= k < j ==> !occurs_before(all, k),
        decreases names.len() - j,
    {
        let mut i: usize = 0;
        while i < j
            invariant
                i <= j,
                j < names.len(),
                all == names.deep_view(),
                forall|k: int| 0 <= k < j ==> !occurs_before(all, k),
                forall|q: int| 0 <= q < i ==> all[q] != all[j as int],
            decreases j - i,
        {
            if names[i] == names[j] {
                assert(all.take(j as int)[i as int] == all[j as int]);
                return Some(j);
            }
            i += 1;
        }
        j += 1;
    }
    None
}

/// Checks one index of a table.
fn validate_index(table: &Table, column_names_of_table: &Vec<String>, index: &Index) -> (result:
    Result<(), DiffError>)
    requires
        column_names_of_table.deep_view() == column_names(table@.columns),
    ensures
        match result {
            Ok(_) => index_violation(table@, index@) is None,
            Err(e) => index_violation(table@, index@) == Some(e@),
        },
{
    if !is_implicit_primary(index) && index.column_names.len() == 0 {
        return Err(
            DiffError::EmptyIndex {
                table: table.table_name.clone(),
                index: index.index_name.clone(),
            },
        );
    }
    let ghost checks = unknown_columns(table@, index@);
    let mut k: usize = 0;
    while k < index.column_names.len()
        invariant
            k <= index.column_names.len(),
            checks == unknown_columns(table@, index@),
            column_names_of_table.deep_view() == column_names(table@.columns),
            forall|q: int| 0 <= q < k ==> checks[q] is None,
        decreases index.column_names.len() - k,
    {
        proof {
            lemma_last_position(column_names(table@.columns), index@.column_names[k as int]);
        }
        if position_of(column_names_of_table, &index.column_names[k]).is_none() {
            proof {
                lemma_first_failure_at(checks, k as int);
            }
            return Err(
                DiffError::UnknownIndexColumn {
                    table: table.table_name.clone(),
                    index: index.index_name.clone(),
                    column: index.column_names[k].clone(),
                },
            );
        }
        k += 1;
    }
    proof {
        lemma_first_failure_none(checks);
    }
    Ok(())
}

/// Checks a table, and reports the first fault.
pub fn validate_table(table: &Table) -> (result: Result<(), DiffError>)
    ensures
        match result {
            Ok(_) => valid_table(table@),
            Err(e) => table_violation(table@) == Some(e@),
        },
{
    let names = names_of_columns(&table.columns);
    match first_collision(&names) {
        Some(j) => {
            proof {
                lemma_first_failure_at(column_collisions(table@), j as int);
            }
            return Err(
                DiffError::ColumnCollision {
                    table: table.table_name.clone(),
                    column: table.columns[j].column_name.clone(),
                },
            );
        },
        None => {
            proof {
                lemma_first_failure_none(column_collisions(table@));
            }
        },
    }
    let index_names_of_table = names_of_indexes(&table.indexes);
    match first_collision(&index_names_of_table) {
        Some(j) => {
            proof {
                lemma_first_failure_at(index_collisions(table@), j as int);
            }
            return Err(
                DiffError::IndexCollision {
                    table: table.table_name.clone(),
                    index: table.indexes[j].index_name.clone(),
                },
            );
        },
        None => {
            proof {
                lemma_first_failure_none(index_collisions(table@));
            }
        },
    }
    let ghost checks = index_violations(table@);
    let mut i: usize = 0;
    while i < table.indexes.len()
        invariant
            i <= table.indexes.len(),
            checks == index_violations(table@),
            names.deep_view() == column_names(table@.columns),
            first_failure(column_collisions(table@)) is None,
            first_failure(index_collisions(table@)) is None,
            forall|q: int| 0 <= q < i ==> checks[q] is None,
        decreases table.indexes.len() - i,
    {
        match validate_index(table, &names, &table.indexes[i]) {
            Err(e) => {
                proof {
                    lemma_first_failure_at(checks, i as int);
                }
                return Err(e);
            },
            Ok(_) => {},
        }
        i += 1;
    }
    proof {
        lemma_first_failure_none(checks);
    }
    Ok(())
}

/// Checks a snapshot, and reports the first fault.
pub fn validate_tables(tables: &Vec<Table>) -> (result: Result<(), DiffError>)
    ensures
        match result {
            Ok(_) => valid_snapshot(tables.deep_view()),
            Err(e) => snapshot_violation(tables.deep_view()) == Some(e@),
        },
{
    let names = names_of_tables(tables);
    match first_collision(&names) {
        Some(j) => {
            proof {
                lemma_first_failure_at(table_collisions(tables.deep_view()), j as int);
            }
            return Err(DiffError::TableCollision { table: tables[j].table_name.clone() });
        },
        None => {
            proof {
                lemma_first_failure_none(table_collisions(tables.deep_view()));
            }
        },
    }
    let ghost checks = table_violations(tables.deep_view());
    let mut i: usize = 0;
    while i < tables.len()
        invariant
            i <= tables.len(),
            checks == table_violations(tables.deep_view()),
            first_failure(table_collisions(tables.deep_view())) is None,
            forall|q: int| 0 <= q < i ==> checks[q] is None,
        decreases tables.len() - i,
    {
        match validate_table(&tables[i]) {
            Err(e) => {
                proof {
                    lemma_first_failure_at(checks, i as int);
                }
                return Err(e);
            },
            Ok(_) => {},
        }
        i += 1;
    }
    proof {
        lemma_first_failure_none(checks);
    }
    Ok(())
}

/// What validity says of a table, spelled out.
pub proof fn lemma_valid_table(table: TableView)
    requires
        valid_table(table),
    ensures
        column_names(table.columns).no_duplicates(),
        index_names(table.indexes).no_duplicates(),
        forall|i: int| 0 <= i < table.indexes.len() ==> !unrenderable(#[trigger] table.indexes[i]),
        forall|i: int, k: int|
            0 <= i < table.indexes.len() && 0 <= k < table.indexes[i].column_names.len()
                ==> column_names(table.columns).contains(
                #[trigger] table.indexes[i].column_names[k],
            ),
{
    lemma_first_failure_none(column_collisions(table));
    lemma_first_failure_none(index_collisions(table));
    lemma_first_failure_none(index_violations(table));
    lemma_no_collision(column_names(table.columns));
    lemma_no_collision(index_names(table.indexes));
    assert forall|j: int| 0 <= j < table.columns.len() implies !occurs_before(
        column_names(table.columns),
        j,
    ) by {
        assert(column_collisions(table)[j] is None);
    }
    assert forall|j: int| 0 <= j < table.indexes.len() implies !occurs_before(
        index_names(table.indexes),
        j,
    ) by {
        assert(index_collisions(table)[j] is None);
    }
    assert forall|i: int| 0 <= i < table.indexes.len() implies !unrenderable(
        #[trigger] table.indexes[i],
    ) by {
        assert(index_violations(table)[i] is None);
    }
    assert forall|i: int, k: int|
        0 <= i < table.indexes.len() && 0 <= k < table.indexes[i].column_names.len()
            implies column_names(table.columns).contains(
        #[trigger] table.indexes[i].column_names[k],
    ) by {
        assert(index_violations(table)[i] is None);
        lemma_first_failure_none(unknown_columns(table, table.indexes[i]));
        assert(unknown_columns(table, table.indexes[i])[k] is None);
    }
}

/// What validity says of a snapshot, spelled out.
pub proof fn lemma_valid_snapshot(tables: Seq<TableView>)
    requires
        valid_snapshot(tables),
    ensures
        table_names(tables).no_duplicates(),
        forall|i: int| 0 <= i < tables.len() ==> valid_table(#[trigger] tables[i]),
{
    lemma_first_failure_none(table_collisions(tables));
    lemma_first_failure_none(table_violations(tables));
    lemma_no_collision(table_names(tables));
    assert forall|j: int| 0 <= j < tables.len() implies !occurs_before(table_names(tables), j) by {
        assert(table_collisions(tables)[j] is None);
    }
    assert forall|i: int| 0 <= i < tables.len() implies valid_table(#[trigger] tables[i]) by {
        assert(table_violations(tables)[i] is None);
    }
}

/// Names of which none stands at an earlier position too are all different.
pub proof fn lemma_no_collision(names: Seq<Seq<char>>)
    ensures
        (forall|j: int| 0 <= j < names.len() ==> !occurs_before(names, j))
            <==> names.no_duplicates(),
{
    if forall|j: int| 0 <= j < names.len() ==> !occurs_before(names, j) {
        assert forall|i: int, j: int| 0 <= i < names.len() && 0 <= j < names.len() && i != j
            implies names[i] != names[j] by {
            if i < j {
                assert(!occurs_before(names, j));
                assert(names.take(j)[i] == names[i]);
            } else {
                assert(!occurs_before(names, i));
                assert(names.take(i)[j] == names[j]);
            }
        }
    }
    if names.no_duplicates() {
        assert forall|j: int| 0 <= j < names.len() implies !occurs_before(names, j) by {
            if occurs_before(names, j) {
                let i = choose|i: int| 0 <= i < names.take(j).len() && names.take(j)[i] == names[j];
                assert(names[i] == names[j]);
            }
        }
    }
}

} // verus!
