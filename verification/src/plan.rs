//! The operation planner: what has to be done to a target table, and to a
//! target snapshot, so that it becomes the original one, and in which order.

use vstd::prelude::*;
use crate::comparator::{column_is_same_attr, index_is_same_attr, same_column, same_index};
use crate::error::DiffError;
use crate::matcher::{
    lemma_listing_from, map_columns, map_indexes, map_tables, names_of_columns, names_of_indexes,
    names_of_tables, table_map,
};
use crate::model::{
    column_map, column_names, gather, index_map, index_names, keyed, lemma_gather_step, listing,
    positions, snapshot, table_model, table_models, table_names, TableModel,
};
use crate::names::{
    ascending, last_position, lemma_ascending_is, lemma_last_position, lists_ascending, position_of,
};
use crate::operation::{create_table, statement, statements, Operation};
use crate::render::{
    generate_add_column, generate_add_index, generate_create_table, generate_drop_column,
    generate_drop_index, generate_drop_table, generate_modify_column, implicit_primary,
    is_implicit_primary, unrenderable,
};
use crate::table::{Column, ColumnView, Index, IndexView, Table, TableView};
use crate::validate::{
    lemma_valid_snapshot, lemma_valid_table, or_else, snapshot_violation, table_violation,
    valid_snapshot, valid_table, validate_table, validate_tables,
};

verus! {

/// The name of the column that stands before position `i`; empty at the
/// first position.
pub open spec fn anchor(columns: Seq<ColumnView>, i: int) -> Seq<char> {
    if i <= 0 {
        Seq::empty()
    } else {
        columns[i - 1].column_name
    }
}

/// An index of the target that the original does not have is dropped.
pub open spec fn drop_absent_index(original: TableModel, target: TableModel) -> spec_fn(
    Seq<char>,
) -> Seq<Operation> {
    |name: Seq<char>|
        if !original.indexes.contains_key(name) && !implicit_primary(target.indexes[name]) {
            seq![Operation::DropIndex { index: target.indexes[name] }]
        } else {
            Seq::empty()
        }
}

/// An index that both have, and that is not the same in both, is dropped as
/// the target has it.
pub open spec fn drop_changed_index(original: TableModel, target: TableModel) -> spec_fn(
    Seq<char>,
) -> Seq<Operation> {
    |name: Seq<char>|
        if target.indexes.contains_key(name) && !same_index(
            original.indexes[name],
            target.indexes[name],
        ) && !implicit_primary(target.indexes[name]) {
            seq![Operation::DropIndex { index: target.indexes[name] }]
        } else {
            Seq::empty()
        }
}

/// A column of the original that the target does not have is added behind
/// the column that stands before it in the original.
pub open spec fn add_missing_column(original: TableModel, target: TableModel) -> spec_fn(
    int,
) -> Seq<Operation> {
    |i: int|
        if !column_map(target.columns).contains_key(original.columns[i].column_name) {
            seq![
                Operation::AddColumn {
                    column: original.columns[i],
                    after: anchor(original.columns, i),
                },
            ]
        } else {
            Seq::empty()
        }
}

/// A column that both have, and that is not the same in both, is redefined
/// as the original has it.
pub open spec fn modify_changed_column(original: TableModel, target: TableModel) -> spec_fn(
    int,
) -> Seq<Operation> {
    |i: int|
        if column_map(target.columns).contains_key(original.columns[i].column_name) && !same_column(
            original.columns[i],
            column_map(target.columns)[original.columns[i].column_name],
        ) {
            seq![
                Operation::ModifyColumn {
                    column: original.columns[i],
                    after: anchor(original.columns, i),
                },
            ]
        } else {
            Seq::empty()
        }
}

/// A column of the target that the original does not have is dropped.
pub open spec fn drop_absent_column(original: TableModel, target: TableModel) -> spec_fn(
    Seq<char>,
) -> Seq<Operation> {
    |name: Seq<char>|
        if !column_map(original.columns).contains_key(name) {
            seq![Operation::DropColumn { column: column_map(target.columns)[name] }]
        } else {
            Seq::empty()
        }
}

/// An index of the original that the target does not have, or has otherwise,
/// is added as the original has it.
pub open spec fn add_wanted_index(original: TableModel, target: TableModel) -> spec_fn(
    Seq<char>,
) -> Seq<Operation> {
    |name: Seq<char>|
        if (!target.indexes.contains_key(name) || !same_index(
            original.indexes[name],
            target.indexes[name],
        )) && !implicit_primary(original.indexes[name]) {
            seq![Operation::AddIndex { index: original.indexes[name] }]
        } else {
            Seq::empty()
        }
}

/// The indexes to drop: those that only the target has, then those that
/// changed, each group in the ascending order of the names.
pub open spec fn index_drops(original: TableModel, target: TableModel) -> Seq<Operation> {
    gather(ascending(target.indexes.dom()), drop_absent_index(original, target)) + gather(
        ascending(original.indexes.dom()),
        drop_changed_index(original, target),
    )
}

/// The columns to add, in the order of the original.
pub open spec fn column_adds(original: TableModel, target: TableModel) -> Seq<Operation> {
    gather(positions(original.columns.len()), add_missing_column(original, target))
}

/// The columns to redefine, in the order of the original.
pub open spec fn column_modifies(original: TableModel, target: TableModel) -> Seq<Operation> {
    gather(positions(original.columns.len()), modify_changed_column(original, target))
}

/// The columns to drop, in the ascending order of their names.
pub open spec fn column_drops(original: TableModel, target: TableModel) -> Seq<Operation> {
    gather(ascending(column_map(target.columns).dom()), drop_absent_column(original, target))
}

/// The indexes to add, in the ascending order of their names.
pub open spec fn index_adds(original: TableModel, target: TableModel) -> Seq<Operation> {
    gather(ascending(original.indexes.dom()), add_wanted_index(original, target))
}

/// What turns the target table into the original one: indexes are dropped
/// first, then columns are added, redefined and dropped, and indexes are
/// added last.
pub open spec fn alter_ops(original: TableModel, target: TableModel) -> Seq<Operation> {
    index_drops(original, target) + column_adds(original, target) + column_modifies(
        original,
        target,
    ) + column_drops(original, target) + index_adds(original, target)
}

/// A table that only the original has is created.
pub open spec fn create_missing_table(
    original: Map<Seq<char>, TableModel>,
    target: Map<Seq<char>, TableModel>,
) -> spec_fn(Seq<char>) -> Seq<Operation> {
    |name: Seq<char>|
        if !target.contains_key(name) {
            seq![create_table(original[name])]
        } else {
            Seq::empty()
        }
}

/// A table that both have is altered.
pub open spec fn alter_common_table(
    original: Map<Seq<char>, TableModel>,
    target: Map<Seq<char>, TableModel>,
) -> spec_fn(Seq<char>) -> Seq<Operation> {
    |name: Seq<char>|
        if target.contains_key(name) {
            alter_ops(original[name], target[name])
        } else {
            Seq::empty()
        }
}

/// A table that only the target has is dropped.
pub open spec fn drop_absent_table(
    original: Map<Seq<char>, TableModel>,
    target: Map<Seq<char>, TableModel>,
) -> spec_fn(Seq<char>) -> Seq<Operation> {
    |name: Seq<char>|
        if !original.contains_key(name) {
            seq![Operation::DropTable { table_name: target[name].table_name }]
        } else {
            Seq::empty()
        }
}

/// What turns the target snapshot into the original one: tables are created
/// first, then the tables that both have are altered, and tables are dropped
/// last, each group in the ascending order of the table names.
pub open spec fn diff_ops(
    original: Map<Seq<char>, TableModel>,
    target: Map<Seq<char>, TableModel>,
) -> Seq<Operation> {
    gather(ascending(original.dom()), create_missing_table(original, target)) + gather(
        ascending(original.dom()),
        alter_common_table(original, target),
    ) + gather(ascending(target.dom()), drop_absent_table(original, target))
}

/// `sorted` lists the items of `items` in the ascending order of their names,
/// and `names` holds the names of `sorted`.
pub open spec fn lists<T>(items: Map<Seq<char>, T>, sorted: Seq<T>, names: Seq<Seq<char>>) -> bool {
    &&& sorted == listing(items)
    &&& names.len() == sorted.len()
    &&& lists_ascending(names, items.dom())
    &&& keyed(names, sorted) == items
}

/// Appends the statement of one more operation.
fn emit(list: &mut Vec<String>, text: String, Ghost(ops): Ghost<Seq<Operation>>, Ghost(op): Ghost<
    Operation,
>)
    requires
        old(list).deep_view() == statements(ops),
        text@ == statement(op),
    ensures
        final(list).deep_view() == statements(ops + seq![op]),
{
    list.push(text);
    assert(list.deep_view() =~= old(list).deep_view().push(text@));
    assert(statements(ops + seq![op]) =~= statements(ops).push(statement(op)));
}

/// Appends the statements of more operations.
fn emit_all(
    list: &mut Vec<String>,
    part: Vec<String>,
    Ghost(ops): Ghost<Seq<Operation>>,
    Ghost(more): Ghost<Seq<Operation>>,
)
    requires
        old(list).deep_view() == statements(ops),
        part.deep_view() == statements(more),
    ensures
        final(list).deep_view() == statements(ops + more),
{
    let mut part = part;
    let ghost texts = part.deep_view();
    list.append(&mut part);
    assert(list.deep_view() =~= old(list).deep_view() + texts);
    assert(statements(ops + more) =~= statements(ops) + statements(more));
}

/// What is looked up by name in a sorted list is what the mapping holds.
proof fn lemma_lookup<T>(items: Map<Seq<char>, T>, sorted: Seq<T>, names: Seq<Seq<char>>, name: Seq<
    char,
>)
    requires
        lists(items, sorted, names),
    ensures
        match last_position(names, name) {
            Some(p) => 0 <= p < sorted.len() && items.contains_key(name) && items[name]
                == sorted[p],
            None => !items.contains_key(name),
        },
{
    lemma_last_position(names, name);
}

/// What stands at a position of a sorted list is what the mapping holds for
/// the name of that position.
proof fn lemma_listed<T>(items: Map<Seq<char>, T>, sorted: Seq<T>, names: Seq<Seq<char>>, k: int)
    requires
        lists(items, sorted, names),
        0 <= k < sorted.len(),
    ensures
        names == ascending(items.dom()),
        items.contains_key(names[k]),
        items[names[k]] == sorted[k],
{
    lemma_ascending_is(names, items.dom());
    assert(names.contains(names[k]));
}

/// Drops the indexes that only the target has.
fn drop_absent_indexes(
    list: &mut Vec<String>,
    original_names: &Vec<String>,
    target_indexes: &Vec<Index>,
    target_names: &Vec<String>,
    Ghost(original): Ghost<TableModel>,
    Ghost(target): Ghost<TableModel>,
    Ghost(original_sorted): Ghost<Seq<IndexView>>,
    Ghost(done): Ghost<Seq<Operation>>,
)
    requires
        old(list).deep_view() == statements(done),
        lists(original.indexes, original_sorted, original_names.deep_view()),
        lists(target.indexes, target_indexes.deep_view(), target_names.deep_view()),
        target_names.deep_view() == index_names(target_indexes.deep_view()),
    ensures
        final(list).deep_view() == statements(
            done + gather(ascending(target.indexes.dom()), drop_absent_index(original, target)),
        ),
{
    let ghost names = ascending(target.indexes.dom());
    let ghost each = drop_absent_index(original, target);
    let mut k: usize = 0;
    assert(done + gather(names.take(0), each) =~= done);
    while k < target_indexes.len()
        invariant
            k <= target_indexes.len(),
            names == ascending(target.indexes.dom()),
            each == drop_absent_index(original, target),
            lists(original.indexes, original_sorted, original_names.deep_view()),
            lists(target.indexes, target_indexes.deep_view(), target_names.deep_view()),
            target_names.deep_view() == index_names(target_indexes.deep_view()),
            list.deep_view() == statements(done + gather(names.take(k as int), each)),
        decreases target_indexes.len() - k,
    {
        let index = &target_indexes[k];
        proof {
            lemma_listed(
                target.indexes,
                target_indexes.deep_view(),
                target_names.deep_view(),
                k as int,
            );
            lemma_lookup(
                original.indexes,
                original_sorted,
                original_names.deep_view(),
                index@.index_name,
            );
            lemma_gather_step(names, each, k as int);
        }
        let ghost so_far = done + gather(names.take(k as int), each);
        if position_of(original_names, &index.index_name).is_none() && !is_implicit_primary(index) {
            emit(
                list,
                generate_drop_index(index),
                Ghost(so_far),
                Ghost(Operation::DropIndex { index: index@ }),
            );
        }
        assert(list.deep_view() == statements(done + gather(names.take(k as int + 1), each))) by {
            assert(done + gather(names.take(k as int + 1), each) =~= so_far + each(names[k as int]));
            assert(so_far + Seq::<Operation>::empty() =~= so_far);
        }
        k += 1;
    }
    assert(names.take(target_indexes.len() as int) =~= names);
}

/// Drops the indexes that both have and that changed.
fn drop_changed_indexes(
    list: &mut Vec<String>,
    original_indexes: &Vec<Index>,
    original_names: &Vec<String>,
    target_indexes: &Vec<Index>,
    target_names: &Vec<String>,
    Ghost(original): Ghost<TableModel>,
    Ghost(target): Ghost<TableModel>,
    Ghost(done): Ghost<Seq<Operation>>,
)
    requires
        old(list).deep_view() == statements(done),
        lists(original.indexes, original_indexes.deep_view(), original_names.deep_view()),
        lists(target.indexes, target_indexes.deep_view(), target_names.deep_view()),
        original_names.deep_view() == index_names(original_indexes.deep_view()),
    ensures
        final(list).deep_view() == statements(
            done + gather(ascending(original.indexes.dom()), drop_changed_index(original, target)),
        ),
{
    let ghost names = ascending(original.indexes.dom());
    let ghost each = drop_changed_index(original, target);
    let mut k: usize = 0;
    assert(done + gather(names.take(0), each) =~= done);
    while k < original_indexes.len()
        invariant
            k <= original_indexes.len(),
            names == ascending(original.indexes.dom()),
            each == drop_changed_index(original, target),
            lists(original.indexes, original_indexes.deep_view(), original_names.deep_view()),
            lists(target.indexes, target_indexes.deep_view(), target_names.deep_view()),
            original_names.deep_view() == index_names(original_indexes.deep_view()),
            list.deep_view() == statements(done + gather(names.take(k as int), each)),
        decreases original_indexes.len() - k,
    {
        let index = &original_indexes[k];
        proof {
            lemma_listed(
                original.indexes,
                original_indexes.deep_view(),
                original_names.deep_view(),
                k as int,
            );
            lemma_lookup(
                target.indexes,
                target_indexes.deep_view(),
                target_names.deep_view(),
                index@.index_name,
            );
            lemma_gather_step(names, each, k as int);
        }
        let ghost so_far = done + gather(names.take(k as int), each);
        match position_of(target_names, &index.index_name) {
            Some(p) => {
                let target_index = &target_indexes[p];
                if !index_is_same_attr(index, target_index) && !is_implicit_primary(target_index) {
                    emit(
                        list,
                        generate_drop_index(target_index),
                        Ghost(so_far),
                        Ghost(Operation::DropIndex { index: target_index@ }),
                    );
                }
            },
            None => {},
        }
        assert(list.deep_view() == statements(done + gather(names.take(k as int + 1), each))) by {
            assert(done + gather(names.take(k as int + 1), each) =~= so_far + each(names[k as int]));
            assert(so_far + Seq::<Operation>::empty() =~= so_far);
        }
        k += 1;
    }
    assert(names.take(original_indexes.len() as int) =~= names);
}

/// The name of the column that stands before position `i`.
fn anchor_of(columns: &Vec<Column>, i: usize) -> (name: String)
    requires
        i < columns.len(),
    ensures
        name@ == anchor(columns.deep_view(), i as int),
{
    if i == 0 {
        String::new()
    } else {
        columns[i - 1].column_name.clone()
    }
}

/// Adds the columns that only the original has.
fn add_missing_columns(
    list: &mut Vec<String>,
    original_table: &Table,
    target_names: &Vec<String>,
    Ghost(target): Ghost<TableModel>,
    Ghost(target_sorted): Ghost<Seq<ColumnView>>,
    Ghost(done): Ghost<Seq<Operation>>,
)
    requires
        old(list).deep_view() == statements(done),
        lists(column_map(target.columns), target_sorted, target_names.deep_view()),
    ensures
        final(list).deep_view() == statements(
            done + column_adds(table_model(original_table@), target),
        ),
{
    let ghost original = table_model(original_table@);
    let ghost at = positions(original.columns.len());
    let ghost each = add_missing_column(original, target);
    let mut i: usize = 0;
    assert(done + gather(at.take(0), each) =~= done);
    while i < original_table.columns.len()
        invariant
            i <= original_table.columns.len(),
            original == table_model(original_table@),
            at == positions(original.columns.len()),
            each == add_missing_column(original, target),
            lists(column_map(target.columns), target_sorted, target_names.deep_view()),
            list.deep_view() == statements(done + gather(at.take(i as int), each)),
        decreases original_table.columns.len() - i,
    {
        let column = &original_table.columns[i];
        proof {
            lemma_lookup(
                column_map(target.columns),
                target_sorted,
                target_names.deep_view(),
                column@.column_name,
            );
            lemma_gather_step(at, each, i as int);
        }
        let ghost so_far = done + gather(at.take(i as int), each);
        if position_of(target_names, &column.column_name).is_none() {
            let prev_column_name = anchor_of(&original_table.columns, i);
            emit(
                list,
                generate_add_column(column, prev_column_name),
                Ghost(so_far),
                Ghost(
                    Operation::AddColumn {
                        column: column@,
                        after: anchor(original.columns, i as int),
                    },
                ),
            );
        }
        assert(list.deep_view() == statements(done + gather(at.take(i as int + 1), each))) by {
            assert(done + gather(at.take(i as int + 1), each) =~= so_far + each(at[i as int]));
            assert(so_far + Seq::<Operation>::empty() =~= so_far);
        }
        i += 1;
    }
    assert(at.take(original_table.columns.len() as int) =~= at);
}

/// Redefines the columns that both have and that changed.
fn modify_changed_columns(
    list: &mut Vec<String>,
    original_table: &Table,
    target_columns: &Vec<Column>,
    target_names: &Vec<String>,
    Ghost(target): Ghost<TableModel>,
    Ghost(done): Ghost<Seq<Operation>>,
)
    requires
        old(list).deep_view() == statements(done),
        lists(column_map(target.columns), target_columns.deep_view(), target_names.deep_view()),
    ensures
        final(list).deep_view() == statements(
            done + column_modifies(table_model(original_table@), target),
        ),
{
    let ghost original = table_model(original_table@);
    let ghost at = positions(original.columns.len());
    let ghost each = modify_changed_column(original, target);
    let mut i: usize = 0;
    assert(done + gather(at.take(0), each) =~= done);
    while i < original_table.columns.len()
        invariant
            i <= original_table.columns.len(),
            original == table_model(original_table@),
            at == positions(original.columns.len()),
            each == modify_changed_column(original, target),
            lists(column_map(target.columns), target_columns.deep_view(), target_names.deep_view()),
            list.deep_view() == statements(done + gather(at.take(i as int), each)),
        decreases original_table.columns.len() - i,
    {
        let column = &original_table.columns[i];
        proof {
            lemma_lookup(
                column_map(target.columns),
                target_columns.deep_view(),
                target_names.deep_view(),
                column@.column_name,
            );
            lemma_gather_step(at, each, i as int);
        }
        let ghost so_far = done + gather(at.take(i as int), each);
        match position_of(target_names, &column.column_name) {
            Some(p) => {
                if !column_is_same_attr(column, &target_columns[p]) {
                    let prev_column_name = anchor_of(&original_table.columns, i);
                    emit(
                        list,
                        generate_modify_column(column, prev_column_name),
                        Ghost(so_far),
                        Ghost(
                            Operation::ModifyColumn {
                                column: column@,
                                after: anchor(original.columns, i as int),
                            },
                        ),
                    );
                }
            },
            None => {},
        }
        assert(list.deep_view() == statements(done + gather(at.take(i as int + 1), each))) by {
            assert(done + gather(at.take(i as int + 1), each) =~= so_far + each(at[i as int]));
            assert(so_far + Seq::<Operation>::empty() =~= so_far);
        }
        i += 1;
    }
    assert(at.take(original_table.columns.len() as int) =~= at);
}

/// Drops the columns that only the target has.
fn drop_absent_columns(
    list: &mut Vec<String>,
    original_names: &Vec<String>,
    target_columns: &Vec<Column>,
    target_names: &Vec<String>,
    Ghost(original): Ghost<TableModel>,
    Ghost(target): Ghost<TableModel>,
    Ghost(original_sorted): Ghost<Seq<ColumnView>>,
    Ghost(done): Ghost<Seq<Operation>>,
)
    requires
        old(list).deep_view() == statements(done),
        lists(column_map(original.columns), original_sorted, original_names.deep_view()),
        lists(column_map(target.columns), target_columns.deep_view(), target_names.deep_view()),
        target_names.deep_view() == column_names(target_columns.deep_view()),
    ensures
        final(list).deep_view() == statements(done + column_drops(original, target)),
{
    let ghost names = ascending(column_map(target.columns).dom());
    let ghost each = drop_absent_column(original, target);
    let mut k: usize = 0;
    assert(done + gather(names.take(0), each) =~= done);
    while k < target_columns.len()
        invariant
            k <= target_columns.len(),
            names == ascending(column_map(target.columns).dom()),
            each == drop_absent_column(original, target),
            lists(column_map(original.columns), original_sorted, original_names.deep_view()),
            lists(column_map(target.columns), target_columns.deep_view(), target_names.deep_view()),
            target_names.deep_view() == column_names(target_columns.deep_view()),
            list.deep_view() == statements(done + gather(names.take(k as int), each)),
        decreases target_columns.len() - k,
    {
        let column = &target_columns[k];
        proof {
            lemma_listed(
                column_map(target.columns),
                target_columns.deep_view(),
                target_names.deep_view(),
                k as int,
            );
            lemma_lookup(
                column_map(original.columns),
                original_sorted,
                original_names.deep_view(),
                column@.column_name,
            );
            lemma_gather_step(names, each, k as int);
        }
        let ghost so_far = done + gather(names.take(k as int), each);
        if position_of(original_names, &column.column_name).is_none() {
            emit(
                list,
                generate_drop_column(column),
                Ghost(so_far),
                Ghost(Operation::DropColumn { column: column@ }),
            );
        }
        assert(list.deep_view() == statements(done + gather(names.take(k as int + 1), each))) by {
            assert(done + gather(names.take(k as int + 1), each) =~= so_far + each(names[k as int]));
            assert(so_far + Seq::<Operation>::empty() =~= so_far);
        }
        k += 1;
    }
    assert(names.take(target_columns.len() as int) =~= names);
}

/// Adds the indexes that only the original has, or that changed.
fn add_wanted_indexes(
    list: &mut Vec<String>,
    original_indexes: &Vec<Index>,
    original_names: &Vec<String>,
    target_indexes: &Vec<Index>,
    target_names: &Vec<String>,
    Ghost(original): Ghost<TableModel>,
    Ghost(target): Ghost<TableModel>,
    Ghost(done): Ghost<Seq<Operation>>,
)
    requires
        old(list).deep_view() == statements(done),
        lists(original.indexes, original_indexes.deep_view(), original_names.deep_view()),
        lists(target.indexes, target_indexes.deep_view(), target_names.deep_view()),
        original_names.deep_view() == index_names(original_indexes.deep_view()),
        forall|k: int|
            0 <= k < original_indexes.len() ==> !unrenderable(
                #[trigger] original_indexes[k]@,
            ),
    ensures
        final(list).deep_view() == statements(done + index_adds(original, target)),
{
    let ghost names = ascending(original.indexes.dom());
    let ghost each = add_wanted_index(original, target);
    let mut k: usize = 0;
    assert(done + gather(names.take(0), each) =~= done);
    while k < original_indexes.len()
        invariant
            k <= original_indexes.len(),
            names == ascending(original.indexes.dom()),
            each == add_wanted_index(original, target),
            lists(original.indexes, original_indexes.deep_view(), original_names.deep_view()),
            lists(target.indexes, target_indexes.deep_view(), target_names.deep_view()),
            original_names.deep_view() == index_names(original_indexes.deep_view()),
            forall|k: int|
                0 <= k < original_indexes.len() ==> !unrenderable(
                    #[trigger] original_indexes[k]@,
                ),
            list.deep_view() == statements(done + gather(names.take(k as int), each)),
        decreases original_indexes.len() - k,
    {
        let index = &original_indexes[k];
        proof {
            lemma_listed(
                original.indexes,
                original_indexes.deep_view(),
                original_names.deep_view(),
                k as int,
            );
            lemma_lookup(
                target.indexes,
                target_indexes.deep_view(),
                target_names.deep_view(),
                index@.index_name,
            );
            lemma_gather_step(names, each, k as int);
        }
        let ghost so_far = done + gather(names.take(k as int), each);
        let wanted = match position_of(target_names, &index.index_name) {
            None => true,
            Some(p) => !index_is_same_attr(index, &target_indexes[p]),
        };
        if wanted && !is_implicit_primary(index) {
            match generate_add_index(index) {
                Ok(text) => {
                    emit(list, text, Ghost(so_far), Ghost(Operation::AddIndex { index: index@ }));
                },
                Err(_) => {
                    assert(false);
                },
            }
        }
        assert(list.deep_view() == statements(done + gather(names.take(k as int + 1), each))) by {
            assert(done + gather(names.take(k as int + 1), each) =~= so_far + each(names[k as int]));
            assert(so_far + Seq::<Operation>::empty() =~= so_far);
        }
        k += 1;
    }
    assert(names.take(original_indexes.len() as int) =~= names);
}

/// The sorted copy that `map_indexes` makes lists the indexes of the table.
proof fn lemma_indexes_listed(raw: Seq<IndexView>, sorted: Seq<IndexView>, names: Seq<Seq<char>>)
    requires
        sorted == listing(index_map(raw)),
        lists_ascending(index_names(sorted), index_map(raw).dom()),
        index_map(sorted) == index_map(raw),
        names == index_names(sorted),
    ensures
        lists(index_map(raw), sorted, names),
{
}

/// The sorted copy that `map_columns` makes lists the columns of the table.
proof fn lemma_columns_listed(raw: Seq<ColumnView>, sorted: Seq<ColumnView>, names: Seq<Seq<char>>)
    requires
        sorted == listing(column_map(raw)),
        lists_ascending(column_names(sorted), column_map(raw).dom()),
        column_map(sorted) == column_map(raw),
        names == column_names(sorted),
    ensures
        lists(column_map(raw), sorted, names),
{
}

/// The sorted copy that `map_tables` makes lists the tables of the snapshot.
proof fn lemma_tables_listed(raw: Seq<TableView>, sorted: Seq<TableView>, names: Seq<Seq<char>>)
    requires
        sorted == listing(table_map(raw)),
        lists_ascending(table_names(sorted), table_map(raw).dom()),
        table_map(sorted) == table_map(raw),
        names == table_names(sorted),
    ensures
        lists(snapshot(raw), table_models(sorted), names),
{
    let tables = table_map(raw);
    let models = snapshot(raw);
    assert(models.dom() =~= tables.dom());
    lemma_ascending_is(names, tables.dom());
    assert forall|k: int| 0 <= k < sorted.len() implies table_models(sorted)[k] == listing(
        models,
    )[k] by {
        assert(names.contains(names[k]));
        lemma_last_position(table_names(raw), names[k]);
    }
    assert(table_models(sorted) =~= listing(models));
    assert(keyed(names, table_models(sorted)) =~= models) by {
        assert forall|name: Seq<char>| models.contains_key(name) implies keyed(
            names,
            table_models(sorted),
        )[name] == models[name] by {
            assert(tables.contains_key(name));
            assert(keyed(names, sorted)[name] == tables[name]);
            lemma_last_position(names, name);
        }
        assert forall|name: Seq<char>|
            keyed(names, table_models(sorted)).contains_key(name) <==> models.contains_key(
                name,
            ) by {
            assert(keyed(names, sorted).contains_key(name) <==> tables.contains_key(name));
        }
    }
}

/// Plans and renders the change of one valid table.
fn alter_valid_tables(original_table: &Table, target_table: &Table) -> (list: Vec<String>)
    requires
        valid_table(original_table@),
        valid_table(target_table@),
    ensures
        list.deep_view() == statements(
            alter_ops(table_model(original_table@), table_model(target_table@)),
        ),
{
    let mut list: Vec<String> = Vec::new();

    // drop index -> add column -> modify column -> drop column -> add index
    let original_indexes = map_indexes(&original_table.indexes);
    let target_indexes = map_indexes(&target_table.indexes);
    let original_columns = map_columns(&original_table.columns);
    let target_columns = map_columns(&target_table.columns);
    let original_index_names = names_of_indexes(&original_indexes);
    let target_index_names = names_of_indexes(&target_indexes);
    let original_column_names = names_of_columns(&original_columns);
    let target_column_names = names_of_columns(&target_columns);

    let ghost original = table_model(original_table@);
    let ghost target = table_model(target_table@);
    let ghost none = Seq::<Operation>::empty();
    proof {
        lemma_indexes_listed(
            original_table@.indexes,
            original_indexes.deep_view(),
            original_index_names.deep_view(),
        );
        lemma_indexes_listed(
            target_table@.indexes,
            target_indexes.deep_view(),
            target_index_names.deep_view(),
        );
        lemma_columns_listed(
            original_table@.columns,
            original_columns.deep_view(),
            original_column_names.deep_view(),
        );
        lemma_columns_listed(
            target_table@.columns,
            target_columns.deep_view(),
            target_column_names.deep_view(),
        );
        assert(list.deep_view() =~= statements(none));
        lemma_valid_table(original_table@);
        assert forall|k: int| 0 <= k < original_indexes.len() implies !unrenderable(
            #[trigger] original_indexes[k]@,
        ) by {
            let at = lemma_listing_from(
                index_names(original_table@.indexes),
                original_table@.indexes,
                original_index_names.deep_view(),
                k,
            );
        }
    }
    let ghost absent = gather(ascending(target.indexes.dom()), drop_absent_index(original, target));
    drop_absent_indexes(
        &mut list,
        &original_index_names,
        &target_indexes,
        &target_index_names,
        Ghost(original),
        Ghost(target),
        Ghost(original_indexes.deep_view()),
        Ghost(none),
    );
    drop_changed_indexes(
        &mut list,
        &original_indexes,
        &original_index_names,
        &target_indexes,
        &target_index_names,
        Ghost(original),
        Ghost(target),
        Ghost(none + absent),
    );
    let ghost dropped = index_drops(original, target);
    assert(none + absent + gather(
        ascending(original.indexes.dom()),
        drop_changed_index(original, target),
    ) =~= dropped);
    add_missing_columns(
        &mut list,
        original_table,
        &target_column_names,
        Ghost(target),
        Ghost(target_columns.deep_view()),
        Ghost(dropped),
    );
    let ghost added = dropped + column_adds(original, target);
    modify_changed_columns(
        &mut list,
        original_table,
        &target_columns,
        &target_column_names,
        Ghost(target),
        Ghost(added),
    );
    let ghost modified = added + column_modifies(original, target);
    drop_absent_columns(
        &mut list,
        &original_column_names,
        &target_columns,
        &target_column_names,
        Ghost(original),
        Ghost(target),
        Ghost(original_columns.deep_view()),
        Ghost(modified),
    );
    let ghost cleared = modified + column_drops(original, target);
    add_wanted_indexes(
        &mut list,
        &original_indexes,
        &original_index_names,
        &target_indexes,
        &target_index_names,
        Ghost(original),
        Ghost(target),
        Ghost(cleared),
    );
    list
}

/// Compares the original table with the target table of the same name and
/// renders, in the order in which they are safe to run, the statements that
/// turn the target into the original. A table that is not valid is refused:
/// the original is checked first.
pub fn alter_tables(original_table: &Table, target_table: &Table) -> (result: Result<
    Vec<String>,
    DiffError,
>)
    ensures
        match result {
            Ok(list) => valid_table(original_table@) && valid_table(target_table@)
                && list.deep_view() == statements(
                alter_ops(table_model(original_table@), table_model(target_table@)),
            ),
            Err(e) => Some(e@) == or_else(
                table_violation(original_table@),
                table_violation(target_table@),
            ),
        },
{
    match validate_table(original_table) {
        Err(e) => {
            return Err(e);
        },
        Ok(_) => {},
    }
    match validate_table(target_table) {
        Err(e) => {
            return Err(e);
        },
        Ok(_) => {},
    }
    Ok(alter_valid_tables(original_table, target_table))
}

/// Creates the tables that only the original has.
fn create_missing_tables(
    list: &mut Vec<String>,
    original_tables: &Vec<Table>,
    original_names: &Vec<String>,
    target_names: &Vec<String>,
    Ghost(original): Ghost<Map<Seq<char>, TableModel>>,
    Ghost(target): Ghost<Map<Seq<char>, TableModel>>,
    Ghost(target_sorted): Ghost<Seq<TableModel>>,
    Ghost(done): Ghost<Seq<Operation>>,
)
    requires
        old(list).deep_view() == statements(done),
        lists(original, table_models(original_tables.deep_view()), original_names.deep_view()),
        lists(target, target_sorted, target_names.deep_view()),
        original_names.deep_view() == table_names(original_tables.deep_view()),
        forall|k: int| 0 <= k < original_tables.len() ==> valid_table(#[trigger] original_tables[k]@),
    ensures
        final(list).deep_view() == statements(
            done + gather(ascending(original.dom()), create_missing_table(original, target)),
        ),
{
    let ghost names = ascending(original.dom());
    let ghost each = create_missing_table(original, target);
    let mut k: usize = 0;
    assert(done + gather(names.take(0), each) =~= done);
    while k < original_tables.len()
        invariant
            k <= original_tables.len(),
            names == ascending(original.dom()),
            each == create_missing_table(original, target),
            lists(original, table_models(original_tables.deep_view()), original_names.deep_view()),
            lists(target, target_sorted, target_names.deep_view()),
            original_names.deep_view() == table_names(original_tables.deep_view()),
            forall|k: int|
                0 <= k < original_tables.len() ==> valid_table(#[trigger] original_tables[k]@),
            list.deep_view() == statements(done + gather(names.take(k as int), each)),
        decreases original_tables.len() - k,
    {
        let table = &original_tables[k];
        proof {
            lemma_listed(
                original,
                table_models(original_tables.deep_view()),
                original_names.deep_view(),
                k as int,
            );
            lemma_lookup(target, target_sorted, target_names.deep_view(), table@.table_name);
            lemma_gather_step(names, each, k as int);
        }
        let ghost so_far = done + gather(names.take(k as int), each);
        if position_of(target_names, &table.table_name).is_none() {
            match generate_create_table(table) {
                Ok(text) => {
                    emit(list, text, Ghost(so_far), Ghost(create_table(table_model(table@))));
                },
                Err(_) => {
                    assert(false);
                },
            }
        }
        assert(list.deep_view() == statements(done + gather(names.take(k as int + 1), each))) by {
            assert(done + gather(names.take(k as int + 1), each) =~= so_far + each(names[k as int]));
            assert(so_far + Seq::<Operation>::empty() =~= so_far);
        }
        k += 1;
    }
    assert(names.take(original_tables.len() as int) =~= names);
}

/// Alters the tables that both snapshots have.
fn alter_common_tables(
    list: &mut Vec<String>,
    original_tables: &Vec<Table>,
    original_names: &Vec<String>,
    target_tables: &Vec<Table>,
    target_names: &Vec<String>,
    Ghost(original): Ghost<Map<Seq<char>, TableModel>>,
    Ghost(target): Ghost<Map<Seq<char>, TableModel>>,
    Ghost(done): Ghost<Seq<Operation>>,
)
    requires
        old(list).deep_view() == statements(done),
        lists(original, table_models(original_tables.deep_view()), original_names.deep_view()),
        lists(target, table_models(target_tables.deep_view()), target_names.deep_view()),
        original_names.deep_view() == table_names(original_tables.deep_view()),
        forall|k: int| 0 <= k < original_tables.len() ==> valid_table(#[trigger] original_tables[k]@),
        forall|k: int| 0 <= k < target_tables.len() ==> valid_table(#[trigger] target_tables[k]@),
    ensures
        final(list).deep_view() == statements(
            done + gather(ascending(original.dom()), alter_common_table(original, target)),
        ),
{
    let ghost names = ascending(original.dom());
    let ghost each = alter_common_table(original, target);
    let mut k: usize = 0;
    assert(done + gather(names.take(0), each) =~= done);
    while k < original_tables.len()
        invariant
            k <= original_tables.len(),
            names == ascending(original.dom()),
            each == alter_common_table(original, target),
            lists(original, table_models(original_tables.deep_view()), original_names.deep_view()),
            lists(target, table_models(target_tables.deep_view()), target_names.deep_view()),
            original_names.deep_view() == table_names(original_tables.deep_view()),
            forall|k: int|
                0 <= k < original_tables.len() ==> valid_table(#[trigger] original_tables[k]@),
            forall|k: int| 0 <= k < target_tables.len() ==> valid_table(#[trigger] target_tables[k]@),
            list.deep_view() == statements(done + gather(names.take(k as int), each)),
        decreases original_tables.len() - k,
    {
        let table = &original_tables[k];
        proof {
            lemma_listed(
                original,
                table_models(original_tables.deep_view()),
                original_names.deep_view(),
                k as int,
            );
            lemma_lookup(
                target,
                table_models(target_tables.deep_view()),
                target_names.deep_view(),
                table@.table_name,
            );
            lemma_gather_step(names, each, k as int);
        }
        let ghost so_far = done + gather(names.take(k as int), each);
        match position_of(target_names, &table.table_name) {
            Some(p) => {
                let target_table = &target_tables[p];
                let part = alter_valid_tables(table, target_table);
                emit_all(
                    list,
                    part,
                    Ghost(so_far),
                    Ghost(alter_ops(table_model(table@), table_model(target_table@))),
                );
            },
            None => {},
        }
        assert(list.deep_view() == statements(done + gather(names.take(k as int + 1), each))) by {
            assert(done + gather(names.take(k as int + 1), each) =~= so_far + each(names[k as int]));
            assert(so_far + Seq::<Operation>::empty() =~= so_far);
        }
        k += 1;
    }
    assert(names.take(original_tables.len() as int) =~= names);
}

/// Drops the tables that only the target has.
fn drop_absent_tables(
    list: &mut Vec<String>,
    original_names: &Vec<String>,
    target_tables: &Vec<Table>,
    target_names: &Vec<String>,
    Ghost(original): Ghost<Map<Seq<char>, TableModel>>,
    Ghost(target): Ghost<Map<Seq<char>, TableModel>>,
    Ghost(original_sorted): Ghost<Seq<TableModel>>,
    Ghost(done): Ghost<Seq<Operation>>,
)
    requires
        old(list).deep_view() == statements(done),
        lists(original, original_sorted, original_names.deep_view()),
        lists(target, table_models(target_tables.deep_view()), target_names.deep_view()),
        target_names.deep_view() == table_names(target_tables.deep_view()),
    ensures
        final(list).deep_view() == statements(
            done + gather(ascending(target.dom()), drop_absent_table(original, target)),
        ),
{
    let ghost names = ascending(target.dom());
    let ghost each = drop_absent_table(original, target);
    let mut k: usize = 0;
    assert(done + gather(names.take(0), each) =~= done);
    while k < target_tables.len()
        invariant
            k <= target_tables.len(),
            names == ascending(target.dom()),
            each == drop_absent_table(original, target),
            lists(original, original_sorted, original_names.deep_view()),
            lists(target, table_models(target_tables.deep_view()), target_names.deep_view()),
            target_names.deep_view() == table_names(target_tables.deep_view()),
            list.deep_view() == statements(done + gather(names.take(k as int), each)),
        decreases target_tables.len() - k,
    {
        let table = &target_tables[k];
        proof {
            lemma_listed(
                target,
                table_models(target_tables.deep_view()),
                target_names.deep_view(),
                k as int,
            );
            lemma_lookup(original, original_sorted, original_names.deep_view(), table@.table_name);
            lemma_gather_step(names, each, k as int);
        }
        let ghost so_far = done + gather(names.take(k as int), each);
        if position_of(original_names, &table.table_name).is_none() {
            emit(
                list,
                generate_drop_table(table),
                Ghost(so_far),
                Ghost(Operation::DropTable { table_name: table@.table_name }),
            );
        }
        assert(list.deep_view() == statements(done + gather(names.take(k as int + 1), each))) by {
            assert(done + gather(names.take(k as int + 1), each) =~= so_far + each(names[k as int]));
            assert(so_far + Seq::<Operation>::empty() =~= so_far);
        }
        k += 1;
    }
    assert(names.take(target_tables.len() as int) =~= names);
}

/// The tables of a valid snapshot are valid, also when listed by name.
proof fn lemma_listed_tables_valid(raw: Seq<TableView>, sorted: Seq<TableView>)
    requires
        valid_snapshot(raw),
        sorted == listing(table_map(raw)),
        lists_ascending(table_names(sorted), table_map(raw).dom()),
    ensures
        forall|k: int| 0 <= k < sorted.len() ==> valid_table(#[trigger] sorted[k]),
{
    lemma_valid_snapshot(raw);
    assert forall|k: int| 0 <= k < sorted.len() implies valid_table(#[trigger] sorted[k]) by {
        let at = lemma_listing_from(table_names(raw), raw, table_names(sorted), k);
    }
}

/// Compares two snapshots and renders the statements that turn the target
/// into the original: first the tables to create, then the changes to the
/// tables that both have, then the tables to drop, each group in the
/// ascending order of the table names. A snapshot that is not valid is
/// refused: the original is checked first.
pub fn compare_tables(original_tables: Vec<Table>, target_tables: Vec<Table>) -> (result: Result<
    Vec<String>,
    DiffError,
>)
    ensures
        match result {
            Ok(list) => valid_snapshot(original_tables.deep_view()) && valid_snapshot(
                target_tables.deep_view(),
            ) && list.deep_view() == statements(
                diff_ops(snapshot(original_tables.deep_view()), snapshot(target_tables.deep_view())),
            ),
            Err(e) => Some(e@) == or_else(
                snapshot_violation(original_tables.deep_view()),
                snapshot_violation(target_tables.deep_view()),
            ),
        },
{
    match validate_tables(&original_tables) {
        Err(e) => {
            return Err(e);
        },
        Ok(_) => {},
    }
    match validate_tables(&target_tables) {
        Err(e) => {
            return Err(e);
        },
        Ok(_) => {},
    }
    let ghost original_raw = original_tables.deep_view();
    let ghost target_raw = target_tables.deep_view();
    let ghost original = snapshot(original_raw);
    let ghost target = snapshot(target_raw);
    let mut result: Vec<String> = Vec::new();

    let original_tables = map_tables(original_tables);
    let target_tables = map_tables(target_tables);
    let original_names = names_of_tables(&original_tables);
    let target_names = names_of_tables(&target_tables);
    let ghost none = Seq::<Operation>::empty();
    proof {
        lemma_tables_listed(
            original_raw,
            original_tables.deep_view(),
            original_names.deep_view(),
        );
        lemma_tables_listed(target_raw, target_tables.deep_view(), target_names.deep_view());
        lemma_listed_tables_valid(original_raw, original_tables.deep_view());
        lemma_listed_tables_valid(target_raw, target_tables.deep_view());
        assert forall|k: int| 0 <= k < original_tables.len() implies valid_table(
            #[trigger] original_tables[k]@,
        ) by {
            assert(original_tables[k]@ == original_tables.deep_view()[k]);
        }
        assert forall|k: int| 0 <= k < target_tables.len() implies valid_table(
            #[trigger] target_tables[k]@,
        ) by {
            assert(target_tables[k]@ == target_tables.deep_view()[k]);
        }
        assert(result.deep_view() =~= statements(none));
    }

    // Create tables
    create_missing_tables(
        &mut result,
        &original_tables,
        &original_names,
        &target_names,
        Ghost(original),
        Ghost(target),
        Ghost(table_models(target_tables.deep_view())),
        Ghost(none),
    );
    let ghost created = gather(ascending(original.dom()), create_missing_table(original, target));
    assert(none + created =~= created);

    // Alter tables
    alter_common_tables(
        &mut result,
        &original_tables,
        &original_names,
        &target_tables,
        &target_names,
        Ghost(original),
        Ghost(target),
        Ghost(created),
    );
    let ghost altered = created + gather(
        ascending(original.dom()),
        alter_common_table(original, target),
    );

    // Drop tables
    drop_absent_tables(
        &mut result,
        &original_names,
        &target_tables,
        &target_names,
        Ghost(original),
        Ghost(target),
        Ghost(table_models(original_tables.deep_view())),
        Ghost(altered),
    );
    Ok(result)
}

} // verus!
