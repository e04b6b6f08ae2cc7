//! What the operations of a plan do to a snapshot, and that a plan, once
//! carried out, leaves nothing to plan.

use vstd::prelude::*;
use crate::comparator::{same_column, same_index};
use crate::model::{
    column_map, column_names, gather, index_map, index_names, lemma_gather_nothing,
    lemma_gather_step, lemma_keyed_dom, positions, table_model, TableModel,
};
use crate::names::{
    ascending, last_position, lemma_ascending_lists, lemma_ascending_lists_within,
    lemma_last_position, lemma_last_position_is, lists_ascending,
};
use crate::operation::Operation;
use crate::plan::{
    add_missing_column, add_wanted_index, alter_ops, anchor, column_adds, column_drops,
    column_modifies, drop_absent_column, drop_absent_index, drop_changed_index, index_adds,
    index_drops, modify_changed_column,
};
use crate::render::implicit_primary;
use crate::table::{ColumnView, IndexView, TableView};
use crate::validate::{lemma_valid_table, valid_table};

verus! {

/// The columns but for the one of the given name.
pub open spec fn without(columns: Seq<ColumnView>, name: Seq<char>) -> Seq<ColumnView> {
    match last_position(column_names(columns), name) {
        Some(p) => columns.remove(p),
        None => columns,
    }
}

/// The columns with one more: first where no column is named, else behind
/// the column named, and last where there is no column of that name.
pub open spec fn placed(columns: Seq<ColumnView>, column: ColumnView, after: Seq<char>) -> Seq<
    ColumnView,
> {
    if after.len() == 0 {
        columns.insert(0, column)
    } else {
        match last_position(column_names(columns), after) {
            Some(p) => columns.insert(p + 1, column),
            None => columns.push(column),
        }
    }
}

/// What one operation makes of a table. Operations on whole tables leave it
/// as it is.
pub open spec fn altered(table: TableModel, op: Operation) -> TableModel {
    match op {
        Operation::DropIndex { index } => TableModel {
            indexes: table.indexes.remove(index.index_name),
            ..table
        },
        Operation::AddIndex { index } => TableModel {
            indexes: table.indexes.insert(index.index_name, index),
            ..table
        },
        Operation::AddColumn { column, after } => TableModel {
            columns: placed(table.columns, column, after),
            ..table
        },
        Operation::ModifyColumn { column, after } => TableModel {
            columns: placed(without(table.columns, column.column_name), column, after),
            ..table
        },
        Operation::DropColumn { column } => TableModel {
            columns: without(table.columns, column.column_name),
            ..table
        },
        _ => table,
    }
}

/// What a row of operations, carried out in their order, makes of a table.
pub open spec fn altered_by(table: TableModel, ops: Seq<Operation>) -> TableModel
    decreases ops.len(),
{
    if ops.len() == 0 {
        table
    } else {
        altered(altered_by(table, ops.drop_last()), ops.last())
    }
}

/// Carrying out two rows of operations one after the other is carrying out
/// the one row that they make.
pub proof fn lemma_altered_by_both(table: TableModel, first: Seq<Operation>, second: Seq<Operation>)
    ensures
        altered_by(table, first + second) == altered_by(altered_by(table, first), second),
    decreases second.len(),
{
    if second.len() == 0 {
        assert(first + second =~= first);
    } else {
        assert((first + second).drop_last() =~= first + second.drop_last());
        lemma_altered_by_both(table, first, second.drop_last());
    }
}

/// Where names are all different, each name is found where it stands.
pub proof fn lemma_found_where_it_stands(names: Seq<Seq<char>>, i: int)
    requires
        names.no_duplicates(),
        0 <= i < names.len(),
    ensures
        last_position(names, names[i]) == Some(i),
{
    lemma_last_position_is(names, i);
}

/// Taking a column out takes its name out of the columns by name, and
/// nothing else.
pub proof fn lemma_without(columns: Seq<ColumnView>, name: Seq<char>)
    requires
        column_names(columns).no_duplicates(),
    ensures
        column_names(without(columns, name)).no_duplicates(),
        column_map(without(columns, name)) == column_map(columns).remove(name),
{
    let names = column_names(columns);
    lemma_last_position(names, name);
    match last_position(names, name) {
        None => {
            assert(column_map(columns).remove(name) =~= column_map(columns));
        },
        Some(p) => {
            let rest = columns.remove(p);
            let rest_names = column_names(rest);
            assert(rest_names =~= names.remove(p));
            assert forall|i: int, j: int|
                0 <= i < rest_names.len() && 0 <= j < rest_names.len() && i != j
                    implies rest_names[i] != rest_names[j] by {
                let a = if i < p { i } else { i + 1 };
                let b = if j < p { j } else { j + 1 };
                assert(rest_names[i] == names[a]);
                assert(rest_names[j] == names[b]);
            }
            assert forall|n: Seq<char>| #[trigger]
                column_map(rest).dom().contains(n) == column_map(columns).remove(
                    name,
                ).dom().contains(n) by {
                lemma_last_position(names, n);
                lemma_last_position(rest_names, n);
                if rest_names.contains(n) {
                    let i = choose|i: int| 0 <= i < rest_names.len() && rest_names[i] == n;
                    let a = if i < p { i } else { i + 1 };
                    assert(rest_names[i] == names[a]);
                    assert(names.contains(n));
                }
                if names.contains(n) && n != name {
                    let a = choose|a: int| 0 <= a < names.len() && names[a] == n;
                    let i = if a < p { a } else { a - 1 };
                    assert(rest_names[i] == n);
                    assert(rest_names.contains(n));
                }
            }
            assert forall|n: Seq<char>| column_map(rest).dom().contains(n) implies #[trigger]
                column_map(rest)[n] == column_map(columns).remove(name)[n] by {
                lemma_last_position(rest_names, n);
                let i = last_position(rest_names, n).unwrap();
                let a = if i < p { i } else { i + 1 };
                assert(rest_names[i] == names[a]);
                lemma_found_where_it_stands(names, a);
            }
            assert(column_map(rest) =~= column_map(columns).remove(name));
        },
    }
}

/// Putting a column of a new name in, wherever, adds it to the columns by
/// name, and nothing else.
pub proof fn lemma_placed(columns: Seq<ColumnView>, column: ColumnView, after: Seq<char>)
    requires
        column_names(columns).no_duplicates(),
        !column_names(columns).contains(column.column_name),
    ensures
        column_names(placed(columns, column, after)).no_duplicates(),
        column_map(placed(columns, column, after)) == column_map(columns).insert(
            column.column_name,
            column,
        ),
{
    let names = column_names(columns);
    lemma_last_position(names, after);
    let k: int = if after.len() == 0 {
        0
    } else {
        match last_position(names, after) {
            Some(p) => p + 1,
            None => columns.len() as int,
        }
    };
    assert(columns.push(column) =~= columns.insert(columns.len() as int, column));
    let more = columns.insert(k, column);
    assert(placed(columns, column, after) == more);
    let more_names = column_names(more);
    assert(more_names =~= names.insert(k, column.column_name));
    assert forall|i: int, j: int|
        0 <= i < more_names.len() && 0 <= j < more_names.len() && i != j
            implies more_names[i] != more_names[j] by {
        let a = if i < k { i } else { i - 1 };
        let b = if j < k { j } else { j - 1 };
        if i != k {
            assert(more_names[i] == names[a]);
            assert(names.contains(names[a]));
        }
        if j != k {
            assert(more_names[j] == names[b]);
            assert(names.contains(names[b]));
        }
    }
    assert forall|n: Seq<char>| #[trigger]
        column_map(more).dom().contains(n) == column_map(columns).insert(
            column.column_name,
            column,
        ).dom().contains(n) by {
        lemma_last_position(names, n);
        lemma_last_position(more_names, n);
        if more_names.contains(n) {
            let i = choose|i: int| 0 <= i < more_names.len() && more_names[i] == n;
            if i != k {
                let a = if i < k { i } else { i - 1 };
                assert(more_names[i] == names[a]);
                assert(names.contains(n));
            }
        }
        if names.contains(n) {
            let a = choose|a: int| 0 <= a < names.len() && names[a] == n;
            let i = if a < k { a } else { a + 1 };
            assert(more_names[i] == n);
            assert(more_names.contains(n));
        }
        if n == column.column_name {
            assert(more_names[k] == n);
            assert(more_names.contains(n));
        }
    }
    assert forall|n: Seq<char>| column_map(more).dom().contains(n) implies #[trigger] column_map(
        more,
    )[n] == column_map(columns).insert(column.column_name, column)[n] by {
        lemma_last_position(more_names, n);
        let i = last_position(more_names, n).unwrap();
        if i != k {
            let a = if i < k { i } else { i - 1 };
            assert(more_names[i] == names[a]);
            assert(names.contains(names[a]));
            lemma_found_where_it_stands(names, a);
        }
    }
    assert(column_map(more) =~= column_map(columns).insert(column.column_name, column));
}

/// Carrying out a row of one operation is carrying out that operation.
pub proof fn lemma_altered_by_one(table: TableModel, op: Operation)
    ensures
        altered_by(table, seq![op]) == altered(table, op),
{
    reveal_with_fuel(altered_by, 2);
    assert(seq![op].drop_last() =~= Seq::<Operation>::empty());
}

/// The first `k` items are the first `k - 1` and the one behind them.
pub proof fn lemma_take_one_more<T>(items: Seq<T>, k: int)
    requires
        0 < k <= items.len(),
    ensures
        items.take(k) == items.take(k - 1).push(items[k - 1]),
        forall|x: T|
            items.take(k).contains(x) <==> items.take(k - 1).contains(x) || x == items[k - 1],
{
    let front = items.take(k - 1);
    let more = items.take(k);
    assert(more =~= front.push(items[k - 1]));
    assert forall|x: T| more.contains(x) <==> front.contains(x) || x == items[k - 1] by {
        if front.contains(x) {
            let i = choose|i: int| 0 <= i < front.len() && front[i] == x;
            assert(more[i] == x);
        }
        if x == items[k - 1] {
            assert(more[k - 1] == x);
        }
        if more.contains(x) {
            let i = choose|i: int| 0 <= i < more.len() && more[i] == x;
            if i < k - 1 {
                assert(front[i] == x);
            }
        }
    }
}

/// A row of operations that drop indexes of `source`, one for some of the
/// names, takes exactly these names out of the indexes of a table.
pub proof fn lemma_index_drops(
    table: TableModel,
    names: Seq<Seq<char>>,
    each: spec_fn(Seq<char>) -> Seq<Operation>,
    source: Map<Seq<char>, IndexView>,
    k: int,
)
    requires
        0 <= k <= names.len(),
        forall|j: int|
            0 <= j < names.len() ==> (#[trigger] each(names[j])).len() == 0 || (each(names[j])
                == seq![Operation::DropIndex { index: source[names[j]] }]
                && source[names[j]].index_name == names[j]),
    ensures
        altered_by(table, gather(names.take(k), each)) == (TableModel {
            indexes: table.indexes.remove_keys(
                Set::new(|n: Seq<char>| names.take(k).contains(n) && each(n).len() > 0),
            ),
            ..table
        }),
    decreases k,
{
    let gone = Set::new(|n: Seq<char>| names.take(k).contains(n) && each(n).len() > 0);
    if k == 0 {
        assert(table.indexes.remove_keys(gone) =~= table.indexes);
    } else {
        lemma_index_drops(table, names, each, source, k - 1);
        lemma_gather_step(names, each, k - 1);
        let before = altered_by(table, gather(names.take(k - 1), each));
        lemma_altered_by_both(table, gather(names.take(k - 1), each), each(names[k - 1]));
        let gone_before = Set::new(
            |n: Seq<char>| names.take(k - 1).contains(n) && each(n).len() > 0,
        );
        let name = names[k - 1];
        lemma_take_one_more(names, k);
        if each(name).len() == 0 {
            assert(gone =~= gone_before);
            assert(altered_by(before, each(name)) == before);
        } else {
            let op = Operation::DropIndex { index: source[name] };
            lemma_altered_by_one(before, op);
            assert(gone =~= gone_before.insert(name));
            assert(table.indexes.remove_keys(gone) =~= table.indexes.remove_keys(
                gone_before,
            ).remove(name));
        }
    }
}

/// A row of operations that add indexes of `source`, one for some of the
/// names, puts exactly these into the indexes of a table.
pub proof fn lemma_index_adds(
    table: TableModel,
    names: Seq<Seq<char>>,
    each: spec_fn(Seq<char>) -> Seq<Operation>,
    source: Map<Seq<char>, IndexView>,
    k: int,
)
    requires
        0 <= k <= names.len(),
        forall|j: int|
            0 <= j < names.len() ==> (#[trigger] each(names[j])).len() == 0 || (each(names[j])
                == seq![Operation::AddIndex { index: source[names[j]] }]
                && source[names[j]].index_name == names[j]),
    ensures
        altered_by(table, gather(names.take(k), each)) == (TableModel {
            indexes: Map::new(
                |n: Seq<char>|
                    table.indexes.contains_key(n) || (names.take(k).contains(n) && each(n).len()
                        > 0),
                |n: Seq<char>|
                    if names.take(k).contains(n) && each(n).len() > 0 {
                        source[n]
                    } else {
                        table.indexes[n]
                    },
            ),
            ..table
        }),
    decreases k,
{
    let wanted = Map::new(
        |n: Seq<char>|
            table.indexes.contains_key(n) || (names.take(k).contains(n) && each(n).len() > 0),
        |n: Seq<char>|
            if names.take(k).contains(n) && each(n).len() > 0 {
                source[n]
            } else {
                table.indexes[n]
            },
    );
    if k == 0 {
        assert(wanted =~= table.indexes);
    } else {
        lemma_index_adds(table, names, each, source, k - 1);
        lemma_gather_step(names, each, k - 1);
        let before = altered_by(table, gather(names.take(k - 1), each));
        lemma_altered_by_both(table, gather(names.take(k - 1), each), each(names[k - 1]));
        let name = names[k - 1];
        lemma_take_one_more(names, k);
        if each(name).len() == 0 {
            assert(altered_by(before, each(name)) == before);
            assert(wanted =~= before.indexes);
        } else {
            let op = Operation::AddIndex { index: source[name] };
            lemma_altered_by_one(before, op);
            assert(wanted =~= before.indexes.insert(name, source[name]));
        }
    }
}

/// The names of the columns are the names that the columns by name know.
pub proof fn lemma_column_known(columns: Seq<ColumnView>, name: Seq<char>)
    ensures
        column_names(columns).contains(name) <==> column_map(columns).contains_key(name),
        column_map(columns).contains_key(name) ==> column_map(columns)[name].column_name == name,
{
    lemma_last_position(column_names(columns), name);
}

/// The columns by name once the first `k` columns of the original have been
/// added where the target lacked them.
pub open spec fn after_adds(original: TableModel, target: TableModel, k: int) -> Map<
    Seq<char>,
    ColumnView,
> {
    Map::new(
        |n: Seq<char>|
            column_map(target.columns).contains_key(n) || column_names(original.columns).take(
                k,
            ).contains(n),
        |n: Seq<char>|
            if column_map(target.columns).contains_key(n) {
                column_map(target.columns)[n]
            } else {
                column_map(original.columns)[n]
            },
    )
}

/// Both tables have the column, and not the same.
pub open spec fn column_changed(original: TableModel, target: TableModel, n: Seq<char>) -> bool {
    column_map(target.columns).contains_key(n) && !same_column(
        column_map(original.columns)[n],
        column_map(target.columns)[n],
    )
}

/// The columns by name once the changed ones among the first `k` columns of
/// the original have been redefined.
pub open spec fn after_modifies(
    original: TableModel,
    target: TableModel,
    start: Map<Seq<char>, ColumnView>,
    k: int,
) -> Map<Seq<char>, ColumnView> {
    Map::new(
        |n: Seq<char>|
            start.contains_key(n) || (column_names(original.columns).take(k).contains(n)
                && column_changed(original, target, n)),
        |n: Seq<char>|
            if column_names(original.columns).take(k).contains(n) && column_changed(
                original,
                target,
                n,
            ) {
                column_map(original.columns)[n]
            } else {
                start[n]
            },
    )
}

/// The columns by name once those among the first `k` names of the target
/// that the original lacks have been dropped.
pub open spec fn after_column_drops(
    original: TableModel,
    target: TableModel,
    start: Map<Seq<char>, ColumnView>,
    k: int,
) -> Map<Seq<char>, ColumnView> {
    start.remove_keys(
        Set::new(
            |n: Seq<char>|
                ascending(column_map(target.columns).dom()).take(k).contains(n) && !column_map(
                    original.columns,
                ).contains_key(n),
        ),
    )
}

/// What adding the missing columns makes of a table that has the columns of
/// the target.
pub proof fn lemma_column_adds(original: TableModel, target: TableModel, table: TableModel, k: int)
    requires
        0 <= k <= original.columns.len(),
        column_names(original.columns).no_duplicates(),
        column_names(table.columns).no_duplicates(),
        column_map(table.columns) == column_map(target.columns),
    ensures
        ({
            let made = altered_by(
                table,
                gather(
                    positions(original.columns.len()).take(k),
                    add_missing_column(original, target),
                ),
            );
            &&& made.table_name == table.table_name
            &&& made.indexes == table.indexes
            &&& column_names(made.columns).no_duplicates()
            &&& column_map(made.columns) == after_adds(original, target, k)
        }),
    decreases k,
{
    let at = positions(original.columns.len());
    let each = add_missing_column(original, target);
    let names = column_names(original.columns);
    if k == 0 {
        assert(column_map(table.columns) =~= after_adds(original, target, 0));
    } else {
        lemma_column_adds(original, target, table, k - 1);
        lemma_gather_step(at, each, k - 1);
        let before = altered_by(table, gather(at.take(k - 1), each));
        lemma_altered_by_both(table, gather(at.take(k - 1), each), each(at[k - 1]));
        lemma_take_one_more(names, k);
        let column = original.columns[k - 1];
        let name = column.column_name;
        assert(names[k - 1] == name);
        if column_map(target.columns).contains_key(name) {
            assert(altered_by(before, each(at[k - 1])) == before);
            assert(after_adds(original, target, k) =~= after_adds(original, target, k - 1));
        } else {
            let op = Operation::AddColumn {
                column,
                after: anchor(original.columns, k - 1),
            };
            lemma_altered_by_one(before, op);
            lemma_column_known(before.columns, name);
            assert(!names.take(k - 1).contains(name)) by {
                if names.take(k - 1).contains(name) {
                    let front = names.take(k - 1);
                    let i = choose|i: int| 0 <= i < front.len() && front[i] == name;
                    assert(names[i] == names[k - 1]);
                }
            }
            lemma_placed(before.columns, column, anchor(original.columns, k - 1));
            lemma_found_where_it_stands(names, k - 1);
            assert(column_map(before.columns).insert(name, column) =~= after_adds(
                original,
                target,
                k,
            ));
        }
    }
}

/// What redefining the changed columns makes of a table.
pub proof fn lemma_column_modifies(
    original: TableModel,
    target: TableModel,
    table: TableModel,
    k: int,
)
    requires
        0 <= k <= original.columns.len(),
        column_names(original.columns).no_duplicates(),
        column_names(table.columns).no_duplicates(),
    ensures
        ({
            let made = altered_by(
                table,
                gather(
                    positions(original.columns.len()).take(k),
                    modify_changed_column(original, target),
                ),
            );
            &&& made.table_name == table.table_name
            &&& made.indexes == table.indexes
            &&& column_names(made.columns).no_duplicates()
            &&& column_map(made.columns) == after_modifies(
                original,
                target,
                column_map(table.columns),
                k,
            )
        }),
    decreases k,
{
    let at = positions(original.columns.len());
    let each = modify_changed_column(original, target);
    let names = column_names(original.columns);
    let start = column_map(table.columns);
    if k == 0 {
        assert(start =~= after_modifies(original, target, start, 0));
    } else {
        lemma_column_modifies(original, target, table, k - 1);
        lemma_gather_step(at, each, k - 1);
        let before = altered_by(table, gather(at.take(k - 1), each));
        lemma_altered_by_both(table, gather(at.take(k - 1), each), each(at[k - 1]));
        lemma_take_one_more(names, k);
        let column = original.columns[k - 1];
        let name = column.column_name;
        assert(names[k - 1] == name);
        lemma_found_where_it_stands(names, k - 1);
        assert(column_map(original.columns)[name] == column);
        if column_changed(original, target, name) {
            let after = anchor(original.columns, k - 1);
            let op = Operation::ModifyColumn { column, after };
            lemma_altered_by_one(before, op);
            lemma_without(before.columns, name);
            lemma_column_known(without(before.columns, name), name);
            lemma_placed(without(before.columns, name), column, after);
            assert(column_map(before.columns).remove(name).insert(name, column) =~= after_modifies(
                original,
                target,
                start,
                k,
            ));
        } else {
            assert(altered_by(before, each(at[k - 1])) == before);
            assert(after_modifies(original, target, start, k) =~= after_modifies(
                original,
                target,
                start,
                k - 1,
            ));
        }
    }
}

/// What dropping the columns that the original lacks makes of a table.
pub proof fn lemma_column_drops(original: TableModel, target: TableModel, table: TableModel, k: int)
    requires
        0 <= k <= ascending(column_map(target.columns).dom()).len(),
        lists_ascending(
            ascending(column_map(target.columns).dom()),
            column_map(target.columns).dom(),
        ),
        column_names(table.columns).no_duplicates(),
    ensures
        ({
            let made = altered_by(
                table,
                gather(
                    ascending(column_map(target.columns).dom()).take(k),
                    drop_absent_column(original, target),
                ),
            );
            &&& made.table_name == table.table_name
            &&& made.indexes == table.indexes
            &&& column_names(made.columns).no_duplicates()
            &&& column_map(made.columns) == after_column_drops(
                original,
                target,
                column_map(table.columns),
                k,
            )
        }),
    decreases k,
{
    let names = ascending(column_map(target.columns).dom());
    let each = drop_absent_column(original, target);
    let start = column_map(table.columns);
    if k == 0 {
        assert(start =~= after_column_drops(original, target, start, 0));
    } else {
        lemma_column_drops(original, target, table, k - 1);
        lemma_gather_step(names, each, k - 1);
        let before = altered_by(table, gather(names.take(k - 1), each));
        lemma_altered_by_both(table, gather(names.take(k - 1), each), each(names[k - 1]));
        lemma_take_one_more(names, k);
        let name = names[k - 1];
        assert(names.contains(name));
        lemma_column_known(target.columns, name);
        if !column_map(original.columns).contains_key(name) {
            let op = Operation::DropColumn { column: column_map(target.columns)[name] };
            lemma_altered_by_one(before, op);
            lemma_without(before.columns, name);
            assert(column_map(before.columns).remove(name) =~= after_column_drops(
                original,
                target,
                start,
                k,
            ));
        } else {
            assert(altered_by(before, each(names[k - 1])) == before);
            assert(after_column_drops(original, target, start, k) =~= after_column_drops(
                original,
                target,
                start,
                k - 1,
            ));
        }
    }
}

/// The names of the indexes are the names that the indexes by name know.
pub proof fn lemma_index_known(indexes: Seq<IndexView>, name: Seq<char>)
    ensures
        index_names(indexes).contains(name) <==> index_map(indexes).contains_key(name),
        index_map(indexes).contains_key(name) ==> index_map(indexes)[name].index_name == name,
{
    lemma_last_position(index_names(indexes), name);
}

/// The plan drops this index of the target.
pub open spec fn index_dropped(original: TableModel, target: TableModel, n: Seq<char>) -> bool {
    &&& target.indexes.contains_key(n)
    &&& !implicit_primary(target.indexes[n])
    &&& (!original.indexes.contains_key(n) || !same_index(original.indexes[n], target.indexes[n]))
}

/// The plan adds this index of the original.
pub open spec fn index_added(original: TableModel, target: TableModel, n: Seq<char>) -> bool {
    &&& original.indexes.contains_key(n)
    &&& !implicit_primary(original.indexes[n])
    &&& (!target.indexes.contains_key(n) || !same_index(original.indexes[n], target.indexes[n]))
}

/// The indexes of the target once the plan is carried out: those that the
/// plan adds, as the original has them, and those of the target that it does
/// not drop.
pub open spec fn indexes_after(original: TableModel, target: TableModel) -> Map<
    Seq<char>,
    IndexView,
> {
    Map::new(
        |n: Seq<char>|
            index_added(original, target, n) || (target.indexes.contains_key(n) && !index_dropped(
                original,
                target,
                n,
            )),
        |n: Seq<char>|
            if index_added(original, target, n) {
                original.indexes[n]
            } else {
                target.indexes[n]
            },
    )
}

/// The columns of the target, by name, once the plan is carried out: the
/// columns of the original, each as the target had it where that was the
/// same, else as the original has it.
pub open spec fn columns_after(original: TableModel, target: TableModel) -> Map<
    Seq<char>,
    ColumnView,
> {
    Map::new(
        |n: Seq<char>| column_map(original.columns).contains_key(n),
        |n: Seq<char>|
            if column_map(target.columns).contains_key(n) && same_column(
                column_map(original.columns)[n],
                column_map(target.columns)[n],
            ) {
                column_map(target.columns)[n]
            } else {
                column_map(original.columns)[n]
            },
    )
}

/// What dropping the stale and the changed indexes makes of the target.
proof fn lemma_after_index_drops(original: TableView, target: TableView)
    requires
        valid_table(original),
        valid_table(target),
    ensures
        ({
            let o = table_model(original);
            let t = table_model(target);
            let made = altered_by(t, index_drops(o, t));
            &&& made.table_name == t.table_name
            &&& made.columns == t.columns
            &&& made.indexes == t.indexes.remove_keys(Set::new(|n: Seq<char>| index_dropped(o, t, n)))
        }),
{
    let o = table_model(original);
    let t = table_model(target);
    let target_names = ascending(t.indexes.dom());
    let original_names = ascending(o.indexes.dom());
    lemma_keyed_dom(index_names(target.indexes), target.indexes);
    lemma_keyed_dom(index_names(original.indexes), original.indexes);
    lemma_ascending_lists(index_names(target.indexes));
    lemma_ascending_lists(index_names(original.indexes));
    assert forall|j: int| 0 <= j < target_names.len() implies (#[trigger] drop_absent_index(o, t)(
        target_names[j],
    )).len() == 0 || (drop_absent_index(o, t)(target_names[j])
        == seq![Operation::DropIndex { index: t.indexes[target_names[j]] }]
        && t.indexes[target_names[j]].index_name == target_names[j]) by {
        assert(target_names.contains(target_names[j]));
        lemma_index_known(target.indexes, target_names[j]);
    }
    assert forall|j: int| 0 <= j < original_names.len() implies (#[trigger] drop_changed_index(
        o,
        t,
    )(original_names[j])).len() == 0 || (drop_changed_index(o, t)(original_names[j])
        == seq![Operation::DropIndex { index: t.indexes[original_names[j]] }]
        && t.indexes[original_names[j]].index_name == original_names[j]) by {
        lemma_index_known(target.indexes, original_names[j]);
    }
    let first = gather(target_names, drop_absent_index(o, t));
    let second = gather(original_names, drop_changed_index(o, t));
    assert(target_names.take(target_names.len() as int) =~= target_names);
    assert(original_names.take(original_names.len() as int) =~= original_names);
    lemma_index_drops(t, target_names, drop_absent_index(o, t), t.indexes, target_names.len() as int);
    let middle = altered_by(t, first);
    lemma_index_drops(
        middle,
        original_names,
        drop_changed_index(o, t),
        t.indexes,
        original_names.len() as int,
    );
    lemma_altered_by_both(t, first, second);
    let made = altered_by(t, index_drops(o, t));
    assert(made.indexes =~= t.indexes.remove_keys(Set::new(|n: Seq<char>| index_dropped(o, t, n))))
        by {
        assert forall|n: Seq<char>| #[trigger]
            made.indexes.dom().contains(n) == (t.indexes.contains_key(n) && !index_dropped(
                o,
                t,
                n,
            )) by {
            if t.indexes.contains_key(n) {
                assert(target_names.contains(n));
            }
            if o.indexes.contains_key(n) {
                assert(original_names.contains(n));
            }
        }
    }
}

/// What adding the wanted indexes makes of a table that has the indexes of
/// the target but for the dropped ones.
proof fn lemma_after_index_adds(original: TableView, target: TableView, table: TableModel)
    requires
        valid_table(original),
        valid_table(target),
        table.indexes == table_model(target).indexes.remove_keys(
            Set::new(
                |n: Seq<char>| index_dropped(table_model(original), table_model(target), n),
            ),
        ),
    ensures
        ({
            let o = table_model(original);
            let t = table_model(target);
            let made = altered_by(table, index_adds(o, t));
            &&& made.table_name == table.table_name
            &&& made.columns == table.columns
            &&& made.indexes == indexes_after(o, t)
        }),
{
    let o = table_model(original);
    let t = table_model(target);
    let original_names = ascending(o.indexes.dom());
    lemma_keyed_dom(index_names(original.indexes), original.indexes);
    lemma_ascending_lists(index_names(original.indexes));
    assert forall|j: int| 0 <= j < original_names.len() implies (#[trigger] add_wanted_index(o, t)(
        original_names[j],
    )).len() == 0 || (add_wanted_index(o, t)(original_names[j])
        == seq![Operation::AddIndex { index: o.indexes[original_names[j]] }]
        && o.indexes[original_names[j]].index_name == original_names[j]) by {
        assert(original_names.contains(original_names[j]));
        lemma_index_known(original.indexes, original_names[j]);
    }
    assert(original_names.take(original_names.len() as int) =~= original_names);
    lemma_index_adds(
        table,
        original_names,
        add_wanted_index(o, t),
        o.indexes,
        original_names.len() as int,
    );
    let made = altered_by(table, index_adds(o, t));
    assert(made.indexes =~= indexes_after(o, t)) by {
        assert forall|n: Seq<char>| #[trigger]
            made.indexes.dom().contains(n) == indexes_after(o, t).dom().contains(n) by {
            if o.indexes.contains_key(n) {
                assert(original_names.contains(n));
            }
        }
        assert forall|n: Seq<char>| made.indexes.dom().contains(n) implies #[trigger] made.indexes[n]
            == indexes_after(o, t)[n] by {
            if o.indexes.contains_key(n) {
                assert(original_names.contains(n));
            }
        }
    }
}

/// What adding, redefining and dropping columns makes of a table that has
/// the columns of the target.
proof fn lemma_after_column_changes(original: TableView, target: TableView, table: TableModel)
    requires
        valid_table(original),
        valid_table(target),
        table.columns == target.columns,
    ensures
        ({
            let o = table_model(original);
            let t = table_model(target);
            let made = altered_by(
                table,
                column_adds(o, t) + column_modifies(o, t) + column_drops(o, t),
            );
            &&& made.table_name == table.table_name
            &&& made.indexes == table.indexes
            &&& column_map(made.columns) == columns_after(o, t)
        }),
{
    let o = table_model(original);
    let t = table_model(target);
    lemma_valid_table(original);
    lemma_valid_table(target);
    let at = positions(o.columns.len());
    let target_names = ascending(column_map(t.columns).dom());
    lemma_keyed_dom(column_names(target.columns), target.columns);
    lemma_ascending_lists(column_names(target.columns));
    assert(at.take(o.columns.len() as int) =~= at);
    assert(target_names.take(target_names.len() as int) =~= target_names);
    lemma_column_adds(o, t, table, o.columns.len() as int);
    let added = altered_by(table, column_adds(o, t));
    lemma_column_modifies(o, t, added, o.columns.len() as int);
    let modified = altered_by(added, column_modifies(o, t));
    lemma_column_drops(o, t, modified, target_names.len() as int);
    lemma_altered_by_both(table, column_adds(o, t), column_modifies(o, t));
    lemma_altered_by_both(
        table,
        column_adds(o, t) + column_modifies(o, t),
        column_drops(o, t),
    );
    let made = altered_by(modified, column_drops(o, t));
    let names = column_names(o.columns);
    assert(names.take(o.columns.len() as int) =~= names);
    let first = after_adds(o, t, o.columns.len() as int);
    let second = after_modifies(o, t, first, o.columns.len() as int);
    let third = after_column_drops(o, t, second, target_names.len() as int);
    assert(third =~= columns_after(o, t)) by {
        assert forall|n: Seq<char>| #[trigger]
            third.dom().contains(n) == columns_after(o, t).dom().contains(n) by {
            lemma_column_known(original.columns, n);
            lemma_column_known(target.columns, n);
            if column_map(t.columns).contains_key(n) {
                assert(target_names.contains(n));
            }
        }
        assert forall|n: Seq<char>| third.dom().contains(n) implies #[trigger] third[n]
            == columns_after(o, t)[n] by {
            lemma_column_known(original.columns, n);
            lemma_column_known(target.columns, n);
        }
    }
}

/// What a plan makes of the target table: the table keeps its name, and has
/// the indexes and the columns that `indexes_after` and `columns_after`
/// describe.
pub proof fn lemma_migrated_table(original: TableView, target: TableView)
    requires
        valid_table(original),
        valid_table(target),
    ensures
        ({
            let o = table_model(original);
            let t = table_model(target);
            let made = altered_by(t, alter_ops(o, t));
            &&& made.table_name == t.table_name
            &&& made.indexes == indexes_after(o, t)
            &&& column_map(made.columns) == columns_after(o, t)
        }),
{
    let o = table_model(original);
    let t = table_model(target);
    lemma_after_index_drops(original, target);
    let dropped = altered_by(t, index_drops(o, t));
    lemma_after_column_changes(original, target, dropped);
    let columns = column_adds(o, t) + column_modifies(o, t) + column_drops(o, t);
    let changed = altered_by(dropped, columns);
    lemma_after_index_adds(original, target, changed);
    lemma_altered_by_both(t, index_drops(o, t), columns);
    lemma_altered_by_both(t, index_drops(o, t) + columns, index_adds(o, t));
    assert(alter_ops(o, t) =~= index_drops(o, t) + columns + index_adds(o, t));
}

/// Convergence within a table: once the plan for a valid target table has
/// been carried out, the comparison with the original plans nothing more.
pub proof fn law_convergence_in_table(original: TableView, target: TableView)
    requires
        valid_table(original),
        valid_table(target),
    ensures
        alter_ops(
            table_model(original),
            altered_by(
                table_model(target),
                alter_ops(table_model(original), table_model(target)),
            ),
        ) == Seq::<Operation>::empty(),
{
    let o = table_model(original);
    let t = table_model(target);
    let made = altered_by(t, alter_ops(o, t));
    lemma_migrated_table(original, target);
    assert forall|n: Seq<char>| t.indexes.contains_key(n) implies index_names(
        target.indexes,
    ).contains(n) by {
        lemma_index_known(target.indexes, n);
    }
    lemma_settled(original, made, t, index_names(target.indexes));
}

/// A table that has the indexes and the columns that a plan leaves is the
/// same as the original to the comparison.
pub proof fn lemma_settled(
    original: TableView,
    made: TableModel,
    target: TableModel,
    target_names: Seq<Seq<char>>,
)
    requires
        valid_table(original),
        forall|n: Seq<char>| target.indexes.contains_key(n) ==> target_names.contains(n),
        made.indexes == indexes_after(table_model(original), target),
        column_map(made.columns) == columns_after(table_model(original), target),
    ensures
        alter_ops(table_model(original), made) == Seq::<Operation>::empty(),
{
    let o = table_model(original);
    let t = target;
    lemma_valid_table(original);
    let original_names = ascending(o.indexes.dom());
    let made_names = ascending(made.indexes.dom());
    lemma_keyed_dom(index_names(original.indexes), original.indexes);
    lemma_ascending_lists(index_names(original.indexes));
    let known = target_names + index_names(original.indexes);
    assert forall|n: Seq<char>| made.indexes.dom().contains(n) implies known.contains(n) by {
        if index_added(o, t, n) {
            let i = choose|i: int|
                0 <= i < index_names(original.indexes).len() && index_names(original.indexes)[i]
                    == n;
            assert(known[target_names.len() + i] == n);
        } else {
            assert(indexes_after(o, t).dom().contains(n));
            assert(t.indexes.contains_key(n));
            assert(target_names.contains(n));
            let i = choose|i: int| 0 <= i < target_names.len() && target_names[i] == n;
            assert(known[i] == n);
        }
    }
    lemma_ascending_lists_within(known, made.indexes.dom());
    assert forall|k: int| 0 <= k < made_names.len() implies (#[trigger] drop_absent_index(o, made)(
        made_names[k],
    )).len() == 0 by {
        assert(made_names.contains(made_names[k]));
    }
    lemma_gather_nothing(made_names, drop_absent_index(o, made));
    assert forall|k: int| 0 <= k < original_names.len() implies (#[trigger] drop_changed_index(
        o,
        made,
    )(original_names[k])).len() == 0 by {
        assert(original_names.contains(original_names[k]));
    }
    lemma_gather_nothing(original_names, drop_changed_index(o, made));
    assert forall|k: int| 0 <= k < original_names.len() implies (#[trigger] add_wanted_index(
        o,
        made,
    )(original_names[k])).len() == 0 by {
        assert(original_names.contains(original_names[k]));
    }
    lemma_gather_nothing(original_names, add_wanted_index(o, made));
    let at = positions(o.columns.len());
    assert forall|i: int| 0 <= i < at.len() implies (#[trigger] add_missing_column(o, made)(
        at[i],
    )).len() == 0 by {
        lemma_found_where_it_stands(column_names(o.columns), i);
    }
    lemma_gather_nothing(at, add_missing_column(o, made));
    assert forall|i: int| 0 <= i < at.len() implies (#[trigger] modify_changed_column(o, made)(
        at[i],
    )).len() == 0 by {
        lemma_found_where_it_stands(column_names(o.columns), i);
    }
    lemma_gather_nothing(at, modify_changed_column(o, made));
    let made_columns = ascending(column_map(made.columns).dom());
    lemma_keyed_dom(column_names(made.columns), made.columns);
    lemma_ascending_lists(column_names(made.columns));
    assert forall|k: int| 0 <= k < made_columns.len() implies (#[trigger] drop_absent_column(
        o,
        made,
    )(made_columns[k])).len() == 0 by {
        assert(made_columns.contains(made_columns[k]));
    }
    lemma_gather_nothing(made_columns, drop_absent_column(o, made));
    assert(alter_ops(o, made) =~= Seq::<Operation>::empty());
}

} // verus!
