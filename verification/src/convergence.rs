//! Convergence: a plan, carried out on the target snapshot, leaves a
//! snapshot that the comparison with the original has nothing to say about.

use vstd::prelude::*;
use crate::migration::{
    altered, altered_by, columns_after, indexes_after, law_convergence_in_table, lemma_index_known,
    lemma_settled, lemma_take_one_more,
};
use crate::model::{
    column_map, column_names, gather, index_map, index_names, lemma_gather_all,
    lemma_gather_nothing, lemma_gather_step, lemma_keyed_dom, listing, positions, snapshot,
    table_model, table_models, table_names, TableModel,
};
use crate::names::{
    ascending, last_position, lemma_ascending_distinct, lemma_ascending_lists, lemma_last_position,
    lists_ascending,
};
use crate::operation::{create_table, explicit_indexes, is_explicit, Operation};
use crate::plan::{
    add_missing_column, add_wanted_index, alter_common_table, alter_ops, column_adds, column_drops,
    column_modifies, create_missing_table, diff_ops, drop_absent_column, drop_absent_index,
    drop_absent_table, drop_changed_index, index_adds, index_drops, modify_changed_column,
};
use crate::render::implicit_primary;
use crate::table::{ColumnView, IndexView, TableView};
use crate::validate::{lemma_valid_snapshot, valid_snapshot, valid_table};

verus! {

/// The table that an operation is addressed to.
pub open spec fn table_of(op: Operation) -> Seq<char> {
    match op {
        Operation::CreateTable { table_name, .. } => table_name,
        Operation::DropTable { table_name } => table_name,
        Operation::DropIndex { index } => index.table_name,
        Operation::AddIndex { index } => index.table_name,
        Operation::AddColumn { column, .. } => column.table_name,
        Operation::ModifyColumn { column, .. } => column.table_name,
        Operation::DropColumn { column } => column.table_name,
    }
}

/// What one operation makes of a snapshot: a table is created or dropped,
/// or the table that the operation is addressed to is altered. An operation
/// addressed to a table that is not there does nothing.
pub open spec fn carried_out(schema: Map<Seq<char>, TableModel>, op: Operation) -> Map<
    Seq<char>,
    TableModel,
> {
    match op {
        Operation::CreateTable { table_name, columns, indexes } => schema.insert(
            table_name,
            TableModel { table_name, columns, indexes: index_map(indexes) },
        ),
        Operation::DropTable { table_name } => schema.remove(table_name),
        _ => if schema.contains_key(table_of(op)) {
            schema.insert(table_of(op), altered(schema[table_of(op)], op))
        } else {
            schema
        },
    }
}

/// What a row of operations, carried out in their order, makes of a
/// snapshot.
pub open spec fn migrated(schema: Map<Seq<char>, TableModel>, ops: Seq<Operation>) -> Map<
    Seq<char>,
    TableModel,
>
    decreases ops.len(),
{
    if ops.len() == 0 {
        schema
    } else {
        carried_out(migrated(schema, ops.drop_last()), ops.last())
    }
}

/// Every column and every index of the table says that it belongs to it.
pub open spec fn consistent_table(table: TableView) -> bool {
    &&& forall|i: int|
        0 <= i < table.columns.len() ==> (#[trigger] table.columns[i]).table_name
            == table.table_name
    &&& forall|i: int|
        0 <= i < table.indexes.len() ==> (#[trigger] table.indexes[i]).table_name
            == table.table_name
}

/// Every table of the snapshot is consistent.
pub open spec fn consistent(tables: Seq<TableView>) -> bool {
    forall|i: int| 0 <= i < tables.len() ==> consistent_table(#[trigger] tables[i])
}

/// The operation alters the table of the given name.
pub open spec fn alters_table(op: Operation, name: Seq<char>) -> bool {
    table_of(op) == name && !(op is CreateTable) && !(op is DropTable)
}

/// The table as a plan creates it: without an implicit primary key.
pub open spec fn as_created(table: TableModel) -> TableModel {
    TableModel {
        table_name: table.table_name,
        columns: table.columns,
        indexes: index_map(explicit_indexes(table.indexes)),
    }
}

/// Carrying out two rows of operations one after the other is carrying out
/// the one row that they make.
pub proof fn lemma_migrated_both(
    schema: Map<Seq<char>, TableModel>,
    first: Seq<Operation>,
    second: Seq<Operation>,
)
    ensures
        migrated(schema, first + second) == migrated(migrated(schema, first), second),
    decreases second.len(),
{
    if second.len() == 0 {
        assert(first + second =~= first);
    } else {
        assert((first + second).drop_last() =~= first + second.drop_last());
        lemma_migrated_both(schema, first, second.drop_last());
    }
}

/// Carrying out a row of one operation is carrying out that operation.
pub proof fn lemma_migrated_one(schema: Map<Seq<char>, TableModel>, op: Operation)
    ensures
        migrated(schema, seq![op]) == carried_out(schema, op),
{
    reveal_with_fuel(migrated, 2);
    assert(seq![op].drop_last() =~= Seq::<Operation>::empty());
}

/// Operations that alter one table of a snapshot alter that table and leave
/// the others alone.
pub proof fn lemma_migrated_bundle(
    schema: Map<Seq<char>, TableModel>,
    ops: Seq<Operation>,
    name: Seq<char>,
)
    requires
        schema.contains_key(name),
        forall|j: int| 0 <= j < ops.len() ==> alters_table(#[trigger] ops[j], name),
    ensures
        migrated(schema, ops) == schema.insert(name, altered_by(schema[name], ops)),
    decreases ops.len(),
{
    if ops.len() == 0 {
        assert(schema.insert(name, schema[name]) =~= schema);
    } else {
        let front = ops.drop_last();
        assert forall|j: int| 0 <= j < front.len() implies alters_table(#[trigger] front[j], name) by {
            assert(front[j] == ops[j]);
        }
        lemma_migrated_bundle(schema, front, name);
        assert(alters_table(ops[ops.len() - 1], name));
        let before = schema.insert(name, altered_by(schema[name], front));
        assert(carried_out(before, ops.last()) =~= schema.insert(
            name,
            altered(altered_by(schema[name], front), ops.last()),
        ));
    }
}

/// What a snapshot holds under a name is one of its tables, and the table
/// has that name.
pub proof fn lemma_snapshot_entry(tables: Seq<TableView>, name: Seq<char>) -> (i: int)
    requires
        snapshot(tables).contains_key(name),
    ensures
        0 <= i < tables.len(),
        tables[i].table_name == name,
        snapshot(tables)[name] == table_model(tables[i]),
        snapshot(tables)[name].table_name == name,
{
    lemma_last_position(table_names(tables), name);
    last_position(table_names(tables), name).unwrap()
}

/// The indexes by name hold indexes of the table only.
pub proof fn lemma_index_entry(indexes: Seq<IndexView>, name: Seq<char>) -> (i: int)
    requires
        index_map(indexes).contains_key(name),
    ensures
        0 <= i < indexes.len(),
        index_map(indexes)[name] == indexes[i],
        indexes[i].index_name == name,
{
    lemma_last_position(index_names(indexes), name);
    last_position(index_names(indexes), name).unwrap()
}

/// The columns by name hold columns of the table only.
pub proof fn lemma_column_entry(columns: Seq<ColumnView>, name: Seq<char>) -> (i: int)
    requires
        column_map(columns).contains_key(name),
    ensures
        0 <= i < columns.len(),
        column_map(columns)[name] == columns[i],
        columns[i].column_name == name,
{
    lemma_last_position(column_names(columns), name);
    last_position(column_names(columns), name).unwrap()
}

/// The plan for a consistent table of a given name alters that table only.
pub proof fn lemma_alter_ops_address(original: TableView, target: TableView, name: Seq<char>)
    requires
        consistent_table(original),
        consistent_table(target),
        original.table_name == name,
        target.table_name == name,
    ensures
        forall|j: int|
            0 <= j < alter_ops(table_model(original), table_model(target)).len() ==> alters_table(
                #[trigger] alter_ops(table_model(original), table_model(target))[j],
                name,
            ),
{
    let o = table_model(original);
    let t = table_model(target);
    let here = |op: Operation| alters_table(op, name);
    let original_names = ascending(o.indexes.dom());
    let target_names = ascending(t.indexes.dom());
    let target_columns = ascending(column_map(t.columns).dom());
    lemma_keyed_dom(index_names(original.indexes), original.indexes);
    lemma_keyed_dom(index_names(target.indexes), target.indexes);
    lemma_keyed_dom(column_names(target.columns), target.columns);
    lemma_ascending_lists(index_names(original.indexes));
    lemma_ascending_lists(index_names(target.indexes));
    lemma_ascending_lists(column_names(target.columns));
    assert forall|i: int, j: int|
        0 <= i < target_names.len() && 0 <= j < drop_absent_index(o, t)(target_names[i]).len()
            implies here(#[trigger] drop_absent_index(o, t)(target_names[i])[j]) by {
        assert(target_names.contains(target_names[i]));
        let at = lemma_index_entry(target.indexes, target_names[i]);
    }
    lemma_gather_all(target_names, drop_absent_index(o, t), here);
    assert forall|i: int, j: int|
        0 <= i < original_names.len() && 0 <= j < drop_changed_index(o, t)(
            original_names[i],
        ).len() implies here(#[trigger] drop_changed_index(o, t)(original_names[i])[j]) by {
        let at = lemma_index_entry(target.indexes, original_names[i]);
    }
    lemma_gather_all(original_names, drop_changed_index(o, t), here);
    lemma_gather_all(positions(o.columns.len()), add_missing_column(o, t), here);
    lemma_gather_all(positions(o.columns.len()), modify_changed_column(o, t), here);
    assert forall|i: int, j: int|
        0 <= i < target_columns.len() && 0 <= j < drop_absent_column(o, t)(
            target_columns[i],
        ).len() implies here(#[trigger] drop_absent_column(o, t)(target_columns[i])[j]) by {
        assert(target_columns.contains(target_columns[i]));
        let at = lemma_column_entry(target.columns, target_columns[i]);
    }
    lemma_gather_all(target_columns, drop_absent_column(o, t), here);
    assert forall|i: int, j: int|
        0 <= i < original_names.len() && 0 <= j < add_wanted_index(o, t)(original_names[i]).len()
            implies here(#[trigger] add_wanted_index(o, t)(original_names[i])[j]) by {
        assert(original_names.contains(original_names[i]));
        let at = lemma_index_entry(original.indexes, original_names[i]);
    }
    lemma_gather_all(original_names, add_wanted_index(o, t), here);
    let first = gather(target_names, drop_absent_index(o, t));
    let second = gather(original_names, drop_changed_index(o, t));
    let a = index_drops(o, t);
    let b = column_adds(o, t);
    let c = column_modifies(o, t);
    let d = column_drops(o, t);
    let e = index_adds(o, t);
    let ops = alter_ops(o, t);
    assert forall|j: int| 0 <= j < ops.len() implies alters_table(#[trigger] ops[j], name) by {
        if j < first.len() {
            assert(ops[j] == first[j]);
        } else if j < a.len() {
            assert(ops[j] == second[j - first.len()]);
        } else if j < a.len() + b.len() {
            assert(ops[j] == b[j - a.len()]);
        } else if j < a.len() + b.len() + c.len() {
            assert(ops[j] == c[j - a.len() - b.len()]);
        } else if j < a.len() + b.len() + c.len() + d.len() {
            assert(ops[j] == d[j - a.len() - b.len() - c.len()]);
        } else {
            assert(ops[j] == e[j - a.len() - b.len() - c.len() - d.len()]);
        }
    }
}

/// The snapshot once the tables among the first `k` names of the original
/// that the target lacks have been created.
pub open spec fn after_creates(
    original: Map<Seq<char>, TableModel>,
    target: Map<Seq<char>, TableModel>,
    start: Map<Seq<char>, TableModel>,
    k: int,
) -> Map<Seq<char>, TableModel> {
    Map::new(
        |n: Seq<char>|
            start.contains_key(n) || (ascending(original.dom()).take(k).contains(n)
                && !target.contains_key(n)),
        |n: Seq<char>|
            if ascending(original.dom()).take(k).contains(n) && !target.contains_key(n) {
                as_created(original[n])
            } else {
                start[n]
            },
    )
}

/// The snapshot once the tables among the first `k` names of the original
/// that the target has too have been altered.
pub open spec fn after_alters(
    original: Map<Seq<char>, TableModel>,
    target: Map<Seq<char>, TableModel>,
    start: Map<Seq<char>, TableModel>,
    k: int,
) -> Map<Seq<char>, TableModel> {
    Map::new(
        |n: Seq<char>| start.contains_key(n),
        |n: Seq<char>|
            if ascending(original.dom()).take(k).contains(n) && target.contains_key(n) {
                altered_by(target[n], alter_ops(original[n], target[n]))
            } else {
                start[n]
            },
    )
}

/// The snapshot once the tables among the first `k` names of the target
/// that the original lacks have been dropped.
pub open spec fn after_drops(
    original: Map<Seq<char>, TableModel>,
    target: Map<Seq<char>, TableModel>,
    start: Map<Seq<char>, TableModel>,
    k: int,
) -> Map<Seq<char>, TableModel> {
    start.remove_keys(
        Set::new(
            |n: Seq<char>|
                ascending(target.dom()).take(k).contains(n) && !original.contains_key(n),
        ),
    )
}

/// What creating the missing tables makes of a snapshot.
proof fn lemma_creates(
    original: Map<Seq<char>, TableModel>,
    target: Map<Seq<char>, TableModel>,
    start: Map<Seq<char>, TableModel>,
    k: int,
)
    requires
        0 <= k <= ascending(original.dom()).len(),
        lists_ascending(ascending(original.dom()), original.dom()),
        forall|n: Seq<char>| original.contains_key(n) ==> (#[trigger] original[n]).table_name == n,
    ensures
        migrated(
            start,
            gather(ascending(original.dom()).take(k), create_missing_table(original, target)),
        ) == after_creates(original, target, start, k),
    decreases k,
{
    let names = ascending(original.dom());
    let each = create_missing_table(original, target);
    if k == 0 {
        assert(start =~= after_creates(original, target, start, 0));
    } else {
        lemma_creates(original, target, start, k - 1);
        lemma_gather_step(names, each, k - 1);
        let before = migrated(start, gather(names.take(k - 1), each));
        lemma_migrated_both(start, gather(names.take(k - 1), each), each(names[k - 1]));
        lemma_take_one_more(names, k);
        let name = names[k - 1];
        assert(names.contains(name));
        if target.contains_key(name) {
            assert(migrated(before, each(name)) == before);
            assert(after_creates(original, target, start, k) =~= after_creates(
                original,
                target,
                start,
                k - 1,
            ));
        } else {
            lemma_migrated_one(before, create_table(original[name]));
            assert(before.insert(name, as_created(original[name])) =~= after_creates(
                original,
                target,
                start,
                k,
            ));
        }
    }
}

/// What altering the tables that both have makes of a snapshot that holds
/// the tables of the target as the target has them.
proof fn lemma_alters(
    original: Map<Seq<char>, TableModel>,
    target: Map<Seq<char>, TableModel>,
    start: Map<Seq<char>, TableModel>,
    k: int,
)
    requires
        0 <= k <= ascending(original.dom()).len(),
        lists_ascending(ascending(original.dom()), original.dom()),
        forall|n: Seq<char>|
            #[trigger] target.contains_key(n) ==> start.contains_key(n) && start[n] == target[n],
        forall|n: Seq<char>, j: int|
            original.contains_key(n) && target.contains_key(n) && 0 <= j < alter_ops(
                original[n],
                target[n],
            ).len() ==> alters_table(#[trigger] alter_ops(original[n], target[n])[j], n),
    ensures
        migrated(
            start,
            gather(ascending(original.dom()).take(k), alter_common_table(original, target)),
        ) == after_alters(original, target, start, k),
    decreases k,
{
    let names = ascending(original.dom());
    let each = alter_common_table(original, target);
    if k == 0 {
        assert(start =~= after_alters(original, target, start, 0));
    } else {
        lemma_alters(original, target, start, k - 1);
        lemma_gather_step(names, each, k - 1);
        let before = migrated(start, gather(names.take(k - 1), each));
        lemma_migrated_both(start, gather(names.take(k - 1), each), each(names[k - 1]));
        lemma_take_one_more(names, k);
        let name = names[k - 1];
        assert(names.contains(name));
        if target.contains_key(name) {
            let bundle = alter_ops(original[name], target[name]);
            assert(!names.take(k - 1).contains(name)) by {
                if names.take(k - 1).contains(name) {
                    let front = names.take(k - 1);
                    let i = choose|i: int| 0 <= i < front.len() && front[i] == name;
                    lemma_ascending_distinct(names, i, k - 1);
                }
            }
            assert(before[name] == target[name]);
            lemma_migrated_bundle(before, bundle, name);
            assert(before.insert(name, altered_by(target[name], bundle)) =~= after_alters(
                original,
                target,
                start,
                k,
            ));
        } else {
            assert(migrated(before, each(name)) == before);
            assert(after_alters(original, target, start, k) =~= after_alters(
                original,
                target,
                start,
                k - 1,
            ));
        }
    }
}

/// What dropping the tables that only the target has makes of a snapshot.
proof fn lemma_drops(
    original: Map<Seq<char>, TableModel>,
    target: Map<Seq<char>, TableModel>,
    start: Map<Seq<char>, TableModel>,
    k: int,
)
    requires
        0 <= k <= ascending(target.dom()).len(),
        lists_ascending(ascending(target.dom()), target.dom()),
        forall|n: Seq<char>| target.contains_key(n) ==> (#[trigger] target[n]).table_name == n,
    ensures
        migrated(
            start,
            gather(ascending(target.dom()).take(k), drop_absent_table(original, target)),
        ) == after_drops(original, target, start, k),
    decreases k,
{
    let names = ascending(target.dom());
    let each = drop_absent_table(original, target);
    if k == 0 {
        assert(start =~= after_drops(original, target, start, 0));
    } else {
        lemma_drops(original, target, start, k - 1);
        lemma_gather_step(names, each, k - 1);
        let before = migrated(start, gather(names.take(k - 1), each));
        lemma_migrated_both(start, gather(names.take(k - 1), each), each(names[k - 1]));
        lemma_take_one_more(names, k);
        let name = names[k - 1];
        assert(names.contains(name));
        if original.contains_key(name) {
            assert(migrated(before, each(name)) == before);
            assert(after_drops(original, target, start, k) =~= after_drops(
                original,
                target,
                start,
                k - 1,
            ));
        } else {
            lemma_migrated_one(before, Operation::DropTable { table_name: target[name].table_name });
            assert(before.remove(name) =~= after_drops(original, target, start, k));
        }
    }
}

/// The indexes that are written out when a table is created, by name: the
/// indexes of the table but for an implicit primary key.
pub proof fn lemma_explicit_indexes(indexes: Seq<IndexView>)
    ensures
        index_map(explicit_indexes(index_map(indexes))) == Map::new(
            |n: Seq<char>|
                index_map(indexes).contains_key(n) && !implicit_primary(index_map(indexes)[n]),
            |n: Seq<char>| index_map(indexes)[n],
        ),
{
    let all = index_map(indexes);
    let names = ascending(all.dom());
    let listed = listing(all);
    let kept = explicit_indexes(all);
    let wanted = Map::new(
        |n: Seq<char>| all.contains_key(n) && !implicit_primary(all[n]),
        |n: Seq<char>| all[n],
    );
    lemma_keyed_dom(index_names(indexes), indexes);
    lemma_ascending_lists(index_names(indexes));
    assert forall|n: Seq<char>| #[trigger]
        index_map(kept).dom().contains(n) == wanted.dom().contains(n) by {
        if index_map(kept).contains_key(n) {
            let p = lemma_index_entry(kept, n);
            listed.lemma_filter_pred(is_explicit(), p);
            assert(kept.contains(kept[p]));
            listed.lemma_filter_contains_rev(is_explicit(), kept[p]);
            let q = choose|q: int| 0 <= q < listed.len() && listed[q] == kept[p];
            assert(names.contains(names[q]));
            lemma_index_known(indexes, names[q]);
        }
        if all.contains_key(n) && !implicit_primary(all[n]) {
            assert(names.contains(n));
            let q = choose|q: int| 0 <= q < names.len() && names[q] == n;
            assert(listed[q] == all[n]);
            listed.lemma_filter_contains(is_explicit(), q);
            let p = choose|p: int| 0 <= p < kept.len() && kept[p] == all[n];
            lemma_index_known(indexes, n);
            assert(index_names(kept)[p] == n);
            lemma_index_known(kept, n);
        }
    }
    assert forall|n: Seq<char>| index_map(kept).dom().contains(n) implies #[trigger] index_map(
        kept,
    )[n] == wanted[n] by {
        let p = lemma_index_entry(kept, n);
        assert(kept.contains(kept[p]));
        listed.lemma_filter_contains_rev(is_explicit(), kept[p]);
        let q = choose|q: int| 0 <= q < listed.len() && listed[q] == kept[p];
        assert(names.contains(names[q]));
        lemma_index_known(indexes, names[q]);
    }
    assert(index_map(kept) =~= wanted);
}

/// A table as a plan creates it is the same as the original to the
/// comparison.
pub proof fn lemma_created_settled(original: TableView)
    requires
        valid_table(original),
    ensures
        alter_ops(table_model(original), as_created(table_model(original)))
            == Seq::<Operation>::empty(),
{
    let o = table_model(original);
    let bare = TableModel {
        table_name: o.table_name,
        columns: o.columns,
        indexes: Map::<Seq<char>, IndexView>::empty(),
    };
    lemma_explicit_indexes(original.indexes);
    assert(as_created(o).indexes =~= indexes_after(o, bare));
    assert(column_map(o.columns) =~= columns_after(o, bare));
    lemma_settled(original, as_created(o), bare, Seq::<Seq<char>>::empty());
}

/// Convergence: once the plan of a comparison has been carried out on the
/// target snapshot, the comparison with the original plans nothing more.
/// This holds of valid snapshots in which every column and every index
/// names the table that holds it, and of the operations as `carried_out`
/// describes them.
pub proof fn law_convergence(original: Seq<TableView>, target: Seq<TableView>)
    requires
        valid_snapshot(original),
        valid_snapshot(target),
        consistent(original),
        consistent(target),
    ensures
        diff_ops(
            snapshot(original),
            migrated(snapshot(target), diff_ops(snapshot(original), snapshot(target))),
        ) == Seq::<Operation>::empty(),
{
    let a = snapshot(original);
    let b = snapshot(target);
    let original_names = ascending(a.dom());
    let target_names = ascending(b.dom());
    lemma_valid_snapshot(original);
    lemma_valid_snapshot(target);
    lemma_keyed_dom(table_names(original), table_models(original));
    lemma_keyed_dom(table_names(target), table_models(target));
    lemma_ascending_lists(table_names(original));
    lemma_ascending_lists(table_names(target));
    assert forall|n: Seq<char>| a.contains_key(n) implies (#[trigger] a[n]).table_name == n by {
        let i = lemma_snapshot_entry(original, n);
    }
    assert forall|n: Seq<char>| b.contains_key(n) implies (#[trigger] b[n]).table_name == n by {
        let i = lemma_snapshot_entry(target, n);
    }
    assert forall|n: Seq<char>, j: int|
        a.contains_key(n) && b.contains_key(n) && 0 <= j < alter_ops(a[n], b[n]).len()
            implies alters_table(#[trigger] alter_ops(a[n], b[n])[j], n) by {
        let i = lemma_snapshot_entry(original, n);
        let k = lemma_snapshot_entry(target, n);
        lemma_alter_ops_address(original[i], target[k], n);
    }
    let creates = gather(original_names, create_missing_table(a, b));
    let alters = gather(original_names, alter_common_table(a, b));
    let drops = gather(target_names, drop_absent_table(a, b));
    assert(original_names.take(original_names.len() as int) =~= original_names);
    assert(target_names.take(target_names.len() as int) =~= target_names);
    lemma_creates(a, b, b, original_names.len() as int);
    let created = after_creates(a, b, b, original_names.len() as int);
    lemma_alters(a, b, created, original_names.len() as int);
    let changed = after_alters(a, b, created, original_names.len() as int);
    lemma_drops(a, b, changed, target_names.len() as int);
    let done = after_drops(a, b, changed, target_names.len() as int);
    lemma_migrated_both(b, creates, alters);
    lemma_migrated_both(b, creates + alters, drops);
    assert(migrated(b, diff_ops(a, b)) == done);

    assert(done.dom() =~= a.dom()) by {
        assert forall|n: Seq<char>| done.dom().contains(n) == a.dom().contains(n) by {
            if a.contains_key(n) {
                assert(original_names.contains(n));
            }
            if b.contains_key(n) {
                assert(target_names.contains(n));
            }
        }
    }
    assert forall|k: int| 0 <= k < original_names.len() implies (#[trigger] create_missing_table(
        a,
        done,
    )(original_names[k])).len() == 0 by {
        assert(original_names.contains(original_names[k]));
    }
    lemma_gather_nothing(original_names, create_missing_table(a, done));
    assert forall|k: int| 0 <= k < original_names.len() implies (#[trigger] drop_absent_table(
        a,
        done,
    )(original_names[k])).len() == 0 by {
        assert(original_names.contains(original_names[k]));
    }
    lemma_gather_nothing(original_names, drop_absent_table(a, done));
    assert forall|k: int| 0 <= k < original_names.len() implies (#[trigger] alter_common_table(
        a,
        done,
    )(original_names[k])).len() == 0 by {
        let n = original_names[k];
        assert(original_names.contains(n));
        let i = lemma_snapshot_entry(original, n);
        if b.contains_key(n) {
            let j = lemma_snapshot_entry(target, n);
            law_convergence_in_table(original[i], target[j]);
            assert(done[n] == altered_by(b[n], alter_ops(a[n], b[n])));
        } else {
            lemma_created_settled(original[i]);
            assert(done[n] == as_created(a[n]));
        }
    }
    lemma_gather_nothing(original_names, alter_common_table(a, done));
    assert(diff_ops(a, done) =~= Seq::<Operation>::empty());
}

} // verus!
