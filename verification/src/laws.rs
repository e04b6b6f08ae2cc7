//! What holds of every comparison.

use vstd::prelude::*;
use crate::model::{
    column_map, column_names, gather, index_map, index_names, keyed, lemma_gather_all,
    lemma_gather_nothing, lemma_keyed_dom, lemma_keyed_listed, listing, positions, snapshot,
    table_model, table_models, table_names, TableModel,
};
use crate::names::{ascending, last_position, lemma_last_position, lemma_last_position_is};
use crate::operation::{explicit_indexes, is_explicit, statement, statements, Operation};
use crate::plan::{
    add_missing_column, add_wanted_index, alter_common_table, alter_ops, column_adds, column_drops,
    column_modifies, create_missing_table, diff_ops, drop_absent_column, drop_absent_index,
    drop_absent_table, drop_changed_index, index_adds, index_drops, modify_changed_column,
};
use crate::render::implicit_primary;
use crate::table::{IndexView, TableView};
use crate::validate::{lemma_valid_snapshot, lemma_valid_table, valid_snapshot, valid_table};

verus! {

/// A valid table compared with itself needs no operation.
pub proof fn lemma_alter_same(table: TableView)
    requires
        valid_table(table),
    ensures
        alter_ops(table_model(table), table_model(table)) == Seq::<Operation>::empty(),
{
    let model = table_model(table);
    let columns = column_map(table.columns);
    lemma_valid_table(table);
    lemma_keyed_listed(index_names(table.indexes), table.indexes);
    lemma_keyed_listed(column_names(table.columns), table.columns);
    lemma_gather_nothing(ascending(model.indexes.dom()), drop_absent_index(model, model));
    lemma_gather_nothing(ascending(model.indexes.dom()), drop_changed_index(model, model));
    lemma_gather_nothing(ascending(model.indexes.dom()), add_wanted_index(model, model));
    lemma_gather_nothing(ascending(columns.dom()), drop_absent_column(model, model));
    let at = positions(table.columns.len());
    assert forall|i: int| 0 <= i < at.len() implies (#[trigger] add_missing_column(model, model)(
        at[i],
    )).len() == 0 by {
        lemma_last_position_is(column_names(table.columns), i);
    }
    assert forall|i: int| 0 <= i < at.len() implies (#[trigger] modify_changed_column(
        model,
        model,
    )(at[i])).len() == 0 by {
        lemma_last_position_is(column_names(table.columns), i);
    }
    lemma_gather_nothing(at, add_missing_column(model, model));
    lemma_gather_nothing(at, modify_changed_column(model, model));
    assert(alter_ops(model, model) =~= Seq::<Operation>::empty());
}

/// Idempotence: a valid snapshot compared with itself needs no operation,
/// and so no statement.
pub proof fn law_idempotence(tables: Seq<TableView>)
    requires
        valid_snapshot(tables),
    ensures
        diff_ops(snapshot(tables), snapshot(tables)) == Seq::<Operation>::empty(),
        statements(diff_ops(snapshot(tables), snapshot(tables))) == Seq::<Seq<char>>::empty(),
{
    let all = snapshot(tables);
    let names = ascending(all.dom());
    lemma_valid_snapshot(tables);
    lemma_keyed_listed(table_names(tables), table_models(tables));
    lemma_gather_nothing(names, create_missing_table(all, all));
    lemma_gather_nothing(names, drop_absent_table(all, all));
    assert forall|k: int| 0 <= k < names.len() implies (#[trigger] alter_common_table(all, all)(
        names[k],
    )).len() == 0 by {
        let name = names[k];
        lemma_last_position(table_names(tables), name);
        let at = last_position(table_names(tables), name).unwrap();
        assert(all[name] == table_model(tables[at]));
        lemma_alter_same(tables[at]);
    }
    lemma_gather_nothing(names, alter_common_table(all, all));
    assert(diff_ops(all, all) =~= Seq::<Operation>::empty());
    assert(statements(Seq::<Operation>::empty()) =~= Seq::<Seq<char>>::empty());
}

/// The place of an operation in the order in which a table is altered.
pub open spec fn phase(op: Operation) -> int {
    match op {
        Operation::CreateTable { .. } => 0,
        Operation::DropIndex { .. } => 1,
        Operation::AddColumn { .. } => 2,
        Operation::ModifyColumn { .. } => 3,
        Operation::DropColumn { .. } => 4,
        Operation::AddIndex { .. } => 5,
        Operation::DropTable { .. } => 6,
    }
}

/// Ordering: a table is altered phase by phase. Indexes are dropped before
/// anything else is done, and added after everything else is done; so the
/// statement that drops a changed index stands before the one that adds it
/// again, and a column is added or redefined before any index is added.
pub proof fn law_ordering(original: TableModel, target: TableModel, i: int, j: int)
    requires
        0 <= i < j < alter_ops(original, target).len(),
    ensures
        1 <= phase(alter_ops(original, target)[i]) <= phase(alter_ops(original, target)[j]) <= 5,
        alter_ops(original, target)[j] is DropIndex ==> alter_ops(original, target)[i] is DropIndex,
        alter_ops(original, target)[i] is AddIndex ==> alter_ops(original, target)[j] is AddIndex,
{
    let names = ascending(original.indexes.dom());
    lemma_gather_all(
        ascending(target.indexes.dom()),
        drop_absent_index(original, target),
        |op: Operation| phase(op) == 1,
    );
    lemma_gather_all(names, drop_changed_index(original, target), |op: Operation| phase(op) == 1);
    lemma_gather_all(
        positions(original.columns.len()),
        add_missing_column(original, target),
        |op: Operation| phase(op) == 2,
    );
    lemma_gather_all(
        positions(original.columns.len()),
        modify_changed_column(original, target),
        |op: Operation| phase(op) == 3,
    );
    lemma_gather_all(
        ascending(column_map(target.columns).dom()),
        drop_absent_column(original, target),
        |op: Operation| phase(op) == 4,
    );
    lemma_gather_all(names, add_wanted_index(original, target), |op: Operation| phase(op) == 5);
    let a = index_drops(original, target);
    let b = column_adds(original, target);
    let c = column_modifies(original, target);
    let d = column_drops(original, target);
    let e = index_adds(original, target);
    let ops = alter_ops(original, target);
    assert forall|k: int| 0 <= k < a.len() implies phase(#[trigger] a[k]) == 1 by {
        let front = gather(ascending(target.indexes.dom()), drop_absent_index(original, target));
        if k < front.len() {
            assert(a[k] == front[k]);
        } else {
            assert(a[k] == gather(names, drop_changed_index(original, target))[k - front.len()]);
        }
    }
    lemma_phases(a, b, c, d, e, i);
    lemma_phases(a, b, c, d, e, j);
}

/// The phase of an operation tells in which part of the plan it stands.
proof fn lemma_phases(
    a: Seq<Operation>,
    b: Seq<Operation>,
    c: Seq<Operation>,
    d: Seq<Operation>,
    e: Seq<Operation>,
    i: int,
)
    requires
        forall|k: int| 0 <= k < a.len() ==> phase(#[trigger] a[k]) == 1,
        forall|k: int| 0 <= k < b.len() ==> phase(#[trigger] b[k]) == 2,
        forall|k: int| 0 <= k < c.len() ==> phase(#[trigger] c[k]) == 3,
        forall|k: int| 0 <= k < d.len() ==> phase(#[trigger] d[k]) == 4,
        forall|k: int| 0 <= k < e.len() ==> phase(#[trigger] e[k]) == 5,
        0 <= i < (a + b + c + d + e).len(),
    ensures
        phase((a + b + c + d + e)[i]) == if i < a.len() {
            1int
        } else if i < a.len() + b.len() {
            2
        } else if i < a.len() + b.len() + c.len() {
            3
        } else if i < a.len() + b.len() + c.len() + d.len() {
            4
        } else {
            5
        },
{
    if i < a.len() {
        assert((a + b + c + d + e)[i] == a[i]);
    } else if i < a.len() + b.len() {
        assert((a + b + c + d + e)[i] == b[i - a.len()]);
    } else if i < a.len() + b.len() + c.len() {
        assert((a + b + c + d + e)[i] == c[i - a.len() - b.len()]);
    } else if i < a.len() + b.len() + c.len() + d.len() {
        assert((a + b + c + d + e)[i] == d[i - a.len() - b.len() - c.len()]);
    } else {
        assert((a + b + c + d + e)[i] == e[i - a.len() - b.len() - c.len() - d.len()]);
    }
}

/// Tables are created before anything else is done to the target snapshot,
/// and dropped after everything else is done.
pub proof fn law_creates_first_drops_last(
    original: Map<Seq<char>, TableModel>,
    target: Map<Seq<char>, TableModel>,
    i: int,
    j: int,
)
    requires
        0 <= i < j < diff_ops(original, target).len(),
    ensures
        diff_ops(original, target)[j] is CreateTable ==> diff_ops(original, target)[i] is CreateTable,
        diff_ops(original, target)[i] is DropTable ==> diff_ops(original, target)[j] is DropTable,
{
    let names = ascending(original.dom());
    let a = gather(names, create_missing_table(original, target));
    let b = gather(names, alter_common_table(original, target));
    let c = gather(ascending(target.dom()), drop_absent_table(original, target));
    lemma_gather_all(names, create_missing_table(original, target), |op: Operation| phase(op) == 0);
    assert forall|k: int, q: int|
        0 <= k < names.len() && 0 <= q < alter_common_table(original, target)(names[k]).len()
            implies 1 <= phase(#[trigger] alter_common_table(original, target)(names[k])[q])
        <= 5 by {
        lemma_alter_phase(original[names[k]], target[names[k]], q);
    }
    lemma_gather_all(
        names,
        alter_common_table(original, target),
        |op: Operation| 1 <= phase(op) <= 5,
    );
    lemma_gather_all(
        ascending(target.dom()),
        drop_absent_table(original, target),
        |op: Operation| phase(op) == 6,
    );
    let ops = diff_ops(original, target);
    assert(ops[i] == if i < a.len() {
        a[i]
    } else if i < a.len() + b.len() {
        b[i - a.len()]
    } else {
        c[i - a.len() - b.len()]
    });
    assert(ops[j] == if j < a.len() {
        a[j]
    } else if j < a.len() + b.len() {
        b[j - a.len()]
    } else {
        c[j - a.len() - b.len()]
    });
}

/// Every operation of the plan for a table is an operation on that table's
/// columns or indexes.
proof fn lemma_alter_phase(original: TableModel, target: TableModel, i: int)
    requires
        0 <= i < alter_ops(original, target).len(),
    ensures
        1 <= phase(alter_ops(original, target)[i]) <= 5,
{
    let within = |op: Operation| 1 <= phase(op) <= 5;
    let names = ascending(original.indexes.dom());
    lemma_gather_all(ascending(target.indexes.dom()), drop_absent_index(original, target), within);
    lemma_gather_all(names, drop_changed_index(original, target), within);
    lemma_gather_all(
        positions(original.columns.len()),
        add_missing_column(original, target),
        within,
    );
    lemma_gather_all(
        positions(original.columns.len()),
        modify_changed_column(original, target),
        within,
    );
    lemma_gather_all(
        ascending(column_map(target.columns).dom()),
        drop_absent_column(original, target),
        within,
    );
    lemma_gather_all(names, add_wanted_index(original, target), within);
    let front = gather(ascending(target.indexes.dom()), drop_absent_index(original, target));
    let back = gather(names, drop_changed_index(original, target));
    let a = index_drops(original, target);
    let b = column_adds(original, target);
    let c = column_modifies(original, target);
    let d = column_drops(original, target);
    let e = index_adds(original, target);
    if i < front.len() {
        assert(alter_ops(original, target)[i] == front[i]);
    } else if i < a.len() {
        assert(alter_ops(original, target)[i] == back[i - front.len()]);
    } else if i < a.len() + b.len() {
        assert(alter_ops(original, target)[i] == b[i - a.len()]);
    } else if i < a.len() + b.len() + c.len() {
        assert(alter_ops(original, target)[i] == c[i - a.len() - b.len()]);
    } else if i < a.len() + b.len() + c.len() + d.len() {
        assert(alter_ops(original, target)[i] == d[i - a.len() - b.len() - c.len()]);
    } else {
        assert(alter_ops(original, target)[i] == e[i - a.len() - b.len() - c.len() - d.len()]);
    }
}

/// The operation neither adds nor drops an implicit primary key, and it
/// creates no table with one written out.
pub open spec fn spares_implicit_primary(op: Operation) -> bool {
    match op {
        Operation::AddIndex { index } => !implicit_primary(index),
        Operation::DropIndex { index } => !implicit_primary(index),
        Operation::CreateTable { indexes, .. } => forall|k: int|
            0 <= k < indexes.len() ==> !implicit_primary(#[trigger] indexes[k]),
        _ => true,
    }
}

/// Primary-key suppression within one table: no operation adds or drops an
/// implicit primary key.
pub proof fn law_primary_key_suppression_in_table(original: TableModel, target: TableModel, i: int)
    requires
        0 <= i < alter_ops(original, target).len(),
    ensures
        spares_implicit_primary(alter_ops(original, target)[i]),
{
    let spares = |op: Operation| spares_implicit_primary(op);
    let names = ascending(original.indexes.dom());
    lemma_gather_all(ascending(target.indexes.dom()), drop_absent_index(original, target), spares);
    lemma_gather_all(names, drop_changed_index(original, target), spares);
    lemma_gather_all(
        positions(original.columns.len()),
        add_missing_column(original, target),
        spares,
    );
    lemma_gather_all(
        positions(original.columns.len()),
        modify_changed_column(original, target),
        spares,
    );
    lemma_gather_all(
        ascending(column_map(target.columns).dom()),
        drop_absent_column(original, target),
        spares,
    );
    lemma_gather_all(names, add_wanted_index(original, target), spares);
    let front = gather(ascending(target.indexes.dom()), drop_absent_index(original, target));
    let back = gather(names, drop_changed_index(original, target));
    let a = index_drops(original, target);
    let b = column_adds(original, target);
    let c = column_modifies(original, target);
    let d = column_drops(original, target);
    let e = index_adds(original, target);
    if i < front.len() {
        assert(alter_ops(original, target)[i] == front[i]);
    } else if i < a.len() {
        assert(alter_ops(original, target)[i] == back[i - front.len()]);
    } else if i < a.len() + b.len() {
        assert(alter_ops(original, target)[i] == b[i - a.len()]);
    } else if i < a.len() + b.len() + c.len() {
        assert(alter_ops(original, target)[i] == c[i - a.len() - b.len()]);
    } else if i < a.len() + b.len() + c.len() + d.len() {
        assert(alter_ops(original, target)[i] == d[i - a.len() - b.len() - c.len()]);
    } else {
        assert(alter_ops(original, target)[i] == e[i - a.len() - b.len() - c.len() - d.len()]);
    }
}

/// Primary-key suppression: no operation of a comparison adds or drops an
/// implicit primary key, and no table is created with one written out.
pub proof fn law_primary_key_suppression(
    original: Map<Seq<char>, TableModel>,
    target: Map<Seq<char>, TableModel>,
    i: int,
)
    requires
        0 <= i < diff_ops(original, target).len(),
    ensures
        spares_implicit_primary(diff_ops(original, target)[i]),
{
    let spares = |op: Operation| spares_implicit_primary(op);
    let names = ascending(original.dom());
    assert forall|k: int, j: int|
        0 <= k < names.len() && 0 <= j < create_missing_table(original, target)(names[k]).len()
            implies spares(#[trigger] create_missing_table(original, target)(names[k])[j]) by {
        let listed = listing(original[names[k]].indexes);
        let kept = explicit_indexes(original[names[k]].indexes);
        assert forall|q: int| 0 <= q < kept.len() implies !implicit_primary(#[trigger] kept[q]) by {
            listed.lemma_filter_pred(is_explicit(), q);
        }
    }
    lemma_gather_all(names, create_missing_table(original, target), spares);
    assert forall|k: int, j: int|
        0 <= k < names.len() && 0 <= j < alter_common_table(original, target)(names[k]).len()
            implies spares(#[trigger] alter_common_table(original, target)(names[k])[j]) by {
        law_primary_key_suppression_in_table(original[names[k]], target[names[k]], j);
    }
    lemma_gather_all(names, alter_common_table(original, target), spares);
    lemma_gather_all(ascending(target.dom()), drop_absent_table(original, target), spares);
    let a = gather(names, create_missing_table(original, target));
    let b = gather(names, alter_common_table(original, target));
    let c = gather(ascending(target.dom()), drop_absent_table(original, target));
    if i < a.len() {
        assert(diff_ops(original, target)[i] == a[i]);
    } else if i < a.len() + b.len() {
        assert(diff_ops(original, target)[i] == b[i - a.len()]);
    } else {
        assert(diff_ops(original, target)[i] == c[i - a.len() - b.len()]);
    }
}

/// The text is not empty and ends with a semicolon.
pub open spec fn terminated(text: Seq<char>) -> bool {
    text.len() > 0 && text.last() == ';'
}

/// The statement of an operation ends with a semicolon, unless the
/// operation adds an implicit primary key, which no plan does.
pub proof fn lemma_statement_terminated(op: Operation)
    requires
        spares_implicit_primary(op),
    ensures
        terminated(statement(op)),
{
    reveal_strlit(";");
    reveal_strlit(");");
}

/// Every statement of a comparison ends with a semicolon.
pub proof fn law_statements_terminated(
    original: Map<Seq<char>, TableModel>,
    target: Map<Seq<char>, TableModel>,
    i: int,
)
    requires
        0 <= i < diff_ops(original, target).len(),
    ensures
        terminated(statements(diff_ops(original, target))[i]),
{
    law_primary_key_suppression(original, target, i);
    lemma_statement_terminated(diff_ops(original, target)[i]);
}

/// Two tables with the same name, the same columns in the same order, and
/// the same indexes in whatever order.
pub open spec fn same_table(x: TableView, y: TableView) -> bool {
    &&& x.table_name == y.table_name
    &&& x.columns == y.columns
    &&& x.indexes.to_set() == y.indexes.to_set()
}

/// Two lists of tables that hold the same tables in whatever order.
pub open spec fn same_tables(a: Seq<TableView>, b: Seq<TableView>) -> bool {
    &&& forall|i: int|
        0 <= i < a.len() ==> exists|j: int| 0 <= j < b.len() && same_table(#[trigger] a[i], b[j])
    &&& forall|j: int|
        0 <= j < b.len() ==> exists|i: int| 0 <= i < a.len() && same_table(a[i], #[trigger] b[j])
}

/// Indexes with different names make the same mapping in whatever order they
/// stand.
pub proof fn lemma_same_indexes(p: Seq<IndexView>, q: Seq<IndexView>)
    requires
        index_names(p).no_duplicates(),
        p.to_set() == q.to_set(),
    ensures
        index_map(p) == index_map(q),
{
    assert forall|name: Seq<char>| index_map(p).contains_key(name) <==> index_map(q).contains_key(
        name,
    ) by {
        lemma_last_position(index_names(p), name);
        lemma_last_position(index_names(q), name);
        if index_map(p).contains_key(name) {
            let i = last_position(index_names(p), name).unwrap();
            assert(p.contains(p[i]));
            assert(q.to_set().contains(p[i]));
            let j = choose|j: int| 0 <= j < q.len() && q[j] == p[i];
            assert(index_names(q)[j] == name);
        }
        if index_map(q).contains_key(name) {
            let j = last_position(index_names(q), name).unwrap();
            assert(q.contains(q[j]));
            assert(p.to_set().contains(q[j]));
            let i = choose|i: int| 0 <= i < p.len() && p[i] == q[j];
            assert(index_names(p)[i] == name);
        }
    }
    assert forall|name: Seq<char>| index_map(p).contains_key(name) implies index_map(p)[name]
        == index_map(q)[name] by {
        lemma_last_position(index_names(p), name);
        lemma_last_position(index_names(q), name);
        let i = last_position(index_names(p), name).unwrap();
        let j = last_position(index_names(q), name).unwrap();
        assert(q.contains(q[j]));
        assert(p.to_set().contains(q[j]));
        let back = choose|k: int| 0 <= k < p.len() && p[k] == q[j];
        assert(index_names(p)[back] == name);
        assert(index_names(p)[i] == name);
    }
    assert(index_map(p) =~= index_map(q));
}

/// Two tables that are the same but for the order of their indexes are the
/// same to the comparison.
pub proof fn lemma_same_model(x: TableView, y: TableView)
    requires
        valid_table(x),
        same_table(x, y),
    ensures
        table_model(x) == table_model(y),
{
    lemma_valid_table(x);
    lemma_same_indexes(x.indexes, y.indexes);
}

/// The table of the second list that is the same as a table of the first.
proof fn lemma_partner(a: Seq<TableView>, b: Seq<TableView>, i: int) -> (j: int)
    requires
        same_tables(a, b),
        0 <= i < a.len(),
    ensures
        0 <= j < b.len(),
        same_table(a[i], b[j]),
{
    choose|j: int| 0 <= j < b.len() && same_table(a[i], b[j])
}

/// The table of the first list that is the same as a table of the second.
proof fn lemma_partner_back(a: Seq<TableView>, b: Seq<TableView>, j: int) -> (i: int)
    requires
        same_tables(a, b),
        0 <= j < b.len(),
    ensures
        0 <= i < a.len(),
        same_table(a[i], b[j]),
{
    choose|i: int| 0 <= i < a.len() && same_table(a[i], b[j])
}

/// What two lists of the same tables hold under one name.
proof fn lemma_same_snapshot_at(a: Seq<TableView>, b: Seq<TableView>, name: Seq<char>)
    requires
        table_names(a).no_duplicates(),
        forall|i: int| 0 <= i < a.len() ==> valid_table(#[trigger] a[i]),
        same_tables(a, b),
    ensures
        snapshot(a).contains_key(name) == snapshot(b).contains_key(name),
        snapshot(a).contains_key(name) ==> snapshot(a)[name] == snapshot(b)[name],
{
    lemma_last_position(table_names(a), name);
    lemma_last_position(table_names(b), name);
    match last_position(table_names(a), name) {
        Some(i) => {
            let j = lemma_partner(a, b, i);
            assert(table_names(b)[j] == name);
            assert(table_names(b).contains(name));
            let last = last_position(table_names(b), name).unwrap();
            let back = lemma_partner_back(a, b, last);
            assert(table_names(a)[back] == name);
            assert(table_names(a)[i] == name);
            assert(back == i);
            assert(valid_table(a[i]));
            lemma_same_model(a[i], b[last]);
            assert(table_models(a)[i] == table_model(a[i]));
            assert(table_models(b)[last] == table_model(b[last]));
        },
        None => {
            if table_names(b).contains(name) {
                let j = choose|j: int| 0 <= j < b.len() && table_names(b)[j] == name;
                let i = lemma_partner_back(a, b, j);
                assert(table_names(a)[i] == name);
                assert(table_names(a).contains(name));
            }
        },
    }
}

/// Valid tables with different names make the same snapshot in whatever
/// order they stand, each with its indexes in whatever order.
pub proof fn lemma_same_snapshot(a: Seq<TableView>, b: Seq<TableView>)
    requires
        valid_snapshot(a),
        same_tables(a, b),
    ensures
        snapshot(a) == snapshot(b),
{
    lemma_valid_snapshot(a);
    assert forall|name: Seq<char>| #[trigger]
        snapshot(a).dom().contains(name) == snapshot(b).dom().contains(name) by {
        lemma_same_snapshot_at(a, b, name);
    }
    assert forall|name: Seq<char>| snapshot(a).dom().contains(name) implies #[trigger] snapshot(
        a,
    )[name] == snapshot(b)[name] by {
        lemma_same_snapshot_at(a, b, name);
    }
    assert(snapshot(a) =~= snapshot(b));
}

/// Determinism: the order in which the tables of a snapshot are handed in,
/// and the order of the indexes within a table, do not change the
/// operations of a comparison, their order or their statements.
pub proof fn law_determinism(
    original: Seq<TableView>,
    original_again: Seq<TableView>,
    target: Seq<TableView>,
    target_again: Seq<TableView>,
)
    requires
        valid_snapshot(original),
        valid_snapshot(original_again),
        valid_snapshot(target),
        valid_snapshot(target_again),
        same_tables(original, original_again),
        same_tables(target, target_again),
    ensures
        diff_ops(snapshot(original), snapshot(target)) == diff_ops(
            snapshot(original_again),
            snapshot(target_again),
        ),
        statements(diff_ops(snapshot(original), snapshot(target))) == statements(
            diff_ops(snapshot(original_again), snapshot(target_again)),
        ),
{
    lemma_same_snapshot(original, original_again);
    lemma_same_snapshot(target, target_again);
}

} // verus!
