use schema_diff::{alter_tables, compare_tables, Column, DiffError, Index, Table};

fn column(table: &str, name: &str, position: u8, column_type: &str, extra: &str) -> Column {
    Column {
        table_name: table.to_string(),
        column_name: name.to_string(),
        original_position: position,
        column_default: None,
        is_nullable: "NO".to_string(),
        column_type: column_type.to_string(),
        extra: extra.to_string(),
        column_comment: String::new(),
    }
}

fn index(table: &str, name: &str, non_unique: bool, columns: &[&str], extra: &str) -> Index {
    Index {
        table_name: table.to_string(),
        index_name: name.to_string(),
        non_unique,
        column_names: columns.iter().map(|c| c.to_string()).collect(),
        index_type: "BTREE".to_string(),
        extra: extra.to_string(),
    }
}

fn table(name: &str, columns: Vec<Column>, indexes: Vec<Index>) -> Table {
    Table { table_name: name.to_string(), columns, indexes }
}

fn users() -> Table {
    table(
        "users",
        vec![
            column("users", "id", 1, "int", "auto_increment"),
            column("users", "email", 2, "varchar(90)", ""),
            column("users", "name", 3, "varchar(50)", ""),
        ],
        vec![
            index("users", "PRIMARY", false, &["id"], "auto_increment"),
            index("users", "idx_name", true, &["name"], ""),
            index("users", "idx_email", false, &["email"], ""),
        ],
    )
}

fn orders() -> Table {
    table(
        "orders",
        vec![column("orders", "id", 1, "bigint", ""), column("orders", "user_id", 2, "int", "")],
        vec![index("orders", "PRIMARY", false, &["id"], ""), index("orders", "idx_user", true, &["user_id"], "")],
    )
}

#[test]
fn added_column_is_anchored_after_its_predecessor() {
    let original = table(
        "users",
        vec![column("users", "id", 1, "int", "auto_increment"), column("users", "name", 2, "varchar(50)", "")],
        vec![index("users", "PRIMARY", false, &["id"], "auto_increment")],
    );
    let target = table("users", vec![column("users", "id", 1, "int", "auto_increment")], vec![]);
    let statements = compare_tables(vec![original], vec![target]).unwrap();
    assert_eq!(
        statements,
        vec!["ALTER TABLE `users` ADD COLUMN `name` varchar(50) NOT NULL   COMMENT '' AFTER `id`;".to_string()]
    );
}

#[test]
fn changed_index_is_dropped_then_added() {
    let columns = || vec![column("accounts", "email", 1, "varchar(255)", ""), column("accounts", "tenant_id", 2, "int", "")];
    let original = table("accounts", columns(), vec![index("accounts", "idx_email", false, &["email"], "")]);
    let target = table("accounts", columns(), vec![index("accounts", "idx_email", true, &["email", "tenant_id"], "")]);
    let statements = alter_tables(&original, &target).unwrap();
    assert_eq!(
        statements,
        vec![
            "ALTER TABLE `accounts` DROP INDEX `idx_email`;".to_string(),
            "ALTER TABLE `accounts` ADD UNIQUE INDEX `idx_email` (`email`) USING BTREE;".to_string(),
        ]
    );
}

#[test]
fn table_only_in_target_is_dropped_whole() {
    let target = table(
        "legacy",
        vec![column("legacy", "id", 1, "int", ""), column("legacy", "v", 2, "text", "")],
        vec![index("legacy", "idx_v", true, &["v"], "")],
    );
    let statements = compare_tables(vec![], vec![target]).unwrap();
    assert_eq!(statements, vec!["DROP TABLE IF EXISTS `legacy`;".to_string()]);
}

#[test]
fn snapshot_compared_with_itself_needs_nothing() {
    let statements = compare_tables(vec![users(), orders()], vec![users(), orders()]).unwrap();
    assert_eq!(statements, Vec::<String>::new());
    let statements = alter_tables(&users(), &users()).unwrap();
    assert_eq!(statements, Vec::<String>::new());
}

#[test]
fn empty_snapshots_need_nothing() {
    assert_eq!(compare_tables(vec![], vec![]).unwrap(), Vec::<String>::new());
}

#[test]
fn order_of_tables_and_indexes_does_not_change_the_output() {
    let original = || {
        vec![
            users(),
            orders(),
            table("audit", vec![column("audit", "at", 1, "datetime", "")], vec![index("audit", "idx_at", true, &["at"], "")]),
        ]
    };
    let target = || {
        vec![
            table("users", vec![column("users", "id", 1, "int", "auto_increment"), column("users", "nick", 2, "text", "")], vec![
                index("users", "idx_nick", true, &["nick"], ""),
                index("users", "idx_email", true, &["id"], ""),
            ]),
            table("zombie", vec![column("zombie", "id", 1, "int", "")], vec![]),
            table("attic", vec![column("attic", "id", 1, "int", "")], vec![]),
        ]
    };
    let first = compare_tables(original(), target()).unwrap();

    let mut shuffled_original = original();
    shuffled_original.reverse();
    for t in shuffled_original.iter_mut() {
        t.indexes.reverse();
    }
    let mut shuffled_target = target();
    shuffled_target.swap(0, 2);
    for t in shuffled_target.iter_mut() {
        t.indexes.reverse();
    }
    let second = compare_tables(shuffled_original, shuffled_target).unwrap();
    assert_eq!(first, second);
    assert_eq!(
        first,
        vec![
            "CREATE TABLE `audit`(\n`at` datetime NOT NULL   COMMENT '',\nINDEX `idx_at` (`at`) USING BTREE);".to_string(),
            "CREATE TABLE `orders`(\n`id` bigint NOT NULL   COMMENT '',\n`user_id` int NOT NULL   COMMENT '',\nPRIMARY KEY (`id`) USING BTREE,\nINDEX `idx_user` (`user_id`) USING BTREE);".to_string(),
            "ALTER TABLE `users` DROP INDEX `idx_nick`;".to_string(),
            "ALTER TABLE `users` DROP INDEX `idx_email`;".to_string(),
            "ALTER TABLE `users` ADD COLUMN `email` varchar(90) NOT NULL   COMMENT '' AFTER `id`;".to_string(),
            "ALTER TABLE `users` ADD COLUMN `name` varchar(50) NOT NULL   COMMENT '' AFTER `email`;".to_string(),
            "ALTER TABLE `users` DROP COLUMN `nick`;".to_string(),
            "ALTER TABLE `users` ADD UNIQUE INDEX `idx_email` (`email`) USING BTREE;".to_string(),
            "ALTER TABLE `users` ADD INDEX `idx_name` (`name`) USING BTREE;".to_string(),
            "DROP TABLE IF EXISTS `attic`;".to_string(),
            "DROP TABLE IF EXISTS `zombie`;".to_string(),
        ]
    );
}

#[test]
fn alter_runs_through_its_phases_in_order() {
    let original = table(
        "t",
        vec![
            column("t", "a", 1, "int", ""),
            column("t", "b", 2, "bigint", ""),
            column("t", "c", 3, "int", ""),
        ],
        vec![index("t", "idx_new", true, &["a"], ""), index("t", "idx_changed", true, &["b"], "")],
    );
    let target = table(
        "t",
        vec![column("t", "z", 1, "int", ""), column("t", "b", 2, "int", ""), column("t", "y", 3, "int", "")],
        vec![
            index("t", "idx_stale", true, &["z"], ""),
            index("t", "idx_changed", false, &["b"], ""),
            index("t", "idx_also_stale", true, &["y"], ""),
        ],
    );
    let statements = alter_tables(&original, &target).unwrap();
    assert_eq!(
        statements,
        vec![
            "ALTER TABLE `t` DROP INDEX `idx_also_stale`;".to_string(),
            "ALTER TABLE `t` DROP INDEX `idx_stale`;".to_string(),
            "ALTER TABLE `t` DROP INDEX `idx_changed`;".to_string(),
            "ALTER TABLE `t` ADD COLUMN `a` int NOT NULL   COMMENT '' FIRST;".to_string(),
            "ALTER TABLE `t` ADD COLUMN `c` int NOT NULL   COMMENT '' AFTER `b`;".to_string(),
            "ALTER TABLE `t` MODIFY COLUMN `b` bigint NOT NULL   COMMENT '' AFTER `a`;".to_string(),
            "ALTER TABLE `t` DROP COLUMN `y`;".to_string(),
            "ALTER TABLE `t` DROP COLUMN `z`;".to_string(),
            "ALTER TABLE `t` ADD INDEX `idx_changed` (`b`) USING BTREE;".to_string(),
            "ALTER TABLE `t` ADD INDEX `idx_new` (`a`) USING BTREE;".to_string(),
        ]
    );
}

#[test]
fn implicit_primary_key_is_neither_added_nor_dropped() {
    let with_key = || {
        table(
            "t",
            vec![column("t", "id", 1, "int", "auto_increment")],
            vec![index("t", "PRIMARY", false, &["id"], "auto_increment")],
        )
    };
    let without_key = || table("t", vec![column("t", "id", 1, "int", "auto_increment")], vec![]);
    assert_eq!(alter_tables(&with_key(), &without_key()).unwrap(), Vec::<String>::new());
    assert_eq!(alter_tables(&without_key(), &with_key()).unwrap(), Vec::<String>::new());

    let other_key = table(
        "t",
        vec![column("t", "id", 1, "int", "auto_increment"), column("t", "code", 2, "int", "")],
        vec![index("t", "PRIMARY", false, &["id", "code"], "auto_increment")],
    );
    let wanted = table(
        "t",
        vec![column("t", "id", 1, "int", "auto_increment"), column("t", "code", 2, "int", "")],
        vec![index("t", "PRIMARY", false, &["id"], "auto_increment")],
    );
    assert_eq!(alter_tables(&wanted, &other_key).unwrap(), Vec::<String>::new());
}

#[test]
fn explicit_primary_key_is_added_and_dropped() {
    let with_key = || {
        table("t", vec![column("t", "code", 1, "int", "")], vec![index("t", "PRIMARY", false, &["code"], "")])
    };
    let without_key = || table("t", vec![column("t", "code", 1, "int", "")], vec![]);
    assert_eq!(
        alter_tables(&with_key(), &without_key()).unwrap(),
        vec!["ALTER TABLE `t` ADD PRIMARY KEY (`code`) USING BTREE;".to_string()]
    );
    assert_eq!(
        alter_tables(&without_key(), &with_key()).unwrap(),
        vec!["ALTER TABLE `t` DROP INDEX `PRIMARY`;".to_string()]
    );
}

#[test]
fn created_table_leaves_the_implicit_primary_key_to_the_column() {
    let statements = compare_tables(vec![users()], vec![]).unwrap();
    assert_eq!(
        statements,
        vec![
            "CREATE TABLE `users`(\n`id` int NOT NULL  PRIMARY KEY AUTO_INCREMENT COMMENT '',\n`email` varchar(90) NOT NULL   COMMENT '',\n`name` varchar(50) NOT NULL   COMMENT '',\nUNIQUE INDEX `idx_email` (`email`) USING BTREE,\nINDEX `idx_name` (`name`) USING BTREE);".to_string()
        ]
    );
}

#[test]
fn reordered_columns_alone_are_no_change() {
    let original = table("t", vec![column("t", "a", 1, "int", ""), column("t", "b", 2, "int", "")], vec![]);
    let target = table("t", vec![column("t", "b", 1, "int", ""), column("t", "a", 2, "int", "")], vec![]);
    assert_eq!(alter_tables(&original, &target).unwrap(), Vec::<String>::new());
}

#[test]
fn result_of_the_migration_needs_nothing_more() {
    let original = users();
    let migrated = table(
        "users",
        vec![
            column("users", "id", 1, "int", "auto_increment"),
            column("users", "email", 2, "varchar(90)", ""),
            column("users", "name", 3, "varchar(50)", ""),
        ],
        vec![index("users", "idx_email", false, &["email"], ""), index("users", "idx_name", true, &["name"], "")],
    );
    assert_eq!(compare_tables(vec![original], vec![migrated]).unwrap(), Vec::<String>::new());
}

#[test]
fn invalid_original_is_reported_before_invalid_target() {
    let bad_original = vec![orders(), orders()];
    let bad_target = vec![table("t", vec![column("t", "a", 1, "int", ""), column("t", "a", 2, "int", "")], vec![])];
    assert_eq!(
        compare_tables(bad_original, bad_target),
        Err(DiffError::TableCollision { table: "orders".to_string() })
    );
    let bad_target = vec![table("t", vec![column("t", "a", 1, "int", ""), column("t", "a", 2, "int", "")], vec![])];
    assert_eq!(
        compare_tables(vec![orders()], bad_target),
        Err(DiffError::ColumnCollision { table: "t".to_string(), column: "a".to_string() })
    );
}

#[test]
fn alter_refuses_invalid_tables() {
    let bad = table("t", vec![column("t", "a", 1, "int", "")], vec![index("t", "i", true, &[], "")]);
    let good = table("t", vec![column("t", "a", 1, "int", "")], vec![]);
    assert_eq!(
        alter_tables(&good, &bad),
        Err(DiffError::EmptyIndex { table: "t".to_string(), index: "i".to_string() })
    );
    assert_eq!(
        alter_tables(&bad, &good),
        Err(DiffError::EmptyIndex { table: "t".to_string(), index: "i".to_string() })
    );
}
