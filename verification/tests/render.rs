use schema_diff::{
    generate_add_column, generate_add_index, generate_column, generate_create_table,
    generate_drop_column, generate_drop_index, generate_drop_table, generate_index,
    generate_modify_column, Column, DiffError, Index, Table,
};

fn plain_column(table: &str, name: &str, column_type: &str) -> Column {
    Column {
        table_name: table.to_string(),
        column_name: name.to_string(),
        original_position: 1,
        column_default: None,
        is_nullable: "NO".to_string(),
        column_type: column_type.to_string(),
        extra: String::new(),
        column_comment: String::new(),
    }
}

fn plain_index(table: &str, name: &str, non_unique: bool, columns: &[&str]) -> Index {
    Index {
        table_name: table.to_string(),
        index_name: name.to_string(),
        non_unique,
        column_names: columns.iter().map(|c| c.to_string()).collect(),
        index_type: "BTREE".to_string(),
        extra: String::new(),
    }
}

#[test]
fn column_not_null_without_default() {
    let column = plain_column("users", "name", "varchar(50)");
    assert_eq!(generate_column(&column), "`name` varchar(50) NOT NULL   COMMENT ''");
}

#[test]
fn column_nullable_with_default_and_comment() {
    let mut column = plain_column("users", "age", "int");
    column.is_nullable = "YES".to_string();
    column.column_default = Some("0".to_string());
    column.column_comment = "years".to_string();
    assert_eq!(generate_column(&column), "`age` int NULL DEFAULT 0  COMMENT 'years'");
}

#[test]
fn column_auto_increment_carries_the_primary_key() {
    let mut column = plain_column("users", "id", "int");
    column.extra = "auto_increment".to_string();
    assert_eq!(
        generate_column(&column),
        "`id` int NOT NULL  PRIMARY KEY AUTO_INCREMENT COMMENT ''"
    );
}

#[test]
fn column_other_extra_is_not_written() {
    let mut column = plain_column("users", "seen", "timestamp");
    column.extra = "on update CURRENT_TIMESTAMP".to_string();
    assert_eq!(generate_column(&column), "`seen` timestamp NOT NULL   COMMENT ''");
}

#[test]
fn column_nullable_only_on_yes() {
    let mut column = plain_column("users", "name", "text");
    column.is_nullable = "yes".to_string();
    assert_eq!(generate_column(&column), "`name` text NOT NULL   COMMENT ''");
}

#[test]
fn add_column_first() {
    let column = plain_column("users", "id", "int");
    assert_eq!(
        generate_add_column(&column, String::new()),
        "ALTER TABLE `users` ADD COLUMN `id` int NOT NULL   COMMENT '' FIRST;"
    );
}

#[test]
fn add_column_after() {
    let column = plain_column("users", "name", "varchar(50)");
    assert_eq!(
        generate_add_column(&column, "id".to_string()),
        "ALTER TABLE `users` ADD COLUMN `name` varchar(50) NOT NULL   COMMENT '' AFTER `id`;"
    );
}

#[test]
fn modify_column_first_and_after() {
    let column = plain_column("users", "name", "varchar(80)");
    assert_eq!(
        generate_modify_column(&column, String::new()),
        "ALTER TABLE `users` MODIFY COLUMN `name` varchar(80) NOT NULL   COMMENT '' FIRST;"
    );
    assert_eq!(
        generate_modify_column(&column, "id".to_string()),
        "ALTER TABLE `users` MODIFY COLUMN `name` varchar(80) NOT NULL   COMMENT '' AFTER `id`;"
    );
}

#[test]
fn drop_column_statement() {
    let column = plain_column("users", "legacy", "int");
    assert_eq!(generate_drop_column(&column), "ALTER TABLE `users` DROP COLUMN `legacy`;");
}

#[test]
fn index_plain() {
    let index = plain_index("users", "idx_name", true, &["name"]);
    assert_eq!(generate_index(&index).unwrap(), "INDEX `idx_name` (`name`) USING BTREE");
}

#[test]
fn index_unique_keeps_the_order_of_its_columns() {
    let index = plain_index("users", "uq", false, &["tenant_id", "email"]);
    assert_eq!(
        generate_index(&index).unwrap(),
        "UNIQUE INDEX `uq` (`tenant_id`,`email`) USING BTREE"
    );
}

#[test]
fn index_primary_key_explicit() {
    let mut index = plain_index("users", "PRIMARY", false, &["a", "b"]);
    index.index_type = "HASH".to_string();
    assert_eq!(generate_index(&index).unwrap(), "PRIMARY KEY (`a`,`b`) USING HASH");
}

#[test]
fn index_named_primary_but_not_unique() {
    let index = plain_index("users", "PRIMARY", true, &["a"]);
    assert_eq!(generate_index(&index).unwrap(), "INDEX `PRIMARY` (`a`) USING BTREE");
}

#[test]
fn index_implicit_primary_key_has_no_text() {
    let mut index = plain_index("users", "PRIMARY", false, &["id"]);
    index.extra = "auto_increment".to_string();
    assert_eq!(generate_index(&index).unwrap(), "");
    assert_eq!(generate_add_index(&index).unwrap(), "");
}

#[test]
fn index_auto_increment_under_another_name_is_written() {
    let mut index = plain_index("users", "uq_id", false, &["id"]);
    index.extra = "auto_increment".to_string();
    assert_eq!(generate_index(&index).unwrap(), "UNIQUE INDEX `uq_id` (`id`) USING BTREE");
}

#[test]
fn index_without_columns_is_refused() {
    let index = plain_index("users", "idx_none", true, &[]);
    let expected = DiffError::EmptyIndex { table: "users".to_string(), index: "idx_none".to_string() };
    assert_eq!(generate_index(&index), Err(expected));
    let expected = DiffError::EmptyIndex { table: "users".to_string(), index: "idx_none".to_string() };
    assert_eq!(generate_add_index(&index), Err(expected));
}

#[test]
fn implicit_primary_key_without_columns_is_not_refused() {
    let mut index = plain_index("users", "PRIMARY", false, &[]);
    index.extra = "auto_increment".to_string();
    assert_eq!(generate_index(&index).unwrap(), "");
}

#[test]
fn add_index_statement() {
    let index = plain_index("users", "idx_email", false, &["email"]);
    assert_eq!(
        generate_add_index(&index).unwrap(),
        "ALTER TABLE `users` ADD UNIQUE INDEX `idx_email` (`email`) USING BTREE;"
    );
}

#[test]
fn drop_index_statement() {
    let index = plain_index("users", "idx_email", false, &["email"]);
    assert_eq!(generate_drop_index(&index), "ALTER TABLE `users` DROP INDEX `idx_email`;");
}

#[test]
fn drop_table_statement() {
    let table = Table { table_name: "legacy".to_string(), columns: vec![], indexes: vec![] };
    assert_eq!(generate_drop_table(&table), "DROP TABLE IF EXISTS `legacy`;");
}

#[test]
fn create_table_lists_columns_then_indexes_by_name() {
    let mut id = plain_column("users", "id", "int");
    id.extra = "auto_increment".to_string();
    let mut primary = plain_index("users", "PRIMARY", false, &["id"]);
    primary.extra = "auto_increment".to_string();
    let table = Table {
        table_name: "users".to_string(),
        columns: vec![id, plain_column("users", "name", "varchar(50)"), plain_column("users", "email", "varchar(90)")],
        indexes: vec![
            plain_index("users", "idx_name", true, &["name"]),
            primary,
            plain_index("users", "idx_email", false, &["email"]),
        ],
    };
    assert_eq!(
        generate_create_table(&table).unwrap(),
        "CREATE TABLE `users`(\n\
         `id` int NOT NULL  PRIMARY KEY AUTO_INCREMENT COMMENT '',\n\
         `name` varchar(50) NOT NULL   COMMENT '',\n\
         `email` varchar(90) NOT NULL   COMMENT '',\n\
         UNIQUE INDEX `idx_email` (`email`) USING BTREE,\n\
         INDEX `idx_name` (`name`) USING BTREE);"
    );
}

#[test]
fn create_table_without_anything() {
    let table = Table { table_name: "empty".to_string(), columns: vec![], indexes: vec![] };
    assert_eq!(generate_create_table(&table).unwrap(), "CREATE TABLE `empty`(\n);");
}

#[test]
fn create_table_refuses_an_invalid_table() {
    let table = Table {
        table_name: "users".to_string(),
        columns: vec![plain_column("users", "id", "int")],
        indexes: vec![plain_index("users", "idx_ghost", true, &["ghost"])],
    };
    assert_eq!(
        generate_create_table(&table),
        Err(DiffError::UnknownIndexColumn {
            table: "users".to_string(),
            index: "idx_ghost".to_string(),
            column: "ghost".to_string(),
        })
    );
}
