use schema_diff::{validate_table, validate_tables, Column, DiffError, ErrorKind, Index, Table};

fn column(name: &str) -> Column {
    Column {
        table_name: "t".to_string(),
        column_name: name.to_string(),
        original_position: 1,
        column_default: None,
        is_nullable: "NO".to_string(),
        column_type: "int".to_string(),
        extra: String::new(),
        column_comment: String::new(),
    }
}

fn index(name: &str, columns: &[&str]) -> Index {
    Index {
        table_name: "t".to_string(),
        index_name: name.to_string(),
        non_unique: true,
        column_names: columns.iter().map(|c| c.to_string()).collect(),
        index_type: "BTREE".to_string(),
        extra: String::new(),
    }
}

fn table(name: &str, columns: Vec<Column>, indexes: Vec<Index>) -> Table {
    Table { table_name: name.to_string(), columns, indexes }
}

#[test]
fn valid_table_passes() {
    let t = table("t", vec![column("a"), column("b")], vec![index("i", &["b", "a"]), index("j", &["a"])]);
    assert_eq!(validate_table(&t), Ok(()));
    assert_eq!(validate_tables(&vec![t, table("u", vec![], vec![])]), Ok(()));
}

#[test]
fn table_collision_names_the_table() {
    let tables = vec![table("a", vec![], vec![]), table("b", vec![], vec![]), table("a", vec![], vec![])];
    let e = validate_tables(&tables).unwrap_err();
    assert_eq!(e, DiffError::TableCollision { table: "a".to_string() });
    assert_eq!(e.kind(), ErrorKind::Integrity);
    assert_eq!(e.message(), "table `a` occurs more than once");
}

#[test]
fn column_collision_names_table_and_column() {
    let t = table("t", vec![column("a"), column("b"), column("b"), column("a")], vec![]);
    let e = validate_table(&t).unwrap_err();
    assert_eq!(e, DiffError::ColumnCollision { table: "t".to_string(), column: "b".to_string() });
    assert_eq!(e.kind(), ErrorKind::Integrity);
    assert_eq!(e.message(), "column `b` occurs more than once in table `t`");
}

#[test]
fn index_collision_names_table_and_index() {
    let t = table("t", vec![column("a")], vec![index("i", &["a"]), index("i", &["a"])]);
    let e = validate_table(&t).unwrap_err();
    assert_eq!(e, DiffError::IndexCollision { table: "t".to_string(), index: "i".to_string() });
    assert_eq!(e.kind(), ErrorKind::Integrity);
    assert_eq!(e.message(), "index `i` occurs more than once in table `t`");
}

#[test]
fn unknown_index_column_names_the_first_one() {
    let t = table("t", vec![column("a")], vec![index("i", &["a", "x", "y"])]);
    let e = validate_table(&t).unwrap_err();
    assert_eq!(
        e,
        DiffError::UnknownIndexColumn { table: "t".to_string(), index: "i".to_string(), column: "x".to_string() }
    );
    assert_eq!(e.kind(), ErrorKind::Integrity);
    assert_eq!(e.message(), "index `i` of table `t` covers the unknown column `x`");
}

#[test]
fn empty_index_is_a_render_error() {
    let t = table("t", vec![column("a")], vec![index("i", &[])]);
    let e = validate_table(&t).unwrap_err();
    assert_eq!(e, DiffError::EmptyIndex { table: "t".to_string(), index: "i".to_string() });
    assert_eq!(e.kind(), ErrorKind::Render);
    assert_eq!(e.message(), "index `i` of table `t` covers no column");
}

#[test]
fn implicit_primary_key_may_be_empty_but_not_cover_unknown_columns() {
    let mut primary = index("PRIMARY", &[]);
    primary.extra = "auto_increment".to_string();
    assert_eq!(validate_table(&table("t", vec![column("a")], vec![primary])), Ok(()));
    let mut primary = index("PRIMARY", &["ghost"]);
    primary.extra = "auto_increment".to_string();
    assert_eq!(
        validate_table(&table("t", vec![column("a")], vec![primary])),
        Err(DiffError::UnknownIndexColumn {
            table: "t".to_string(),
            index: "PRIMARY".to_string(),
            column: "ghost".to_string(),
        })
    );
}

#[test]
fn faults_are_reported_in_reading_order() {
    // columns before indexes, an index's emptiness before its columns
    let t = table("t", vec![column("a"), column("a")], vec![index("i", &[]), index("i", &["x"])]);
    assert_eq!(
        validate_table(&t),
        Err(DiffError::ColumnCollision { table: "t".to_string(), column: "a".to_string() })
    );
    let t = table("t", vec![column("a")], vec![index("i", &["x"]), index("i", &[])]);
    assert_eq!(
        validate_table(&t),
        Err(DiffError::IndexCollision { table: "t".to_string(), index: "i".to_string() })
    );
    let t = table("t", vec![column("a")], vec![index("i", &["x"]), index("j", &[])]);
    assert_eq!(
        validate_table(&t),
        Err(DiffError::UnknownIndexColumn { table: "t".to_string(), index: "i".to_string(), column: "x".to_string() })
    );
    // a collision of tables before the faults within a table
    let tables = vec![
        table("t", vec![column("a"), column("a")], vec![]),
        table("t", vec![], vec![]),
    ];
    assert_eq!(validate_tables(&tables), Err(DiffError::TableCollision { table: "t".to_string() }));
    // the first faulty table
    let tables = vec![
        table("ok", vec![column("a")], vec![]),
        table("bad", vec![column("a")], vec![index("i", &[])]),
        table("worse", vec![column("a"), column("a")], vec![]),
    ];
    assert_eq!(
        validate_tables(&tables),
        Err(DiffError::EmptyIndex { table: "bad".to_string(), index: "i".to_string() })
    );
}
