use schema_diff::names::{ascending_order, name_before, position_of};
use schema_diff::{map_columns, map_indexes, map_tables, Column, Index, Table};

fn strings(values: &[&str]) -> Vec<String> {
    values.iter().map(|v| v.to_string()).collect()
}

fn column(name: &str, column_type: &str) -> Column {
    Column {
        table_name: "t".to_string(),
        column_name: name.to_string(),
        original_position: 1,
        column_default: None,
        is_nullable: "NO".to_string(),
        column_type: column_type.to_string(),
        extra: String::new(),
        column_comment: String::new(),
    }
}

fn index(name: &str, columns: &[&str]) -> Index {
    Index {
        table_name: "t".to_string(),
        index_name: name.to_string(),
        non_unique: true,
        column_names: strings(columns),
        index_type: "BTREE".to_string(),
        extra: String::new(),
    }
}

#[test]
fn names_are_ordered_as_strings_are() {
    let cases = [
        ("", ""),
        ("", "a"),
        ("a", ""),
        ("a", "b"),
        ("b", "a"),
        ("ab", "abc"),
        ("abc", "ab"),
        ("abc", "abd"),
        ("B", "a"),
        ("a", "B"),
        ("users", "users"),
        ("z", "é"),
        ("é", "z"),
        ("é", "日本"),
        ("日本", "é"),
        ("a_b", "ab"),
        ("idx_10", "idx_9"),
    ];
    for (a, b) in cases {
        assert_eq!(name_before(&a.to_string(), &b.to_string()), a < b, "{a:?} before {b:?}");
    }
}

#[test]
fn position_is_the_last_one() {
    let names = strings(&["a", "b", "a", "c"]);
    assert_eq!(position_of(&names, &"a".to_string()), Some(2));
    assert_eq!(position_of(&names, &"b".to_string()), Some(1));
    assert_eq!(position_of(&names, &"c".to_string()), Some(3));
    assert_eq!(position_of(&names, &"d".to_string()), None);
    assert_eq!(position_of(&vec![], &"a".to_string()), None);
}

#[test]
fn ascending_order_lists_each_name_once() {
    assert_eq!(ascending_order(&strings(&["m", "b", "z", "a"])), vec![3, 1, 0, 2]);
    assert_eq!(ascending_order(&strings(&["b", "a", "b", "a", "c"])), vec![3, 2, 4]);
    assert_eq!(ascending_order(&strings(&[])), Vec::<usize>::new());
    assert_eq!(ascending_order(&strings(&["x", "x", "x"])), vec![2]);
}

#[test]
fn map_columns_sorts_and_keeps_the_last_of_a_name() {
    let sorted = map_columns(&vec![column("b", "int"), column("a", "int"), column("b", "text")]);
    assert_eq!(sorted, vec![column("a", "int"), column("b", "text")]);
}

#[test]
fn map_indexes_sorts_and_keeps_the_last_of_a_name() {
    let sorted = map_indexes(&vec![index("z", &["a"]), index("k", &["a"]), index("z", &["b"]), index("a", &["c"])]);
    assert_eq!(sorted, vec![index("a", &["c"]), index("k", &["a"]), index("z", &["b"])]);
}

#[test]
fn map_tables_sorts_and_keeps_the_last_of_a_name() {
    let table = |name: &str, columns: Vec<Column>| Table { table_name: name.to_string(), columns, indexes: vec![] };
    let sorted = map_tables(vec![
        table("users", vec![column("a", "int")]),
        table("orders", vec![]),
        table("users", vec![column("b", "int")]),
    ]);
    assert_eq!(sorted, vec![table("orders", vec![]), table("users", vec![column("b", "int")])]);
    assert_eq!(map_tables(vec![]), Vec::<Table>::new());
}
