use schema_diff::{column_is_same_attr, index_is_same_attr, Column, Index};

fn base_column() -> Column {
    Column {
        table_name: "users".to_string(),
        column_name: "name".to_string(),
        original_position: 2,
        column_default: Some("''".to_string()),
        is_nullable: "NO".to_string(),
        column_type: "varchar(50)".to_string(),
        extra: String::new(),
        column_comment: "display name".to_string(),
    }
}

fn base_index() -> Index {
    Index {
        table_name: "users".to_string(),
        index_name: "idx".to_string(),
        non_unique: true,
        column_names: vec!["a".to_string(), "b".to_string()],
        index_type: "BTREE".to_string(),
        extra: String::new(),
    }
}

#[test]
fn column_equals_itself() {
    assert!(column_is_same_attr(&base_column(), &base_column()));
}

#[test]
fn column_name_table_and_position_are_not_compared() {
    let mut other = base_column();
    other.table_name = "people".to_string();
    other.column_name = "title".to_string();
    other.original_position = 9;
    assert!(column_is_same_attr(&base_column(), &other));
}

#[test]
fn column_type_is_compared() {
    let mut other = base_column();
    other.column_type = "varchar(51)".to_string();
    assert!(!column_is_same_attr(&base_column(), &other));
}

#[test]
fn column_nullability_is_compared() {
    let mut other = base_column();
    other.is_nullable = "YES".to_string();
    assert!(!column_is_same_attr(&base_column(), &other));
    assert!(!column_is_same_attr(&other, &base_column()));
}

#[test]
fn column_default_is_compared_and_none_is_not_null() {
    let mut none = base_column();
    none.column_default = None;
    assert!(!column_is_same_attr(&base_column(), &none));
    let mut null = base_column();
    null.column_default = Some("NULL".to_string());
    assert!(!column_is_same_attr(&none, &null));
    let mut none_again = base_column();
    none_again.column_default = None;
    assert!(column_is_same_attr(&none, &none_again));
}

#[test]
fn column_extra_is_compared() {
    let mut other = base_column();
    other.extra = "auto_increment".to_string();
    assert!(!column_is_same_attr(&base_column(), &other));
}

#[test]
fn column_comment_is_compared() {
    let mut other = base_column();
    other.column_comment = String::new();
    assert!(!column_is_same_attr(&base_column(), &other));
}

#[test]
fn index_equals_itself() {
    assert!(index_is_same_attr(&base_index(), &base_index()));
}

#[test]
fn index_name_table_and_extra_are_not_compared() {
    let mut other = base_index();
    other.table_name = "people".to_string();
    other.index_name = "other".to_string();
    other.extra = "auto_increment".to_string();
    assert!(index_is_same_attr(&base_index(), &other));
}

#[test]
fn index_uniqueness_is_compared() {
    let mut other = base_index();
    other.non_unique = false;
    assert!(!index_is_same_attr(&base_index(), &other));
}

#[test]
fn index_column_order_is_compared() {
    let mut other = base_index();
    other.column_names = vec!["b".to_string(), "a".to_string()];
    assert!(!index_is_same_attr(&base_index(), &other));
}

#[test]
fn index_column_count_is_compared() {
    let mut other = base_index();
    other.column_names = vec!["a".to_string()];
    assert!(!index_is_same_attr(&base_index(), &other));
    assert!(!index_is_same_attr(&other, &base_index()));
}

#[test]
fn index_algorithm_is_compared() {
    let mut other = base_index();
    other.index_type = "HASH".to_string();
    assert!(!index_is_same_attr(&base_index(), &other));
}
