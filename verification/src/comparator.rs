//! The attribute comparator: whether two columns, or two indexes, of the same
//! name are the same thing.

use vstd::prelude::*;
use crate::table::{Column, ColumnView, Index, IndexView};
use crate::text::reads;

verus! {

/// Whether a column accepts NULL.
pub open spec fn nullable(column: ColumnView) -> bool {
    column.is_nullable == "YES"@
}

/// Two columns agree in type, nullability, default, extra flags and comment.
/// Their names, tables and positions are not compared.
pub open spec fn same_column(a: ColumnView, b: ColumnView) -> bool {
    &&& a.column_type == b.column_type
    &&& nullable(a) == nullable(b)
    &&& a.column_default == b.column_default
    &&& a.extra == b.extra
    &&& a.column_comment == b.column_comment
}

/// Two indexes agree in uniqueness, in their columns and the order of these,
/// and in algorithm. Their names, tables and extra flags are not compared.
pub open spec fn same_index(a: IndexView, b: IndexView) -> bool {
    &&& a.non_unique == b.non_unique
    &&& a.column_names == b.column_names
    &&& a.index_type == b.index_type
}

/// Whether two lists hold the same strings in the same order.
pub fn same_strings(a: &Vec<String>, b: &Vec<String>) -> (same: bool)
    ensures
        same == (a.deep_view() == b.deep_view()),
{
    if a.len() != b.len() {
        assert(a.deep_view().len() != b.deep_view().len());
        return false;
    }
    let mut i: usize = 0;
    while i < a.len()
        invariant
            i <= a.len(),
            a.len() == b.len(),
            forall|k: int| 0 <= k < i ==> a[k]@ == b[k]@,
        decreases a.len() - i,
    {
        if a[i] != b[i] {
            assert(a.deep_view()[i as int] != b.deep_view()[i as int]);
            return false;
        }
        i += 1;
    }
    assert(a.deep_view() =~= b.deep_view());
    true
}

/// Whether two optional strings are both absent or both present and equal.
pub fn same_optional(a: &Option<String>, b: &Option<String>) -> (same: bool)
    ensures
        same == (a.deep_view() == b.deep_view()),
{
    match (a, b) {
        (Some(x), Some(y)) => *x == *y,
        (None, None) => true,
        _ => false,
    }
}

/// Decides whether the column of the original and the column of the target
/// are the same but for name and position.
pub fn column_is_same_attr(original_column: &Column, target_column: &Column) -> (same: bool)
    ensures
        same == same_column(original_column@, target_column@),
{
    original_column.column_type == target_column.column_type && reads(
        &original_column.is_nullable,
        "YES",
    ) == reads(&target_column.is_nullable, "YES") && same_optional(
        &original_column.column_default,
        &target_column.column_default,
    ) && original_column.extra == target_column.extra && original_column.column_comment
        == target_column.column_comment
}

/// Decides whether the index of the original and the index of the target are
/// the same but for name and extra flags.
pub fn index_is_same_attr(original_index: &Index, target_index: &Index) -> (same: bool)
    ensures
        same == same_index(original_index@, target_index@),
{
    original_index.non_unique == target_index.non_unique && same_strings(
        &original_index.column_names,
        &target_index.column_names,
    ) && original_index.index_type == target_index.index_type
}

} // verus!
