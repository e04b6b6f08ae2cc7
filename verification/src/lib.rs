//! Schema comparison for relational databases: two snapshots of a schema are
//! matched by name and the difference is rendered as an ordered list of DDL
//! statements that moves the target schema toward the original one.
//!
//! - [`table`] holds the snapshot model, [`model`] the same snapshot as
//!   mappings by name, and [`names`] the order of names.
//! - [`matcher`] keys tables, columns and indexes by name; [`comparator`]
//!   decides whether two of them are the same.
//! - [`validate`] checks a snapshot, and [`error`] names what can be wrong.
//! - [`operation`] and [`plan`] say what a comparison plans and in which
//!   order, and [`render`] writes the statements.
//! - [`laws`], [`migration`] and [`convergence`] prove what holds of every
//!   comparison.
//! - [`collect`], [`options`] and [`script`] serve the program around the
//!   comparison: catalog rows in, connection addresses and the script out.

pub mod collect;
pub mod comparator;
pub mod convergence;
pub mod error;
pub mod laws;
pub mod matcher;
pub mod migration;
pub mod model;
pub mod names;
pub mod operation;
pub mod options;
pub mod plan;
pub mod render;
pub mod script;
pub mod table;
pub mod text;
pub mod validate;

pub use crate::collect::{
    assemble_tables, collect_indexes, columns_query, group_columns, group_indexes, indexes_query,
    IndexRow,
};
pub use crate::comparator::{column_is_same_attr, index_is_same_attr};
pub use crate::error::{DiffError, ErrorKind};
pub use crate::matcher::{map_columns, map_indexes, map_tables};
pub use crate::options::DbConfig;
pub use crate::plan::{alter_tables, compare_tables};
pub use crate::render::{
    generate_add_column, generate_add_index, generate_column, generate_create_table,
    generate_drop_column, generate_drop_index, generate_drop_table, generate_index,
    generate_modify_column,
};
pub use crate::script::script;
pub use crate::table::{Column, Index, Table};
pub use crate::validate::{validate_table, validate_tables};
