pub mod apply;
pub mod bdd;
pub mod bdd_util;
pub mod bool_expr;
pub mod bucket;
pub mod clause_database;
pub mod clause_gen;
pub mod parser;
pub mod preprocessing;
pub mod reorder;
pub mod sift;
pub mod solve;
pub mod var_ordering;
pub mod var_ordering_builder;
