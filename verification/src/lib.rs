//! WackDB: a small relational storage engine with verified core logic.
pub mod btree;
pub mod btree_node;
pub mod buffer;
pub mod catalog;
pub mod cli;
pub mod commands;
pub mod console;
pub mod config;
pub mod dtos;
pub mod page;
pub mod predicate;
pub mod query;
pub mod scan;
pub mod schema;
pub mod sort;
pub mod sql;
pub mod storage;
pub mod text;
pub mod tuple;
pub mod types;
pub mod value;
pub mod wal;
