//! An in-memory query engine for collections of JSON-like documents:
//! filter trees, multi-key stable sorting, pagination, projection and
//! grouped aggregates, each with a machine-checked contract.
//!
//! Documents are `value::Value`s; what a document stands for is its view, a
//! `value::Json`. Every contract is stated over views: `engine::resolve`
//! says what a dotted path leads to, `filter::satisfies` which documents pass
//! a filter tree, `sort::sorted_by` what order sorting gives,
//! `engine::query_documents` what a query hands back, and
//! `aggregate::aggregate_rows` what rows an aggregation builds.
//!
//! Numbers are held as integers: whole numbers as they are, doubles by
//! their bit patterns. The library compares doubles, but it never adds or
//! divides them. For the aggregates `sum` and `avg`,
//! `aggregate::aggregate_operands` lists the numbers of each group, the
//! caller adds them up, and `aggregate::execute_aggregate` builds the rows
//! from what the caller hands back.

pub mod aggregate;
pub mod engine;
pub mod equality;
pub mod filter;
pub mod number;
pub mod order;
pub mod sort;
pub mod text;
pub mod value;
