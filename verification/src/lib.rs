//! Canonicalization of equi-join predicates in SELECT-PROJECT-JOIN queries.
//!
//! Columns linked transitively by equality comparisons are grouped into
//! equivalence classes over a union-find forest; each class gets a single
//! deterministic representative, and the query's join condition is rebuilt
//! as a left-associated AND-chain of the extracted equalities.

pub mod atoms;
pub mod canon;
pub mod catalog;
pub mod equiv;
pub mod expr;
pub mod registry;
pub mod union_find;
