//! Worst-case-optimal join evaluation over hash-trie indexes.
//!
//! A query is a conjunction of relational atoms and computational operators over a set of
//! variables. Planning fixes a variable order, derives a trie index shape for every atom,
//! and assigns atoms and operators to per-variable levels; execution intersects the tries
//! one variable at a time, depth-first (`join`) or breadth-first (`join_bfs`).

pub mod ident;
pub mod counting;
pub mod value;
pub mod hash;
pub mod op;
pub mod sorting;
pub mod join;
pub mod grounding;
pub mod validation;
pub mod var_order;
pub mod join_bfs;
pub mod correctness;
pub mod vec_db;
pub mod graph;
pub mod edge_list;

pub use ident::Ident;
pub use value::{Value, ValueType, TagError};
pub use op::Operator;
pub use join::{Atom, Database, ExecutableQuery, IndexColumnShape, Indexes, Level, QueryPlan, Query, Trie, PlanError};
pub use validation::QueryError;
pub use vec_db::VecDb;
pub use graph::{binary_triangles_directed, binary_triangles_undirected, edge_db, to_low_high};
pub use hash::{FxHasher, FxBuildHasher};
