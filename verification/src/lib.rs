//! A KD-tree: points under a flat tree of split planes and tight boxes.
//!
//! [`tree::Tree::new`] builds a tree over row-major points. A tree answers three
//! kinds of questions: the nearest points ([`tree::Tree::query`]), all points
//! within a radius ([`tree::Tree::query_radius_one`],
//! [`tree::Tree::query_radius_many`]), and all pairs of points within a radius of
//! each other ([`tree::Tree::query_pairs`]).
//!
//! [`laws`] states what these operations promise, of what goes into calls and what
//! comes out of them.
//!
//! Everything is written against [`scalar::Scalar`], the numbers that coordinates
//! and distances are made of. [`exact::Int`] is one such type.

pub mod arrange;
pub mod best;
pub mod builder;
pub mod distance;
pub mod error;
pub mod exact;
pub mod kernel;
pub mod lanes;
pub mod laws;
pub mod layout;
pub mod metric;
pub mod node;
pub mod pairs;
pub mod partition;
pub mod perm;
pub mod planes;
pub mod points;
pub mod query;
pub mod radius;
pub mod scalar;
pub mod scan;
pub mod search;
pub mod text;
pub mod tree;
