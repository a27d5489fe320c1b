//! A document store with a flexible query language and built-in undo support.
//!
//! Objects are maps from property names to string or integer values. All
//! writes go through checkpoints, which commit atomically under a
//! description and can be undone one by one; queries compose equality,
//! identity and word-pattern criteria, and compile to a backing where-clause
//! for a relational substrate.

pub mod like;
pub mod model;
pub mod object;
pub mod query;
pub mod query_builder;
pub mod store;
pub mod text;

pub use object::{IntoPropValue, Object, PropValue};
pub use query::QueryNode;
pub use query_builder::{IntoQueryNode, Q, QueryBuilder};
pub use store::{
    CachedMapping, Checkpoint, Collection, ConversionError, MutableCollection, ObjectShape,
    ObjectShapePlain, ObjectShapeWithId, Queryable, Store, StoreError,
};
