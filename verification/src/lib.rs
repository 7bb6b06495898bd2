//! Layer assignment for entities under pairwise precedence relations.
//!
//! Relations "left before right" are added to a [`LayerClassifier`] one by
//! one. After each, the classifier holds for every ordered pair of entities
//! joined by a directed path the length of the longest such path it has
//! found. On request it picks a reference entity by connectivity, propagates
//! layers from it along the distances, and returns the entities grouped by
//! layer.

pub mod classifier;
pub mod closure;
pub mod distances;
pub mod grouping;
pub mod history;
pub mod placement;
pub mod registry;
pub mod scoring;
pub mod text;

pub use classifier::{DirectedRelation, EngineState, LayerClassifier, Stats};
