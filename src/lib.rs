//! Reconciliation of chip memory maps from a per-chip descriptor source
//! against a baseline target-description dataset.
//!
//! - `markup`: reads the legacy hierarchical markup source into devices;
//! - `naming`: derives concrete chip names from part-number roots;
//! - `region`: builds one output region from one memory descriptor;
//! - `coalesce`: merges flash banks split into adjacent sub-regions;
//! - `ordering`: orders descriptors by address;
//! - `reconcile`: matches source chips against the baseline and rewrites it;
//! - `canonical`: the line-level canonical form of a serialized family;
//! - `model` and `text`: the data model and string helpers.

pub mod text;
pub mod model;
pub mod region;
pub mod coalesce;
pub mod ordering;
pub mod reconcile;
pub mod naming;
pub mod canonical;
pub mod markup;
