//! An in-memory similarity-search primitive: feature vectors keyed by a
//! document identifier, grouped into named collections, queried for the
//! top-k nearest neighbours by cosine similarity.
//!
//! All arithmetic is exact integer arithmetic: vector components are `i16`
//! and similarity scores are reported in units of `1 / SIM_SCALE`, so a
//! score of `SIM_SCALE` means a cosine of exactly one.

pub mod registry;
pub mod similarity;
pub mod store;
