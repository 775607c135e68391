//! Nearest-neighbour multi-label classification by exact inverted-index
//! retrieval.
//!
//! A training corpus of sparse feature vectors is indexed once; each query
//! vector is then scored against every document sharing a feature, using a
//! hybrid cosine/Jaccard similarity, and the labels of the closest documents
//! are aggregated into a ranked prediction.
//!
//! All weights and scores are fixed-point integers: a raw weight carries
//! `fx::FX_ONE` per unit, a similarity carries `fx::FX_ONE32` per unit.

pub mod aggregate;
pub mod benchmarks;
pub mod dataset;
pub mod eval;
pub mod fx;
pub mod hash;
pub mod index;
pub mod logger;
pub mod predict;
pub mod query;
pub mod ranking;
