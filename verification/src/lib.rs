//! Fraud scoring over a compact, cluster-partitioned reference index.
//!
//! The library holds the integer logic of the service: the binary layout of
//! the index artifact, the probe selection and nearest-neighbour scan over
//! quantized vectors, the two-pass construction of the index, and the small
//! decisions around configuration, scoring, readiness and ingestion.
pub mod codec;
pub mod error;
pub mod text;
pub mod index;
pub mod reference;
pub mod config;
pub mod scoring;
pub mod readiness;
pub mod features;
pub mod ingestion;
pub mod loaders;
