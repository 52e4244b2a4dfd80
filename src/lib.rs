//! A precomputed spatial index of regulatory-effect observations for a genome
//! browser: chromosomes are cut into fixed-width buckets, each observation
//! leaves its payload in the buckets of its sources and targets and links them
//! to each other, and the result is written as one binary artifact.
//!
//! - `assembly`: the chromosome tables of the supported assemblies.
//! - `regeffects`: bucket keys, payloads and bucket aggregates.
//! - `aggregate`: the bucket arena and the aggregation of observations.
//! - `facets`: the facet catalog, its allowlist and its legalization.
//! - `coverage`: the artifact's structure, built from the arena.
//! - `codec`: the artifact's byte layout, its encoder and its decoder.
//! - `pipeline`: one run, from catalog and observations to the artifact.
//! - `args`, `options`: a run's settings and the names of its files.
pub mod aggregate;
pub mod args;
pub mod assembly;
pub mod codec;
pub mod coverage;
pub mod facets;
pub mod options;
pub mod pipeline;
pub mod regeffects;
