//! Selection-pressure statistics (pN/pS) for annotated coding regions.
//!
//! The crate turns a stream of variant records and per-sample coverage into
//! synonymous / nonsynonymous counters per annotation, regroups those
//! counters by gene, taxon or lineage, and lays them out as a
//! sample-by-entity matrix.
//!
//! The work is done in two phases. The classification phase builds the
//! baseline ([`baseline`]), the initial counters of every sample
//! ([`sample`]) and the annotation index ([`annotation`]), and then runs the
//! variant classifier ([`classify`]) over the variant stream. The
//! calculation phase ([`calc`]) reads the mappings ([`maps`]), regroups the
//! counters ([`group`]) and projects them on the matrix that is written
//! ([`output`], [`grouped`]).
//!
//! Reading files, rendering ratios as decimal text, and the analysis of
//! codons are left to the caller: the library works on plain values.

pub mod annotation;
pub mod baseline;
pub mod calc;
pub mod classify;
pub mod cli;
pub mod config;
pub mod group;
pub mod grouped;
pub mod lookup;
pub mod maps;
pub mod output;
pub mod places;
pub mod quality;
pub mod record;
pub mod sample;
pub mod text;
pub mod uid;
