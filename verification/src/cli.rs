//! The options of the commands, as plain values.

use vstd::prelude::*;

verus! {

/// Options of the command that writes the sample configuration.
#[derive(Clone, Debug, PartialEq, Eq)]
pub struct Config {
    /// Variant file from which the sample columns are taken.
    pub vcf_file: String,
    /// Where the configuration goes; standard output when absent.
    pub output_file: Option<String>,
    /// Depth files, one per sample.
    pub depth_files: Vec<String>,
}

/// Options of the command that computes the ratios.
#[derive(Clone, Debug, PartialEq, Eq)]
pub struct Calc {
    /// Gene map: UID to external gene ids.
    pub gene_map: Option<String>,
    /// Taxonomy file.
    pub taxonomy: Option<String>,
    /// Taxon map: UID to taxon id.
    pub taxon_map: Option<String>,
    /// Lineage map: UID to lineage string.
    pub lineage_map: Option<String>,
    /// Taxon rank; accepted and not used.
    pub taxon_rank: Option<String>,
    /// Report pS alone.
    pub output_ps: bool,
    /// Report pN alone.
    pub output_pn: bool,
    /// The counters of the classification phase.
    pub input_file: String,
    /// Where the matrix goes.
    pub output_file: String,
}

} // verus!
