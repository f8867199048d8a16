//! The calculation command: from the counters of the classification phase
//! and the mappings to the matrix that is written.

use vstd::prelude::*;
use crate::cli::Calc;
use crate::group::{group_pnps, mappings_of};
use crate::grouped::{
    group_sample_ids, is_grouped_report, regrouped, texts_of, write_grouped_output, GroupMatrix,
};
use crate::maps::{GeneMap, LineageMap, TaxonMap};
use crate::output::{chosen, is_plain_report, result_type, write_output, Matrix};
use crate::record::{ids_of, SamplePnPs};

verus! {

/// What the calculation command writes.
#[derive(Clone, Debug, PartialEq, Eq)]
pub enum Report {
    /// A row per UID.
    Plain(Matrix),
    /// A row per gene, taxon and lineage.
    Grouped(GroupMatrix),
}

/// No mapping file was supplied: the run is ungrouped.
pub open spec fn ungrouped(options: Calc) -> bool {
    options.gene_map is None && options.taxon_map is None && options.lineage_map is None
}

/// Computes the matrix: the ratio is chosen by the two switches of
/// `options`; the rows are UIDs where `options` names no mapping file, and
/// groups as soon as it names one, whatever the mappings hold. The three
/// mappings are what was read from the files named; a mapping whose file
/// was not named is empty.
pub fn calc_command(
    options: &Calc,
    pnps_map: &SamplePnPs,
    gene_map: &GeneMap,
    taxon_map: &TaxonMap,
    lineage_map: &LineageMap,
) -> (out: Report)
    ensures
        out is Plain <==> ungrouped(*options),
        match out {
            Report::Plain(matrix) => {
                &&& ungrouped(*options)
                &&& is_plain_report(
                    pnps_map.samples@,
                    chosen(options.output_pn, options.output_ps),
                    matrix,
                )
            },
            Report::Grouped(matrix) => {
                &&& !ungrouped(*options)
                &&& is_grouped_report(
                    pnps_map.samples@,
                    regrouped(pnps_map.samples@, mappings_of(gene_map@, taxon_map@, lineage_map@)),
                    ids_of(pnps_map.samples@),
                    chosen(options.output_pn, options.output_ps),
                    matrix,
                )
            },
        },
{
    let kind = result_type(options.output_pn, options.output_ps);
    if options.gene_map.is_none() && options.taxon_map.is_none() && options.lineage_map.is_none() {
        Report::Plain(write_output(pnps_map, kind))
    } else {
        let groups = group_pnps(pnps_map, gene_map, taxon_map, lineage_map);
        let matrix = write_grouped_output(pnps_map, &groups, kind);
        proof {
            let maps = mappings_of(gene_map@, taxon_map@, lineage_map@);
            assert(texts_of(groups@) =~= regrouped(pnps_map.samples@, maps));
            assert(group_sample_ids(groups@) =~= ids_of(pnps_map.samples@));
        }
        Report::Grouped(matrix)
    }
}

} // verus!
