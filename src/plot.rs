//! Assembles the data of one plot from the reads of a region and its
//! reference bases.

use vstd::prelude::*;
use crate::coverage::{coverage_of, region_len, Coverage};
use crate::layout::{ordered, PlotOrder};
use crate::read::{reads_text, EncodedRead, Read};
use crate::region::Region;
use crate::text::string_from_chars;

verus! {

/// The reference bases of the plotted region, with the position of the first.
#[derive(Debug)]
pub struct Reference {
    pub start: i64,
    pub reference: String,
}

/// Everything a plot shows: the kept reads in wire form, the reference, the
/// coverage, and how many reads there were before and after subsampling.
#[derive(Debug)]
pub struct PlotData {
    pub reads: Vec<EncodedRead>,
    pub reference: Reference,
    pub total_reads: usize,
    pub coverage: Coverage,
    pub retained_reads: usize,
}

/// The plot data of a region from its reads, in fetch order, and its
/// reference bases: coverage over all reads, then the row layout with at most
/// `max_read_depth` rows.
pub fn create_plot_data(
    reads: Vec<Read>,
    reference_bases: &Vec<char>,
    region: &Region,
    max_read_depth: usize,
) -> (r: PlotData)
    requires
        region_len(*region) <= usize::MAX,
        reads.len() < u32::MAX,
    ensures
        coverage_of(r.coverage, reads@, *region),
        r.total_reads == reads.len(),
        r.retained_reads == ordered(reads@, max_read_depth as nat).len(),
        r.reads.len() == 1,
        r.reads@[0].values@ == reads_text(ordered(reads@, max_read_depth as nat)),
        r.reference.start == region.start,
        r.reference.reference@ == reference_bases@,
{
    let coverage = Coverage::from_reads(&reads, region);
    let total_reads = reads.len();
    let mut data = reads;
    data.order(max_read_depth);
    let retained_reads = data.len();
    let reference = Reference { start: region.start, reference: string_from_chars(reference_bases) };
    let mut encoded: Vec<EncodedRead> = Vec::new();
    encoded.push(EncodedRead::from_reads(data));
    PlotData { reads: encoded, reference, total_reads, coverage, retained_reads }
}

} // verus!
