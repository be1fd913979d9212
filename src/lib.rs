//! Plot-ready data for genomic alignment regions: reference-relative edit
//! scripts for reads, a collision-free row layout, and per-base coverage.

pub mod text;
pub mod cigar;
pub mod diff;
pub mod read;
pub mod layout;
pub mod region;
pub mod data_format;
pub mod coverage;
pub mod record;
pub mod plot;
pub mod highlight;
pub mod options;

pub use cigar::{CigarParseError, EditOp, PlotCigar};
pub use coverage::{BaseCoverage, Coverage};
pub use data_format::DataFormat;
pub use diff::{match_bases, AlignOp};
pub use highlight::{BedHighlight, VcfHighlight};
pub use layout::PlotOrder;
pub use plot::{create_plot_data, PlotData, Reference};
pub use read::{AuxRecord, EncodedRead, Read};
pub use record::{AlignmentRecord, RecordError};
pub use region::{Around, ParseError, Region};
