//! Conversion of BED12 transcript records into GTF2 annotation rows.
//!
//! A line of the input becomes a [`BedRecord`]. From the record come the
//! frames of its exons, its first and last codon, and its rows; from all
//! records together come the rows of the genes. The rows are sorted by
//! sequence name and start and written as lines.

pub mod bed;
pub mod codon;
pub mod driver;
pub mod error;
pub mod gtf;
pub mod header;
pub mod lines;
pub mod order;
pub mod table;
pub mod text;
pub mod utils;
pub mod walk;

pub use bed::BedRecord;
pub use codon::{codon_complete, first_codon, last_codon, Codon};
pub use driver::convert;
pub use error::ParseError;
pub use gtf::{to_gtf, ConvertError};
pub use header::{comments, get_date, row_line};
pub use lines::{build_gene_line, build_gtf_line, write_codon, write_features, Row};
pub use order::sort_rows;
pub use table::Table;
pub use utils::{
    combine_maps_par, custom_par_parse, get_isoforms, parallel_hash, parallel_hash_rev,
    parallel_parse, Track,
};
pub use walk::move_pos;
