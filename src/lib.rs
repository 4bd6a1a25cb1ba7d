//! SCOC: a compact container of ordered byte chunks with a compressed lookup
//! table, and space-filling-curve codecs for chunk identifiers.
pub mod codec;
pub mod container;
pub mod delta;
pub mod sfcurve;

pub use container::{
    compress_lookup_table, write_header, Chunks, HeaderProblem, LookupTable, ScoaError, ScoaReader,
};
