//! Loading of FASTA assemblies, raw or gzip-compressed, into an ordered list of
//! named sequences, with the structural checks that a polishing run relies on.
//!
//! Everything here is pure: the caller reads the file and hands over its
//! bytes, and gets back the records or a `FastaError` to report.
pub mod fasta;
pub mod gzip;
pub mod laws;
pub mod lines;
pub mod text;

pub use fasta::{check_load_fasta, load_fasta, parse_records, FastaError};
pub use gzip::is_gzip_magic;
pub use lines::split_lines;
pub use text::first_token_of;
