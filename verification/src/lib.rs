//! Statistics over FASTQ sequencing-read streams.
//!
//! The library parses a byte stream of four-line FASTQ records (optionally
//! gzip-compressed), computes each record's length and GC-content percentage,
//! and aggregates frequency distributions of both, optionally re-emitting the
//! records unchanged.

pub mod lines;
pub mod record;
pub mod reader;
pub mod stats;
pub mod gzip;
pub mod run;
