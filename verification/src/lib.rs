//! Variant-site extraction from a multiple sequence alignment.
//!
//! An alignment is loaded from FASTA text into a row-major matrix of symbols,
//! scanned column by column for sites at which enough rows differ from the
//! first row, and reduced to those columns. Every function states what it
//! returns over a mathematical model of the alignment.

pub mod codec;
pub mod decimal;
pub mod fasta_io;
pub mod extract_sites;
