//! Core-gene phylogenomics: profiling homology hits into core genes, filtering
//! alignment columns by coverage, consolidating per-gene alignments into a
//! supermatrix, and splitting sequences into digest buckets for table lookup.
use vstd::prelude::*;

/// Plain text: lines, fields, and building strings.
pub mod text;
/// FASTA records keyed by identifier.
pub mod fasta;
/// Coverage filtering of alignment columns.
pub mod filter;
/// Consolidation of per-gene alignments into a supermatrix.
pub mod combine;
/// An index from names to positions.
pub mod index;
/// Core-gene profiling of a hit table.
pub mod profile;
/// Two-column tables.
pub mod table;
/// Digest buckets and lookup tables.
pub mod lookup;
/// Messages for warnings and errors.
pub mod messages;
/// Paths of the external programs.
pub mod config;
/// Thread count and threshold settings.
pub mod settings;
/// Which stages of a workflow run.
pub mod workflow;
/// Preparation of a proteome database.
pub mod database;
/// Per-gene FASTA texts from a sequence database.
pub mod genefasta;

verus! {

} // verus!
