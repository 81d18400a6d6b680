//! Optimal global alignment of two byte sequences under a linear gap cost.
//!
//! Four engines compute the same optimum, the recurrence `scoring::nw`:
//! a full-matrix dynamic program with traceback (`needleman_wunsch`), a banded
//! variant (`banded`), a linear-space divide-and-conquer variant
//! (`hirschberg`) and a bit-parallel score-only engine for the scoring
//! (+1, -1, -3) (`bitpal`). `alignment` and `optimal` model aligned triples and
//! prove the recurrence optimal over them; `bitpal_proof` proves what the
//! bitplanes mean; `delta` delta-encodes the score matrix and `fasta` splits a
//! FASTA text into its two sequences.

pub mod scoring;
pub mod alignment;
pub mod needleman_wunsch;
pub mod bitpal;
pub mod bitpal_proof;
pub mod optimal;
pub mod hirschberg;
pub mod banded;
pub mod delta;
pub mod fasta;
