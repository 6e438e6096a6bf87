//! Diagnostic aggregation engine for a build-probing developer tool.
//!
//! The engine decides which build configurations to probe, decodes the
//! compiler's structured diagnostic stream, walks each recursive diagnostic
//! tree while classifying every referenced file as in-project, third-party
//! or unclassifiable, and consolidates all probes' records into one
//! deduplicated, deterministically ordered data set with back-references
//! from third-party files to the diagnostics that named them.

pub mod classify;
pub mod config;
pub mod consolidate;
pub mod diag;
pub mod probe;
pub mod report;
pub mod text;
pub mod walker;
