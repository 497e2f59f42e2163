//! A linter and rewriter for YAML-like documents.
//!
//! The crate checks a document's raw lines (indentation, trailing
//! whitespace, line length, blank-line runs) and its parsed tree (required
//! fields, value-type hints, duplicate keys), aggregates the findings into
//! a per-file report, and can rewrite the document toward a normalized
//! form driven by the same configuration.
pub mod config;
pub mod export;
pub mod formatter;
pub mod linter;
pub mod rules;
pub mod scalar;
pub mod yaml;
pub mod text;
