//! Renderers that turn a diff into a report: text for people, and the
//! document of a machine-readable JSON report.

pub mod json;
pub mod pretty;
