//! Grouped export of single-cell insertion events: per-group BED records,
//! binned and run-merged coverage tracks, and peak-file post-processing.

pub mod coverage;
pub mod groups;
pub mod peaks;
pub mod bed;
