//! Dictionary-free word extraction from unsegmented CJK text.
//!
//! A corpus is scanned twice: the first pass counts every run of `L`
//! consecutive valid characters, the second slides a window of `2L - 1`
//! characters and votes, in each window, for the length-`L` substring with the
//! highest first-pass count.

pub mod classify;
pub mod scan;
pub mod table;
pub mod select;
pub mod passes;
pub mod report;
pub mod pipeline;
pub mod params;

pub use params::get_output_path;
pub use pipeline::{extract, run};
