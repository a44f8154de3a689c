//! Compare the instruction counts of several `callgrind_annotate` reports: parse each report
//! into a run, gather the runs into one table of symbols, sort it, and render it with each
//! column compared to a reference column.

pub mod args;
pub mod callgrind;
pub mod display;
pub mod runs;
pub mod text;
