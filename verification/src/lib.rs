//! Word-frequency analysis of text: line-ending normalisation, segmentation
//! into words, counting, ranking, and rendering a word-cloud page.

pub mod text;
pub mod segment;
pub mod counting;
pub mod ranking;
pub mod report;
pub mod session;

