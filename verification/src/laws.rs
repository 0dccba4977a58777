//! What holds of the library as a whole: laws that relate the results of its
//! functions to their inputs, over every input.

pub mod configuration;
pub mod discovery;
pub mod encoding;
pub mod endpoints;
pub mod kubernetes;
pub mod labels;
pub mod parsing;
pub mod relabeling;
pub mod reporting;
pub mod scraping;
pub mod staleness;
pub mod targets;
pub mod texts;
pub mod training;
pub mod views;
pub mod writing;
