//! Output generation: the JSON codebase map and the markdown report.

pub mod json;
pub mod markdown;
