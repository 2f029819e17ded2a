//! Build-graph generation for per-file static analysis and the merge of
//! external-definition maps.
pub mod canon;
pub mod cli;
pub mod cmdb;
pub mod extdef;
pub mod merge;
pub mod ninjagen;
pub mod text;
pub mod types;
pub mod utils;
