//! Terminal command composition: catalog validation, the aggregate command
//! runtime's routing decisions, and the catalog-driven command-line surface.

pub mod contract;
pub mod text;
pub mod catalog;
pub mod runtime;
pub mod json;
pub mod cli;
pub mod clap_bridge;
pub mod clap_calls;
pub mod parse;
pub mod laws;
pub mod accept;
