//! Command arguments and the decisions the commands make.

pub mod daemon;
pub mod pipeline;
pub mod batch;
pub mod tags;
pub mod generate;
pub mod config_cli;
