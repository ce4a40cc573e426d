//! Prompt composition, workflow templating and scheduling rules for driving ComfyUI.

pub mod text;
pub mod encoding;
pub mod scheduler;
pub mod cli;
pub mod prompt_engine;
pub mod tags;
pub mod theme;
pub mod paths;
pub mod config;
pub mod comfyui;
