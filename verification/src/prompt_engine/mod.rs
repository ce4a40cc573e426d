//! Prompt composition: tag selection from a theme (`combine`), the joining
//! strategies and seeded randomness, the placeholders of fixed prompts, and
//! the optional LLM polish.

pub mod strategy;
pub mod combine;
pub mod llm;
pub mod expand;
