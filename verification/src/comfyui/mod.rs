//! ComfyUI: workflow templates, the request and reply documents of its HTTP
//! interface, and where downloaded images are stored.

pub mod json;
pub mod workflow;
pub mod client;
pub mod download;
