//! Arguments of the `generate` command.

use vstd::prelude::*;

verus! {

/// Arguments of the `generate` command: compose one prompt from a theme and,
/// unless `no_send`, render it.
#[derive(Debug, Clone)]
pub struct GenerateArgs {
    pub theme: String,
    pub lang: Option<String>,
    pub strategy: Option<String>,
    pub max_length: Option<usize>,
    /// 0 takes the configured seed.
    pub seed: u64,
    pub template: String,
    pub no_send: bool,
}

} // verus!
