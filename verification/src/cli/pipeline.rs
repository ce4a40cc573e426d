//! The prompt-to-image pipeline: the settings it resolves from arguments and
//! configuration, and what it reports.

use vstd::prelude::*;

use crate::config::{config_problem, AppConfig};
use crate::prompt_engine::strategy::CombineStrategy;
use crate::tags::{lang_name, Lang};
use crate::text::{owned, push_all};

verus! {

/// Options of one pipeline run.
#[derive(Debug, Clone)]
pub struct PipelineOpts {
    pub theme_name: String,
    pub lang: Option<String>,
    pub strategy: Option<String>,
    pub max_length: Option<usize>,
    pub seed: u64,
    pub template: String,
    pub no_send: bool,
    pub use_refine: bool,
    pub width: Option<i64>,
    pub height: Option<i64>,
}

/// What one pipeline run produced.
#[derive(Debug, Clone)]
pub struct PipelineOutcome {
    /// The composed prompt.
    pub combine_prompt: String,
    /// The prompt sent: the polished one, or the composed one.
    pub final_prompt: String,
    /// Where the image was stored, when one was fetched.
    pub image_path: Option<String>,
}

/// The text an optional argument falls back to.
pub open spec fn chosen(s: Option<&str>, default: Seq<char>) -> Seq<char> {
    match s {
        Some(v) => v@,
        None => default,
    }
}

/// The name of a joining strategy.
pub open spec fn strategy_name(st: CombineStrategy) -> Seq<char> {
    match st {
        CombineStrategy::Comma => "comma"@,
        CombineStrategy::Newline => "newline"@,
        CombineStrategy::Natural => "natural"@,
    }
}

/// A language name the tag pools know.
pub open spec fn lang_known(s: Seq<char>) -> bool {
    s == "zh"@ || s == "en"@
}

/// A strategy name.
pub open spec fn strategy_known(s: Seq<char>) -> bool {
    s == "comma"@ || s == "newline"@ || s == "natural"@
}

/// The language to use: the argument, else the configured default; an
/// unknown name is refused with `unknown language: {name}`.
pub fn resolve_lang(s: Option<&str>, cfg: &AppConfig) -> (r: Result<Lang, String>)
    ensures
        match r {
            Ok(l) => lang_name(l) == chosen(s, cfg.prompt.default_lang@),
            Err(m) => !lang_known(chosen(s, cfg.prompt.default_lang@)) && m@ == "unknown language: "@ + chosen(
                s,
                cfg.prompt.default_lang@,
            ),
        },
{
    let raw: &str = match s {
        Some(v) => v,
        None => cfg.prompt.default_lang.as_str(),
    };
    match Lang::parse(raw) {
        Some(l) => Ok(l),
        None => {
            let mut m = owned("unknown language: ");
            push_all(&mut m, raw);
            Err(m)
        },
    }
}

/// Settings that pass validation name a default strategy that a run without
/// `--strategy` can use, and a default language that a run without `--lang`
/// can use unless it is "mixed" (which settings accept with the model polish
/// on, but which no tag pool serves; such a run stops at `resolve_lang`).
pub proof fn validated_defaults_resolve(cfg: AppConfig)
    requires
        config_problem(cfg) is None,
    ensures
        cfg.prompt.default_lang@ != "mixed"@ ==> lang_known(chosen(None, cfg.prompt.default_lang@)),
        strategy_known(chosen(None, cfg.prompt.default_strategy@)),
{
}

/// The joining strategy to use: the argument, else the configured default;
/// an unknown name is refused with `unknown strategy: {name}`.
pub fn resolve_strategy(s: Option<&str>, cfg: &AppConfig) -> (r: Result<CombineStrategy, String>)
    ensures
        match r {
            Ok(st) => strategy_name(st) == chosen(s, cfg.prompt.default_strategy@),
            Err(m) => !strategy_known(chosen(s, cfg.prompt.default_strategy@)) && m@ == "unknown strategy: "@ + chosen(
                s,
                cfg.prompt.default_strategy@,
            ),
        },
{
    let raw: &str = match s {
        Some(v) => v,
        None => cfg.prompt.default_strategy.as_str(),
    };
    match CombineStrategy::parse(raw) {
        Some(st) => Ok(st),
        None => {
            let mut m = owned("unknown strategy: ");
            push_all(&mut m, raw);
            Err(m)
        },
    }
}

/// The settings of a composition.
#[derive(Debug, Clone, Copy)]
pub struct PipelineSettings {
    pub lang: Lang,
    pub strategy: CombineStrategy,
    pub max_length: usize,
    pub seed: u64,
}

/// Resolves the language, then the strategy; the length limit falls back
/// to the configured default, and a seed of 0 to the configured seed.
pub fn pipeline_settings(
    lang: Option<&str>,
    strategy: Option<&str>,
    max_length: Option<usize>,
    seed: u64,
    cfg: &AppConfig,
) -> (r: Result<PipelineSettings, String>)
    ensures
        match r {
            Ok(p) => {
                &&& lang_name(p.lang) == chosen(lang, cfg.prompt.default_lang@)
                &&& strategy_name(p.strategy) == chosen(strategy, cfg.prompt.default_strategy@)
                &&& p.max_length == match max_length {
                    Some(m) => m,
                    None => cfg.prompt.default_max_length,
                }
                &&& p.seed == if seed == 0 {
                    cfg.prompt.default_seed
                } else {
                    seed
                }
            },
            Err(m) => if !lang_known(chosen(lang, cfg.prompt.default_lang@)) {
                m@ == "unknown language: "@ + chosen(lang, cfg.prompt.default_lang@)
            } else {
                !strategy_known(chosen(strategy, cfg.prompt.default_strategy@)) && m@ == "unknown strategy: "@
                    + chosen(strategy, cfg.prompt.default_strategy@)
            },
        },
{
    let l = match resolve_lang(lang, cfg) {
        Ok(l) => l,
        Err(e) => {
            return Err(e);
        },
    };
    let st = match resolve_strategy(strategy, cfg) {
        Ok(st) => st,
        Err(e) => {
            return Err(e);
        },
    };
    let max_length = match max_length {
        Some(m) => m,
        None => cfg.prompt.default_max_length,
    };
    let seed = if seed == 0 {
        cfg.prompt.default_seed
    } else {
        seed
    };
    Ok(PipelineSettings { lang: l, strategy: st, max_length, seed })
}

/// The seed written into a workflow: the seed itself (as a signed value),
/// or the current time in seconds when it is 0.
pub fn workflow_seed(seed: u64, now_secs: i64) -> (r: i64)
    ensures
        r == if seed == 0 {
            now_secs
        } else {
            seed as i64
        },
{
    if seed == 0 {
        now_secs
    } else {
        seed as i64
    }
}

} // verus!
