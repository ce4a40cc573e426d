//! The optional polish of a composed prompt by a language model: which
//! provider, which key, and what is kept when the model does not answer.

use vstd::prelude::*;

use crate::config::LlmSection;
use crate::text::{owned, str_eq, trim, trim_spec};

verus! {

/// Model providers.
#[derive(Debug, Clone, Copy, PartialEq, Eq, Structural)]
pub enum Provider {
    OpenAI,
    Anthropic,
}

/// Settings of the language model.
#[derive(Debug, Clone)]
pub struct LlmConfig {
    pub provider: Provider,
    pub model: String,
    pub api_key: String,
    pub base_url: String,
    /// Asks compatible providers to turn reasoning off.
    pub disable_thinking: bool,
}

/// Why the model could not be used.
#[derive(Debug)]
pub enum LlmError {
    /// No key was given; the environment variable that would hold it.
    MissingApiKey(&'static str),
    /// The client could not be built; the reason.
    Build(String),
    /// The request failed; the reason.
    Prompt(String),
}

/// The instructions given to the model.
pub const PREAMBLE: &'static str = "You are an expert Stable Diffusion prompt engineer. Given a list of tags from a multi-dimensional theme, return a single optimized prompt. Rules: (1) keep all original semantic elements, (2) rewrite for natural English, (3) add concrete visual details that diffusion models can render, (4) output ONLY the optimized prompt text, no explanations, no quotes.";

/// The environment variable of a provider's key.
pub open spec fn key_env_var_spec(p: Provider) -> Seq<char> {
    match p {
        Provider::OpenAI => "OPENAI_API_KEY"@,
        Provider::Anthropic => "ANTHROPIC_API_KEY"@,
    }
}

impl Provider {
    /// Reads `openai` or `anthropic`.
    pub fn parse(s: &str) -> (r: Option<Provider>)
        ensures
            s@ == "openai"@ <==> r == Some(Provider::OpenAI),
            s@ == "anthropic"@ <==> r == Some(Provider::Anthropic),
            r is None <==> (s@ != "openai"@ && s@ != "anthropic"@),
    {
        proof {
            reveal_strlit("openai");
            reveal_strlit("anthropic");
            assert("openai"@.len() != "anthropic"@.len());
        }
        if str_eq(s, "openai") {
            Some(Provider::OpenAI)
        } else if str_eq(s, "anthropic") {
            Some(Provider::Anthropic)
        } else {
            None
        }
    }

    /// The environment variable that holds this provider's key.
    pub fn key_env_var(&self) -> (r: &'static str)
        ensures
            r@ == key_env_var_spec(*self),
    {
        match self {
            Provider::OpenAI => "OPENAI_API_KEY",
            Provider::Anthropic => "ANTHROPIC_API_KEY",
        }
    }
}

/// How the model client is to be built.
#[derive(Debug, Clone)]
pub struct AgentSettings {
    pub provider: Provider,
    pub model: String,
    pub api_key: String,
    /// The endpoint to use in place of the provider's own (Anthropic only,
    /// when one is given).
    pub base_url: Option<String>,
    /// Whether to send `enable_thinking: false` (OpenAI only, when asked).
    pub thinking_off: bool,
}

/// What the client is built from: a blank key is refused, naming the
/// provider's environment variable.
pub fn agent_settings(cfg: &LlmConfig) -> (r: Result<AgentSettings, LlmError>)
    ensures
        trim_spec(cfg.api_key@).len() == 0 <==> r is Err,
        r matches Err(e) ==> (e matches LlmError::MissingApiKey(v) && v@ == key_env_var_spec(cfg.provider)),
        r matches Ok(s) ==> {
            &&& s.provider == cfg.provider
            &&& s.model@ == cfg.model@
            &&& s.api_key@ == cfg.api_key@
            &&& s.base_url == (if cfg.provider == Provider::Anthropic && trim_spec(cfg.base_url@).len() > 0 {
                Some(cfg.base_url)
            } else {
                None::<String>
            })
            &&& s.thinking_off == (cfg.provider == Provider::OpenAI && cfg.disable_thinking)
        },
{
    if trim(cfg.api_key.as_str()).as_str().is_empty() {
        return Err(LlmError::MissingApiKey(cfg.provider.key_env_var()));
    }
    let base_url = match cfg.provider {
        Provider::Anthropic => if trim(cfg.base_url.as_str()).as_str().is_empty() {
            None
        } else {
            Some(cfg.base_url.clone())
        },
        Provider::OpenAI => None,
    };
    let thinking_off = match cfg.provider {
        Provider::OpenAI => cfg.disable_thinking,
        Provider::Anthropic => false,
    };
    Ok(
        AgentSettings {
            provider: cfg.provider,
            model: cfg.model.clone(),
            api_key: cfg.api_key.clone(),
            base_url,
            thinking_off,
        },
    )
}

/// The model settings of an application's `[llm]` section, if the model is
/// to be used: it must be enabled and name a known provider; a blank key is
/// taken from the provider's environment variable (`openai_env` or
/// `anthropic_env`, as read by the caller), and without one there is none.
pub fn llm_config_for(llm: &LlmSection, openai_env: Option<String>, anthropic_env: Option<String>) -> (r: Option<
    LlmConfig,
>)
    ensures
        !llm.enabled ==> r is None,
        llm.enabled && llm.provider@ != "openai"@ && llm.provider@ != "anthropic"@ ==> r is None,
        r matches Some(c) ==> {
            &&& llm.enabled
            &&& (llm.provider@ == "openai"@ ==> c.provider == Provider::OpenAI)
            &&& (llm.provider@ == "anthropic"@ ==> c.provider == Provider::Anthropic)
            &&& c.model@ == llm.model@
            &&& c.base_url@ == llm.base_url@
            &&& !c.disable_thinking
            &&& (trim_spec(llm.api_key@).len() > 0 ==> c.api_key@ == llm.api_key@)
            &&& (trim_spec(llm.api_key@).len() == 0 ==> Some(c.api_key) == match c.provider {
                Provider::OpenAI => openai_env,
                Provider::Anthropic => anthropic_env,
            })
        },
        llm.enabled && (llm.provider@ == "openai"@ || llm.provider@ == "anthropic"@) ==> (r is None <==> (trim_spec(
            llm.api_key@,
        ).len() == 0 && (if llm.provider@ == "openai"@ {
            openai_env
        } else {
            anthropic_env
        }) is None)),
{
    if !llm.enabled {
        return None;
    }
    let provider = match Provider::parse(llm.provider.as_str()) {
        Some(p) => p,
        None => {
            return None;
        },
    };
    let api_key = if trim(llm.api_key.as_str()).as_str().is_empty() {
        let from_env = match provider {
            Provider::OpenAI => openai_env,
            Provider::Anthropic => anthropic_env,
        };
        match from_env {
            Some(v) => v,
            None => {
                return None;
            },
        }
    } else {
        llm.api_key.clone()
    };
    Some(
        LlmConfig {
            provider,
            model: llm.model.clone(),
            api_key,
            base_url: llm.base_url.clone(),
            disable_thinking: false,
        },
    )
}

/// The prompt kept after a polish: the model's reply when it answered with
/// text that is not blank, else the composed prompt.
pub open spec fn refine_spec(prompt: Seq<char>, reply: Option<Result<Seq<char>, ()>>) -> Seq<char> {
    match reply {
        Some(Ok(s)) => if trim_spec(s).len() > 0 {
            s
        } else {
            prompt
        },
        _ => prompt,
    }
}

/// The plain content of a model reply (none when no model is used).
pub open spec fn reply_view(reply: Option<Result<String, LlmError>>) -> Option<Result<Seq<char>, ()>> {
    match reply {
        Some(Ok(s)) => Some(Ok(s@)),
        Some(Err(_)) => Some(Err(())),
        None => None,
    }
}

/// What a polish gives: the reply of the model (`None` when no model is
/// used) if it is non-blank text, otherwise `prompt` unchanged.
pub fn refine_outcome(prompt: &str, reply: Option<Result<String, LlmError>>) -> (r: String)
    ensures
        r@ == refine_spec(prompt@, reply_view(reply)),
{
    match reply {
        Some(Ok(s)) => {
            if trim(s.as_str()).as_str().is_empty() {
                owned(prompt)
            } else {
                s
            }
        },
        _ => owned(prompt),
    }
}

/// A polish never loses the prompt: without a model, after a failed
/// request, or after a blank reply, the composed prompt is kept; otherwise
/// the reply is taken.
pub proof fn refine_fallback_law(prompt: Seq<char>, reply: Option<Result<Seq<char>, ()>>)
    ensures
        reply is None ==> refine_spec(prompt, reply) == prompt,
        reply matches Some(Err(_)) ==> refine_spec(prompt, reply) == prompt,
        reply matches Some(Ok(s)) ==> refine_spec(prompt, reply) == (if trim_spec(s).len() == 0 {
            prompt
        } else {
            s
        }),
        trim_spec(refine_spec(prompt, reply)).len() == 0 ==> refine_spec(prompt, reply) == prompt,
{
}

} // verus!
