//! Application settings: defaults, validation, the project directories they
//! name, and the overlay of a local settings document on the defaults.

use toml::Value as TomlValue;
use vstd::prelude::*;

use crate::paths::{join_path, join_path_spec};
use crate::tags::{key_index, lemma_key_index_bounds, lookup};
use crate::comfyui::json::str_lt;
use crate::text::{owned, starts_with, str_eq};

verus! {

#[verifier::external_type_specification]
#[verifier::external_body]
pub struct ExTomlValue(toml::Value);

/// Why settings could not be used.
#[derive(Debug)]
pub enum ConfigError {
    /// A settings file could not be read; the reason.
    Io(String),
    /// A settings document is not valid; the reason.
    Parse(String),
    /// A field holds a value the rules refuse.
    Invalid { field: String, value: String, reason: String },
}

/// The plain content of a `ConfigError`.
pub enum ConfigErrorView {
    Io(Seq<char>),
    Parse(Seq<char>),
    Invalid { field: Seq<char>, value: Seq<char>, reason: Seq<char> },
}

impl View for ConfigError {
    type V = ConfigErrorView;

    open spec fn view(&self) -> ConfigErrorView {
        match self {
            ConfigError::Io(s) => ConfigErrorView::Io(s@),
            ConfigError::Parse(s) => ConfigErrorView::Parse(s@),
            ConfigError::Invalid { field, value, reason } => ConfigErrorView::Invalid {
                field: field@,
                value: value@,
                reason: reason@,
            },
        }
    }
}

/// `[app]`
#[derive(Debug, Clone)]
pub struct AppSection {
    pub name: String,
    pub log_level: String,
}

/// `[prompt]`
#[derive(Debug, Clone)]
pub struct PromptSection {
    pub default_lang: String,
    pub default_strategy: String,
    pub default_max_length: usize,
    pub default_seed: u64,
}

/// `[comfyui]`
#[derive(Debug, Clone)]
pub struct ComfyuiSection {
    pub url: String,
    pub poll_interval_secs: u64,
    pub timeout_secs: u64,
}

/// `[llm]`
#[derive(Debug, Clone)]
pub struct LlmSection {
    pub enabled: bool,
    pub provider: String,
    pub model: String,
    pub api_key: String,
    pub base_url: String,
}

impl Default for LlmSection {
    fn default() -> (r: LlmSection)
        ensures
            !r.enabled,
            r.provider@.len() == 0,
            r.model@.len() == 0,
            r.api_key@.len() == 0,
            r.base_url@.len() == 0,
    {
        LlmSection {
            enabled: false,
            provider: String::new(),
            model: String::new(),
            api_key: String::new(),
            base_url: String::new(),
        }
    }
}

/// `[paths]`: directories, relative to the project root unless absolute.
#[derive(Debug, Clone)]
pub struct PathsSection {
    pub themes_dir: String,
    pub tags_dir: String,
    pub output_dir: String,
    pub logs_dir: String,
    pub templates_dir: String,
}

/// All settings.
#[derive(Debug, Clone)]
pub struct AppConfig {
    pub app: AppSection,
    pub prompt: PromptSection,
    pub comfyui: ComfyuiSection,
    pub llm: LlmSection,
    pub paths: PathsSection,
}

/// The built-in settings.
pub open spec fn default_config_spec(c: AppConfig) -> bool {
    &&& c.app.name@ == "auto-comfy-maker"@
    &&& c.app.log_level@ == "info"@
    &&& c.prompt.default_lang@ == "zh"@
    &&& c.prompt.default_strategy@ == "comma"@
    &&& c.prompt.default_max_length == 800
    &&& c.prompt.default_seed == 0
    &&& c.comfyui.url@ == "http://127.0.0.1:8188"@
    &&& c.comfyui.poll_interval_secs == 2
    &&& c.comfyui.timeout_secs == 300
    &&& !c.llm.enabled
    &&& c.llm.provider@.len() == 0
    &&& c.llm.model@.len() == 0
    &&& c.llm.api_key@.len() == 0
    &&& c.llm.base_url@.len() == 0
    &&& c.paths.themes_dir@ == "themes"@
    &&& c.paths.tags_dir@ == "tags"@
    &&& c.paths.output_dir@ == "output"@
    &&& c.paths.logs_dir@ == "logs"@
    &&& c.paths.templates_dir@ == "templates"@
}

impl Default for AppConfig {
    fn default() -> (r: AppConfig)
        ensures
            default_config_spec(r),
    {
        AppConfig {
            app: AppSection { name: owned("auto-comfy-maker"), log_level: owned("info") },
            prompt: PromptSection {
                default_lang: owned("zh"),
                default_strategy: owned("comma"),
                default_max_length: 800,
                default_seed: 0,
            },
            comfyui: ComfyuiSection {
                url: owned("http://127.0.0.1:8188"),
                poll_interval_secs: 2,
                timeout_secs: 300,
            },
            llm: LlmSection::default(),
            paths: PathsSection {
                themes_dir: owned("themes"),
                tags_dir: owned("tags"),
                output_dir: owned("output"),
                logs_dir: owned("logs"),
                templates_dir: owned("templates"),
            },
        }
    }
}

/// The built-in settings pass their own rules.
pub proof fn default_config_valid_law(c: AppConfig)
    requires
        default_config_spec(c),
    ensures
        config_problem(c) is None,
{
    reveal_strlit("zh");
    reveal_strlit("mixed");
    reveal_strlit("http://127.0.0.1:8188");
    reveal_strlit("http://");
    assert(c.prompt.default_lang@ != "mixed"@) by {
        assert(c.prompt.default_lang@.len() != "mixed"@.len());
    }
    assert(c.comfyui.url@.subrange(0, 7) =~= "http://"@);
    assert(url_has_scheme(c.comfyui.url@));
}

/// Log levels the settings accept.
pub open spec fn log_level_ok(s: Seq<char>) -> bool {
    s == "trace"@ || s == "debug"@ || s == "info"@ || s == "warn"@ || s == "error"@
}

/// Languages the settings accept.
pub open spec fn default_lang_ok(s: Seq<char>) -> bool {
    s == "zh"@ || s == "en"@ || s == "mixed"@
}

/// Strategies the settings accept.
pub open spec fn default_strategy_ok(s: Seq<char>) -> bool {
    s == "comma"@ || s == "newline"@ || s == "natural"@
}

/// The scheme prefixes a ComfyUI address may start with.
pub open spec fn url_has_scheme(u: Seq<char>) -> bool {
    (u.len() >= 7 && u.subrange(0, 7) == "http://"@) || (u.len() >= 8 && u.subrange(0, 8) == "https://"@)
}

/// The first rule the settings break, if any: the log level, the default
/// language (one of zh, en, mixed; "mixed" needs the model polish switched
/// on), the default strategy, then the ComfyUI address, which must start with `http://` or
/// `https://`.
pub open spec fn config_problem(c: AppConfig) -> Option<ConfigErrorView> {
    if !log_level_ok(c.app.log_level@) {
        Some(
            ConfigErrorView::Invalid {
                field: "app.log_level"@,
                value: c.app.log_level@,
                reason: "must be one of trace|debug|info|warn|error"@,
            },
        )
    } else if !default_lang_ok(c.prompt.default_lang@) {
        Some(
            ConfigErrorView::Invalid {
                field: "prompt.default_lang"@,
                value: c.prompt.default_lang@,
                reason: "must be one of zh|en|mixed"@,
            },
        )
    } else if c.prompt.default_lang@ == "mixed"@ && !c.llm.enabled {
        Some(
            ConfigErrorView::Invalid {
                field: "prompt.default_lang"@,
                value: c.prompt.default_lang@,
                reason: "mixed requires llm.enabled = true"@,
            },
        )
    } else if !default_strategy_ok(c.prompt.default_strategy@) {
        Some(
            ConfigErrorView::Invalid {
                field: "prompt.default_strategy"@,
                value: c.prompt.default_strategy@,
                reason: "must be one of comma|newline|natural"@,
            },
        )
    } else if !url_has_scheme(c.comfyui.url@) {
        Some(
            ConfigErrorView::Invalid {
                field: "comfyui.url"@,
                value: c.comfyui.url@,
                reason: "must be a URL starting with http:// or https://"@,
            },
        )
    } else {
        None
    }
}

impl AppConfig {
    /// Checks the log level, the default language, the default strategy and
    /// the ComfyUI address, in that order, against the rules of
    /// `config_problem`.
    pub fn validate(&self) -> (r: Result<(), ConfigError>)
        ensures
            r is Ok <==> config_problem(*self) is None,
            r matches Err(e) ==> config_problem(*self) == Some(e@),
    {
        let level = self.app.log_level.as_str();
        if !(str_eq(level, "trace") || str_eq(level, "debug") || str_eq(level, "info") || str_eq(level, "warn")
            || str_eq(level, "error")) {
            return Err(
                ConfigError::Invalid {
                    field: owned("app.log_level"),
                    value: owned(level),
                    reason: owned("must be one of trace|debug|info|warn|error"),
                },
            );
        }
        let lang = self.prompt.default_lang.as_str();
        if !(str_eq(lang, "zh") || str_eq(lang, "en") || str_eq(lang, "mixed")) {
            return Err(
                ConfigError::Invalid {
                    field: owned("prompt.default_lang"),
                    value: owned(lang),
                    reason: owned("must be one of zh|en|mixed"),
                },
            );
        }
        if str_eq(lang, "mixed") && !self.llm.enabled {
            return Err(
                ConfigError::Invalid {
                    field: owned("prompt.default_lang"),
                    value: owned(lang),
                    reason: owned("mixed requires llm.enabled = true"),
                },
            );
        }
        let strategy = self.prompt.default_strategy.as_str();
        if !(str_eq(strategy, "comma") || str_eq(strategy, "newline") || str_eq(strategy, "natural")) {
            return Err(
                ConfigError::Invalid {
                    field: owned("prompt.default_strategy"),
                    value: owned(strategy),
                    reason: owned("must be one of comma|newline|natural"),
                },
            );
        }
        let url = self.comfyui.url.as_str();
        proof {
            reveal_strlit("http://");
            reveal_strlit("https://");
        }
        if !(starts_with(url, "http://") || starts_with(url, "https://")) {
            return Err(
                ConfigError::Invalid {
                    field: owned("comfyui.url"),
                    value: owned(url),
                    reason: owned("must be a URL starting with http:// or https://"),
                },
            );
        }
        Ok(())
    }

    /// The themes directory under `project_root`.
    pub fn themes_root(&self, project_root: &str) -> (r: String)
        ensures
            r@ == join_path_spec(project_root@, self.paths.themes_dir@),
    {
        join_path(project_root, self.paths.themes_dir.as_str())
    }

    /// The tags directory under `project_root`.
    pub fn tags_root(&self, project_root: &str) -> (r: String)
        ensures
            r@ == join_path_spec(project_root@, self.paths.tags_dir@),
    {
        join_path(project_root, self.paths.tags_dir.as_str())
    }

    /// The output directory under `project_root`.
    pub fn output_root(&self, project_root: &str) -> (r: String)
        ensures
            r@ == join_path_spec(project_root@, self.paths.output_dir@),
    {
        join_path(project_root, self.paths.output_dir.as_str())
    }

    /// The templates directory under `project_root`.
    pub fn templates_root(&self, project_root: &str) -> (r: String)
        ensures
            r@ == join_path_spec(project_root@, self.paths.templates_dir@),
    {
        join_path(project_root, self.paths.templates_dir.as_str())
    }
}

/// Values of the environment variables that override settings, as read by
/// the caller (`None` when a variable is not set).
#[derive(Debug, Clone)]
pub struct EnvOverrides {
    /// `COMFYUI_URL` for `[comfyui].url`.
    pub comfyui_url: Option<String>,
    /// `OPENAI_API_KEY` for `[llm].api_key` when the provider is `openai`.
    pub openai_api_key: Option<String>,
    /// `OPENAI_BASE_URL` for `[llm].base_url` when the provider is `openai`.
    pub openai_base_url: Option<String>,
    /// `ANTHROPIC_API_KEY` for `[llm].api_key` when the provider is `anthropic`.
    pub anthropic_api_key: Option<String>,
    /// `AUTO_COMFY_LOG_LEVEL` for `[app].log_level`.
    pub log_level: Option<String>,
    /// `AUTO_COMFY_DEFAULT_LANG` for `[prompt].default_lang`.
    pub default_lang: Option<String>,
}

/// A setting after its variable: the variable's value when it is set and
/// not empty, else the setting as it was.
pub open spec fn env_value(v: Option<String>, current: Seq<char>) -> Seq<char> {
    match v {
        Some(x) => if x@.len() > 0 {
            x@
        } else {
            current
        },
        None => current,
    }
}

fn put_env(field: &mut String, v: Option<String>)
    ensures
        final(field)@ == env_value(v, old(field)@),
{
    match v {
        Some(x) => {
            if !x.as_str().is_empty() {
                *field = x;
            }
        },
        None => {},
    }
}

/// Overlays the environment variables on the settings: each variable that
/// is set and not empty replaces its setting (the two API keys and the
/// OpenAI address only for their provider); everything else is kept.
pub fn apply_env(cfg: &mut AppConfig, env: EnvOverrides)
    ensures
        final(cfg).comfyui.url@ == env_value(env.comfyui_url, old(cfg).comfyui.url@),
        final(cfg).app.log_level@ == env_value(env.log_level, old(cfg).app.log_level@),
        final(cfg).prompt.default_lang@ == env_value(env.default_lang, old(cfg).prompt.default_lang@),
        final(cfg).llm.api_key@ == if old(cfg).llm.provider@ == "openai"@ {
            env_value(env.openai_api_key, old(cfg).llm.api_key@)
        } else if old(cfg).llm.provider@ == "anthropic"@ {
            env_value(env.anthropic_api_key, old(cfg).llm.api_key@)
        } else {
            old(cfg).llm.api_key@
        },
        final(cfg).llm.base_url@ == if old(cfg).llm.provider@ == "openai"@ {
            env_value(env.openai_base_url, old(cfg).llm.base_url@)
        } else {
            old(cfg).llm.base_url@
        },
        final(cfg).app.name == old(cfg).app.name,
        final(cfg).prompt.default_strategy == old(cfg).prompt.default_strategy,
        final(cfg).prompt.default_max_length == old(cfg).prompt.default_max_length,
        final(cfg).prompt.default_seed == old(cfg).prompt.default_seed,
        final(cfg).comfyui.poll_interval_secs == old(cfg).comfyui.poll_interval_secs,
        final(cfg).comfyui.timeout_secs == old(cfg).comfyui.timeout_secs,
        final(cfg).llm.enabled == old(cfg).llm.enabled,
        final(cfg).llm.provider == old(cfg).llm.provider,
        final(cfg).llm.model == old(cfg).llm.model,
        final(cfg).paths == old(cfg).paths,
{
    put_env(&mut cfg.comfyui.url, env.comfyui_url);
    put_env(&mut cfg.app.log_level, env.log_level);
    put_env(&mut cfg.prompt.default_lang, env.default_lang);
    if str_eq(cfg.llm.provider.as_str(), "openai") {
        put_env(&mut cfg.llm.api_key, env.openai_api_key);
        put_env(&mut cfg.llm.base_url, env.openai_base_url);
    } else if str_eq(cfg.llm.provider.as_str(), "anthropic") {
        put_env(&mut cfg.llm.api_key, env.anthropic_api_key);
    }
}

/// A top-level member of a settings document: a section (a table of
/// fields) or any other value.
#[derive(Debug)]
pub enum ConfigEntry {
    Table(Vec<(String, TomlValue)>),
    Value(TomlValue),
}

/// The plain content of a `ConfigEntry`.
pub enum EntryView {
    Table(Seq<(Seq<char>, TomlValue)>),
    Value(TomlValue),
}

/// Plain view of the fields of a section.
pub open spec fn fields_view(t: Seq<(String, TomlValue)>) -> Seq<(Seq<char>, TomlValue)> {
    t.map_values(|e: (String, TomlValue)| (e.0@, e.1))
}

impl View for ConfigEntry {
    type V = EntryView;

    open spec fn view(&self) -> EntryView {
        match self {
            ConfigEntry::Table(t) => EntryView::Table(fields_view(t@)),
            ConfigEntry::Value(v) => EntryView::Value(*v),
        }
    }
}

/// The value `toml::from_str::<toml::Value>` reads from a text, when the
/// text is a TOML document.
pub uninterp spec fn toml_parsed(text: Seq<char>) -> Option<TomlValue>;

/// Whether a text is a TOML document.
pub open spec fn toml_accepts(text: Seq<char>) -> bool {
    toml_parsed(text) is Some
}

/// The members of a TOML table value, in the order its map hands them out;
/// `None` for any other value.
pub uninterp spec fn toml_table(v: TomlValue) -> Option<Seq<(Seq<char>, TomlValue)>>;

/// `toml::from_str::<toml::Value>`: the document's value, or the parser's
/// message; it fails exactly on texts that are not TOML.  The message itself
/// is not described.
#[verifier::external_body]
fn toml_parse(text: &str) -> (r: Result<TomlValue, String>)
    ensures
        r is Ok == toml_accepts(text@),
        r matches Ok(v) ==> toml_parsed(text@) == Some(v),
{
    toml::from_str::<TomlValue>(text).map_err(|e| e.to_string())
}

/// The members of `toml::Value::Table`, taken out of the map; any other
/// value is handed back.  The map is a `BTreeMap` (toml's `preserve_order`
/// is off), so the keys come out in ascending order.
#[verifier::external_body]
fn toml_into_table(v: TomlValue) -> (r: Result<Vec<(String, TomlValue)>, TomlValue>)
    ensures
        r matches Ok(m) ==> toml_table(v) == Some(fields_view(m@)) && names_ascending(fields_view(m@)),
        r matches Err(w) ==> toml_table(v) is None && w == v,
{
    match v {
        TomlValue::Table(t) => Ok(t.into_iter().collect()),
        other => Err(other),
    }
}

/// Keys in strictly ascending order (the order of `String` keys in a
/// `BTreeMap`).
pub open spec fn names_ascending<V>(t: Seq<(Seq<char>, V)>) -> bool {
    forall|i: int, j: int| 0 <= i < j < t.len() ==> str_lt(#[trigger] t[i].0, #[trigger] t[j].0)
}

proof fn lemma_str_lt_irreflexive(a: Seq<char>)
    ensures
        !str_lt(a, a),
    decreases a.len(),
{
    if a.len() > 0 {
        lemma_str_lt_irreflexive(a.drop_first());
    }
}

/// Ascending keys are distinct.
proof fn lemma_ascending_distinct<V>(t: Seq<(Seq<char>, V)>)
    requires
        names_ascending(t),
    ensures
        keys_distinct(t),
{
    assert forall|i: int, j: int| 0 <= i < t.len() && 0 <= j < t.len() && i != j implies t[i].0 != t[j].0 by {
        if i < j {
            lemma_str_lt_irreflexive(t[i].0);
            assert(str_lt(t[i].0, t[j].0));
        } else {
            lemma_str_lt_irreflexive(t[j].0);
            assert(str_lt(t[j].0, t[i].0));
        }
    }
}

/// A settings document names each member once, and each section each field
/// once.
pub open spec fn doc_keys_distinct(d: Seq<(Seq<char>, EntryView)>) -> bool {
    &&& keys_distinct(d)
    &&& forall|i: int| 0 <= i < d.len() ==> (#[trigger] d[i].1 matches EntryView::Table(lt) ==> keys_distinct(lt))
}

/// A document member: a table is a section of fields, anything else a value.
pub open spec fn entry_spec(v: TomlValue) -> EntryView {
    match toml_table(v) {
        Some(t) => EntryView::Table(t),
        None => EntryView::Value(v),
    }
}

/// The members of a document value, each read as a section or a value; a
/// value that is not a table has none.
pub open spec fn doc_spec(v: TomlValue) -> Seq<(Seq<char>, EntryView)> {
    match toml_table(v) {
        Some(ms) => ms.map_values(|e: (Seq<char>, TomlValue)| (e.0, entry_spec(e.1))),
        None => seq![],
    }
}

/// Reads a document value as settings members (see `doc_spec`).
pub fn doc_entries(v: TomlValue) -> (r: Vec<(String, ConfigEntry)>)
    ensures
        doc_view(r@) == doc_spec(v),
        doc_keys_distinct(doc_view(r@)),
{
    let ghost gv = v;
    match toml_into_table(v) {
        Err(_) => {
            let out: Vec<(String, ConfigEntry)> = Vec::new();
            assert(doc_view(out@) =~= doc_spec(gv));
            out
        },
        Ok(members) => {
            let ghost ms = fields_view(members@);
            let ghost f = |e: (Seq<char>, TomlValue)| (e.0, entry_spec(e.1));
            let mut out: Vec<(String, ConfigEntry)> = Vec::new();
            let mut rest = members;
            let ghost mut i: int = 0;
            assert(ms.subrange(0, 0).map_values(f) =~= doc_view(out@));
            assert(fields_view(rest@) =~= ms.subrange(0, ms.len() as int));
            while rest.len() > 0
                invariant
                    0 <= i <= ms.len(),
                    fields_view(rest@) == ms.subrange(i, ms.len() as int),
                    doc_view(out@) == ms.subrange(0, i).map_values(f),
                    f == (|e: (Seq<char>, TomlValue)| (e.0, entry_spec(e.1))),
                    forall|k: int| 0 <= k < out@.len() ==> (#[trigger] doc_view(out@)[k].1 matches EntryView::Table(lt)
                        ==> names_ascending(lt)),
                decreases rest@.len(),
            {
                let ghost r0 = rest@;
                assert(fields_view(r0).len() == r0.len());
                assert(fields_view(r0)[0] == ms.subrange(i, ms.len() as int)[0]);
                let (k, val) = rest.remove(0);
                let ghost gval = val;
                assert(rest@ =~= r0.subrange(1, r0.len() as int));
                let e = match toml_into_table(val) {
                    Ok(inner) => ConfigEntry::Table(inner),
                    Err(w) => ConfigEntry::Value(w),
                };
                assert(e@ == entry_spec(gval));
                let ghost before = out@;
                let ghost ev = e@;
                out.push((k, e));
                assert(doc_view(out@)[doc_view(out@).len() - 1].1 == ev);
                assert forall|kk: int| 0 <= kk < out@.len() implies (#[trigger] doc_view(out@)[kk].1 matches EntryView::Table(lt)
                    ==> names_ascending(lt)) by {
                    if kk < before.len() {
                        assert(doc_view(out@)[kk] == doc_view(before)[kk]);
                    }
                }
                assert(ms[i] == (k@, gval));
                assert(doc_view(out@) =~= doc_view(before).push((k@, e@)));
                assert(ms.subrange(0, i + 1).map_values(f) =~= ms.subrange(0, i).map_values(f).push(f(ms[i])));
                assert forall|j: int| 0 <= j < fields_view(rest@).len() implies fields_view(rest@)[j]
                    == ms.subrange(i + 1, ms.len() as int)[j] by {
                    assert(rest@[j] == r0[j + 1]);
                    assert(fields_view(r0)[j + 1] == ms.subrange(i, ms.len() as int)[j + 1]);
                }
                assert(fields_view(rest@) =~= ms.subrange(i + 1, ms.len() as int));
                proof {
                    i = i + 1;
                }
            }
            assert(ms.subrange(0, i) =~= ms);
            let ghost d = doc_view(out@);
            assert(names_ascending(d)) by {
                assert forall|a: int, b: int| 0 <= a < b < d.len() implies str_lt(#[trigger] d[a].0, #[trigger] d[b].0) by {
                    assert(d[a].0 == ms[a].0 && d[b].0 == ms[b].0);
                }
            }
            proof {
                lemma_ascending_distinct(d);
                assert forall|k: int| 0 <= k < d.len() implies (#[trigger] d[k].1 matches EntryView::Table(lt)
                    ==> keys_distinct(lt)) by {
                    if let EntryView::Table(lt) = d[k].1 {
                        lemma_ascending_distinct(lt);
                    }
                }
            }
            out
        },
    }
}

/// Reads a local settings document: its members (see `doc_spec`), or a
/// parse error exactly when the text is not TOML.
pub fn local_entries(text: &str) -> (r: Result<Vec<(String, ConfigEntry)>, ConfigError>)
    ensures
        r is Err <==> !toml_accepts(text@),
        r matches Ok(d) ==> doc_view(d@) == doc_spec(toml_parsed(text@)->0),
        r matches Ok(d) ==> doc_keys_distinct(doc_view(d@)),
        r matches Err(e) ==> e is Parse,
{
    match toml_parse(text) {
        Ok(v) => Ok(doc_entries(v)),
        Err(m) => Err(ConfigError::Parse(m)),
    }
}

/// Plain view of a settings document.
pub open spec fn doc_view(d: Seq<(String, ConfigEntry)>) -> Seq<(Seq<char>, EntryView)> {
    d.map_values(|e: (String, ConfigEntry)| (e.0@, e.1@))
}

/// Map insertion: the member with key `k` gets value `v`, added last when
/// there is none.
pub open spec fn table_insert<V>(t: Seq<(Seq<char>, V)>, k: Seq<char>, v: V) -> Seq<(Seq<char>, V)> {
    match key_index(t, k) {
        Some(i) => t.update(i, (k, v)),
        None => t.push((k, v)),
    }
}

/// Each member of `more` inserted in turn.
pub open spec fn insert_all<V>(t: Seq<(Seq<char>, V)>, more: Seq<(Seq<char>, V)>) -> Seq<(Seq<char>, V)>
    decreases more.len(),
{
    if more.len() == 0 {
        t
    } else {
        table_insert(insert_all(t, more.drop_last()), more.last().0, more.last().1)
    }
}

/// Overlays one local member: a local section over a base section sets the
/// fields it lists; anything else replaces the base member.
pub open spec fn merge_entry(base: Seq<(Seq<char>, EntryView)>, k: Seq<char>, lv: EntryView) -> Seq<(Seq<char>, EntryView)> {
    match lv {
        EntryView::Table(lt) => match lookup(base, k) {
            Some(EntryView::Table(bt)) => table_insert(base, k, EntryView::Table(insert_all(bt, lt))),
            _ => table_insert(base, k, lv),
        },
        EntryView::Value(_) => table_insert(base, k, lv),
    }
}

/// Overlays every member of `local`, in order.
pub open spec fn merge_spec(base: Seq<(Seq<char>, EntryView)>, local: Seq<(Seq<char>, EntryView)>) -> Seq<(Seq<char>, EntryView)>
    decreases local.len(),
{
    if local.len() == 0 {
        base
    } else {
        merge_entry(merge_spec(base, local.drop_last()), local.last().0, local.last().1)
    }
}

/// No key occurs twice.
pub open spec fn keys_distinct<V>(t: Seq<(Seq<char>, V)>) -> bool {
    forall|i: int, j: int| 0 <= i < t.len() && 0 <= j < t.len() && i != j ==> t[i].0 != t[j].0
}

/// Position of the first member with key `k`.
pub(crate) fn find_key<V>(entries: &Vec<(String, V)>, k: &str) -> (r: Option<usize>)
    ensures
        r matches Some(i) ==> key_index(entries@.map_values(|e: (String, V)| (e.0@, ())), k@) == Some(i as int),
        r is None ==> key_index(entries@.map_values(|e: (String, V)| (e.0@, ())), k@) is None,
{
    let ghost keys = entries@.map_values(|e: (String, V)| (e.0@, ()));
    let mut i: usize = 0;
    while i < entries.len()
        invariant
            i <= entries@.len(),
            keys == entries@.map_values(|e: (String, V)| (e.0@, ())),
            key_index(keys.subrange(0, i as int), k@) is None,
        decreases entries@.len() - i,
    {
        assert(keys.subrange(0, i + 1).drop_last() =~= keys.subrange(0, i as int));
        assert(keys[i as int].0 == entries@[i as int].0@);
        if str_eq(entries[i].0.as_str(), k) {
            proof {
                crate::tags::lemma_key_index_prefix(keys, k@, i + 1);
            }
            return Some(i);
        }
        i = i + 1;
    }
    assert(keys.subrange(0, keys.len() as int) =~= keys);
    None
}

/// Sets field `k` of a section to `v`.
fn field_put(t: &mut Vec<(String, TomlValue)>, k: String, v: TomlValue)
    ensures
        fields_view(final(t)@) == table_insert(fields_view(old(t)@), k@, v),
{
    let ghost before = fields_view(t@);
    let found = find_key(t, k.as_str());
    proof {
        crate::tags::lemma_key_index_keys(t@.map_values(|e: (String, TomlValue)| (e.0@, ())), before, k@);
        lemma_key_index_bounds(before, k@);
    }
    match found {
        Some(i) => {
            t.remove(i);
            t.insert(i, (k, v));
            assert(fields_view(t@) =~= before.update(i as int, (k@, v)));
        },
        None => {
            t.push((k, v));
            assert(fields_view(t@) =~= before.push((k@, v)));
        },
    }
}

/// Sets member `k` of a document to `v`.
fn doc_put(d: &mut Vec<(String, ConfigEntry)>, k: String, v: ConfigEntry)
    ensures
        doc_view(final(d)@) == table_insert(doc_view(old(d)@), k@, v@),
{
    let ghost before = doc_view(d@);
    let found = find_key(d, k.as_str());
    proof {
        crate::tags::lemma_key_index_keys(d@.map_values(|e: (String, ConfigEntry)| (e.0@, ())), before, k@);
        lemma_key_index_bounds(before, k@);
    }
    match found {
        Some(i) => {
            d.remove(i);
            d.insert(i, (k, v));
            assert(doc_view(d@) =~= before.update(i as int, (k@, v@)));
        },
        None => {
            d.push((k, v));
            assert(doc_view(d@) =~= before.push((k@, v@)));
        },
    }
}

/// Sets every field of `more` in `t`, in order.
fn fields_put_all(t: &mut Vec<(String, TomlValue)>, more: Vec<(String, TomlValue)>)
    ensures
        fields_view(final(t)@) == insert_all(fields_view(old(t)@), fields_view(more@)),
{
    let ghost all = fields_view(more@);
    let ghost start = fields_view(t@);
    let mut rest = more;
    let ghost mut i: int = 0;
    while rest.len() > 0
        invariant
            0 <= i <= all.len(),
            fields_view(rest@) == all.subrange(i, all.len() as int),
            fields_view(t@) == insert_all(start, all.subrange(0, i)),
        decreases rest@.len(),
    {
        let ghost r0 = rest@;
        assert(fields_view(r0).len() == r0.len());
        assert(i < all.len());
        assert(fields_view(r0)[0] == all.subrange(i, all.len() as int)[0]);
        let (k, v) = rest.remove(0);
        assert(fields_view(r0)[0] == (k@, v));
        assert(rest@ =~= r0.subrange(1, r0.len() as int));
        assert(all.subrange(0, i + 1).drop_last() =~= all.subrange(0, i));
        assert forall|j: int| 0 <= j < fields_view(rest@).len() implies fields_view(rest@)[j] == all.subrange(i + 1, all.len() as int)[j] by {
            assert(rest@[j] == r0[j + 1]);
            assert(fields_view(r0)[j + 1] == all.subrange(i, all.len() as int)[j + 1]);
        }
        assert(fields_view(rest@) =~= all.subrange(i + 1, all.len() as int));
        field_put(t, k, v);
        proof {
            i = i + 1;
        }
    }
    assert(all.subrange(0, i) =~= all);
}

/// Overlays a local settings document on `base`, member by member: a
/// section present in both as tables gets the local fields (other fields
/// kept); any other local member replaces or adds the base member.
pub fn merge_sections(base: &mut Vec<(String, ConfigEntry)>, local: Vec<(String, ConfigEntry)>)
    ensures
        doc_view(final(base)@) == merge_spec(doc_view(old(base)@), doc_view(local@)),
{
    let ghost all = doc_view(local@);
    let ghost start = doc_view(base@);
    let mut rest = local;
    let ghost mut i: int = 0;
    while rest.len() > 0
        invariant
            0 <= i <= all.len(),
            doc_view(rest@) == all.subrange(i, all.len() as int),
            doc_view(base@) == merge_spec(start, all.subrange(0, i)),
        decreases rest@.len(),
    {
        let ghost r0 = rest@;
        assert(doc_view(r0).len() == r0.len());
        assert(i < all.len());
        assert(doc_view(r0)[0] == all.subrange(i, all.len() as int)[0]);
        let (k, lv) = rest.remove(0);
        assert(doc_view(r0)[0] == (k@, lv@));
        assert(rest@ =~= r0.subrange(1, r0.len() as int));
        assert(all.subrange(0, i + 1).drop_last() =~= all.subrange(0, i));
        assert forall|j: int| 0 <= j < doc_view(rest@).len() implies doc_view(rest@)[j] == all.subrange(i + 1, all.len() as int)[j] by {
            assert(rest@[j] == r0[j + 1]);
            assert(doc_view(r0)[j + 1] == all.subrange(i, all.len() as int)[j + 1]);
        }
        assert(doc_view(rest@) =~= all.subrange(i + 1, all.len() as int));
        let ghost cur = doc_view(base@);
        match lv {
            ConfigEntry::Table(lt) => {
                let found = find_key(base, k.as_str());
                proof {
                    crate::tags::lemma_key_index_keys(base@.map_values(|e: (String, ConfigEntry)| (e.0@, ())), cur, k@);
                    lemma_key_index_bounds(cur, k@);
                }
                let base_is_table = match found {
                    Some(j) => match &base[j].1 {
                        ConfigEntry::Table(_) => true,
                        ConfigEntry::Value(_) => false,
                    },
                    None => false,
                };
                if base_is_table {
                    let j = found.unwrap();
                    let (bk, be) = base.remove(j);
                    match be {
                        ConfigEntry::Table(mut bt) => {
                            let ghost bt0 = fields_view(bt@);
                            fields_put_all(&mut bt, lt);
                            base.insert(j, (bk, ConfigEntry::Table(bt)));
                            assert(doc_view(base@) =~= cur.update(j as int, (k@, EntryView::Table(insert_all(bt0, fields_view(lt@))))));
                        },
                        ConfigEntry::Value(v) => {
                            assert(false);
                            base.insert(j, (bk, ConfigEntry::Value(v)));
                        },
                    }
                } else {
                    doc_put(base, k, ConfigEntry::Table(lt));
                }
            },
            ConfigEntry::Value(v) => {
                doc_put(base, k, ConfigEntry::Value(v));
            },
        }
        proof {
            i = i + 1;
        }
    }
    assert(all.subrange(0, i) =~= all);
}

/// Inserting under `k` sets `k` and leaves every other key as it was.
pub proof fn lemma_table_insert<V>(t: Seq<(Seq<char>, V)>, k: Seq<char>, v: V, j: Seq<char>)
    ensures
        lookup(table_insert(t, k, v), k) == Some(v),
        j != k ==> lookup(table_insert(t, k, v), j) == lookup(t, j),
{
    lemma_key_index_bounds(t, k);
    lemma_key_index_bounds(t, j);
    match key_index(t, k) {
        Some(i) => {
            let u = t.update(i, (k, v));
            crate::tags::lemma_key_index_same_keys(t, u, k);
            crate::tags::lemma_key_index_same_keys(t, u, j);
            if j != k {
                if let Some(m) = key_index(t, j) {
                    assert(m != i);
                }
            }
        },
        None => {
            let u = t.push((k, v));
            assert(u.drop_last() =~= t);
        },
    }
}

/// After inserting all of `more` (keys distinct), a key of `more` holds its
/// value from `more`; any other key keeps its value.
pub proof fn lemma_insert_all<V>(t: Seq<(Seq<char>, V)>, more: Seq<(Seq<char>, V)>, f: Seq<char>)
    requires
        keys_distinct(more),
    ensures
        lookup(insert_all(t, more), f) == if lookup(more, f) is Some {
            lookup(more, f)
        } else {
            lookup(t, f)
        },
    decreases more.len(),
{
    if more.len() > 0 {
        let pre = more.drop_last();
        let last = more.last();
        assert(keys_distinct(pre)) by {
            assert forall|i: int, j: int| 0 <= i < pre.len() && 0 <= j < pre.len() && i != j implies pre[i].0 != pre[j].0 by {
                assert(pre[i] == more[i] && pre[j] == more[j]);
            }
        }
        lemma_insert_all(t, pre, f);
        lemma_table_insert(insert_all(t, pre), last.0, last.1, f);
        lemma_key_index_bounds(pre, f);
        lemma_key_index_bounds(more, f);
        if f == last.0 {
            assert forall|i: int| 0 <= i < pre.len() implies pre[i].0 != f by {
                assert(more[i].0 != more[more.len() - 1].0);
            }
        }
    }
}

/// A field of a section overlaid by a local section: the local value when
/// the local section lists it, else the base value.
pub open spec fn overlaid_field(
    lt: Seq<(Seq<char>, TomlValue)>,
    bt: Seq<(Seq<char>, TomlValue)>,
    f: Seq<char>,
) -> Option<TomlValue> {
    if lookup(lt, f) is Some {
        lookup(lt, f)
    } else {
        lookup(bt, f)
    }
}

/// The local document's members are left untouched by base keys: a merged
/// key keeps its base value until a local member names it.
proof fn lemma_merge_key(
    base: Seq<(Seq<char>, EntryView)>,
    local: Seq<(Seq<char>, EntryView)>,
    k: Seq<char>,
    f: Seq<char>,
)
    requires
        keys_distinct(local),
        forall|i: int| 0 <= i < local.len() ==> (#[trigger] local[i].1 matches EntryView::Table(lt) ==> keys_distinct(lt)),
    ensures
        lookup(local, k) is None ==> lookup(merge_spec(base, local), k) == lookup(base, k),
        lookup(local, k) matches Some(EntryView::Table(lt)) ==> (lookup(base, k) matches Some(EntryView::Table(bt))
            ==> (lookup(merge_spec(base, local), k) matches Some(EntryView::Table(mt)) && lookup(mt, f)
            == overlaid_field(lt, bt, f))),
        (lookup(local, k) is Some && !(lookup(local, k) matches Some(EntryView::Table(_)) && lookup(base, k) matches Some(
            EntryView::Table(_),
        ))) ==> lookup(merge_spec(base, local), k) == lookup(local, k),
    decreases local.len(),
{
    if local.len() > 0 {
        let pre = local.drop_last();
        let (lk, lv) = local.last();
        assert(keys_distinct(pre)) by {
            assert forall|i: int, j: int| 0 <= i < pre.len() && 0 <= j < pre.len() && i != j implies pre[i].0 != pre[j].0 by {
                assert(pre[i] == local[i] && pre[j] == local[j]);
            }
        }
        assert forall|i: int| 0 <= i < pre.len() implies (#[trigger] pre[i].1 matches EntryView::Table(lt) ==> keys_distinct(lt)) by {
            assert(pre[i] == local[i]);
        }
        lemma_merge_key(base, pre, k, f);
        let m = merge_spec(base, pre);
        lemma_key_index_bounds(pre, k);
        lemma_key_index_bounds(local, k);
        match lv {
            EntryView::Table(lt) => {
                match lookup(m, lk) {
                    Some(EntryView::Table(bt)) => {
                        lemma_table_insert(m, lk, EntryView::Table(insert_all(bt, lt)), k);
                        assert(local[local.len() - 1].1 == lv);
                        lemma_insert_all(bt, lt, f);
                    },
                    _ => {
                        lemma_table_insert(m, lk, lv, k);
                    },
                }
            },
            EntryView::Value(_) => {
                lemma_table_insert(m, lk, lv, k);
            },
        }
        if k == lk {
            assert forall|i: int| 0 <= i < pre.len() implies pre[i].0 != k by {
                assert(local[i].0 != local[local.len() - 1].0);
            }
            lemma_key_index_bounds(pre, lk);
            lemma_merge_key(base, pre, lk, f);
        }
    }
}

/// Overlaying a local settings document (members named once, and the
/// fields of each local section named once): a member the local document
/// does not name keeps its base value; a section that both documents hold
/// as a table takes each field the local section lists and keeps its other
/// fields; any other member the local document names takes the local value.
pub proof fn merge_overlay_law(
    base: Seq<(Seq<char>, EntryView)>,
    local: Seq<(Seq<char>, EntryView)>,
    k: Seq<char>,
    f: Seq<char>,
)
    requires
        keys_distinct(local),
        forall|i: int| 0 <= i < local.len() ==> (#[trigger] local[i].1 matches EntryView::Table(lt) ==> keys_distinct(lt)),
    ensures
        lookup(local, k) is None ==> lookup(merge_spec(base, local), k) == lookup(base, k),
        lookup(local, k) matches Some(EntryView::Table(lt)) ==> (lookup(base, k) matches Some(EntryView::Table(bt))
            ==> (lookup(merge_spec(base, local), k) matches Some(EntryView::Table(mt)) && lookup(mt, f)
            == overlaid_field(lt, bt, f))),
        (lookup(local, k) is Some && !(lookup(local, k) matches Some(EntryView::Table(_)) && lookup(base, k) matches Some(
            EntryView::Table(_),
        ))) ==> lookup(merge_spec(base, local), k) == lookup(local, k),
{
    lemma_merge_key(base, local, k, f);
}

} // verus!
