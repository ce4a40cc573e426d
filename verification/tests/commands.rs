use auto_comfy_maker::cli::batch::{batch_item_line, batch_opts, batch_seed, BatchArgs, BatchTally};
use auto_comfy_maker::cli::daemon::{build_trigger, prompt_source, DaemonArgs, DaemonMode, PromptSource, Trigger};
use auto_comfy_maker::cli::pipeline::{pipeline_settings, resolve_lang, resolve_strategy, workflow_seed};
use auto_comfy_maker::config::{AppConfig, LlmSection};
use auto_comfy_maker::prompt_engine::llm::{llm_config_for, Provider};
use auto_comfy_maker::prompt_engine::strategy::CombineStrategy;
use auto_comfy_maker::tags::Lang;

fn daemon_args() -> DaemonArgs {
    DaemonArgs {
        interval: None,
        cron: None,
        at: Vec::new(),
        task_interval: None,
        mode: DaemonMode::Fixed,
        prompt: Some("p".into()),
        prompt_file: None,
        theme: "portrait".into(),
        lang: None,
        count_per_tick: 1,
        template: "default".into(),
        no_send: false,
        refine: false,
        persist: "config/schedule.toml".into(),
    }
}

#[test]
fn resolve_lang_falls_back_to_config() {
    let cfg = AppConfig::default();
    assert_eq!(resolve_lang(None, &cfg).unwrap(), Lang::Zh);
    assert_eq!(resolve_lang(Some("en"), &cfg).unwrap(), Lang::En);
    assert_eq!(resolve_lang(Some("fr"), &cfg).unwrap_err(), "unknown language: fr");
}

#[test]
fn resolve_strategy_falls_back_to_config() {
    let cfg = AppConfig::default();
    assert_eq!(resolve_strategy(None, &cfg).unwrap(), CombineStrategy::Comma);
    assert_eq!(resolve_strategy(Some("newline"), &cfg).unwrap(), CombineStrategy::Newline);
    assert_eq!(resolve_strategy(Some("x"), &cfg).unwrap_err(), "unknown strategy: x");
}

#[test]
fn pipeline_settings_defaults() {
    let mut cfg = AppConfig::default();
    cfg.prompt.default_seed = 9;
    let s = pipeline_settings(None, None, None, 0, &cfg).unwrap();
    assert_eq!(s.max_length, 800);
    assert_eq!(s.seed, 9);
    let t = pipeline_settings(Some("en"), Some("natural"), Some(10), 5, &cfg).unwrap();
    assert_eq!(t.lang, Lang::En);
    assert_eq!(t.strategy, CombineStrategy::Natural);
    assert_eq!(t.max_length, 10);
    assert_eq!(t.seed, 5);
    assert_eq!(pipeline_settings(Some("fr"), Some("x"), None, 0, &cfg).unwrap_err(), "unknown language: fr");
}

#[test]
fn workflow_seed_uses_clock_for_zero() {
    assert_eq!(workflow_seed(0, 1234), 1234);
    assert_eq!(workflow_seed(7, 1234), 7);
}

#[test]
fn batch_seeds_and_tally() {
    assert_eq!(batch_seed(0, 3, 1000), 1003);
    assert_eq!(batch_seed(u64::MAX, 2, 0), 1);
    assert!(BatchTally::start(0).is_err());
    let mut t = BatchTally::start(2).unwrap();
    t.record(false);
    t.record(false);
    assert_eq!(t.summary(), "batch done: 0 generated, 2 failed");
    assert_eq!(t.verdict().unwrap_err(), "all 2 batch items failed");
    let mut u = BatchTally::start(2).unwrap();
    u.record(true);
    u.record(false);
    assert!(u.verdict().is_ok());
    assert_eq!(batch_item_line(1, 2, true, "p"), "[1/2] [refined] p");
    assert_eq!(batch_item_line(2, 2, false, "p"), "[2/2] p");
}

#[test]
fn batch_items_keep_arguments() {
    let args = BatchArgs {
        count: 3,
        theme: "portrait".into(),
        lang: Some("en".into()),
        strategy: None,
        max_length: Some(100),
        seed: 0,
        template: "anima-aesthetic".into(),
        no_send: true,
        refine: true,
    };
    let o = batch_opts(&args, 77);
    assert_eq!(o.seed, 77);
    assert_eq!(o.theme_name, "portrait");
    assert!(o.use_refine && o.no_send);
    assert!(o.width.is_none());
}

#[test]
fn llm_config_needs_enabled_provider_and_key() {
    let mut llm = LlmSection::default();
    assert!(llm_config_for(&llm, Some("k".into()), None).is_none());
    llm.enabled = true;
    llm.provider = "openai".into();
    llm.model = "m".into();
    assert!(llm_config_for(&llm, None, Some("a".into())).is_none());
    let c = llm_config_for(&llm, Some("envkey".into()), None).unwrap();
    assert_eq!(c.provider, Provider::OpenAI);
    assert_eq!(c.api_key, "envkey");
    llm.api_key = "own".into();
    assert_eq!(llm_config_for(&llm, None, None).unwrap().api_key, "own");
    llm.provider = "mystery".into();
    assert!(llm_config_for(&llm, Some("k".into()), Some("k".into())).is_none());
}

#[test]
fn daemon_trigger_choice() {
    let mut a = daemon_args();
    assert!(build_trigger(&a).is_err());
    a.task_interval = Some("5s".into());
    assert!(matches!(build_trigger(&a), Ok(Trigger::Continuous(5))));
    a.task_interval = None;
    a.interval = Some("2m".into());
    assert!(matches!(build_trigger(&a), Ok(Trigger::Interval(120))));
    a.interval = None;
    a.cron = Some("0 9 * * *".into());
    assert!(matches!(build_trigger(&a), Ok(Trigger::Cron(_))));
}

#[test]
fn daemon_prompt_source() {
    let a = daemon_args();
    assert!(matches!(prompt_source(&a), Ok(PromptSource::Text(p)) if p == "p"));
    let mut b = daemon_args();
    b.prompt = None;
    assert!(prompt_source(&b).is_err());
    b.prompt_file = Some("f.txt".into());
    assert!(matches!(prompt_source(&b), Ok(PromptSource::File(f)) if f == "f.txt"));
}
