use auto_comfy_maker::cli::pipeline::{resolve_lang, resolve_strategy};
use auto_comfy_maker::config::{apply_env, doc_entries, local_entries, merge_sections, AppConfig, ConfigEntry, ConfigError, EnvOverrides};
use auto_comfy_maker::theme::{
    theme_file, CategoryRef, Compatibility, GenerationOptions, OrderSections, Theme, ThemeError, ThemeMeta,
};

fn section(fields: &[(&str, toml::Value)]) -> ConfigEntry {
    ConfigEntry::Table(fields.iter().map(|(k, v)| (k.to_string(), v.clone())).collect())
}

fn text(s: &str) -> toml::Value {
    toml::Value::String(s.to_string())
}

fn field<'a>(doc: &'a [(String, ConfigEntry)], sec: &str, key: &str) -> Option<&'a toml::Value> {
    let (_, e) = doc.iter().find(|(k, _)| k == sec)?;
    match e {
        ConfigEntry::Table(t) => t.iter().find(|(k, _)| k == key).map(|(_, v)| v),
        ConfigEntry::Value(_) => None,
    }
}

fn theme_with(lang: &str, id: &str, fixed: Vec<(String, CategoryRef)>) -> Theme {
    Theme {
        meta: ThemeMeta {
            id: id.to_string(),
            name: "bad".to_string(),
            description: String::new(),
            lang: lang.to_string(),
            version: "1.0".to_string(),
        },
        order: OrderSections { fixed, random: Vec::new(), optional: Vec::new() },
        compatibility: Compatibility::default(),
        generation: GenerationOptions::default(),
    }
}

#[test]
fn default_is_valid() {
    AppConfig::default().validate().expect("default valid");
}

#[test]
fn default_values() {
    let c = AppConfig::default();
    assert_eq!(c.app.name, "auto-comfy-maker");
    assert_eq!(c.prompt.default_lang, "zh");
    assert_eq!(c.prompt.default_max_length, 800);
    assert_eq!(c.comfyui.url, "http://127.0.0.1:8188");
    assert!(!c.llm.enabled);
}

#[test]
fn reject_invalid_log_level() {
    let mut cfg = AppConfig::default();
    cfg.app.log_level = "verbose".into();
    assert!(cfg.validate().is_err());
}

#[test]
fn mod_reject_invalid_lang() {
    let mut cfg = AppConfig::default();
    cfg.prompt.default_lang = "klingon".into();
    assert!(cfg.validate().is_err());
}

#[test]
fn invalid_strategy_names_field() {
    let mut cfg = AppConfig::default();
    cfg.prompt.default_strategy = "random".into();
    match cfg.validate() {
        Err(ConfigError::Invalid { field, value, reason }) => {
            assert_eq!(field, "prompt.default_strategy");
            assert_eq!(value, "random");
            assert_eq!(reason, "must be one of comma|newline|natural");
        }
        other => panic!("unexpected {other:?}"),
    }
}

#[test]
fn roots_join_project_root() {
    let c = AppConfig::default();
    assert_eq!(c.themes_root("/p"), "/p/themes");
    assert_eq!(c.tags_root("/p/"), "/p/tags");
    assert_eq!(c.output_root("rel"), "rel/output");
    assert_eq!(c.templates_root(""), "templates");
    let mut d = AppConfig::default();
    d.paths.output_dir = "/abs/out".into();
    assert_eq!(d.output_root("/p"), "/abs/out");
}

#[test]
fn local_section_overrides_listed_fields_only() {
    let mut base = vec![
        ("app".to_string(), section(&[("name", text("auto-comfy-maker")), ("log_level", text("info"))])),
        (
            "comfyui".to_string(),
            section(&[
                ("url", text("http://default-host:8188")),
                ("poll_interval_secs", toml::Value::Integer(2)),
                ("timeout_secs", toml::Value::Integer(300)),
            ]),
        ),
    ];
    let local = vec![
        ("comfyui".to_string(), section(&[("url", text("http://user-host:9999"))])),
        ("extra".to_string(), ConfigEntry::Value(toml::Value::Boolean(true))),
    ];
    merge_sections(&mut base, local);
    assert_eq!(field(&base, "comfyui", "url"), Some(&text("http://user-host:9999")));
    assert_eq!(field(&base, "comfyui", "poll_interval_secs"), Some(&toml::Value::Integer(2)));
    assert_eq!(field(&base, "app", "name"), Some(&text("auto-comfy-maker")));
    assert_eq!(base.len(), 3);
    assert!(matches!(&base[2].1, ConfigEntry::Value(toml::Value::Boolean(true))));
}

#[test]
fn local_value_replaces_section() {
    let mut base = vec![("llm".to_string(), section(&[("enabled", toml::Value::Boolean(false))]))];
    merge_sections(&mut base, vec![("llm".to_string(), ConfigEntry::Value(text("off")))]);
    assert!(matches!(&base[0].1, ConfigEntry::Value(v) if *v == text("off")));
}

#[test]
fn reject_invalid_lang() {
    let t = theme_with("jp", "bad", Vec::new());
    let err = t.validate().unwrap_err();
    assert!(matches!(err, ThemeError::Invalid { .. }));
}

#[test]
fn theme_rules_in_order() {
    assert!(theme_with("mixed", "ok", Vec::new()).validate().is_ok());
    match theme_with("zh", "  ", Vec::new()).validate() {
        Err(ThemeError::Invalid { field, .. }) => assert_eq!(field, "meta.id"),
        other => panic!("unexpected {other:?}"),
    }
    let zero = vec![("style".to_string(), CategoryRef { file: "a.txt".into(), count: 0, max: None })];
    match theme_with("zh", "x", zero).validate() {
        Err(ThemeError::Invalid { field, reason }) => {
            assert_eq!(field, "order.style.count");
            assert_eq!(reason, "must be > 0 for fixed/random");
        }
        other => panic!("unexpected {other:?}"),
    }
    let low = vec![("hair".to_string(), CategoryRef { file: "a.txt".into(), count: 3, max: Some(2) })];
    match theme_with("zh", "x", low).validate() {
        Err(ThemeError::Invalid { field, reason }) => {
            assert_eq!(field, "order.hair.max");
            assert_eq!(reason, "max (2) must be >= count (3)");
        }
        other => panic!("unexpected {other:?}"),
    }
}

#[test]
fn theme_file_path() {
    assert_eq!(theme_file("/p/themes", "demo"), "/p/themes/demo.toml");
}

#[test]
fn mixed_without_llm_is_refused() {
    let mut cfg = AppConfig::default();
    cfg.prompt.default_lang = "mixed".into();
    match cfg.validate() {
        Err(ConfigError::Invalid { field, value, reason }) => {
            assert_eq!(field, "prompt.default_lang");
            assert_eq!(value, "mixed");
            assert_eq!(reason, "mixed requires llm.enabled = true");
        }
        other => panic!("unexpected: {other:?}"),
    }
}

#[test]
fn mixed_with_llm_goes_on_to_the_strategy() {
    let mut cfg = AppConfig::default();
    cfg.prompt.default_lang = "mixed".into();
    cfg.llm.enabled = true;
    assert!(cfg.validate().is_ok());
    cfg.prompt.default_strategy = "zigzag".into();
    match cfg.validate() {
        Err(ConfigError::Invalid { field, value, .. }) => {
            assert_eq!(field, "prompt.default_strategy");
            assert_eq!(value, "zigzag");
        }
        other => panic!("unexpected: {other:?}"),
    }
    assert!(resolve_lang(None, &cfg).is_err());
}

#[test]
fn url_without_scheme_is_refused() {
    let mut cfg = AppConfig::default();
    cfg.comfyui.url = "127.0.0.1:8188".into();
    match cfg.validate() {
        Err(ConfigError::Invalid { field, value, .. }) => {
            assert_eq!(field, "comfyui.url");
            assert_eq!(value, "127.0.0.1:8188");
        }
        other => panic!("unexpected: {other:?}"),
    }
    cfg.comfyui.url = "https://comfy.example".into();
    assert!(cfg.validate().is_ok());
}

#[test]
fn validated_defaults_resolve_without_arguments() {
    let mut cfg = AppConfig::default();
    cfg.prompt.default_lang = "en".into();
    cfg.prompt.default_strategy = "natural".into();
    cfg.validate().unwrap();
    assert!(resolve_lang(None, &cfg).is_ok());
    assert!(resolve_strategy(None, &cfg).is_ok());
}

#[test]
fn local_entries_reads_sections_and_values() {
    let doc = local_entries("top = 1\n[prompt]\ndefault_lang = \"en\"\n").unwrap();
    assert_eq!(field(&doc, "prompt", "default_lang"), Some(&text("en")));
    let (_, top) = doc.iter().find(|(k, _)| k == "top").unwrap();
    assert!(matches!(top, ConfigEntry::Value(toml::Value::Integer(1))));
}

#[test]
fn local_entries_rejects_invalid_toml() {
    assert!(matches!(local_entries("this is not valid toml [[["), Err(ConfigError::Parse(_))));
}

#[test]
fn local_prompt_overlay_keeps_other_sections() {
    let base: toml::Value = toml::from_str("[app]\nname = \"auto-comfy-maker\"\n[prompt]\ndefault_lang = \"zh\"\ndefault_seed = 0\n").unwrap();
    let mut doc = doc_entries(base);
    merge_sections(&mut doc, local_entries("[prompt]\ndefault_lang = \"en\"\n").unwrap());
    assert_eq!(field(&doc, "prompt", "default_lang"), Some(&text("en")));
    assert_eq!(field(&doc, "prompt", "default_seed"), Some(&toml::Value::Integer(0)));
    assert_eq!(field(&doc, "app", "name"), Some(&text("auto-comfy-maker")));
}

#[test]
fn environment_overrides_settings() {
    let mut cfg = AppConfig::default();
    cfg.llm.provider = "openai".into();
    cfg.llm.api_key = "from-toml".into();
    apply_env(
        &mut cfg,
        EnvOverrides {
            comfyui_url: Some("http://gpu:8188".into()),
            openai_api_key: Some("from-env".into()),
            openai_base_url: Some(String::new()),
            anthropic_api_key: Some("ignored".into()),
            log_level: None,
            default_lang: Some("en".into()),
        },
    );
    assert_eq!(cfg.comfyui.url, "http://gpu:8188");
    assert_eq!(cfg.llm.api_key, "from-env");
    assert_eq!(cfg.llm.base_url, "");
    assert_eq!(cfg.app.log_level, "info");
    assert_eq!(cfg.prompt.default_lang, "en");
}

#[test]
fn theme_names_twice_in_a_table_are_refused() {
    let cat = CategoryRef { file: "tags/zh/a.txt".to_string(), count: 1, max: None };
    let t = theme_with("zh", "ok", vec![("a".to_string(), cat.clone()), ("a".to_string(), cat)]);
    match t.validate() {
        Err(ThemeError::Invalid { field, reason }) => {
            assert_eq!(field, "order");
            assert_eq!(reason, "a name occurs twice in one table");
        }
        other => panic!("unexpected: {other:?}"),
    }
}
