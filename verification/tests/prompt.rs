use auto_comfy_maker::prompt_engine::combine::{combine, combine_would_panic, stem_from_file, CombineContext};
use auto_comfy_maker::prompt_engine::llm::{agent_settings, refine_outcome, LlmConfig, LlmError, Provider};
use auto_comfy_maker::prompt_engine::strategy::{CombineStrategy, Lcg, PromptError};
use auto_comfy_maker::tags::{LangAwarePool, Lang};
use auto_comfy_maker::theme::{
    CategoryRef, Compatibility, GenerationOptions, OptionalCategoryRef, OrderSections, Theme, ThemeMeta,
};

fn meta(id: &str) -> ThemeMeta {
    ThemeMeta {
        id: id.to_string(),
        name: "d".to_string(),
        description: String::new(),
        lang: "zh".to_string(),
        version: "1.0".to_string(),
    }
}

fn theme(fixed: Vec<(String, CategoryRef)>, random: Vec<(String, CategoryRef)>) -> Theme {
    Theme {
        meta: meta("demo"),
        order: OrderSections { fixed, random, optional: Vec::new() },
        compatibility: Compatibility::default(),
        generation: GenerationOptions::default(),
    }
}

fn cat(file: &str, count: usize, max: Option<usize>) -> CategoryRef {
    CategoryRef { file: file.to_string(), count, max }
}

fn lines_of(items: &[&str]) -> String {
    let mut s = String::new();
    for it in items {
        s.push_str(it);
        s.push('\n');
    }
    s
}

fn ctx(theme: Theme, lang: Lang, seed: u64) -> CombineContext {
    CombineContext {
        theme,
        lang,
        strategy: CombineStrategy::Comma,
        max_length: 800,
        seed,
        project_root: "/nonexistent".to_string(),
    }
}

#[test]
fn lcg_is_deterministic() {
    let mut a = Lcg::new(42);
    let mut b = Lcg::new(42);
    for _ in 0..100 {
        assert_eq!(a.next_u32(), b.next_u32());
    }
}

#[test]
fn lcg_different_seeds_differ() {
    let mut a = Lcg::new(1);
    let mut b = Lcg::new(2);
    let mut diff = 0;
    for _ in 0..20 {
        if a.next_u32() != b.next_u32() {
            diff += 1;
        }
    }
    assert!(diff > 10, "expected divergence between seeds");
}

#[test]
fn lcg_first_output_is_exact() {
    let mut a = Lcg::new(1);
    let expected = (1u64.wrapping_mul(2862933555777941757).wrapping_add(3037000493) >> 32) as u32;
    assert_eq!(a.next_u32(), expected);
    let mut z = Lcg::new(0);
    let s0: u64 = 0x9E3779B97F4A7C15;
    assert_eq!(z.next_u32(), (s0.wrapping_mul(2862933555777941757).wrapping_add(3037000493) >> 32) as u32);
}

#[test]
fn gen_range_stays_below() {
    let mut a = Lcg::new(7);
    for n in 1..50usize {
        assert!(a.gen_range(n) < n);
    }
    assert_eq!(a.gen_range(0), 0);
}

#[test]
fn strategy_join() {
    assert_eq!(CombineStrategy::Comma.join(&["a".into(), "b".into()]), "a, b");
    assert_eq!(CombineStrategy::Newline.join(&["a".into(), "b".into()]), "a\nb");
    assert_eq!(CombineStrategy::Natural.join(&["a".into(), "b".into()]), "a b");
}

#[test]
fn strategy_parse_names() {
    assert_eq!(CombineStrategy::parse("comma"), Some(CombineStrategy::Comma));
    assert_eq!(CombineStrategy::parse("natural"), Some(CombineStrategy::Natural));
    assert_eq!(CombineStrategy::parse("Comma"), None);
}

#[test]
fn provider_parse_roundtrip() {
    assert_eq!(Provider::parse("openai"), Some(Provider::OpenAI));
    assert_eq!(Provider::parse("anthropic"), Some(Provider::Anthropic));
    assert_eq!(Provider::parse("klingon"), None);
}

#[test]
fn build_rejects_empty_key() {
    let cfg = LlmConfig {
        provider: Provider::OpenAI,
        model: "gpt-4o-mini".into(),
        api_key: "".into(),
        base_url: "".into(),
        disable_thinking: false,
    };
    let err = agent_settings(&cfg).unwrap_err();
    assert!(matches!(err, LlmError::MissingApiKey("OPENAI_API_KEY")));
}

#[test]
fn agent_settings_take_anthropic_base_url() {
    let cfg = LlmConfig {
        provider: Provider::Anthropic,
        model: "model-a".into(),
        api_key: "k".into(),
        base_url: "https://example.invalid".into(),
        disable_thinking: true,
    };
    let s = agent_settings(&cfg).unwrap();
    assert_eq!(s.base_url.as_deref(), Some("https://example.invalid"));
    assert!(!s.thinking_off);
    let cfg2 = LlmConfig { provider: Provider::OpenAI, ..cfg };
    let s2 = agent_settings(&cfg2).unwrap();
    assert!(s2.base_url.is_none());
    assert!(s2.thinking_off);
}

#[test]
fn refine_keeps_prompt_without_answer() {
    assert_eq!(refine_outcome("composed prompt", None), "composed prompt");
    assert_eq!(refine_outcome("p", Some(Err(LlmError::Prompt("x".into())))), "p");
    assert_eq!(refine_outcome("p", Some(Ok("  \n".into()))), "p");
    assert_eq!(refine_outcome("p", Some(Ok("better".into()))), "better");
}

#[test]
fn stem_matches_path_file_stem() {
    for f in ["tags/zh/风格.txt", "a.tar.gz", ".hidden", "dir/", "foo.", "..", "/", "", "x/..", "a/./b.txt/.", "..x"] {
        let expected = std::path::Path::new(f).file_stem().and_then(|s| s.to_str()).map(|s| s.to_string());
        assert_eq!(stem_from_file(f), expected, "path {f:?}");
    }
}

#[test]
fn combine_uses_fixed_and_random() {
    let mut pool = LangAwarePool::new();
    pool.load_text(Lang::Zh, "风格", &lines_of(&["3D 渲染", "写实", "油画"]));
    pool.load_text(Lang::Zh, "主体", &lines_of(&["女性", "男性"]));
    pool.load_text(Lang::Zh, "发型", &lines_of(&["长发", "短发"]));
    let t = theme(
        vec![
            ("style".to_string(), cat("tags/zh/风格.txt", 1, None)),
            ("subject".to_string(), cat("tags/zh/主体.txt", 1, None)),
        ],
        vec![("hair".to_string(), cat("tags/zh/发型.txt", 1, Some(1)))],
    );
    let c = ctx(t, Lang::Zh, 1);
    assert!(!combine_would_panic(&c, &pool));
    let out = combine(&c, &pool).unwrap();
    assert!(!out.prompt.is_empty());
    assert_eq!(out.selected.len(), 3);
}

#[test]
fn conflict_drops_candidate() {
    let mut pool = LangAwarePool::new();
    pool.load_text(Lang::Zh, "服装", &lines_of(&["比基尼", "毛衣", "汉服", "牛仔裤", "T恤"]));
    let mut t = theme(Vec::new(), vec![("clothing".to_string(), cat("tags/zh/服装.txt", 2, Some(2)))]);
    t.compatibility.conflicts.push((
        "clothing".to_string(),
        vec![vec!["比基尼".to_string(), "毛衣".to_string()]],
    ));
    for seed in 0..30 {
        let out = combine(&ctx(t.clone(), Lang::Zh, seed), &pool).unwrap();
        assert_eq!(out.selected.len(), 2, "seed={seed}");
        let items: Vec<&str> = out.selected.iter().map(|(_, v)| v.as_str()).collect();
        let has_conflict = items.contains(&"比基尼") && items.contains(&"毛衣");
        assert!(!has_conflict, "conflict violated: {items:?}");
    }
}

#[test]
fn truncate_when_too_long() {
    let mut pool = LangAwarePool::new();
    pool.load_text(Lang::Zh, "a", &"很长的元素".repeat(20));
    let t = theme(vec![("a".to_string(), cat("tags/zh/a.txt", 1, None))], Vec::new());
    let mut c = ctx(t, Lang::Zh, 1);
    c.max_length = 10;
    let out = combine(&c, &pool).unwrap();
    assert!(out.prompt.chars().count() <= 10);
    assert_eq!(out.prompt, "很长的元素很长的元素");
}

#[test]
fn optional_skipped_when_roll_fails() {
    let mut pool = LangAwarePool::new();
    pool.load_text(Lang::Zh, "a", &lines_of(&["x"]));
    let mut t = theme(Vec::new(), Vec::new());
    // probability 0.0: no draw passes
    t.order.optional.push(("a".to_string(), OptionalCategoryRef { file: "tags/zh/a.txt".to_string(), draw_limit: 0, count: 1 }));
    let out = combine(&ctx(t, Lang::Zh, 1), &pool).unwrap();
    assert!(out.selected.is_empty());
}

#[test]
fn optional_taken_when_always_allowed() {
    let mut pool = LangAwarePool::new();
    pool.load_text(Lang::Zh, "a", &lines_of(&["x"]));
    let mut t = theme(Vec::new(), Vec::new());
    t.order.optional.push(("a".to_string(), OptionalCategoryRef { file: "tags/zh/a.txt".to_string(), draw_limit: 1u64 << 32, count: 1 }));
    let out = combine(&ctx(t, Lang::Zh, 1), &pool).unwrap();
    assert_eq!(out.selected, vec![("a".to_string(), "x".to_string())]);
    assert_eq!(out.prompt, "x");
}

#[test]
fn unknown_lang_returns_error() {
    let pool = LangAwarePool::new();
    let t = theme(Vec::new(), Vec::new());
    let err = combine(&ctx(t, Lang::En, 1), &pool).unwrap_err();
    assert!(matches!(err, PromptError::UnknownLang(_)));
}

#[test]
fn combine_errors_name_the_category() {
    let mut pool = LangAwarePool::new();
    pool.load_text(Lang::Zh, "a", &lines_of(&["x"]));
    let t = theme(vec![("missing".to_string(), cat("tags/zh/b.txt", 1, None))], Vec::new());
    assert!(matches!(combine(&ctx(t, Lang::Zh, 1), &pool), Err(PromptError::UnknownCategory(n)) if n == "missing"));
    let t2 = theme(vec![("bad".to_string(), cat("", 1, None))], Vec::new());
    assert!(matches!(combine(&ctx(t2, Lang::Zh, 1), &pool), Err(PromptError::InvalidFile(_))));
    pool.load_text(Lang::Zh, "empty", "# nothing\n");
    let t3 = theme(vec![("e".to_string(), cat("empty.txt", 1, None))], Vec::new());
    assert!(matches!(combine(&ctx(t3, Lang::Zh, 1), &pool), Err(PromptError::EmptyCategory(n)) if n == "e"));
}

#[test]
fn bucket_smaller_than_count_is_flagged() {
    let mut pool = LangAwarePool::new();
    pool.load_text(Lang::Zh, "a", &lines_of(&["x", "y"]));
    let t = theme(vec![("a".to_string(), cat("a.txt", 3, None))], Vec::new());
    assert!(combine_would_panic(&ctx(t, Lang::Zh, 1), &pool));
}

#[test]
fn combine_is_repeatable_and_distinct() {
    let mut pool = LangAwarePool::new();
    pool.load_text(Lang::Zh, "a", &lines_of(&["1", "2", "3", "4", "5", "6"]));
    let t = theme(Vec::new(), vec![("a".to_string(), cat("a.txt", 2, Some(5)))]);
    for seed in 0..20 {
        let x = combine(&ctx(t.clone(), Lang::Zh, seed), &pool).unwrap();
        let y = combine(&ctx(t.clone(), Lang::Zh, seed), &pool).unwrap();
        assert_eq!(x.prompt, y.prompt);
        assert_eq!(x.selected, y.selected);
        let mut vals: Vec<&String> = x.selected.iter().map(|(_, v)| v).collect();
        let n = vals.len();
        assert!((2..=5).contains(&n));
        vals.sort();
        vals.dedup();
        assert_eq!(vals.len(), n);
    }
}

#[test]
fn fixed_prompt_placeholders_expand() {
    let mut store = auto_comfy_maker::tags::TagStore::new();
    store.load_text("art_style", "watercolor\n");
    let out = auto_comfy_maker::prompt_engine::expand::expand_placeholders(
        "1girl, ${art_style}, ${background}, ${unclosed",
        &store,
        42,
    );
    assert_eq!(out, "1girl, watercolor, ${background}, ${unclosed");
    let a = auto_comfy_maker::prompt_engine::expand::expand_placeholders("${art_style}", &store, 7);
    let b = auto_comfy_maker::prompt_engine::expand::expand_placeholders("${art_style}", &store, 7);
    assert_eq!(a, b);
}
