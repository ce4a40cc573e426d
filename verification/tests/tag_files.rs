use auto_comfy_maker::cli::tags::{add_tag, category_file, count_tags, remove_tag};
use auto_comfy_maker::tags::{category_of_file, tag_lines, Lang, LangAwarePool, TagStore};

#[test]
fn load_categories_by_filename() {
    let mut store = TagStore::new();
    store.load_text("发型", "# comment\n\n长发\n 短发 \n# another\n盘发\n");
    let bucket = store.get("发型").unwrap();
    assert_eq!(bucket.len(), 3);
    assert!(bucket.contains("长发"));
}

#[test]
fn dedup_within_category() {
    let mut store = TagStore::new();
    store.load_text("a", "长发\n长发\n短发\n");
    assert_eq!(store.get("a").unwrap().len(), 2);
}

#[test]
fn pool_separates_languages() {
    let mut pool = LangAwarePool::new();
    pool.load_text(Lang::Zh, "hair", "长发\n短发\n");
    pool.load_text(Lang::En, "hair", "long hair\nshort hair\n");
    assert_eq!(pool.get(Lang::Zh).unwrap().get("hair").unwrap().len(), 2);
    assert_eq!(pool.get(Lang::En).unwrap().get("hair").unwrap().len(), 2);
}

#[test]
fn empty_language_is_known() {
    let mut pool = LangAwarePool::new();
    assert!(pool.get(Lang::Zh).is_none());
    pool.add_lang(Lang::Zh);
    assert!(pool.get(Lang::Zh).unwrap().get("x").is_none());
}

#[test]
fn lang_names() {
    assert_eq!(Lang::parse("zh"), Some(Lang::Zh));
    assert_eq!(Lang::parse("en"), Some(Lang::En));
    assert_eq!(Lang::parse("mixed"), None);
    assert_eq!(Lang::En.as_str(), "en");
}

#[test]
fn tag_lines_skip_comments() {
    assert_eq!(tag_lines("a\r\n # c\n\n b \n"), vec!["a".to_string(), "b".to_string()]);
}

#[test]
fn only_txt_files_are_categories() {
    assert_eq!(category_of_file("/t/zh/发型.txt").as_deref(), Some("发型"));
    assert_eq!(category_of_file("/t/zh/readme.md"), None);
    assert_eq!(category_of_file("/t/zh/.txt"), None);
}

#[test]
fn add_tag_appends_once() {
    let once = add_tag("a\nb", "c").unwrap();
    assert_eq!(once, "a\nb\nc\n");
    assert_eq!(add_tag(&once, "c"), None);
    assert_eq!(add_tag("", "x").unwrap(), "x\n");
    assert_eq!(add_tag(" x \n", "x"), None);
}

#[test]
fn remove_tag_drops_matching_lines() {
    assert_eq!(remove_tag("a\n b \nc\n", "b").unwrap(), "a\nc\n");
    assert_eq!(remove_tag("a\n", "z"), None);
    assert_eq!(remove_tag("a\n", "a").unwrap(), "");
}

#[test]
fn counts_and_paths() {
    assert_eq!(count_tags("# h\nx\n\ny\n"), 2);
    assert_eq!(category_file("/t/zh", "发型"), "/t/zh/发型.txt");
}

#[test]
fn add_then_remove_restores_file() {
    let text = "long hair\n\nred eyes\n";
    let added = add_tag(text, "smile").unwrap();
    assert_eq!(added, "long hair\n\nred eyes\nsmile\n");
    assert_eq!(remove_tag(&added, "smile").unwrap(), text);
    let added = add_tag("", "smile").unwrap();
    assert_eq!(remove_tag(&added, "smile").unwrap(), "");
}
