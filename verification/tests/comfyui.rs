use serde_json::Value;
use sha2::{Digest, Sha256};

use auto_comfy_maker::comfyui::client::{
    build_submit_body, client_id_text, endpoint, normalize_base_url, poll_step, prompt_id_of, PollStep,
};
use auto_comfy_maker::comfyui::download::{extract_first_image, image_extension, image_view_url, output_path, ImageRef};
use auto_comfy_maker::comfyui::workflow::{substitute, template_path, workflow_from_template, DEFAULT_HEIGHT, DEFAULT_WIDTH};
use auto_comfy_maker::encoding::urlencoded;

const TINY: &str = r#"{
  "39": {
    "inputs": {
      "text": "${positive_prompt}",
      "seed": ${seed},
      "width": ${width},
      "height": ${height}
    }
  }
}"#;

const REPLACE_ME_TEMPLATE: &str = r#"{
  "68": {
    "inputs": { "text": "REPLACE_ME" },
    "class_type": "Text Multiline"
  },
  "11": {
    "inputs": { "text": ["54", 0] },
    "class_type": "CLIPTextEncode"
  }
}"#;

fn json(text: &str) -> Value {
    serde_json::from_str(text).unwrap()
}

#[test]
fn urlencoded_handles_unicode() {
    assert_eq!(urlencoded("abc"), "abc");
    assert_eq!(urlencoded("中文"), "%E4%B8%AD%E6%96%87");
    assert_eq!(urlencoded("a b"), "a%20b");
}

#[test]
fn substitutes_all_fields() {
    let out = substitute(TINY, "a girl on the beach", 42, Some(768), Some(1536));
    let v = json(&out);
    assert_eq!(v["39"]["inputs"]["text"], "a girl on the beach");
    assert_eq!(v["39"]["inputs"]["seed"], 42);
    assert_eq!(v["39"]["inputs"]["width"], 768);
    assert_eq!(v["39"]["inputs"]["height"], 1536);
}

#[test]
fn chinese_placeholders_compat() {
    const CHINESE: &str = r#"{"39":{"inputs":{"text":"${提示词}","seed":${种子},"width":${宽},"height":${高}}}}"#;
    let out = substitute(CHINESE, "长发美女", 7, Some(512), Some(768));
    let v = json(&out);
    assert_eq!(v["39"]["inputs"]["text"], "长发美女");
    assert_eq!(v["39"]["inputs"]["seed"], 7);
    assert_eq!(v["39"]["inputs"]["width"], 512);
    assert_eq!(v["39"]["inputs"]["height"], 768);
}

#[test]
fn english_and_chinese_alias_coexist() {
    const MIX: &str = r#"{"a":{"text":"${positive_prompt}"},"b":{"text":"${提示词}"},"c":{"width":${width}},"d":{"height":${高}}}"#;
    let out = substitute(MIX, "x", 1, Some(100), Some(200));
    let v = json(&out);
    assert_eq!(v["a"]["text"], "x");
    assert_eq!(v["b"]["text"], "x");
    assert_eq!(v["c"]["width"], 100);
    assert_eq!(v["d"]["height"], 200);
}

#[test]
fn uses_defaults_when_dims_none() {
    let out = substitute(TINY, "x", 7, None, None);
    let v = json(&out);
    assert_eq!(v["39"]["inputs"]["width"], DEFAULT_WIDTH);
    assert_eq!(v["39"]["inputs"]["height"], DEFAULT_HEIGHT);
    assert_eq!(v["39"]["inputs"]["text"], "x");
    assert_eq!(v["39"]["inputs"]["seed"], 7);
}

#[test]
fn special_chars_in_prompt_are_json_safe() {
    let tricky = "中文 \"引号\" \\ \n 换行";
    let template = r#"{"text": "${positive_prompt}"}"#;
    let out = substitute(template, tricky, 0, None, None);
    assert!(out.contains(tricky));
}

#[test]
fn replace_me_in_text_field_is_replaced() {
    let out = substitute(REPLACE_ME_TEMPLATE, "1girl, long hair", 7, None, None);
    let parsed = json(&out);
    assert_eq!(parsed["68"]["inputs"]["text"], "1girl, long hair");
}

#[test]
fn array_text_field_is_not_replaced() {
    let out = substitute(REPLACE_ME_TEMPLATE, "1girl, long hair", 7, None, None);
    let parsed = json(&out);
    assert_eq!(parsed["11"]["inputs"]["text"], json(r#"["54", 0]"#));
}

#[test]
fn placeholder_mode_still_works_after_extension() {
    let tpl = r#"{"91":{"inputs":{"text":"${positive_prompt}","seed":${seed}}}}"#;
    let out = substitute(tpl, "hello", 42, None, None);
    let parsed = json(&out);
    assert_eq!(parsed["91"]["inputs"]["text"], "hello");
    assert_eq!(parsed["91"]["inputs"]["seed"], 42);
}

#[test]
fn valid_template_is_written_compactly() {
    let out = substitute("{ \"b\": 1, \"a\": -5 }", "p", -3, None, None);
    assert_eq!(out, r#"{"a":-5,"b":1}"#);
    let seeded = substitute("[${seed}, ${width}]", "p", -3, None, Some(9));
    assert_eq!(seeded, "[-3,768]");
}

#[test]
fn template_path_joins() {
    assert_eq!(template_path("/root", "demo"), "/root/templates/demo.json");
    assert_eq!(template_path("", "x"), "templates/x.json");
}

#[test]
fn extract_first_image_basic() {
    let v = json(r#"{
        "abc": {
            "outputs": {
                "9": {
                    "images": [
                        { "filename": "ComfyUI_00001.png", "subfolder": "", "type": "output" }
                    ]
                }
            }
        }
    }"#);
    let img = extract_first_image(&v, "abc").unwrap();
    assert_eq!(img.filename, "ComfyUI_00001.png");
    assert_eq!(img.kind, "output");
}

#[test]
fn extract_first_image_none_when_missing() {
    let v = json(r#"{"abc": { "outputs": {} }}"#);
    assert!(extract_first_image(&v, "abc").is_none());
}

#[test]
fn extract_skips_nodes_without_images_and_defaults_fields() {
    let v = json(r#"{"p": {"outputs": {"1": {"text": "x"}, "2": {"images": []}, "3": {"images": [{"filename": "a.webp", "type": 5}]}}}}"#);
    let img = extract_first_image(&v, "p").unwrap();
    assert_eq!(img.filename, "a.webp");
    assert_eq!(img.subfolder, "");
    assert_eq!(img.kind, "output");
    let bad = json(r#"{"p": {"outputs": {"1": {"images": [{"subfolder": "s"}]}, "2": {"images": [{"filename": "b.png"}]}}}}"#);
    assert!(extract_first_image(&bad, "p").is_none());
}

#[test]
fn submit_body_structure() {
    let wf = json(r#"{"6": {"inputs": {"text": "x"}}}"#);
    let body = build_submit_body(&wf, "client-1");
    assert_eq!(body["client_id"], "client-1");
    assert_eq!(body["prompt"], wf);
}

#[test]
fn prompt_id_read_from_reply() {
    assert_eq!(prompt_id_of(&json(r#"{"prompt_id": "abc-123", "number": 1}"#)).as_deref(), Some("abc-123"));
    assert!(prompt_id_of(&json(r#"{"error": "x"}"#)).is_none());
    assert!(prompt_id_of(&json(r#"{"prompt_id": 5}"#)).is_none());
}

#[test]
fn poll_decides_ready_timeout_or_wait() {
    let reply = json(r#"{"abc-123": {"outputs": {"9": {"images": []}}}}"#);
    match poll_step(Some(&reply), "abc-123", 0, 10) {
        PollStep::Ready(v) => assert!(v["abc-123"]["outputs"]["9"]["images"].is_array()),
        _ => panic!("expected ready"),
    }
    let empty = json("{}");
    assert!(matches!(poll_step(Some(&empty), "missing", 5, 10), PollStep::Wait));
    assert!(matches!(poll_step(Some(&empty), "missing", 10, 10), PollStep::TimedOut));
    assert!(matches!(poll_step(None, "missing", 11, 10), PollStep::TimedOut));
}

#[test]
fn base_url_loses_trailing_slashes() {
    assert_eq!(normalize_base_url("http://h:8188//"), "http://h:8188");
    assert_eq!(normalize_base_url("http://h:8188"), "http://h:8188");
    assert_eq!(endpoint("http://h", "/prompt"), "http://h/prompt");
}

#[test]
fn client_id_has_prefix() {
    let a = client_id_text(42, 1700000000123);
    assert_eq!(a, "auto-comfy-maker-42-1700000000123");
    assert!(a.starts_with("auto-comfy-maker-"));
}

#[test]
fn image_view_url_encodes_values() {
    let img = ImageRef { filename: "a b.png".into(), subfolder: "".into(), kind: "output".into() };
    assert_eq!(image_view_url("http://h", &img), "http://h/view?filename=a%20b.png&subfolder=&type=output");
}

#[test]
fn output_path_uses_date_and_hash() {
    let digest = Sha256::digest("hello world".as_bytes());
    let hex: String = digest.iter().map(|b| format!("{:02x}", b)).collect();
    let p = output_path("/out", "2026-09-01", "20260901-090000", "hello world", "");
    assert_eq!(p, format!("/out/2026-09-01/20260901-090000_{}.png", &hex[..8]));
    assert!(p.ends_with(".png"));
    let q = output_path("/out/", "d", "t", "x", "jpg");
    assert!(q.starts_with("/out/d/t_"));
    assert!(q.ends_with(".jpg"));
}

#[test]
fn image_extension_defaults_to_png() {
    assert_eq!(image_extension("ComfyUI_00001.webp"), "webp");
    assert_eq!(image_extension("noext"), "png");
    assert_eq!(image_extension(".hidden"), "png");
}

#[test]
fn build_output_path_includes_date_and_hash() {
    let now = chrono::Local::now();
    let today = now.format("%Y-%m-%d").to_string();
    let ts = now.format("%Y%m%d-%H%M%S").to_string();
    let s = output_path("/tmp/out", &today, &ts, "hello world", "png");
    assert!(s.contains("20"));
    assert!(s.ends_with(".png"));
}

#[test]
fn workflow_from_template_reads_filled_json() {
    let tpl = r#"{"1":{"inputs":{"text":"${positive_prompt}","seed":${seed},"width":${width}}}}"#;
    let v = workflow_from_template(tpl, "a cat", 7, Some(512), None).unwrap();
    assert_eq!(v["1"]["inputs"]["text"], "a cat");
    assert_eq!(v["1"]["inputs"]["seed"], 7);
    assert_eq!(v["1"]["inputs"]["width"], 512);
}

#[test]
fn workflow_from_template_refuses_non_json() {
    assert!(workflow_from_template("not json ${seed}", "p", 1, None, None).is_none());
}
