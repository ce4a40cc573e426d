//! Workflow templates: a ComfyUI workflow in JSON with placeholders for the
//! prompt, the seed and the image size, and `"REPLACE_ME"` text fields.

use serde_json::Value;
use vstd::prelude::*;

use crate::comfyui::json::{
    json_as_str, json_compact, json_from_members, json_into_members, json_parse, json_parsed, json_string,
    json_to_text, json_view, keys_ascending, members_view, str_lt, JsonView,
};
use crate::config::{find_key, table_insert};
use crate::paths::{join_path, join_path_spec};
use crate::tags::{key_index, lemma_key_index_bounds, lemma_key_index_keys, lookup};
use crate::text::{
    decimal_i64, owned, push_all, replace_all, replace_spec, signed_decimal_spec, str_eq, to_chars,
};

verus! {

/// Width used when none is given.
pub const DEFAULT_WIDTH: i64 = 768;

/// Height used when none is given.
pub const DEFAULT_HEIGHT: i64 = 1536;

/// The text of a string field whose value is to become the prompt.
pub open spec fn replace_me_marker() -> Seq<char> {
    "REPLACE_ME"@
}

/// Every occurrence of each placeholder replaced, in this order: the prompt
/// (`${positive_prompt}`, `${提示词}`), the seed (`${seed}`, `${种子}`), the
/// width (`${width}`, `${宽}`) and the height (`${height}`, `${高}`), numbers
/// in decimal.
pub open spec fn placeholders_spec(template: Seq<char>, prompt: Seq<char>, seed: int, width: int, height: int) -> Seq<char> {
    let s1 = replace_spec(replace_spec(template, "${positive_prompt}"@, prompt), "${提示词}"@, prompt);
    let sd = signed_decimal_spec(seed);
    let s2 = replace_spec(replace_spec(s1, "${seed}"@, sd), "${种子}"@, sd);
    let ws = signed_decimal_spec(width);
    let s3 = replace_spec(replace_spec(s2, "${width}"@, ws), "${宽}"@, ws);
    let hs = signed_decimal_spec(height);
    replace_spec(replace_spec(s3, "${height}"@, hs), "${高}"@, hs)
}

/// A node whose `inputs.text` is the string `"REPLACE_ME"` gets the prompt
/// there; any other node is unchanged.
pub open spec fn text_field_replaced(node: JsonView, prompt: Seq<char>) -> JsonView {
    match node {
        JsonView::Obj(fields) => match lookup(fields, "inputs"@) {
            Some(JsonView::Obj(inputs)) => match lookup(inputs, "text"@) {
                Some(JsonView::Str(s)) => if s == replace_me_marker() {
                    JsonView::Obj(
                        table_insert(
                            fields,
                            "inputs"@,
                            JsonView::Obj(table_insert(inputs, "text"@, JsonView::Str(prompt))),
                        ),
                    )
                } else {
                    node
                },
                _ => node,
            },
            _ => node,
        },
        _ => node,
    }
}

/// Each node of a workflow object with its `"REPLACE_ME"` text replaced.
pub open spec fn replace_me_view(root: JsonView, prompt: Seq<char>) -> JsonView {
    match root {
        JsonView::Obj(nodes) => JsonView::Obj(
            nodes.map_values(|e: (Seq<char>, JsonView)| (e.0, text_field_replaced(e.1, prompt))),
        ),
        _ => root,
    }
}

/// The second pass of `substitute`: a text that is JSON is parsed, its
/// `"REPLACE_ME"` text fields replaced and written back compactly; any other
/// text is kept.
pub open spec fn replace_me_spec(text: Seq<char>, prompt: Seq<char>) -> Seq<char> {
    match json_parsed(text) {
        Some(root) => json_compact(replace_me_view(root, prompt)),
        None => text,
    }
}

/// What `substitute` gives.
pub open spec fn substitute_spec(
    template: Seq<char>,
    prompt: Seq<char>,
    seed: i64,
    width: Option<i64>,
    height: Option<i64>,
) -> Seq<char> {
    let w = match width {
        Some(w) => w,
        None => DEFAULT_WIDTH,
    };
    let h = match height {
        Some(h) => h,
        None => DEFAULT_HEIGHT,
    };
    replace_me_spec(placeholders_spec(template, prompt, seed as int, w as int, h as int), prompt)
}

/// A missing dimension is its default, whatever the other one is: leaving
/// the height out fills it as `DEFAULT_HEIGHT` would, and leaving the width
/// out fills it as `DEFAULT_WIDTH` would.
pub proof fn missing_dimension_default_law(
    template: Seq<char>,
    prompt: Seq<char>,
    seed: i64,
    width: Option<i64>,
    height: Option<i64>,
)
    ensures
        substitute_spec(template, prompt, seed, width, None) == substitute_spec(
            template,
            prompt,
            seed,
            width,
            Some(DEFAULT_HEIGHT),
        ),
        substitute_spec(template, prompt, seed, None, height) == substitute_spec(
            template,
            prompt,
            seed,
            Some(DEFAULT_WIDTH),
            height,
        ),
{
}

/// `s.replace(pat, rep)`.
fn replace_str(s: &str, pat: &str, rep: &str) -> (r: String)
    requires
        pat@.len() > 0,
    ensures
        r@ == replace_spec(s@, pat@, rep@),
{
    let cs = to_chars(s);
    let ps = to_chars(pat);
    let rs = to_chars(rep);
    let out = replace_all(cs.as_slice(), ps.as_slice(), rs.as_slice());
    crate::text::from_chars(out.as_slice())
}

/// Keys stay ascending when one member's value changes.
proof fn lemma_ascending_update(ms: Seq<(Seq<char>, JsonView)>, i: int, v: JsonView)
    requires
        keys_ascending(ms),
        0 <= i < ms.len(),
    ensures
        keys_ascending(ms.update(i, (ms[i].0, v))),
{
    let u = ms.update(i, (ms[i].0, v));
    assert forall|a: int, b: int| 0 <= a < b < u.len() implies str_lt(#[trigger] u[a].0, #[trigger] u[b].0) by {
        assert(u[a].0 == ms[a].0 && u[b].0 == ms[b].0);
    }
}

/// Replaces `inputs.text` of a node when it is `"REPLACE_ME"`.
fn replace_in_node(node: Value, prompt: &str) -> (r: Value)
    ensures
        json_view(r) == text_field_replaced(json_view(node), prompt@),
{
    let ghost nv = json_view(node);
    let mut fields = match json_into_members(node) {
        Ok(m) => m,
        Err(v) => {
            return v;
        },
    };
    let ghost ms = members_view(fields@);
    let found = find_key(&fields, "inputs");
    proof {
        lemma_key_index_keys(fields@.map_values(|e: (String, Value)| (e.0@, ())), ms, "inputs"@);
        lemma_key_index_bounds(ms, "inputs"@);
    }
    let i = match found {
        Some(i) => i,
        None => {
            return json_from_members(fields);
        },
    };
    let (ik, inputs) = fields.remove(i);
    let ghost iv = json_view(inputs);
    let mut ins = match json_into_members(inputs) {
        Ok(m) => m,
        Err(v) => {
            fields.insert(i, (ik, v));
            assert(members_view(fields@) =~= ms);
            return json_from_members(fields);
        },
    };
    let ghost ims = members_view(ins@);
    let tfound = find_key(&ins, "text");
    proof {
        lemma_key_index_keys(ins@.map_values(|e: (String, Value)| (e.0@, ())), ims, "text"@);
        lemma_key_index_bounds(ims, "text"@);
    }
    let t = match tfound {
        Some(t) => t,
        None => {
            let same = json_from_members(ins);
            fields.insert(i, (ik, same));
            assert(members_view(fields@) =~= ms);
            return json_from_members(fields);
        },
    };
    let is_marker = match json_as_str(&ins[t].1) {
        Some(s) => str_eq(s, "REPLACE_ME"),
        None => false,
    };
    if is_marker {
        let (tk, _) = ins.remove(t);
        ins.insert(t, (tk, json_string(owned(prompt))));
        proof {
            assert(members_view(ins@) =~= ims.update(t as int, ("text"@, JsonView::Str(prompt@))));
            lemma_ascending_update(ims, t as int, JsonView::Str(prompt@));
        }
    } else {
        assert(members_view(ins@) =~= ims);
    }
    let ghost new_inputs = members_view(ins@);
    let rebuilt = json_from_members(ins);
    fields.insert(i, (ik, rebuilt));
    proof {
        assert(members_view(fields@) =~= ms.update(i as int, ("inputs"@, JsonView::Obj(new_inputs))));
        lemma_ascending_update(ms, i as int, JsonView::Obj(new_inputs));
        if !is_marker {
            assert(ms.update(i as int, ("inputs"@, JsonView::Obj(new_inputs))) =~= ms);
        }
    }
    json_from_members(fields)
}

/// The second pass of `substitute` (see `replace_me_spec`).
fn replace_me_in_text_fields(template: &str, prompt: &str) -> (r: String)
    ensures
        r@ == replace_me_spec(template@, prompt@),
{
    let root = match json_parse(template) {
        Some(v) => v,
        None => {
            return owned(template);
        },
    };
    let ghost rv = json_view(root);
    let replaced = match json_into_members(root) {
        Ok(nodes) => {
            let ghost ms = members_view(nodes@);
            let ghost want = ms.map_values(|e: (Seq<char>, JsonView)| (e.0, text_field_replaced(e.1, prompt@)));
            let mut rest = nodes;
            let mut out: Vec<(String, Value)> = Vec::new();
            let ghost mut i: int = 0;
            while rest.len() > 0
                invariant
                    0 <= i <= ms.len(),
                    want == ms.map_values(|e: (Seq<char>, JsonView)| (e.0, text_field_replaced(e.1, prompt@))),
                    members_view(rest@) == ms.subrange(i, ms.len() as int),
                    members_view(out@) == want.subrange(0, i),
                decreases rest@.len(),
            {
                let ghost r0 = rest@;
                assert(members_view(r0).len() == r0.len());
                assert(members_view(r0)[0] == ms.subrange(i, ms.len() as int)[0]);
                let (id, node) = rest.remove(0);
                assert(rest@ =~= r0.subrange(1, r0.len() as int));
                assert forall|j: int| 0 <= j < members_view(rest@).len() implies members_view(rest@)[j]
                    == ms.subrange(i + 1, ms.len() as int)[j] by {
                    assert(rest@[j] == r0[j + 1]);
                    assert(members_view(r0)[j + 1] == ms.subrange(i, ms.len() as int)[j + 1]);
                }
                assert(members_view(rest@) =~= ms.subrange(i + 1, ms.len() as int));
                let new_node = replace_in_node(node, prompt);
                let ghost before = members_view(out@);
                out.push((id, new_node));
                assert(members_view(out@) =~= before.push(want[i]));
                assert(want.subrange(0, i + 1) =~= want.subrange(0, i).push(want[i]));
                proof {
                    i = i + 1;
                }
            }
            assert(want.subrange(0, i) =~= want);
            assert(keys_ascending(want)) by {
                assert forall|a: int, b: int| 0 <= a < b < want.len() implies str_lt(
                    #[trigger] want[a].0,
                    #[trigger] want[b].0,
                ) by {
                    assert(want[a].0 == ms[a].0 && want[b].0 == ms[b].0);
                }
            }
            json_from_members(out)
        },
        Err(v) => v,
    };
    match json_to_text(&replaced) {
        Some(s) => s,
        None => owned(template),
    }
}

/// Fills a workflow template: replaces the placeholders of the prompt, the
/// seed, the width and the height (defaults `768` × `1536`), then, when the
/// text is JSON, sets every node's `inputs.text` that is `"REPLACE_ME"` to
/// the prompt and writes the JSON back compactly; a text that is not JSON is
/// returned as the placeholders left it.
pub fn substitute(template: &str, positive_prompt: &str, seed: i64, width: Option<i64>, height: Option<i64>) -> (r: String)
    ensures
        r@ == substitute_spec(template@, positive_prompt@, seed, width, height),
{
    proof {
        reveal_strlit("${positive_prompt}");
        reveal_strlit("${提示词}");
        reveal_strlit("${seed}");
        reveal_strlit("${种子}");
        reveal_strlit("${width}");
        reveal_strlit("${宽}");
        reveal_strlit("${height}");
        reveal_strlit("${高}");
    }
    let out = replace_str(template, "${positive_prompt}", positive_prompt);
    let out = replace_str(out.as_str(), "${提示词}", positive_prompt);
    let seed_str = decimal_i64(seed);
    let out = replace_str(out.as_str(), "${seed}", seed_str.as_str());
    let out = replace_str(out.as_str(), "${种子}", seed_str.as_str());
    let w = match width {
        Some(w) => w,
        None => DEFAULT_WIDTH,
    };
    let h = match height {
        Some(h) => h,
        None => DEFAULT_HEIGHT,
    };
    let ws = decimal_i64(w);
    let hs = decimal_i64(h);
    let out = replace_str(out.as_str(), "${width}", ws.as_str());
    let out = replace_str(out.as_str(), "${宽}", ws.as_str());
    let out = replace_str(out.as_str(), "${height}", hs.as_str());
    let out = replace_str(out.as_str(), "${高}", hs.as_str());
    replace_me_in_text_fields(out.as_str(), positive_prompt)
}

/// Fills a workflow template (see `substitute`) and reads the result as the
/// JSON workflow sent to ComfyUI; `None` when the filled text is not JSON.
pub fn workflow_from_template(template: &str, prompt: &str, seed: i64, width: Option<i64>, height: Option<i64>) -> (r: Option<Value>)
    ensures
        r is Some == json_parsed(substitute_spec(template@, prompt@, seed, width, height)) is Some,
        r matches Some(v) ==> json_parsed(substitute_spec(template@, prompt@, seed, width, height)) == Some(json_view(v)),
{
    let filled = substitute(template, prompt, seed, width, height);
    json_parse(filled.as_str())
}

/// Where template `name` lives: `templates/{name}.json` under the project root.
pub fn template_path(project_root: &str, name: &str) -> (r: String)
    ensures
        r@ == join_path_spec(join_path_spec(project_root@, "templates"@), name@ + ".json"@),
{
    let dir = join_path(project_root, "templates");
    let mut file = owned(name);
    push_all(&mut file, ".json");
    join_path(dir.as_str(), file.as_str())
}

} // verus!
