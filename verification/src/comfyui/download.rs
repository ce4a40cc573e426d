//! Finished images: finding the first image in a history reply, the URL it
//! is fetched from, and the path it is stored under.

use serde_json::Value;
use sha2::{Digest, Sha256};
use vstd::prelude::*;

use crate::comfyui::json::{json_as_str, json_get, json_items, json_members, json_view, obj_get, JsonView};
use crate::encoding::{hex_digit_lower, hex_lower, url_encode_spec, urlencoded};
use crate::paths::{extension_spec, file_extension, join_path, join_path_spec};
use crate::text::{owned, push_all, push_char};

verus! {

/// An image as ComfyUI names it.
#[derive(Debug, Clone)]
pub struct ImageRef {
    pub filename: String,
    pub subfolder: String,
    pub kind: String,
}

/// The plain content of an `ImageRef`: file name, subfolder, kind.
pub open spec fn image_ref_view(i: ImageRef) -> (Seq<char>, Seq<char>, Seq<char>) {
    (i.filename@, i.subfolder@, i.kind@)
}

/// An image entry: its `filename` must be a string; `subfolder` defaults to
/// empty and `type` to `output` when they are not strings.
pub open spec fn image_of(img: JsonView) -> Option<(Seq<char>, Seq<char>, Seq<char>)> {
    match obj_get(img, "filename"@) {
        Some(JsonView::Str(f)) => Some(
            (
                f,
                match obj_get(img, "subfolder"@) {
                    Some(JsonView::Str(s)) => s,
                    _ => Seq::empty(),
                },
                match obj_get(img, "type"@) {
                    Some(JsonView::Str(t)) => t,
                    _ => "output"@,
                },
            ),
        ),
        _ => None,
    }
}

/// The image list of an output node, when it has one.
pub open spec fn images_of(node: JsonView) -> Option<Seq<JsonView>> {
    match obj_get(node, "images"@) {
        Some(JsonView::Arr(items)) => Some(items),
        _ => None,
    }
}

/// The first output node, in order, with a non-empty image list decides:
/// its first image, if that has a file name.
pub open spec fn first_image_in(nodes: Seq<(Seq<char>, JsonView)>) -> Option<(Seq<char>, Seq<char>, Seq<char>)>
    decreases nodes.len(),
{
    if nodes.len() == 0 {
        None
    } else {
        match images_of(nodes[0].1) {
            Some(items) => if items.len() > 0 {
                image_of(items[0])
            } else {
                first_image_in(nodes.drop_first())
            },
            None => first_image_in(nodes.drop_first()),
        }
    }
}

/// The first image of prompt `id` in a history reply.
pub open spec fn extract_spec(history: JsonView, id: Seq<char>) -> Option<(Seq<char>, Seq<char>, Seq<char>)> {
    match obj_get(history, id) {
        Some(entry) => match obj_get(entry, "outputs"@) {
            Some(JsonView::Obj(nodes)) => first_image_in(nodes),
            _ => None,
        },
        None => None,
    }
}

/// The output nodes a history reply lists for prompt `id`.
pub open spec fn history_nodes(h: JsonView, id: Seq<char>) -> Option<Seq<(Seq<char>, JsonView)>> {
    match obj_get(h, id) {
        Some(entry) => match obj_get(entry, "outputs"@) {
            Some(JsonView::Obj(nodes)) => Some(nodes),
            _ => None,
        },
        None => None,
    }
}

/// Whether node `k` has a non-empty image list: it has an `images` array
/// with at least one entry.
pub open spec fn lists_images(node: JsonView) -> bool {
    match obj_get(node, "images"@) {
        Some(JsonView::Arr(items)) => items.len() > 0,
        _ => false,
    }
}

/// Node `k` is the first node, in order, with a non-empty image list.
pub open spec fn first_listing(nodes: Seq<(Seq<char>, JsonView)>, k: int) -> bool {
    &&& 0 <= k < nodes.len()
    &&& lists_images(nodes[k].1)
    &&& forall|j: int| 0 <= j < k ==> !lists_images(#[trigger] nodes[j].1)
}

/// A reference read from image entry `img`: the file name is its
/// `filename` string; the subfolder and the kind are its `subfolder` and
/// `type` strings, or empty and `output` when those are not strings.
pub open spec fn read_from_entry(img: JsonView, r: (Seq<char>, Seq<char>, Seq<char>)) -> bool {
    &&& obj_get(img, "filename"@) == Some(JsonView::Str(r.0))
    &&& (obj_get(img, "subfolder"@) matches Some(JsonView::Str(x)) ==> r.1 == x)
    &&& (!(obj_get(img, "subfolder"@) matches Some(JsonView::Str(_))) ==> r.1 == Seq::<char>::empty())
    &&& (obj_get(img, "type"@) matches Some(JsonView::Str(x)) ==> r.2 == x)
    &&& (!(obj_get(img, "type"@) matches Some(JsonView::Str(_))) ==> r.2 == "output"@)
}

proof fn lemma_first_image(nodes: Seq<(Seq<char>, JsonView)>)
    ensures
        first_image_in(nodes) matches Some(r) ==> exists|k: int|
            #[trigger] first_listing(nodes, k) && read_from_entry(obj_get(nodes[k].1, "images"@)->0->Arr_0[0], r),
        (exists|k: int| #[trigger] first_listing(nodes, k) && obj_get(obj_get(nodes[k].1, "images"@)->0->Arr_0[0], "filename"@) matches Some(JsonView::Str(_))) ==> first_image_in(nodes) is Some,
    decreases nodes.len(),
{
    if nodes.len() > 0 {
        let rest = nodes.drop_first();
        lemma_first_image(rest);
        if lists_images(nodes[0].1) {
            assert(first_listing(nodes, 0));
            if let Some(r) = first_image_in(nodes) {
                assert(read_from_entry(obj_get(nodes[0].1, "images"@)->0->Arr_0[0], r));
            }
            if exists|k: int| #[trigger] first_listing(nodes, k) && obj_get(obj_get(nodes[k].1, "images"@)->0->Arr_0[0], "filename"@) matches Some(JsonView::Str(_)) {
                let k = choose|k: int| #[trigger] first_listing(nodes, k) && obj_get(obj_get(nodes[k].1, "images"@)->0->Arr_0[0], "filename"@) matches Some(JsonView::Str(_));
                if k > 0 {
                    assert(!lists_images(nodes[0].1));
                }
            }
        } else {
            assert(first_image_in(nodes) == first_image_in(rest));
            if let Some(r) = first_image_in(nodes) {
                let k = choose|k: int| #[trigger] first_listing(rest, k) && read_from_entry(obj_get(rest[k].1, "images"@)->0->Arr_0[0], r);
                assert(rest[k] == nodes[k + 1]);
                assert forall|j: int| 0 <= j < k + 1 implies !lists_images(#[trigger] nodes[j].1) by {
                    if j > 0 {
                        assert(nodes[j] == rest[j - 1]);
                    }
                }
                assert(first_listing(nodes, k + 1));
            }
            if exists|k: int| #[trigger] first_listing(nodes, k) && obj_get(obj_get(nodes[k].1, "images"@)->0->Arr_0[0], "filename"@) matches Some(JsonView::Str(_)) {
                let k = choose|k: int| #[trigger] first_listing(nodes, k) && obj_get(obj_get(nodes[k].1, "images"@)->0->Arr_0[0], "filename"@) matches Some(JsonView::Str(_));
                assert(k > 0);
                assert(nodes[k] == rest[k - 1]);
                assert forall|j: int| 0 <= j < k - 1 implies !lists_images(#[trigger] rest[j].1) by {
                    assert(rest[j] == nodes[j + 1]);
                }
                assert(first_listing(rest, k - 1));
            }
        }
    }
}

/// The image found in a history reply is read from the first entry of the
/// first output node (in order) with a non-empty image list: its file name,
/// subfolder and kind are that entry's (subfolder empty and kind `output`
/// when the entry gives no string); and when that entry names a file, an
/// image is found.
pub proof fn extracted_image_law(h: JsonView, id: Seq<char>)
    ensures
        extract_spec(h, id) matches Some(r) ==> (history_nodes(h, id) matches Some(nodes) && exists|k: int|
            #[trigger] first_listing(nodes, k) && read_from_entry(obj_get(nodes[k].1, "images"@)->0->Arr_0[0], r)),
        (history_nodes(h, id) matches Some(nodes) && exists|k: int|
            #[trigger] first_listing(nodes, k) && obj_get(obj_get(nodes[k].1, "images"@)->0->Arr_0[0], "filename"@) matches Some(JsonView::Str(_))) ==> extract_spec(h, id) is Some,
{
    if let Some(nodes) = history_nodes(h, id) {
        lemma_first_image(nodes);
    }
}

fn text_or(v: Option<&Value>, default: &str) -> (r: String)
    ensures
        r@ == match v {
            Some(x) => match json_view(*x) {
                JsonView::Str(s) => s,
                _ => default@,
            },
            None => default@,
        },
{
    match v {
        Some(x) => match json_as_str(x) {
            Some(s) => owned(s),
            None => owned(default),
        },
        None => owned(default),
    }
}

fn image_from(img: &Value) -> (r: Option<ImageRef>)
    ensures
        match r {
            Some(i) => image_of(json_view(*img)) == Some(image_ref_view(i)),
            None => image_of(json_view(*img)) is None,
        },
{
    let filename = match json_get(img, "filename") {
        Some(f) => match json_as_str(f) {
            Some(s) => owned(s),
            None => {
                return None;
            },
        },
        None => {
            return None;
        },
    };
    let subfolder = text_or(json_get(img, "subfolder"), "");
    let kind = text_or(json_get(img, "type"), "output");
    proof {
        reveal_strlit("");
    }
    assert(subfolder@ == match obj_get(json_view(*img), "subfolder"@) {
        Some(JsonView::Str(s)) => s,
        _ => Seq::<char>::empty(),
    });
    Some(ImageRef { filename, subfolder, kind })
}

/// The first image that a history reply lists for prompt `prompt_id`: in
/// the first output node with a non-empty `images` list, its first entry,
/// which must name a file.
pub fn extract_first_image(history: &Value, prompt_id: &str) -> (r: Option<ImageRef>)
    ensures
        match r {
            Some(i) => extract_spec(json_view(*history), prompt_id@) == Some(image_ref_view(i)),
            None => extract_spec(json_view(*history), prompt_id@) is None,
        },
{
    let entry = match json_get(history, prompt_id) {
        Some(e) => e,
        None => {
            return None;
        },
    };
    let outputs = match json_get(entry, "outputs") {
        Some(o) => o,
        None => {
            return None;
        },
    };
    let nodes = match json_members(outputs) {
        Some(m) => m,
        None => {
            return None;
        },
    };
    let ghost ms = nodes@.map_values(|e: (&String, &Value)| (e.0@, json_view(*e.1)));
    let mut i: usize = 0;
    assert(ms.subrange(0, ms.len() as int) =~= ms);
    while i < nodes.len()
        invariant
            i <= nodes@.len(),
            ms == nodes@.map_values(|e: (&String, &Value)| (e.0@, json_view(*e.1))),
            extract_spec(json_view(*history), prompt_id@) == first_image_in(ms),
            first_image_in(ms) == first_image_in(ms.subrange(i as int, ms.len() as int)),
        decreases nodes@.len() - i,
    {
        let ghost rest = ms.subrange(i as int, ms.len() as int);
        assert(rest[0] == ms[i as int]);
        assert(rest.drop_first() =~= ms.subrange(i + 1, ms.len() as int));
        let node = nodes[i].1;
        if let Some(images) = json_get(node, "images") {
            if let Some(items) = json_items(images) {
                if items.len() > 0 {
                    assert(items@.map_values(|x: Value| json_view(x))[0] == json_view(items@[0]));
                    return image_from(&items[0]);
                }
            }
        }
        i = i + 1;
    }
    None
}

/// `{base}/view?filename=..&subfolder=..&type=..`, each value percent-encoded.
pub open spec fn view_url_spec(base: Seq<char>, img: (Seq<char>, Seq<char>, Seq<char>)) -> Seq<char> {
    base + "/view?filename="@ + url_encode_spec(img.0) + "&subfolder="@ + url_encode_spec(img.1) + "&type="@
        + url_encode_spec(img.2)
}

/// The URL an image is fetched from.
pub fn image_view_url(base_url: &str, img: &ImageRef) -> (r: String)
    ensures
        r@ == view_url_spec(base_url@, image_ref_view(*img)),
{
    let mut out = owned(base_url);
    push_all(&mut out, "/view?filename=");
    push_all(&mut out, urlencoded(img.filename.as_str()).as_str());
    push_all(&mut out, "&subfolder=");
    push_all(&mut out, urlencoded(img.subfolder.as_str()).as_str());
    push_all(&mut out, "&type=");
    push_all(&mut out, urlencoded(img.kind.as_str()).as_str());
    out
}

/// The SHA-256 digest of some bytes.
pub uninterp spec fn sha256_spec(data: Seq<u8>) -> Seq<u8>;

/// `Sha256::digest`: the 32-byte digest of `data`.
#[verifier::external_body]
fn sha256(data: &[u8]) -> (r: Vec<u8>)
    ensures
        r@ == sha256_spec(data@),
        r@.len() == 32,
{
    Sha256::digest(data).to_vec()
}

/// Lower-case hexadecimal text of bytes, two digits each.
pub open spec fn hex_text(bs: Seq<u8>) -> Seq<char>
    decreases bs.len(),
{
    if bs.len() == 0 {
        Seq::empty()
    } else {
        hex_text(bs.drop_last()) + seq![hex_lower((bs.last() / 16) as nat), hex_lower((bs.last() % 16) as nat)]
    }
}

/// The first 8 hexadecimal digits of the SHA-256 digest of `text`'s UTF-8 bytes.
pub open spec fn hash8_spec(text: Seq<char>) -> Seq<char> {
    hex_text(sha256_spec(vstd::utf8::encode_utf8(text))).subrange(0, 8)
}

fn hash8(text: &str) -> (r: String)
    ensures
        r@ == hash8_spec(text@),
{
    let digest = sha256(text.as_bytes());
    let mut out = String::new();
    let mut i: usize = 0;
    while i < 4
        invariant
            i <= 4,
            digest@.len() == 32,
            digest@ == sha256_spec(vstd::utf8::encode_utf8(text@)),
            out@ == hex_text(digest@.subrange(0, i as int)),
        decreases 4 - i,
    {
        let b = digest[i];
        assert(digest@.subrange(0, i + 1).drop_last() =~= digest@.subrange(0, i as int));
        push_char(&mut out, hex_digit_lower(b / 16));
        push_char(&mut out, hex_digit_lower(b % 16));
        i = i + 1;
    }
    proof {
        lemma_hex_text_prefix(digest@, 4);
    }
    out
}

proof fn lemma_hex_text_len(bs: Seq<u8>)
    ensures
        hex_text(bs).len() == 2 * bs.len(),
    decreases bs.len(),
{
    if bs.len() > 0 {
        lemma_hex_text_len(bs.drop_last());
    }
}

/// The digits of the first `n` bytes begin the digits of all of them.
proof fn lemma_hex_text_prefix(bs: Seq<u8>, n: int)
    requires
        0 <= n <= bs.len(),
    ensures
        hex_text(bs).subrange(0, 2 * n) == hex_text(bs.subrange(0, n)),
    decreases bs.len() - n,
{
    lemma_hex_text_len(bs.subrange(0, n));
    if n == bs.len() {
        assert(bs.subrange(0, n) =~= bs);
        assert(hex_text(bs).subrange(0, 2 * n) =~= hex_text(bs));
    } else {
        lemma_hex_text_len(bs);
        lemma_hex_text_prefix(bs, n + 1);
        let b = bs.subrange(0, n + 1);
        assert(b.drop_last() =~= bs.subrange(0, n));
        assert(hex_text(b).subrange(0, 2 * n) =~= hex_text(bs.subrange(0, n)));
        assert(hex_text(bs).subrange(0, 2 * n) =~= hex_text(bs).subrange(0, 2 * n + 2).subrange(0, 2 * n));
    }
}

/// The file name of a stored image: `{ts}_{hash8}.{ext}`, the extension
/// `png` when none is given.
pub open spec fn output_name_spec(ts: Seq<char>, prompt: Seq<char>, extension: Seq<char>) -> Seq<char> {
    ts + "_"@ + hash8_spec(prompt) + "."@ + if extension.len() == 0 {
        "png"@
    } else {
        extension
    }
}

/// Where an image is stored: `{output_root}/{today}/{ts}_{hash8}.{ext}`.
pub fn output_path(output_root: &str, today: &str, ts: &str, prompt: &str, extension: &str) -> (r: String)
    ensures
        r@ == join_path_spec(join_path_spec(output_root@, today@), output_name_spec(ts@, prompt@, extension@)),
{
    let dir = join_path(output_root, today);
    let mut name = owned(ts);
    push_all(&mut name, "_");
    push_all(&mut name, hash8(prompt).as_str());
    push_all(&mut name, ".");
    if extension.is_empty() {
        push_all(&mut name, "png");
    } else {
        push_all(&mut name, extension);
    }
    join_path(dir.as_str(), name.as_str())
}

/// The extension of an image's file name, `png` when it has none.
pub fn image_extension(filename: &str) -> (r: String)
    ensures
        r@ == match extension_spec(filename@) {
            Some(e) => e,
            None => "png"@,
        },
{
    match file_extension(filename) {
        Some(e) => e,
        None => owned("png"),
    }
}

} // verus!
