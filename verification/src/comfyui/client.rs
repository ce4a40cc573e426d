//! The HTTP interface of ComfyUI: its address, the identity of this client,
//! the submit request, and the replies to a submit and to a history poll.

use serde_json::Value;
use vstd::prelude::*;

use crate::comfyui::json::{
    json_as_str, json_clone, json_from_members, json_get, json_string, json_view, members_view, obj_get, str_lt,
    JsonView,
};
use crate::text::{decimal_i64, decimal_u64, decimal_spec, owned, push_all, signed_decimal_spec, to_chars};

verus! {

/// `s` without the slashes it ends with (`trim_end_matches('/')`).
pub open spec fn trim_end_slashes(s: Seq<char>) -> Seq<char>
    decreases s.len(),
{
    if s.len() > 0 && s.last() == '/' {
        trim_end_slashes(s.drop_last())
    } else {
        s
    }
}

/// Normalizing an address drops exactly its trailing slashes: the result
/// does not end in `/`, the address is the result followed by slashes only,
/// and normalizing again changes nothing.
pub proof fn trailing_slash_law(s: Seq<char>)
    ensures
        trim_end_slashes(s).len() == 0 || trim_end_slashes(s).last() != '/',
        trim_end_slashes(s).len() <= s.len(),
        s.subrange(0, trim_end_slashes(s).len() as int) == trim_end_slashes(s),
        forall|i: int| trim_end_slashes(s).len() <= i < s.len() ==> s[i] == '/',
        trim_end_slashes(trim_end_slashes(s)) == trim_end_slashes(s),
    decreases s.len(),
{
    if s.len() > 0 && s.last() == '/' {
        trailing_slash_law(s.drop_last());
        let r = trim_end_slashes(s.drop_last());
        assert(s.subrange(0, r.len() as int) =~= s.drop_last().subrange(0, r.len() as int));
        assert forall|i: int| r.len() <= i < s.len() implies s[i] == '/' by {
            if i < s.len() - 1 {
                assert(s[i] == s.drop_last()[i]);
            }
        }
    } else {
        assert(s.subrange(0, s.len() as int) =~= s);
    }
}

/// The server address as the client keeps it: without trailing slashes.
pub fn normalize_base_url(url: &str) -> (r: String)
    ensures
        r@ == trim_end_slashes(url@),
{
    let cs = to_chars(url);
    let mut n: usize = cs.len();
    assert(cs@.subrange(0, n as int) =~= cs@);
    while n > 0 && cs[n - 1] == '/'
        invariant
            n <= cs@.len(),
            trim_end_slashes(url@) == trim_end_slashes(cs@.subrange(0, n as int)),
            cs@ == url@,
        decreases n,
    {
        assert(cs@.subrange(0, n as int).drop_last() =~= cs@.subrange(0, n - 1));
        n = n - 1;
    }
    crate::text::from_chars(vstd::slice::slice_subrange(cs.as_slice(), 0, n))
}

/// The identity of this client: `auto-comfy-maker-{process id}-{milliseconds}`.
pub fn client_id_text(pid: u32, millis: i64) -> (r: String)
    ensures
        r@ == "auto-comfy-maker-"@ + decimal_spec(pid as nat) + "-"@ + signed_decimal_spec(millis as int),
{
    let mut out = owned("auto-comfy-maker-");
    push_all(&mut out, decimal_u64(pid as u64).as_str());
    push_all(&mut out, "-");
    push_all(&mut out, decimal_i64(millis).as_str());
    out
}

/// `{base}{path}`.
pub fn endpoint(base_url: &str, path: &str) -> (r: String)
    ensures
        r@ == base_url@ + path@,
{
    let mut out = owned(base_url);
    push_all(&mut out, path);
    out
}

/// The body of a submit request: `{"client_id": .., "prompt": workflow}`.
pub fn build_submit_body(workflow: &Value, client_id: &str) -> (r: Value)
    ensures
        json_view(r) == JsonView::Obj(
            seq![("client_id"@, JsonView::Str(client_id@)), ("prompt"@, json_view(*workflow))],
        ),
{
    let mut members: Vec<(String, Value)> = Vec::new();
    members.push((owned("client_id"), json_string(owned(client_id))));
    members.push((owned("prompt"), json_clone(workflow)));
    proof {
        reveal_strlit("client_id");
        reveal_strlit("prompt");
        assert(members_view(members@) =~= seq![("client_id"@, JsonView::Str(client_id@)), ("prompt"@, json_view(*workflow))]);
        assert(str_lt("client_id"@, "prompt"@));
    }
    json_from_members(members)
}

/// The prompt id of a submit reply: its `prompt_id` member, when a string.
pub open spec fn prompt_id_spec(reply: JsonView) -> Option<Seq<char>> {
    match obj_get(reply, "prompt_id"@) {
        Some(JsonView::Str(s)) => Some(s),
        _ => None,
    }
}

/// The `prompt_id` of a submit reply, if it has one.
pub fn prompt_id_of(reply: &Value) -> (r: Option<String>)
    ensures
        match r {
            Some(s) => prompt_id_spec(json_view(*reply)) == Some(s@),
            None => prompt_id_spec(json_view(*reply)) is None,
        },
{
    match json_get(reply, "prompt_id") {
        Some(p) => match json_as_str(p) {
            Some(s) => Some(owned(s)),
            None => None,
        },
        None => None,
    }
}

/// What a poll of the history decides.
#[derive(Debug)]
pub enum PollStep {
    /// The history holds the prompt: `{prompt_id: entry}`.
    Ready(Value),
    /// The time allowed is spent.
    TimedOut,
    /// Poll again after the interval.
    Wait,
}

/// Decides after one poll of `/history/{prompt_id}`: `reply` is the body of a
/// successful reply (none after a failed one); a reply holding the prompt is
/// ready, else the poll times out once `elapsed` reaches `timeout`
/// (nanoseconds), else it waits.
pub fn poll_step(reply: Option<&Value>, prompt_id: &str, elapsed: u128, timeout: u128) -> (r: PollStep)
    ensures
        match r {
            PollStep::Ready(v) => reply matches Some(b) && obj_get(json_view(*b), prompt_id@) matches Some(entry)
                && json_view(v) == JsonView::Obj(seq![(prompt_id@, entry)]),
            PollStep::TimedOut => !(reply matches Some(b) && obj_get(json_view(*b), prompt_id@) is Some) && elapsed
                >= timeout,
            PollStep::Wait => !(reply matches Some(b) && obj_get(json_view(*b), prompt_id@) is Some) && elapsed
                < timeout,
        },
{
    if let Some(body) = reply {
        if let Some(entry) = json_get(body, prompt_id) {
            let mut members: Vec<(String, Value)> = Vec::new();
            members.push((owned(prompt_id), json_clone(entry)));
            assert(members_view(members@) =~= seq![(prompt_id@, json_view(*entry))]);
            return PollStep::Ready(json_from_members(members));
        }
    }
    if elapsed >= timeout {
        PollStep::TimedOut
    } else {
        PollStep::Wait
    }
}

} // verus!
