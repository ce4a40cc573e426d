//! Placeholders of a fixed prompt: each `${dimension}` is replaced by a tag
//! drawn from that dimension's pool with a seeded generator; a placeholder
//! whose dimension has no tags stays as written.

use vstd::prelude::*;

use crate::prompt_engine::strategy::{lcg_below, lcg_seed, lcg_step, Lcg};
use crate::tags::{lookup, set_get_index, set_items, set_len, TagStore};
use crate::text::{owned, push_all, push_char, to_chars};

verus! {

/// How many characters come before the first `}` (all of them when there
/// is none).
pub open spec fn brace_end(s: Seq<char>) -> nat
    decreases s.len(),
{
    if s.len() == 0 {
        0
    } else if s[0] == '}' {
        0
    } else {
        1 + brace_end(s.drop_first())
    }
}

/// Where the first `}` stands.
pub proof fn lemma_brace_end(s: Seq<char>)
    ensures
        brace_end(s) <= s.len(),
        brace_end(s) < s.len() ==> s[brace_end(s) as int] == '}',
        forall|i: int| 0 <= i < brace_end(s) ==> s[i] != '}',
    decreases s.len(),
{
    if s.len() > 0 && s[0] != '}' {
        lemma_brace_end(s.drop_first());
        assert forall|i: int| 0 <= i < brace_end(s) implies s[i] != '}' by {
            if i > 0 {
                assert(s[i] == s.drop_first()[i - 1]);
            }
        }
    }
}

/// The prompt with its placeholders expanded, drawing from `rng` on.  At a
/// `${` followed somewhere by `}`, the text between names a dimension: when
/// the store holds tags for it, the placeholder becomes the tag at a draw
/// below their number; otherwise it stays.  A `${` with no `}` after it
/// leaves the rest of the text as it is.
pub open spec fn expand_spec(s: Seq<char>, store: Seq<(Seq<char>, Seq<Seq<char>>)>, rng: u64) -> Seq<char>
    decreases s.len(),
{
    if s.len() == 0 {
        s
    } else if s.len() >= 2 && s[0] == '$' && s[1] == '{' {
        let t = s.skip(2);
        let e = brace_end(t);
        proof {
            lemma_brace_end(t);
        }
        if e >= t.len() {
            s
        } else {
            let k: int = e as int + 2;
            let name = s.subrange(2, k);
            let rest = s.skip(k + 1);
            match lookup(store, name) {
                Some(b) => if b.len() > 0 {
                    b[lcg_below(rng, b.len()) as int] + expand_spec(rest, store, lcg_step(rng))
                } else {
                    s.subrange(0, k + 1) + expand_spec(rest, store, rng)
                },
                None => s.subrange(0, k + 1) + expand_spec(rest, store, rng),
            }
        }
    } else {
        seq![s[0]] + expand_spec(s.skip(1), store, rng)
    }
}

/// A text with no tags to draw from comes back unchanged: every placeholder
/// whose dimension is unknown stays as written.
pub proof fn unknown_placeholders_kept_law(s: Seq<char>, rng: u64)
    ensures
        expand_spec(s, Seq::empty(), rng) == s,
    decreases s.len(),
{
    if s.len() > 0 {
        if s.len() >= 2 && s[0] == '$' && s[1] == '{' {
            let t = s.skip(2);
            lemma_brace_end(t);
            let e = brace_end(t);
            if e < t.len() {
                let k: int = e as int + 2;
                unknown_placeholders_kept_law(s.skip(k + 1), rng);
                assert(s.subrange(0, k + 1) + s.skip(k + 1) =~= s);
            }
        } else {
            unknown_placeholders_kept_law(s.skip(1), rng);
            assert(seq![s[0]] + s.skip(1) =~= s);
        }
    }
}

/// Index of the first `}` at or after `from` (the length when there is none).
fn brace_at(cs: &Vec<char>, from: usize) -> (r: usize)
    requires
        from <= cs@.len(),
    ensures
        r == from + brace_end(cs@.skip(from as int)),
        r <= cs@.len(),
{
    let mut j: usize = from;
    proof {
        lemma_brace_end(cs@.skip(from as int));
    }
    while j < cs.len() && cs[j] != '}'
        invariant
            from <= j <= cs@.len(),
            brace_end(cs@.skip(from as int)) == (j - from) + brace_end(cs@.skip(j as int)),
        decreases cs@.len() - j,
    {
        assert(cs@.skip(j as int).drop_first() =~= cs@.skip(j + 1));
        assert(cs@.skip(j as int)[0] == cs@[j as int]);
        j = j + 1;
    }
    if j < cs.len() {
        assert(cs@.skip(j as int)[0] == cs@[j as int]);
    }
    j
}

/// The characters `cs[a..b]` as a `String`.
fn chars_range(cs: &Vec<char>, a: usize, b: usize) -> (r: String)
    requires
        a <= b <= cs@.len(),
    ensures
        r@ == cs@.subrange(a as int, b as int),
{
    let mut out = String::new();
    let mut i: usize = a;
    while i < b
        invariant
            a <= i <= b,
            b <= cs@.len(),
            out@ == cs@.subrange(a as int, i as int),
        decreases b - i,
    {
        push_char(&mut out, cs[i]);
        i = i + 1;
        assert(out@ =~= cs@.subrange(a as int, i as int));
    }
    out
}

/// Expands the placeholders of a fixed prompt with tags of `store`, the
/// generator seeded by `seed` (see `expand_spec`).
pub fn expand_placeholders(prompt: &str, store: &TagStore, seed: u64) -> (r: String)
    ensures
        r@ == expand_spec(prompt@, store@, lcg_seed(seed)),
{
    let cs = to_chars(prompt);
    let n = cs.len();
    let mut rng = Lcg::new(seed);
    let mut out = String::new();
    let mut i: usize = 0;
    let ghost s0 = cs@;
    assert(s0.skip(0) =~= s0);
    while i < n
        invariant
            n == cs@.len(),
            s0 == cs@,
            s0 == prompt@,
            i <= n,
            out@ + expand_spec(s0.skip(i as int), store@, rng@) == expand_spec(s0, store@, lcg_seed(seed)),
        decreases n - i,
    {
        let ghost s = s0.skip(i as int);
        let ghost out0 = out@;
        let ghost r0 = rng@;
        if i + 1 < n && cs[i] == '$' && cs[i + 1] == '{' {
            assert(s[0] == '$' && s[1] == '{');
            assert(s.skip(2) =~= s0.skip(i + 2));
            let k = brace_at(&cs, i + 2);
            proof {
                lemma_brace_end(s0.skip(i + 2));
            }
            if k >= n {
                let tail = chars_range(&cs, i, n);
                push_all(&mut out, tail.as_str());
                assert(tail@ =~= s);
                assert(s0.skip(n as int) =~= Seq::<char>::empty());
                i = n;
            } else {
                let name = chars_range(&cs, i + 2, k);
                assert(name@ =~= s.subrange(2, (k - i) as int));
                assert(s.skip((k - i) + 1) =~= s0.skip(k + 1));
                let mut done = false;
                match store.get(name.as_str()) {
                    Some(b) => {
                        let len = set_len(b);
                        if len > 0 {
                            let idx = rng.gen_range(len);
                            match set_get_index(b, idx) {
                                Some(tag) => {
                                    push_all(&mut out, tag.as_str());
                                },
                                None => {},
                            }
                            done = true;
                        }
                    },
                    None => {},
                }
                if !done {
                    let lit = chars_range(&cs, i, k + 1);
                    assert(lit@ =~= s.subrange(0, (k - i) + 1));
                    push_all(&mut out, lit.as_str());
                }
                assert(out0 + expand_spec(s, store@, r0) == out@ + expand_spec(s0.skip(k + 1), store@, rng@));
                i = k + 1;
            }
        } else {
            assert(!(s.len() >= 2 && s[0] == '$' && s[1] == '{'));
            push_char(&mut out, cs[i]);
            assert(s.skip(1) =~= s0.skip(i + 1));
            assert(out0 + expand_spec(s, store@, r0) =~= out@ + expand_spec(s0.skip(i + 1), store@, rng@));
            i = i + 1;
        }
    }
    assert(s0.skip(n as int) =~= Seq::<char>::empty());
    assert(out@ + Seq::<char>::empty() =~= out@);
    out
}

} // verus!
