//! Composing a prompt from a theme and a tag pool: each category of the
//! theme draws distinct tags with the seeded generator, conflicting tags are
//! kept apart, and the result is joined and cut to the length limit.

use indexmap::IndexSet;
use vstd::prelude::*;

use crate::paths::{file_stem, file_stem_spec};
use crate::prompt_engine::strategy::{
    lcg_after_below, lcg_below, lcg_output, lcg_seed, lcg_step, separator, CombineStrategy, Lcg,
    PromptError, PromptErrorView,
};
use crate::tags::{
    lang_name, lemma_key_index_bounds, lookup, key_index, set_get_index, set_items, set_len, Lang,
    LangAwarePool, TagStore,
};
use crate::text::{join_spec, owned, str_eq, string_views, take_chars, take_spec};
use crate::theme::{CategoryRef, OptionalCategoryRef, Theme};

verus! {

/// What a composition needs besides the tag pool.
#[derive(Debug, Clone)]
pub struct CombineContext {
    pub theme: Theme,
    pub lang: Lang,
    pub strategy: CombineStrategy,
    /// Limit of the prompt text in characters.
    pub max_length: usize,
    pub seed: u64,
    pub project_root: String,
}

/// A composed prompt and the tags it was made of, each with its category.
#[derive(Debug, Clone)]
pub struct CombineOutput {
    pub prompt: String,
    pub selected: Vec<(String, String)>,
}

impl Default for CombineOutput {
    fn default() -> (r: CombineOutput)
        ensures
            r.prompt@.len() == 0,
            r.selected@.len() == 0,
    {
        CombineOutput { prompt: String::new(), selected: Vec::new() }
    }
}

/// The conflict lists of a theme as plain text: per category, its groups.
pub open spec fn conflict_entries(t: Theme) -> Seq<(Seq<char>, Seq<Seq<Seq<char>>>)> {
    t.compatibility.conflicts@.map_values(
        |e: (String, Vec<Vec<String>>)| (e.0@, e.1@.map_values(|g: Vec<String>| string_views(g@))),
    )
}

/// The conflict groups listed for a category (none when it has no entry).
pub open spec fn conflict_groups(t: Theme, cat: Seq<char>) -> Seq<Seq<Seq<char>>> {
    match lookup(conflict_entries(t), cat) {
        Some(g) => g,
        None => Seq::empty(),
    }
}

/// Whether `cand` shares a conflict group with a tag already picked.
pub open spec fn conflicts_with(groups: Seq<Seq<Seq<char>>>, cand: Seq<char>, picked: Seq<Seq<char>>) -> bool {
    exists|j: int|
        0 <= j < groups.len() && #[trigger] groups[j].contains(cand) && exists|k: int|
            0 <= k < picked.len() && groups[j].contains(#[trigger] picked[k])
}

/// The tags of selected pairs.
pub open spec fn sel_values(sel: Seq<(Seq<char>, Seq<char>)>) -> Seq<Seq<char>> {
    sel.map_values(|e: (Seq<char>, Seq<char>)| e.1)
}

/// Plain view of selected pairs.
pub open spec fn sel_view(v: Seq<(String, String)>) -> Seq<(Seq<char>, Seq<char>)> {
    v.map_values(|e: (String, String)| (e.0@, e.1@))
}

/// Picked tags, each paired with its category.
pub open spec fn tagged(name: Seq<char>, picked: Seq<Seq<char>>) -> Seq<(Seq<char>, Seq<char>)> {
    picked.map_values(|x: Seq<char>| (name, x))
}

/// The drawing loop of one category: while fewer than `n_pick` tags are
/// picked and attempts are left, draw a position in the bucket; keep its tag
/// unless it was taken already or conflicts with a tag picked here.
pub open spec fn pick_loop(
    groups: Seq<Seq<Seq<char>>>,
    bucket: Seq<Seq<char>>,
    taken: Seq<Seq<char>>,
    picked: Seq<Seq<char>>,
    n_pick: nat,
    fuel: nat,
    rng: u64,
) -> (Seq<Seq<char>>, u64)
    decreases fuel,
{
    if picked.len() >= n_pick || fuel == 0 {
        (picked, rng)
    } else {
        let idx = lcg_below(rng, bucket.len());
        let next = lcg_after_below(rng, bucket.len());
        if idx >= bucket.len() {
            (picked, next)
        } else {
            let item = bucket[idx as int];
            if taken.contains(item) || picked.contains(item) || conflicts_with(groups, item, picked) {
                pick_loop(groups, bucket, taken, picked, n_pick, (fuel - 1) as nat, next)
            } else {
                pick_loop(groups, bucket, taken, picked.push(item), n_pick, (fuel - 1) as nat, next)
            }
        }
    }
}

/// Outcome of drawing one category.
pub enum PickSpec {
    /// The tags picked, in order, and the generator's state after.
    Picked(Seq<Seq<char>>, u64),
    /// A required category could not give `count` tags.
    Empty,
    /// The arithmetic of the draw would overflow (a bucket smaller than the
    /// count, or more attempts than a `usize` holds).
    Panics,
}

/// Drawing one category: between `count` and `max` tags (bounded by the
/// bucket size), the number itself drawn first, with at most
/// `32 * n + 64` attempts.
pub open spec fn pick_n_spec(
    groups: Seq<Seq<Seq<char>>>,
    bucket: Seq<Seq<char>>,
    taken: Seq<Seq<char>>,
    count: nat,
    max: nat,
    optional: bool,
    rng: u64,
) -> PickSpec {
    let wanted = if count >= max {
        count
    } else {
        max
    };
    let upper = if wanted <= bucket.len() {
        wanted
    } else {
        bucket.len()
    };
    if upper == 0 {
        if optional {
            PickSpec::Picked(Seq::empty(), rng)
        } else {
            PickSpec::Empty
        }
    } else if upper < count || upper - count + 1 > usize::MAX {
        PickSpec::Panics
    } else {
        let n_pick = count + lcg_below(rng, (upper - count + 1) as nat);
        let rng1 = lcg_step(rng);
        if n_pick * 32 + 64 > usize::MAX {
            PickSpec::Panics
        } else {
            let (picked, rng2) = pick_loop(
                groups,
                bucket,
                taken,
                Seq::empty(),
                n_pick,
                (n_pick * 32 + 64) as nat,
                rng1,
            );
            if picked.len() < count && !optional {
                PickSpec::Empty
            } else {
                PickSpec::Picked(picked, rng2)
            }
        }
    }
}

/// State of a composition: the generator and the tags so far, or how it
/// ended early.
pub enum ComposeState {
    Going(u64, Seq<(Seq<char>, Seq<char>)>),
    Failed(PromptErrorView),
    Panics,
}

/// One required category: its file must have a stem naming a bucket of the
/// store, and the bucket must give enough tags.
#[verifier::opaque]
pub open spec fn required_step(
    t: Theme,
    store: Seq<(Seq<char>, Seq<Seq<char>>)>,
    entry: (String, CategoryRef),
    rng: u64,
    sel: Seq<(Seq<char>, Seq<char>)>,
) -> ComposeState {
    let name = entry.0@;
    let cat = entry.1;
    match file_stem_spec(cat.file@) {
        None => ComposeState::Failed(PromptErrorView::InvalidFile(cat.file@)),
        Some(stem) => match lookup(store, stem) {
            None => ComposeState::Failed(PromptErrorView::UnknownCategory(name)),
            Some(bucket) => match pick_n_spec(
                conflict_groups(t, name),
                bucket,
                sel_values(sel),
                cat.count as nat,
                match cat.max {
                    Some(m) => m as nat,
                    None => cat.count as nat,
                },
                false,
                rng,
            ) {
                PickSpec::Picked(p, r2) => ComposeState::Going(r2, sel + tagged(name, p)),
                PickSpec::Empty => ComposeState::Failed(PromptErrorView::EmptyCategory(name)),
                PickSpec::Panics => ComposeState::Panics,
            },
        },
    }
}

/// Required categories drawn in order from `start`.
pub open spec fn required_steps(
    t: Theme,
    store: Seq<(Seq<char>, Seq<Seq<char>>)>,
    cats: Seq<(String, CategoryRef)>,
    start: ComposeState,
) -> ComposeState
    decreases cats.len(),
{
    if cats.len() == 0 {
        start
    } else {
        match required_steps(t, store, cats.drop_last(), start) {
            ComposeState::Going(r, s) => required_step(t, store, cats.last(), r, s),
            other => other,
        }
    }
}

/// One optional category: skipped when its file has no stem or no bucket;
/// otherwise a draw decides, and when it allows, the category's tags are
/// drawn with nothing required.
#[verifier::opaque]
pub open spec fn optional_step(
    t: Theme,
    store: Seq<(Seq<char>, Seq<Seq<char>>)>,
    entry: (String, OptionalCategoryRef),
    rng: u64,
    sel: Seq<(Seq<char>, Seq<char>)>,
) -> ComposeState {
    let name = entry.0@;
    let opt = entry.1;
    match file_stem_spec(opt.file@) {
        None => ComposeState::Going(rng, sel),
        Some(stem) => match lookup(store, stem) {
            None => ComposeState::Going(rng, sel),
            Some(bucket) => if lcg_output(rng) >= opt.draw_limit {
                ComposeState::Going(lcg_step(rng), sel)
            } else {
                match pick_n_spec(
                    conflict_groups(t, name),
                    bucket,
                    sel_values(sel),
                    opt.count as nat,
                    opt.count as nat,
                    true,
                    lcg_step(rng),
                ) {
                    PickSpec::Picked(p, r2) => ComposeState::Going(r2, sel + tagged(name, p)),
                    PickSpec::Empty => ComposeState::Failed(PromptErrorView::EmptyCategory(name)),
                    PickSpec::Panics => ComposeState::Panics,
                }
            },
        },
    }
}

/// Optional categories drawn in order from `start`.
pub open spec fn optional_steps(
    t: Theme,
    store: Seq<(Seq<char>, Seq<Seq<char>>)>,
    cats: Seq<(String, OptionalCategoryRef)>,
    start: ComposeState,
) -> ComposeState
    decreases cats.len(),
{
    if cats.len() == 0 {
        start
    } else {
        match optional_steps(t, store, cats.drop_last(), start) {
            ComposeState::Going(r, s) => optional_step(t, store, cats.last(), r, s),
            other => other,
        }
    }
}

/// Outcome of a composition.
pub enum CombineSpec {
    /// The prompt and the selected pairs.
    Done(Seq<char>, Seq<(Seq<char>, Seq<char>)>),
    Failed(PromptErrorView),
    Panics,
}

/// The state after all categories of the theme: fixed, random, optional.
pub open spec fn compose_all(t: Theme, store: Seq<(Seq<char>, Seq<Seq<char>>)>, seed: u64) -> ComposeState {
    optional_steps(
        t,
        store,
        t.order.optional@,
        required_steps(
            t,
            store,
            t.order.random@,
            required_steps(t, store, t.order.fixed@, ComposeState::Going(lcg_seed(seed), Seq::empty())),
        ),
    )
}

/// The selection cut to `max` pairs.
pub open spec fn keep_first(sel: Seq<(Seq<char>, Seq<char>)>, max: nat) -> Seq<(Seq<char>, Seq<char>)> {
    if sel.len() > max {
        sel.subrange(0, max as int)
    } else {
        sel
    }
}

/// What `combine` gives: the language must be in the pool; the categories
/// are drawn from the seeded generator; at most `max_elements` pairs are
/// kept; their tags are joined by the strategy and cut to the first
/// `max_length` characters.
pub open spec fn combine_spec(
    ctx: CombineContext,
    pool: Seq<(Seq<char>, Seq<(Seq<char>, Seq<Seq<char>>)>)>,
) -> CombineSpec {
    match lookup(pool, lang_name(ctx.lang)) {
        None => CombineSpec::Failed(PromptErrorView::UnknownLang(lang_name(ctx.lang))),
        Some(store) => match compose_all(ctx.theme, store, ctx.seed) {
            ComposeState::Going(_, sel) => {
                let kept = keep_first(sel, ctx.theme.generation.max_elements as nat);
                CombineSpec::Done(
                    take_spec(join_spec(sel_values(kept), separator(ctx.strategy)), ctx.max_length as nat),
                    kept,
                )
            },
            ComposeState::Failed(e) => CombineSpec::Failed(e),
            ComposeState::Panics => CombineSpec::Panics,
        },
    }
}

/// No two tags of `p` fall in one conflict group.
pub open spec fn conflict_free(groups: Seq<Seq<Seq<char>>>, p: Seq<Seq<char>>) -> bool {
    forall|i: int, j: int, g: int|
        0 <= i < j < p.len() && 0 <= g < groups.len() ==> !(#[trigger] groups[g].contains(p[i])
            && groups[g].contains(#[trigger] p[j]))
}

/// `x` is a tag of some category of `store`.
pub open spec fn in_store(store: Seq<(Seq<char>, Seq<Seq<char>>)>, x: Seq<char>) -> bool {
    exists|k: int| 0 <= k < store.len() && #[trigger] store[k].1.contains(x)
}

/// The selection draws no tag twice and takes every tag from `store`.
pub open spec fn drawn_ok(store: Seq<(Seq<char>, Seq<Seq<char>>)>, sel: Seq<(Seq<char>, Seq<char>)>) -> bool {
    &&& sel_values(sel).no_duplicates()
    &&& forall|i: int| 0 <= i < sel.len() ==> in_store(store, #[trigger] sel[i].1)
}

proof fn lemma_pick_loop(
    groups: Seq<Seq<Seq<char>>>,
    bucket: Seq<Seq<char>>,
    taken: Seq<Seq<char>>,
    picked: Seq<Seq<char>>,
    n_pick: nat,
    fuel: nat,
    rng: u64,
)
    requires
        (taken + picked).no_duplicates(),
        forall|i: int| 0 <= i < picked.len() ==> bucket.contains(#[trigger] picked[i]),
        conflict_free(groups, picked),
    ensures
        (taken + pick_loop(groups, bucket, taken, picked, n_pick, fuel, rng).0).no_duplicates(),
        forall|i: int|
            0 <= i < pick_loop(groups, bucket, taken, picked, n_pick, fuel, rng).0.len() ==> bucket.contains(
                #[trigger] pick_loop(groups, bucket, taken, picked, n_pick, fuel, rng).0[i],
            ),
        conflict_free(groups, pick_loop(groups, bucket, taken, picked, n_pick, fuel, rng).0),
    decreases fuel,
{
    if picked.len() >= n_pick || fuel == 0 {
    } else {
        let idx = lcg_below(rng, bucket.len());
        let next = lcg_after_below(rng, bucket.len());
        if idx >= bucket.len() {
        } else {
            let item = bucket[idx as int];
            if taken.contains(item) || picked.contains(item) || conflicts_with(groups, item, picked) {
                lemma_pick_loop(groups, bucket, taken, picked, n_pick, (fuel - 1) as nat, next);
            } else {
                let both = taken + picked;
                let p2 = picked.push(item);
                assert(taken + p2 =~= both.push(item));
                assert forall|i: int| 0 <= i < both.len() implies both[i] != item by {
                    if i < taken.len() {
                        assert(both[i] == taken[i]);
                    } else {
                        assert(both[i] == picked[i - taken.len()]);
                    }
                }
                assert forall|i: int, j: int|
                    0 <= i < both.push(item).len() && 0 <= j < both.push(item).len() && i != j implies both.push(
                        item,
                    )[i] != both.push(item)[j] by {
                    if i < both.len() && j < both.len() {
                        assert(both[i] != both[j]);
                    }
                }
                assert forall|i: int| 0 <= i < p2.len() implies bucket.contains(#[trigger] p2[i]) by {
                    if i < picked.len() {
                        assert(p2[i] == picked[i]);
                    } else {
                        assert(bucket[idx as int] == item);
                    }
                }
                assert forall|i: int, j: int, g: int|
                    0 <= i < j < p2.len() && 0 <= g < groups.len() implies !(#[trigger] groups[g].contains(p2[i])
                        && groups[g].contains(#[trigger] p2[j])) by {
                    if j < picked.len() {
                        assert(p2[i] == picked[i] && p2[j] == picked[j]);
                    } else if groups[g].contains(p2[i]) && groups[g].contains(p2[j]) {
                        assert(p2[i] == picked[i]);
                        assert(groups[g].contains(picked[i]));
                        assert(conflicts_with(groups, item, picked));
                    }
                }
                lemma_pick_loop(groups, bucket, taken, p2, n_pick, (fuel - 1) as nat, next);
            }
        }
    }
}

proof fn lemma_pick_loop_len(
    groups: Seq<Seq<Seq<char>>>,
    bucket: Seq<Seq<char>>,
    taken: Seq<Seq<char>>,
    picked: Seq<Seq<char>>,
    n_pick: nat,
    fuel: nat,
    rng: u64,
)
    requires
        picked.len() <= n_pick,
    ensures
        pick_loop(groups, bucket, taken, picked, n_pick, fuel, rng).0.len() <= n_pick,
    decreases fuel,
{
    if picked.len() < n_pick && fuel > 0 {
        let next = lcg_after_below(rng, bucket.len());
        lemma_pick_loop_len(groups, bucket, taken, picked, n_pick, (fuel - 1) as nat, next);
        let idx = lcg_below(rng, bucket.len());
        if idx < bucket.len() {
            lemma_pick_loop_len(groups, bucket, taken, picked.push(bucket[idx as int]), n_pick, (fuel - 1) as nat, next);
        }
    }
}

proof fn lemma_pick_loop_grows(
    groups: Seq<Seq<Seq<char>>>,
    bucket: Seq<Seq<char>>,
    taken: Seq<Seq<char>>,
    picked: Seq<Seq<char>>,
    n_pick: nat,
    fuel: nat,
    rng: u64,
)
    ensures
        pick_loop(groups, bucket, taken, picked, n_pick, fuel, rng).0.len() >= picked.len(),
    decreases fuel,
{
    if picked.len() < n_pick && fuel > 0 {
        let next = lcg_after_below(rng, bucket.len());
        lemma_pick_loop_grows(groups, bucket, taken, picked, n_pick, (fuel - 1) as nat, next);
        let idx = lcg_below(rng, bucket.len());
        if idx < bucket.len() {
            lemma_pick_loop_grows(groups, bucket, taken, picked.push(bucket[idx as int]), n_pick, (fuel - 1) as nat, next);
        }
    }
}

/// With no conflict groups and no tag of the bucket taken yet, the first
/// attempt of a draw keeps its tag, so a draw asking for at least one tag
/// gets at least one.
proof fn lemma_first_draw_keeps(
    groups: Seq<Seq<Seq<char>>>,
    bucket: Seq<Seq<char>>,
    taken: Seq<Seq<char>>,
    n_pick: nat,
    fuel: nat,
    rng: u64,
)
    requires
        groups.len() == 0,
        bucket.len() > 0,
        n_pick >= 1,
        fuel >= 1,
        forall|i: int| 0 <= i < bucket.len() ==> !taken.contains(#[trigger] bucket[i]),
    ensures
        pick_loop(groups, bucket, taken, Seq::empty(), n_pick, fuel, rng).0.len() >= 1,
{
    let idx = lcg_below(rng, bucket.len());
    assert(idx < bucket.len());
    let item = bucket[idx as int];
    assert(!taken.contains(item));
    assert(!conflicts_with(groups, item, Seq::<Seq<char>>::empty()));
    let next = lcg_after_below(rng, bucket.len());
    lemma_pick_loop_grows(groups, bucket, taken, Seq::<Seq<char>>::empty().push(item), n_pick, (fuel - 1) as nat, next);
}

/// An optional category that is always drawn (its draw limit is above every
/// 32-bit draw) adds tags whenever it can: its file names a bucket with
/// tags, it asks for at least one and no more than the bucket holds, none of
/// the bucket's tags is selected yet, and no conflict groups apply.
pub proof fn certain_optional_law(
    t: Theme,
    store: Seq<(Seq<char>, Seq<Seq<char>>)>,
    entry: (String, OptionalCategoryRef),
    rng: u64,
    sel: Seq<(Seq<char>, Seq<char>)>,
)
    requires
        entry.1.draw_limit > u32::MAX,
        file_stem_spec(entry.1.file@) matches Some(stem) && lookup(store, stem) matches Some(bucket) && 1
            <= entry.1.count <= bucket.len() && bucket.len() * 32 + 64 <= usize::MAX && forall|i: int|
            0 <= i < bucket.len() ==> !sel_values(sel).contains(#[trigger] bucket[i]),
        conflict_groups(t, entry.0@).len() == 0,
    ensures
        optional_step(t, store, entry, rng, sel) matches ComposeState::Going(_, s2) && s2.len() > sel.len(),
{
    reveal(optional_step);
    let stem = file_stem_spec(entry.1.file@)->0;
    let bucket = lookup(store, stem)->0;
    let count = entry.1.count as nat;
    let r1 = lcg_step(rng);
    assert(lcg_below(r1, 1) == 0);
    lemma_first_draw_keeps(
        conflict_groups(t, entry.0@),
        bucket,
        sel_values(sel),
        count,
        (count * 32 + 64) as nat,
        lcg_step(r1),
    );
    if let PickSpec::Picked(p, _) = pick_n_spec(conflict_groups(t, entry.0@), bucket, sel_values(sel), count, count, true, r1) {
        lemma_sel_append(sel, entry.0@, p);
    }
}

/// How many tags a required category asks for when its `max` is above its
/// count and its bucket holds at least `max` tags: the count plus the
/// generator's draw below `max - count + 1`.
pub open spec fn tags_wanted(count: nat, max: nat, rng: u64) -> nat {
    count + lcg_below(rng, (max - count + 1) as nat)
}

/// A required category whose `max` is above its count, drawn from a bucket of
/// at least `max` tags, gives at most `tags_wanted` tags, and exactly that
/// many whenever drawing that many succeeds within the `32 * n + 64`
/// attempts allowed for `n` tags (the draws after the one that fixed the
/// number).  So `max` matters: the number of tags ranges over `count..=max`
/// with the generator.
pub proof fn required_pick_count_law(
    groups: Seq<Seq<Seq<char>>>,
    bucket: Seq<Seq<char>>,
    taken: Seq<Seq<char>>,
    count: nat,
    max: nat,
    rng: u64,
)
    requires
        count < max <= bucket.len(),
        max * 32 + 64 <= usize::MAX,
    ensures
        count <= tags_wanted(count, max, rng) <= max,
        pick_n_spec(groups, bucket, taken, count, max, false, rng) matches PickSpec::Picked(p, _) ==> count <= p.len()
            <= tags_wanted(count, max, rng),
        pick_loop(
            groups,
            bucket,
            taken,
            Seq::empty(),
            tags_wanted(count, max, rng),
            tags_wanted(count, max, rng) * 32 + 64,
            lcg_step(rng),
        ).0.len() == tags_wanted(count, max, rng) ==> (pick_n_spec(groups, bucket, taken, count, max, false, rng) matches PickSpec::Picked(p, _)
            && p.len() == tags_wanted(count, max, rng)),
{
    let n = tags_wanted(count, max, rng);
    assert(lcg_below(rng, (max - count + 1) as nat) < max - count + 1);
    lemma_pick_loop_len(groups, bucket, taken, Seq::empty(), n, (n * 32 + 64) as nat, lcg_step(rng));
}

proof fn lemma_pick_n(
    groups: Seq<Seq<Seq<char>>>,
    bucket: Seq<Seq<char>>,
    taken: Seq<Seq<char>>,
    count: nat,
    max: nat,
    optional: bool,
    rng: u64,
)
    requires
        taken.no_duplicates(),
    ensures
        pick_n_spec(groups, bucket, taken, count, max, optional, rng) matches PickSpec::Picked(p, _) ==> {
            &&& (taken + p).no_duplicates()
            &&& forall|i: int| 0 <= i < p.len() ==> bucket.contains(#[trigger] p[i])
            &&& conflict_free(groups, p)
        },
{
    let wanted = if count >= max {
        count
    } else {
        max
    };
    let upper = if wanted <= bucket.len() {
        wanted
    } else {
        bucket.len()
    };
    assert(taken + Seq::<Seq<char>>::empty() =~= taken);
    if upper > 0 && upper >= count && upper - count + 1 <= usize::MAX {
        let n_pick = count + lcg_below(rng, (upper - count + 1) as nat);
        if n_pick * 32 + 64 <= usize::MAX {
            lemma_pick_loop(
                groups,
                bucket,
                taken,
                Seq::empty(),
                n_pick,
                (n_pick * 32 + 64) as nat,
                lcg_step(rng),
            );
        }
    }
}

proof fn lemma_sel_append(sel: Seq<(Seq<char>, Seq<char>)>, name: Seq<char>, p: Seq<Seq<char>>)
    ensures
        sel_values(sel + tagged(name, p)) == sel_values(sel) + p,
        (sel + tagged(name, p)).len() == sel.len() + p.len(),
        forall|i: int| 0 <= i < sel.len() ==> (sel + tagged(name, p))[i] == sel[i],
        forall|i: int| sel.len() <= i < sel.len() + p.len() ==> (sel + tagged(name, p))[i] == (name, p[i - sel.len()]),
{
    assert(sel_values(sel + tagged(name, p)) =~= sel_values(sel) + p);
}

proof fn lemma_block_ok(
    store: Seq<(Seq<char>, Seq<Seq<char>>)>,
    stem: Seq<char>,
    sel: Seq<(Seq<char>, Seq<char>)>,
    name: Seq<char>,
    p: Seq<Seq<char>>,
)
    requires
        drawn_ok(store, sel),
        lookup(store, stem) is Some,
        (sel_values(sel) + p).no_duplicates(),
        forall|i: int| 0 <= i < p.len() ==> lookup(store, stem)->0.contains(#[trigger] p[i]),
    ensures
        drawn_ok(store, sel + tagged(name, p)),
{
    lemma_sel_append(sel, name, p);
    lemma_key_index_bounds(store, stem);
    let k = key_index(store, stem)->0;
    let s2 = sel + tagged(name, p);
    assert forall|i: int| 0 <= i < s2.len() implies in_store(store, #[trigger] s2[i].1) by {
        if i < sel.len() {
            assert(s2[i] == sel[i]);
        } else {
            assert(s2[i].1 == p[i - sel.len()]);
            assert(store[k].1.contains(p[i - sel.len()]));
        }
    }
}

proof fn lemma_required_step_ok(
    t: Theme,
    store: Seq<(Seq<char>, Seq<Seq<char>>)>,
    entry: (String, CategoryRef),
    rng: u64,
    sel: Seq<(Seq<char>, Seq<char>)>,
)
    requires
        drawn_ok(store, sel),
    ensures
        required_step(t, store, entry, rng, sel) matches ComposeState::Going(_, s2) ==> drawn_ok(store, s2),
{
    reveal(required_step);
    let name = entry.0@;
    let cat = entry.1;
    if let Some(stem) = file_stem_spec(cat.file@) {
        if let Some(bucket) = lookup(store, stem) {
            let max = match cat.max {
                Some(m) => m as nat,
                None => cat.count as nat,
            };
            lemma_pick_n(conflict_groups(t, name), bucket, sel_values(sel), cat.count as nat, max, false, rng);
            if let PickSpec::Picked(p, _) = pick_n_spec(
                conflict_groups(t, name),
                bucket,
                sel_values(sel),
                cat.count as nat,
                max,
                false,
                rng,
            ) {
                lemma_block_ok(store, stem, sel, name, p);
            }
        }
    }
}

proof fn lemma_optional_step_ok(
    t: Theme,
    store: Seq<(Seq<char>, Seq<Seq<char>>)>,
    entry: (String, OptionalCategoryRef),
    rng: u64,
    sel: Seq<(Seq<char>, Seq<char>)>,
)
    requires
        drawn_ok(store, sel),
    ensures
        optional_step(t, store, entry, rng, sel) matches ComposeState::Going(_, s2) ==> drawn_ok(store, s2),
{
    reveal(optional_step);
    let name = entry.0@;
    let opt = entry.1;
    if let Some(stem) = file_stem_spec(opt.file@) {
        if let Some(bucket) = lookup(store, stem) {
            lemma_pick_n(
                conflict_groups(t, name),
                bucket,
                sel_values(sel),
                opt.count as nat,
                opt.count as nat,
                true,
                lcg_step(rng),
            );
            if let PickSpec::Picked(p, _) = pick_n_spec(
                conflict_groups(t, name),
                bucket,
                sel_values(sel),
                opt.count as nat,
                opt.count as nat,
                true,
                lcg_step(rng),
            ) {
                lemma_block_ok(store, stem, sel, name, p);
            }
        }
    }
}

proof fn lemma_required_steps_ok(
    t: Theme,
    store: Seq<(Seq<char>, Seq<Seq<char>>)>,
    cats: Seq<(String, CategoryRef)>,
    start: ComposeState,
)
    requires
        start matches ComposeState::Going(_, s) ==> drawn_ok(store, s),
    ensures
        required_steps(t, store, cats, start) matches ComposeState::Going(_, s) ==> drawn_ok(store, s),
    decreases cats.len(),
{
    if cats.len() > 0 {
        lemma_required_steps_ok(t, store, cats.drop_last(), start);
        if let ComposeState::Going(r, s) = required_steps(t, store, cats.drop_last(), start) {
            lemma_required_step_ok(t, store, cats.last(), r, s);
        }
    }
}

proof fn lemma_optional_steps_ok(
    t: Theme,
    store: Seq<(Seq<char>, Seq<Seq<char>>)>,
    cats: Seq<(String, OptionalCategoryRef)>,
    start: ComposeState,
)
    requires
        start matches ComposeState::Going(_, s) ==> drawn_ok(store, s),
    ensures
        optional_steps(t, store, cats, start) matches ComposeState::Going(_, s) ==> drawn_ok(store, s),
    decreases cats.len(),
{
    if cats.len() > 0 {
        lemma_optional_steps_ok(t, store, cats.drop_last(), start);
        if let ComposeState::Going(r, s) = optional_steps(t, store, cats.drop_last(), start) {
            lemma_optional_step_ok(t, store, cats.last(), r, s);
        }
    }
}

/// A composed prompt holds at most `max_length` characters and is a prefix of
/// the kept tags joined by the strategy; at most `max_elements` tags are
/// kept; no tag is drawn twice; every tag comes from the pool of the
/// requested language.
pub proof fn combine_output_laws(ctx: CombineContext, pool: Seq<(Seq<char>, Seq<(Seq<char>, Seq<Seq<char>>)>)>)
    ensures
        combine_spec(ctx, pool) matches CombineSpec::Done(prompt, sel) ==> {
            &&& prompt.len() <= ctx.max_length
            &&& prompt == join_spec(sel_values(sel), separator(ctx.strategy)).subrange(0, prompt.len() as int)
            &&& sel.len() <= ctx.theme.generation.max_elements
            &&& sel_values(sel).no_duplicates()
            &&& forall|i: int| 0 <= i < sel.len() ==> in_store(lookup(pool, lang_name(ctx.lang))->0, #[trigger] sel[i].1)
        },
{
    if let Some(store) = lookup(pool, lang_name(ctx.lang)) {
        let t = ctx.theme;
        let s0 = ComposeState::Going(lcg_seed(ctx.seed), Seq::empty());
        assert(sel_values(Seq::<(Seq<char>, Seq<char>)>::empty()) =~= Seq::<Seq<char>>::empty());
        lemma_required_steps_ok(t, store, t.order.fixed@, s0);
        let s1 = required_steps(t, store, t.order.fixed@, s0);
        lemma_required_steps_ok(t, store, t.order.random@, s1);
        let s2 = required_steps(t, store, t.order.random@, s1);
        lemma_optional_steps_ok(t, store, t.order.optional@, s2);
        if let ComposeState::Going(_, sel) = compose_all(t, store, ctx.seed) {
            let kept = keep_first(sel, t.generation.max_elements as nat);
            let joined = join_spec(sel_values(kept), separator(ctx.strategy));
            if sel.len() > t.generation.max_elements {
                assert(sel_values(kept) =~= sel_values(sel).subrange(0, t.generation.max_elements as int));
                assert forall|i: int| 0 <= i < kept.len() implies in_store(store, #[trigger] kept[i].1) by {
                    assert(kept[i] == sel[i]);
                }
            }
        }
    }
}

/// No selected pair belongs to category `name`.
pub open spec fn sel_lacks(sel: Seq<(Seq<char>, Seq<char>)>, name: Seq<char>) -> bool {
    forall|i: int| 0 <= i < sel.len() ==> #[trigger] sel[i].0 != name
}

proof fn lemma_required_steps_lack(
    t: Theme,
    store: Seq<(Seq<char>, Seq<Seq<char>>)>,
    cats: Seq<(String, CategoryRef)>,
    start: ComposeState,
    name: Seq<char>,
)
    requires
        start matches ComposeState::Going(_, s) ==> sel_lacks(s, name),
        forall|i: int| 0 <= i < cats.len() ==> #[trigger] cats[i].0@ != name,
    ensures
        required_steps(t, store, cats, start) matches ComposeState::Going(_, s) ==> sel_lacks(s, name),
    decreases cats.len(),
{
    if cats.len() > 0 {
        lemma_required_steps_lack(t, store, cats.drop_last(), start, name);
        if let ComposeState::Going(r, s) = required_steps(t, store, cats.drop_last(), start) {
            reveal(required_step);
            let e = cats.last();
            assert(e.0@ != name);
            if let ComposeState::Going(_, s2) = required_step(t, store, e, r, s) {
                let stem = file_stem_spec(e.1.file@)->0;
                let bucket = lookup(store, stem)->0;
                let max = match e.1.max {
                    Some(m) => m as nat,
                    None => e.1.count as nat,
                };
                if let PickSpec::Picked(p, _) = pick_n_spec(
                    conflict_groups(t, e.0@),
                    bucket,
                    sel_values(s),
                    e.1.count as nat,
                    max,
                    false,
                    r,
                ) {
                    lemma_sel_append(s, e.0@, p);
                }
            }
        }
    }
}

proof fn lemma_optional_steps_lack(
    t: Theme,
    store: Seq<(Seq<char>, Seq<Seq<char>>)>,
    cats: Seq<(String, OptionalCategoryRef)>,
    start: ComposeState,
    name: Seq<char>,
)
    requires
        start matches ComposeState::Going(_, s) ==> sel_lacks(s, name),
        forall|i: int| 0 <= i < cats.len() && #[trigger] cats[i].0@ == name ==> cats[i].1.draw_limit == 0,
    ensures
        optional_steps(t, store, cats, start) matches ComposeState::Going(_, s) ==> sel_lacks(s, name),
    decreases cats.len(),
{
    if cats.len() > 0 {
        assert forall|i: int| 0 <= i < cats.drop_last().len() && #[trigger] cats.drop_last()[i].0@ == name
            implies cats.drop_last()[i].1.draw_limit == 0 by {
            assert(cats.drop_last()[i] == cats[i]);
        }
        lemma_optional_steps_lack(t, store, cats.drop_last(), start, name);
        if let ComposeState::Going(r, s) = optional_steps(t, store, cats.drop_last(), start) {
            reveal(optional_step);
            let e = cats.last();
            assert(e == cats[cats.len() - 1]);
            if let ComposeState::Going(_, s2) = optional_step(t, store, e, r, s) {
                if let Some(stem) = file_stem_spec(e.1.file@) {
                    if let Some(bucket) = lookup(store, stem) {
                        if lcg_output(r) < e.1.draw_limit {
                            if let PickSpec::Picked(p, _) = pick_n_spec(
                                conflict_groups(t, e.0@),
                                bucket,
                                sel_values(s),
                                e.1.count as nat,
                                e.1.count as nat,
                                true,
                                lcg_step(r),
                            ) {
                                lemma_sel_append(s, e.0@, p);
                            }
                        }
                    }
                }
            }
        }
    }
}

/// An optional category whose draw limit is 0 (probability 0) is never
/// used: when no fixed or random category shares its name and every
/// optional entry of that name has limit 0, no kept tag belongs to it.
pub proof fn zero_probability_never_drawn(
    ctx: CombineContext,
    pool: Seq<(Seq<char>, Seq<(Seq<char>, Seq<Seq<char>>)>)>,
    name: Seq<char>,
)
    requires
        forall|i: int| 0 <= i < ctx.theme.order.fixed@.len() ==> #[trigger] ctx.theme.order.fixed@[i].0@ != name,
        forall|i: int| 0 <= i < ctx.theme.order.random@.len() ==> #[trigger] ctx.theme.order.random@[i].0@ != name,
        forall|i: int|
            0 <= i < ctx.theme.order.optional@.len() && #[trigger] ctx.theme.order.optional@[i].0@ == name
                ==> ctx.theme.order.optional@[i].1.draw_limit == 0,
    ensures
        combine_spec(ctx, pool) matches CombineSpec::Done(_, sel) ==> sel_lacks(sel, name),
{
    if let Some(store) = lookup(pool, lang_name(ctx.lang)) {
        let t = ctx.theme;
        let s0 = ComposeState::Going(lcg_seed(ctx.seed), Seq::<(Seq<char>, Seq<char>)>::empty());
        lemma_required_steps_lack(t, store, t.order.fixed@, s0, name);
        let s1 = required_steps(t, store, t.order.fixed@, s0);
        lemma_required_steps_lack(t, store, t.order.random@, s1, name);
        let s2 = required_steps(t, store, t.order.random@, s1);
        lemma_optional_steps_lack(t, store, t.order.optional@, s2, name);
        if let ComposeState::Going(_, sel) = compose_all(t, store, ctx.seed) {
            let kept = keep_first(sel, t.generation.max_elements as nat);
            assert forall|i: int| 0 <= i < kept.len() implies #[trigger] kept[i].0 != name by {
                assert(kept[i] == sel[i]);
            }
        }
    }
}

/// Names of required categories.
pub open spec fn req_names(cats: Seq<(String, CategoryRef)>) -> Seq<Seq<char>> {
    cats.map_values(|e: (String, CategoryRef)| e.0@)
}

/// Names of optional categories.
pub open spec fn opt_names(cats: Seq<(String, OptionalCategoryRef)>) -> Seq<Seq<char>> {
    cats.map_values(|e: (String, OptionalCategoryRef)| e.0@)
}

/// Every category name of the theme occurs once.
pub open spec fn theme_names_distinct(t: Theme) -> bool {
    (req_names(t.order.fixed@) + req_names(t.order.random@) + opt_names(t.order.optional@)).no_duplicates()
}

/// Within a category, no two selected tags share one of its conflict groups.
pub open spec fn sel_conflict_free(t: Theme, sel: Seq<(Seq<char>, Seq<char>)>) -> bool {
    forall|i: int, j: int, g: int|
        0 <= i < j < sel.len() && sel[i].0 == sel[j].0 && 0 <= g < conflict_groups(t, sel[i].0).len()
            ==> !(#[trigger] conflict_groups(t, sel[i].0)[g].contains(sel[i].1) && conflict_groups(
            t,
            sel[i].0,
        )[g].contains(#[trigger] sel[j].1))
}

/// Every selected pair names one of `names`.
pub open spec fn sel_names_in(sel: Seq<(Seq<char>, Seq<char>)>, names: Seq<Seq<char>>) -> bool {
    forall|i: int| 0 <= i < sel.len() ==> names.contains(#[trigger] sel[i].0)
}

proof fn lemma_block_conflict(
    t: Theme,
    sel: Seq<(Seq<char>, Seq<char>)>,
    before: Seq<Seq<char>>,
    name: Seq<char>,
    p: Seq<Seq<char>>,
)
    requires
        sel_conflict_free(t, sel),
        sel_names_in(sel, before),
        !before.contains(name),
        conflict_free(conflict_groups(t, name), p),
    ensures
        sel_conflict_free(t, sel + tagged(name, p)),
        sel_names_in(sel + tagged(name, p), before.push(name)),
{
    lemma_sel_append(sel, name, p);
    let s2 = sel + tagged(name, p);
    let n = sel.len();
    assert forall|i: int, j: int, g: int|
        0 <= i < j < s2.len() && s2[i].0 == s2[j].0 && 0 <= g < conflict_groups(t, s2[i].0).len()
            implies !(#[trigger] conflict_groups(t, s2[i].0)[g].contains(s2[i].1) && conflict_groups(
            t,
            s2[i].0,
        )[g].contains(#[trigger] s2[j].1)) by {
        if j < n {
            assert(s2[i] == sel[i] && s2[j] == sel[j]);
        } else if i < n {
            assert(s2[i] == sel[i]);
            assert(before.contains(sel[i].0));
            assert(s2[j].0 == name);
        } else {
            assert(s2[i].1 == p[i - n] && s2[j].1 == p[j - n]);
            assert(s2[i].0 == name);
        }
    }
    assert forall|i: int| 0 <= i < s2.len() implies before.push(name).contains(#[trigger] s2[i].0) by {
        if i < n {
            assert(s2[i] == sel[i]);
            let k = choose|k: int| 0 <= k < before.len() && before[k] == sel[i].0;
            assert(before.push(name)[k] == sel[i].0);
        } else {
            assert(before.push(name)[before.len() as int] == name);
        }
    }
}

proof fn lemma_required_step_conflict(
    t: Theme,
    store: Seq<(Seq<char>, Seq<Seq<char>>)>,
    entry: (String, CategoryRef),
    rng: u64,
    sel: Seq<(Seq<char>, Seq<char>)>,
    before: Seq<Seq<char>>,
)
    requires
        sel_values(sel).no_duplicates(),
        sel_conflict_free(t, sel),
        sel_names_in(sel, before),
        !before.contains(entry.0@),
    ensures
        required_step(t, store, entry, rng, sel) matches ComposeState::Going(_, s2) ==> sel_conflict_free(t, s2)
            && sel_names_in(s2, before.push(entry.0@)),
{
    reveal(required_step);
    let name = entry.0@;
    let cat = entry.1;
    if let Some(stem) = file_stem_spec(cat.file@) {
        if let Some(bucket) = lookup(store, stem) {
            let max = match cat.max {
                Some(m) => m as nat,
                None => cat.count as nat,
            };
            lemma_pick_n(conflict_groups(t, name), bucket, sel_values(sel), cat.count as nat, max, false, rng);
            if let PickSpec::Picked(p, _) = pick_n_spec(
                conflict_groups(t, name),
                bucket,
                sel_values(sel),
                cat.count as nat,
                max,
                false,
                rng,
            ) {
                lemma_block_conflict(t, sel, before, name, p);
            }
        }
    }
}

proof fn lemma_optional_step_conflict(
    t: Theme,
    store: Seq<(Seq<char>, Seq<Seq<char>>)>,
    entry: (String, OptionalCategoryRef),
    rng: u64,
    sel: Seq<(Seq<char>, Seq<char>)>,
    before: Seq<Seq<char>>,
)
    requires
        sel_values(sel).no_duplicates(),
        sel_conflict_free(t, sel),
        sel_names_in(sel, before),
        !before.contains(entry.0@),
    ensures
        optional_step(t, store, entry, rng, sel) matches ComposeState::Going(_, s2) ==> sel_conflict_free(t, s2)
            && sel_names_in(s2, before.push(entry.0@)),
{
    reveal(optional_step);
    let name = entry.0@;
    let opt = entry.1;
    let grown = before.push(name);
    assert forall|i: int| 0 <= i < sel.len() implies grown.contains(#[trigger] sel[i].0) by {
        let k = choose|k: int| 0 <= k < before.len() && before[k] == sel[i].0;
        assert(grown[k] == sel[i].0);
    }
    if let Some(stem) = file_stem_spec(opt.file@) {
        if let Some(bucket) = lookup(store, stem) {
            lemma_pick_n(
                conflict_groups(t, name),
                bucket,
                sel_values(sel),
                opt.count as nat,
                opt.count as nat,
                true,
                lcg_step(rng),
            );
            if let PickSpec::Picked(p, _) = pick_n_spec(
                conflict_groups(t, name),
                bucket,
                sel_values(sel),
                opt.count as nat,
                opt.count as nat,
                true,
                lcg_step(rng),
            ) {
                lemma_block_conflict(t, sel, before, name, p);
            }
        }
    }
}

/// Distinct names stay distinct in a prefix, and the last is not among the others.
proof fn lemma_names_split(before: Seq<Seq<char>>, names: Seq<Seq<char>>)
    requires
        names.len() > 0,
        (before + names).no_duplicates(),
    ensures
        (before + names.drop_last()).no_duplicates(),
        !(before + names.drop_last()).contains(names.last()),
        (before + names.drop_last()).push(names.last()) == before + names,
{
    let all = before + names;
    let pre = before + names.drop_last();
    assert(pre =~= all.drop_last());
    assert(pre.push(names.last()) =~= all);
    assert forall|k: int| 0 <= k < pre.len() implies pre[k] != names.last() by {
        assert(all[k] != all[all.len() - 1]);
    }
}

proof fn lemma_required_steps_conflict(
    t: Theme,
    store: Seq<(Seq<char>, Seq<Seq<char>>)>,
    cats: Seq<(String, CategoryRef)>,
    start: ComposeState,
    before: Seq<Seq<char>>,
)
    requires
        start matches ComposeState::Going(_, s) ==> drawn_ok(store, s) && sel_conflict_free(t, s) && sel_names_in(s, before),
        (before + req_names(cats)).no_duplicates(),
    ensures
        required_steps(t, store, cats, start) matches ComposeState::Going(_, s) ==> drawn_ok(store, s)
            && sel_conflict_free(t, s) && sel_names_in(s, before + req_names(cats)),
    decreases cats.len(),
{
    if cats.len() == 0 {
        assert(before + req_names(cats) =~= before);
    } else {
        assert(req_names(cats.drop_last()) =~= req_names(cats).drop_last());
        assert(req_names(cats).last() == cats.last().0@);
        lemma_names_split(before, req_names(cats));
        lemma_required_steps_conflict(t, store, cats.drop_last(), start, before);
        lemma_required_steps_ok(t, store, cats.drop_last(), start);
        if let ComposeState::Going(r, s) = required_steps(t, store, cats.drop_last(), start) {
            lemma_required_step_ok(t, store, cats.last(), r, s);
            lemma_required_step_conflict(t, store, cats.last(), r, s, before + req_names(cats.drop_last()));
        }
    }
}

proof fn lemma_optional_steps_conflict(
    t: Theme,
    store: Seq<(Seq<char>, Seq<Seq<char>>)>,
    cats: Seq<(String, OptionalCategoryRef)>,
    start: ComposeState,
    before: Seq<Seq<char>>,
)
    requires
        start matches ComposeState::Going(_, s) ==> drawn_ok(store, s) && sel_conflict_free(t, s) && sel_names_in(s, before),
        (before + opt_names(cats)).no_duplicates(),
    ensures
        optional_steps(t, store, cats, start) matches ComposeState::Going(_, s) ==> drawn_ok(store, s)
            && sel_conflict_free(t, s) && sel_names_in(s, before + opt_names(cats)),
    decreases cats.len(),
{
    if cats.len() == 0 {
        assert(before + opt_names(cats) =~= before);
    } else {
        assert(opt_names(cats.drop_last()) =~= opt_names(cats).drop_last());
        assert(opt_names(cats).last() == cats.last().0@);
        lemma_names_split(before, opt_names(cats));
        lemma_optional_steps_conflict(t, store, cats.drop_last(), start, before);
        lemma_optional_steps_ok(t, store, cats.drop_last(), start);
        if let ComposeState::Going(r, s) = optional_steps(t, store, cats.drop_last(), start) {
            lemma_optional_step_ok(t, store, cats.last(), r, s);
            lemma_optional_step_conflict(t, store, cats.last(), r, s, before + opt_names(cats.drop_last()));
        }
    }
}

/// When every category of the theme has its own name, no two kept tags of
/// one category share one of that category's conflict groups.
pub proof fn combine_conflict_law(ctx: CombineContext, pool: Seq<(Seq<char>, Seq<(Seq<char>, Seq<Seq<char>>)>)>)
    requires
        theme_names_distinct(ctx.theme),
    ensures
        combine_spec(ctx, pool) matches CombineSpec::Done(_, sel) ==> sel_conflict_free(ctx.theme, sel),
{
    if let Some(store) = lookup(pool, lang_name(ctx.lang)) {
        let t = ctx.theme;
        let f = req_names(t.order.fixed@);
        let r = req_names(t.order.random@);
        let o = opt_names(t.order.optional@);
        let empty = Seq::<Seq<char>>::empty();
        assert(empty + f =~= f);
        assert(f + r + o =~= f + (r + o));
        assert(f.no_duplicates()) by {
            assert forall|i: int, j: int| 0 <= i < f.len() && 0 <= j < f.len() && i != j implies f[i] != f[j] by {
                assert((f + r + o)[i] == f[i] && (f + r + o)[j] == f[j]);
            }
        }
        assert((f + r).no_duplicates()) by {
            assert forall|i: int, j: int| 0 <= i < (f + r).len() && 0 <= j < (f + r).len() && i != j implies (f + r)[i]
                != (f + r)[j] by {
                assert((f + r + o)[i] == (f + r)[i] && (f + r + o)[j] == (f + r)[j]);
            }
        }
        let s0 = ComposeState::Going(lcg_seed(ctx.seed), Seq::empty());
        assert(sel_values(Seq::<(Seq<char>, Seq<char>)>::empty()) =~= Seq::<Seq<char>>::empty());
        lemma_required_steps_conflict(t, store, t.order.fixed@, s0, empty);
        let s1 = required_steps(t, store, t.order.fixed@, s0);
        lemma_required_steps_conflict(t, store, t.order.random@, s1, f);
        let s2 = required_steps(t, store, t.order.random@, s1);
        lemma_optional_steps_conflict(t, store, t.order.optional@, s2, f + r);
        if let ComposeState::Going(_, sel) = compose_all(t, store, ctx.seed) {
            let kept = keep_first(sel, t.generation.max_elements as nat);
            if sel.len() > t.generation.max_elements {
                assert forall|i: int, j: int, g: int|
                    0 <= i < j < kept.len() && kept[i].0 == kept[j].0 && 0 <= g < conflict_groups(t, kept[i].0).len()
                        implies !(#[trigger] conflict_groups(t, kept[i].0)[g].contains(kept[i].1) && conflict_groups(
                        t,
                        kept[i].0,
                    )[g].contains(#[trigger] kept[j].1)) by {
                    assert(kept[i] == sel[i] && kept[j] == sel[j]);
                }
            }
        }
    }
}

/// Composition is a function of its inputs: equal contexts and pools give
/// equal outcomes.
pub proof fn combine_is_deterministic(
    ctx1: CombineContext,
    ctx2: CombineContext,
    pool1: Seq<(Seq<char>, Seq<(Seq<char>, Seq<Seq<char>>)>)>,
    pool2: Seq<(Seq<char>, Seq<(Seq<char>, Seq<Seq<char>>)>)>,
)
    requires
        ctx1 == ctx2,
        pool1 == pool2,
    ensures
        combine_spec(ctx1, pool1) == combine_spec(ctx2, pool2),
{
}

/// Whether `x` is one of `list`.
fn list_has(list: &Vec<String>, x: &str) -> (r: bool)
    ensures
        r == string_views(list@).contains(x@),
{
    let mut i: usize = 0;
    while i < list.len()
        invariant
            i <= list@.len(),
            forall|j: int| 0 <= j < i ==> list@[j]@ != x@,
        decreases list@.len() - i,
    {
        if str_eq(list[i].as_str(), x) {
            assert(string_views(list@)[i as int] == x@);
            return true;
        }
        i = i + 1;
    }
    assert forall|j: int| 0 <= j < string_views(list@).len() implies string_views(list@)[j] != x@ by {
        assert(string_views(list@)[j] == list@[j]@);
    }
    false
}

/// Whether `x` is the tag of one of the selected pairs.
fn selected_has(sel: &Vec<(String, String)>, x: &str) -> (r: bool)
    ensures
        r == sel_values(sel_view(sel@)).contains(x@),
{
    let ghost vals = sel_values(sel_view(sel@));
    let mut i: usize = 0;
    while i < sel.len()
        invariant
            i <= sel@.len(),
            vals == sel_values(sel_view(sel@)),
            vals.len() == sel@.len(),
            forall|j: int| 0 <= j < i ==> vals[j] != x@,
        decreases sel@.len() - i,
    {
        assert(vals[i as int] == sel@[i as int].1@);
        if str_eq(sel[i].1.as_str(), x) {
            return true;
        }
        i = i + 1;
    }
    false
}

/// Position of the conflict entry of `cat`, the first one with that name.
fn find_conflicts(t: &Theme, cat: &str) -> (r: Option<usize>)
    ensures
        r matches Some(i) ==> key_index(conflict_entries(*t), cat@) == Some(i as int),
        r is None ==> key_index(conflict_entries(*t), cat@) is None,
{
    let ghost entries = conflict_entries(*t);
    let mut i: usize = 0;
    while i < t.compatibility.conflicts.len()
        invariant
            i <= t.compatibility.conflicts@.len(),
            entries == conflict_entries(*t),
            entries.len() == t.compatibility.conflicts@.len(),
            key_index(entries.subrange(0, i as int), cat@) is None,
        decreases t.compatibility.conflicts@.len() - i,
    {
        assert(entries.subrange(0, i + 1).drop_last() =~= entries.subrange(0, i as int));
        assert(entries[i as int].0 == t.compatibility.conflicts@[i as int].0@);
        if str_eq(t.compatibility.conflicts[i].0.as_str(), cat) {
            proof {
                crate::tags::lemma_key_index_prefix(entries, cat@, i + 1);
            }
            return Some(i);
        }
        i = i + 1;
    }
    assert(entries.subrange(0, entries.len() as int) =~= entries);
    None
}

/// Whether a tag of `picked` is in `group`.
fn group_meets(group: &Vec<String>, picked: &Vec<String>) -> (r: bool)
    ensures
        r == exists|k: int|
            0 <= k < picked@.len() && string_views(group@).contains(#[trigger] string_views(picked@)[k]),
{
    let mut k: usize = 0;
    while k < picked.len()
        invariant
            k <= picked@.len(),
            forall|kk: int| 0 <= kk < k ==> !string_views(group@).contains(#[trigger] string_views(picked@)[kk]),
        decreases picked@.len() - k,
    {
        assert(string_views(picked@)[k as int] == picked@[k as int]@);
        if list_has(group, picked[k].as_str()) {
            return true;
        }
        k = k + 1;
    }
    false
}

/// Whether `cand` conflicts with a tag picked in category `cat`.
fn violates_conflict(t: &Theme, cat: &str, cand: &str, picked: &Vec<String>) -> (r: bool)
    ensures
        r == conflicts_with(conflict_groups(*t, cat@), cand@, string_views(picked@)),
{
    let ghost groups = conflict_groups(*t, cat@);
    match find_conflicts(t, cat) {
        None => false,
        Some(i) => {
            proof {
                lemma_key_index_bounds(conflict_entries(*t), cat@);
            }
            let list = &t.compatibility.conflicts[i].1;
            assert(groups == list@.map_values(|g: Vec<String>| string_views(g@)));
            let mut j: usize = 0;
            while j < list.len()
                invariant
                    j <= list@.len(),
                    groups == conflict_groups(*t, cat@),
                    groups == list@.map_values(|g: Vec<String>| string_views(g@)),
                    forall|jj: int|
                        0 <= jj < j ==> !(#[trigger] groups[jj].contains(cand@) && exists|k: int|
                            0 <= k < string_views(picked@).len() && groups[jj].contains(
                                #[trigger] string_views(picked@)[k],
                            )),
                decreases list@.len() - j,
            {
                assert(groups[j as int] == string_views(list@[j as int]@));
                if list_has(&list[j], cand) && group_meets(&list[j], picked) {
                    assert(groups[j as int].contains(cand@));
                    return true;
                }
                j = j + 1;
            }
            false
        },
    }
}

/// Outcome of drawing one category (see `PickSpec`).
enum Pick {
    Picked(Vec<String>),
    Empty,
    Panics,
}

/// Draws the tags of one category from `bucket`: `count` to `max` of them,
/// none already selected, none conflicting with another picked here.
fn pick_n(
    theme: &Theme,
    bucket: &IndexSet<String>,
    cat_name: &str,
    count: usize,
    max: usize,
    optional: bool,
    rng: &mut Lcg,
    selected: &Vec<(String, String)>,
) -> (r: Pick)
    ensures
        match r {
            Pick::Picked(p) => pick_n_spec(
                conflict_groups(*theme, cat_name@),
                set_items(*bucket),
                sel_values(sel_view(selected@)),
                count as nat,
                max as nat,
                optional,
                old(rng)@,
            ) == PickSpec::Picked(string_views(p@), final(rng)@),
            Pick::Empty => pick_n_spec(
                conflict_groups(*theme, cat_name@),
                set_items(*bucket),
                sel_values(sel_view(selected@)),
                count as nat,
                max as nat,
                optional,
                old(rng)@,
            ) is Empty,
            Pick::Panics => pick_n_spec(
                conflict_groups(*theme, cat_name@),
                set_items(*bucket),
                sel_values(sel_view(selected@)),
                count as nat,
                max as nat,
                optional,
                old(rng)@,
            ) is Panics,
        },
{
    let ghost groups = conflict_groups(*theme, cat_name@);
    let ghost b = set_items(*bucket);
    let ghost taken = sel_values(sel_view(selected@));
    let len = set_len(bucket);
    let wanted = if count >= max {
        count
    } else {
        max
    };
    let upper = if wanted <= len {
        wanted
    } else {
        len
    };
    if upper == 0 {
        if optional {
            let none: Vec<String> = Vec::new();
            assert(string_views(none@) =~= Seq::<Seq<char>>::empty());
            return Pick::Picked(none);
        }
        return Pick::Empty;
    }
    if upper < count || upper - count == usize::MAX {
        return Pick::Panics;
    }
    let extra = rng.gen_range(upper - count + 1);
    let n_pick = count + extra;
    if n_pick > (usize::MAX - 64) / 32 {
        assert(n_pick * 32 + 64 > usize::MAX) by (nonlinear_arith)
            requires
                n_pick > (usize::MAX - 64) / 32,
        ;
        return Pick::Panics;
    }
    assert(n_pick * 32 + 64 <= usize::MAX) by (nonlinear_arith)
        requires
            n_pick <= (usize::MAX - 64) / 32,
    ;
    let max_attempts = n_pick * 32 + 64;
    let ghost start = rng@;
    let mut picked: Vec<String> = Vec::new();
    let mut attempts: usize = 0;
    assert(string_views(picked@) =~= Seq::<Seq<char>>::empty());
    while picked.len() < n_pick && attempts < max_attempts
        invariant
            attempts <= max_attempts,
            len == b.len(),
            b == set_items(*bucket),
            groups == conflict_groups(*theme, cat_name@),
            taken == sel_values(sel_view(selected@)),
            pick_loop(groups, b, taken, Seq::empty(), n_pick as nat, max_attempts as nat, start)
                == pick_loop(
                groups,
                b,
                taken,
                string_views(picked@),
                n_pick as nat,
                (max_attempts - attempts) as nat,
                rng@,
            ),
        ensures
            pick_loop(groups, b, taken, Seq::empty(), n_pick as nat, max_attempts as nat, start) == (
                string_views(picked@),
                rng@,
            ),
        decreases max_attempts - attempts,
    {
        attempts = attempts + 1;
        let k = rng.gen_range(len);
        let got = set_get_index(bucket, k);
        if got.is_none() {
            break;
        }
        let item = got.unwrap().clone();
        if !selected_has(selected, item.as_str()) && !list_has(&picked, item.as_str())
            && !violates_conflict(theme, cat_name, item.as_str(), &picked) {
            let ghost before = picked@;
            picked.push(item);
            assert(string_views(picked@) =~= string_views(before).push(item@));
        }
    }
    if picked.len() < count && !optional {
        return Pick::Empty;
    }
    Pick::Picked(picked)
}

/// A composition that has ended stays ended through further required
/// categories.
proof fn lemma_required_from_ended(
    t: Theme,
    store: Seq<(Seq<char>, Seq<Seq<char>>)>,
    cats: Seq<(String, CategoryRef)>,
    start: ComposeState,
)
    requires
        !(start is Going),
    ensures
        required_steps(t, store, cats, start) == start,
    decreases cats.len(),
{
    if cats.len() > 0 {
        lemma_required_from_ended(t, store, cats.drop_last(), start);
    }
}

/// A composition that has ended stays ended through further optional
/// categories.
proof fn lemma_optional_from_ended(
    t: Theme,
    store: Seq<(Seq<char>, Seq<Seq<char>>)>,
    cats: Seq<(String, OptionalCategoryRef)>,
    start: ComposeState,
)
    requires
        !(start is Going),
    ensures
        optional_steps(t, store, cats, start) == start,
    decreases cats.len(),
{
    if cats.len() > 0 {
        lemma_optional_from_ended(t, store, cats.drop_last(), start);
    }
}

/// Ending within the first `n` required categories ends the whole run there.
proof fn lemma_required_ended_prefix(
    t: Theme,
    store: Seq<(Seq<char>, Seq<Seq<char>>)>,
    cats: Seq<(String, CategoryRef)>,
    start: ComposeState,
    n: int,
)
    requires
        0 <= n <= cats.len(),
        !(required_steps(t, store, cats.subrange(0, n), start) is Going),
    ensures
        required_steps(t, store, cats, start) == required_steps(t, store, cats.subrange(0, n), start),
    decreases cats.len() - n,
{
    if n < cats.len() {
        assert(cats.subrange(0, n + 1).drop_last() =~= cats.subrange(0, n));
        lemma_required_ended_prefix(t, store, cats, start, n + 1);
    } else {
        assert(cats.subrange(0, n) =~= cats);
    }
}

/// Ending within the first `n` optional categories ends the whole run there.
proof fn lemma_optional_ended_prefix(
    t: Theme,
    store: Seq<(Seq<char>, Seq<Seq<char>>)>,
    cats: Seq<(String, OptionalCategoryRef)>,
    start: ComposeState,
    n: int,
)
    requires
        0 <= n <= cats.len(),
        !(optional_steps(t, store, cats.subrange(0, n), start) is Going),
    ensures
        optional_steps(t, store, cats, start) == optional_steps(t, store, cats.subrange(0, n), start),
    decreases cats.len() - n,
{
    if n < cats.len() {
        assert(cats.subrange(0, n + 1).drop_last() =~= cats.subrange(0, n));
        lemma_optional_ended_prefix(t, store, cats, start, n + 1);
    } else {
        assert(cats.subrange(0, n) =~= cats);
    }
}

/// Appends the picked tags to `selected`, each paired with `name`.
fn push_picked(selected: &mut Vec<(String, String)>, name: &String, picked: &Vec<String>)
    ensures
        sel_view(final(selected)@) == sel_view(old(selected)@) + tagged(name@, string_views(picked@)),
{
    let ghost base = sel_view(selected@);
    let mut q: usize = 0;
    while q < picked.len()
        invariant
            q <= picked@.len(),
            sel_view(selected@) == base + tagged(name@, string_views(picked@).subrange(0, q as int)),
        decreases picked@.len() - q,
    {
        let ghost before = sel_view(selected@);
        selected.push((name.clone(), picked[q].clone()));
        assert(string_views(picked@).subrange(0, q + 1) =~= string_views(picked@).subrange(0, q as int).push(picked@[q as int]@));
        assert(sel_view(selected@) =~= before.push((name@, picked@[q as int]@)));
        assert(tagged(name@, string_views(picked@).subrange(0, q + 1)) =~= tagged(name@, string_views(picked@).subrange(0, q as int)).push((name@, picked@[q as int]@)));
        q = q + 1;
    }
    assert(string_views(picked@).subrange(0, picked@.len() as int) =~= string_views(picked@));
}

/// Draws one required category.
fn draw_required_one(
    theme: &Theme,
    store: &TagStore,
    entry: &(String, CategoryRef),
    rng: &mut Lcg,
    selected: &mut Vec<(String, String)>,
) -> (r: Result<Result<(), PromptError>, ()>)
    ensures
        match r {
            Ok(Ok(())) => required_step(*theme, store@, *entry, old(rng)@, sel_view(old(selected)@))
                == ComposeState::Going(final(rng)@, sel_view(final(selected)@)),
            Ok(Err(e)) => required_step(*theme, store@, *entry, old(rng)@, sel_view(old(selected)@))
                == ComposeState::Failed(e@),
            Err(()) => required_step(*theme, store@, *entry, old(rng)@, sel_view(old(selected)@)) is Panics,
        },
{
    reveal(required_step);
    let stem = match file_stem(entry.1.file.as_str()) {
        Some(s) => s,
        None => {
            return Ok(Err(PromptError::InvalidFile(entry.1.file.clone())));
        },
    };
    let bucket = match store.get(stem.as_str()) {
        Some(b) => b,
        None => {
            return Ok(Err(PromptError::UnknownCategory(entry.0.clone())));
        },
    };
    let max = match entry.1.max {
        Some(m) => m,
        None => entry.1.count,
    };
    match pick_n(theme, bucket, entry.0.as_str(), entry.1.count, max, false, rng, selected) {
        Pick::Picked(p) => {
            push_picked(selected, &entry.0, &p);
            Ok(Ok(()))
        },
        Pick::Empty => Ok(Err(PromptError::EmptyCategory(entry.0.clone()))),
        Pick::Panics => Err(()),
    }
}

/// Draws one optional category.
fn draw_optional_one(
    theme: &Theme,
    store: &TagStore,
    entry: &(String, OptionalCategoryRef),
    rng: &mut Lcg,
    selected: &mut Vec<(String, String)>,
) -> (r: Result<Result<(), PromptError>, ()>)
    ensures
        match r {
            Ok(Ok(())) => optional_step(*theme, store@, *entry, old(rng)@, sel_view(old(selected)@))
                == ComposeState::Going(final(rng)@, sel_view(final(selected)@)),
            Ok(Err(e)) => optional_step(*theme, store@, *entry, old(rng)@, sel_view(old(selected)@))
                == ComposeState::Failed(e@),
            Err(()) => optional_step(*theme, store@, *entry, old(rng)@, sel_view(old(selected)@)) is Panics,
        },
{
    reveal(optional_step);
    let stem = match file_stem(entry.1.file.as_str()) {
        Some(s) => s,
        None => {
            return Ok(Ok(()));
        },
    };
    let bucket = match store.get(stem.as_str()) {
        Some(b) => b,
        None => {
            return Ok(Ok(()));
        },
    };
    let draw = rng.next_u32();
    if draw as u64 >= entry.1.draw_limit {
        return Ok(Ok(()));
    }
    match pick_n(theme, bucket, entry.0.as_str(), entry.1.count, entry.1.count, true, rng, selected) {
        Pick::Picked(p) => {
            push_picked(selected, &entry.0, &p);
            Ok(Ok(()))
        },
        Pick::Empty => Ok(Err(PromptError::EmptyCategory(entry.0.clone()))),
        Pick::Panics => Err(()),
    }
}

/// Draws the required categories `cats` in order.
fn draw_required(
    theme: &Theme,
    store: &TagStore,
    cats: &Vec<(String, CategoryRef)>,
    rng: &mut Lcg,
    selected: &mut Vec<(String, String)>,
) -> (r: Result<Result<(), PromptError>, ()>)
    ensures
        match r {
            Ok(Ok(())) => required_steps(*theme, store@, cats@, ComposeState::Going(old(rng)@, sel_view(old(selected)@)))
                == ComposeState::Going(final(rng)@, sel_view(final(selected)@)),
            Ok(Err(e)) => required_steps(*theme, store@, cats@, ComposeState::Going(old(rng)@, sel_view(old(selected)@)))
                == ComposeState::Failed(e@),
            Err(()) => required_steps(*theme, store@, cats@, ComposeState::Going(old(rng)@, sel_view(old(selected)@))) is Panics,
        },
{
    let ghost start = ComposeState::Going(rng@, sel_view(selected@));
    let mut i: usize = 0;
    while i < cats.len()
        invariant
            i <= cats@.len(),
            start == ComposeState::Going(old(rng)@, sel_view(old(selected)@)),
            required_steps(*theme, store@, cats@.subrange(0, i as int), start) == ComposeState::Going(rng@, sel_view(selected@)),
        decreases cats@.len() - i,
    {
        assert(cats@.subrange(0, i + 1).drop_last() =~= cats@.subrange(0, i as int));
        assert(cats@.subrange(0, i + 1).last() == cats@[i as int]);
        match draw_required_one(theme, store, &cats[i], rng, selected) {
            Ok(Ok(())) => {},
            Ok(Err(e)) => {
                proof {
                    lemma_required_ended_prefix(*theme, store@, cats@, start, i + 1);
                }
                return Ok(Err(e));
            },
            Err(()) => {
                proof {
                    lemma_required_ended_prefix(*theme, store@, cats@, start, i + 1);
                }
                return Err(());
            },
        }
        i = i + 1;
    }
    assert(cats@.subrange(0, cats@.len() as int) =~= cats@);
    Ok(Ok(()))
}

/// Draws the optional categories `cats` in order.
fn draw_optional(
    theme: &Theme,
    store: &TagStore,
    cats: &Vec<(String, OptionalCategoryRef)>,
    rng: &mut Lcg,
    selected: &mut Vec<(String, String)>,
) -> (r: Result<Result<(), PromptError>, ()>)
    ensures
        match r {
            Ok(Ok(())) => optional_steps(*theme, store@, cats@, ComposeState::Going(old(rng)@, sel_view(old(selected)@)))
                == ComposeState::Going(final(rng)@, sel_view(final(selected)@)),
            Ok(Err(e)) => optional_steps(*theme, store@, cats@, ComposeState::Going(old(rng)@, sel_view(old(selected)@)))
                == ComposeState::Failed(e@),
            Err(()) => optional_steps(*theme, store@, cats@, ComposeState::Going(old(rng)@, sel_view(old(selected)@))) is Panics,
        },
{
    let ghost start = ComposeState::Going(rng@, sel_view(selected@));
    let mut i: usize = 0;
    while i < cats.len()
        invariant
            i <= cats@.len(),
            start == ComposeState::Going(old(rng)@, sel_view(old(selected)@)),
            optional_steps(*theme, store@, cats@.subrange(0, i as int), start) == ComposeState::Going(rng@, sel_view(selected@)),
        decreases cats@.len() - i,
    {
        assert(cats@.subrange(0, i + 1).drop_last() =~= cats@.subrange(0, i as int));
        assert(cats@.subrange(0, i + 1).last() == cats@[i as int]);
        match draw_optional_one(theme, store, &cats[i], rng, selected) {
            Ok(Ok(())) => {},
            Ok(Err(e)) => {
                proof {
                    lemma_optional_ended_prefix(*theme, store@, cats@, start, i + 1);
                }
                return Ok(Err(e));
            },
            Err(()) => {
                proof {
                    lemma_optional_ended_prefix(*theme, store@, cats@, start, i + 1);
                }
                return Err(());
            },
        }
        i = i + 1;
    }
    assert(cats@.subrange(0, cats@.len() as int) =~= cats@);
    Ok(Ok(()))
}

/// The tags of the selected pairs, in order.
fn selected_tags(selected: &Vec<(String, String)>) -> (r: Vec<String>)
    ensures
        string_views(r@) == sel_values(sel_view(selected@)),
{
    let mut out: Vec<String> = Vec::new();
    let mut i: usize = 0;
    while i < selected.len()
        invariant
            i <= selected@.len(),
            string_views(out@) == sel_values(sel_view(selected@)).subrange(0, i as int),
        decreases selected@.len() - i,
    {
        let ghost before = out@;
        out.push(selected[i].1.clone());
        assert(string_views(out@) =~= string_views(before).push(selected@[i as int].1@));
        assert(sel_values(sel_view(selected@)).subrange(0, i + 1) =~= sel_values(sel_view(selected@)).subrange(0, i as int).push(selected@[i as int].1@));
        i = i + 1;
    }
    assert(sel_values(sel_view(selected@)).subrange(0, selected@.len() as int) =~= sel_values(sel_view(selected@)));
    out
}

fn combine_inner(ctx: &CombineContext, pool: &LangAwarePool) -> (r: Result<Result<CombineOutput, PromptError>, ()>)
    ensures
        match r {
            Ok(Ok(out)) => combine_spec(*ctx, pool@) == CombineSpec::Done(out.prompt@, sel_view(out.selected@)),
            Ok(Err(e)) => combine_spec(*ctx, pool@) == CombineSpec::Failed(e@),
            Err(()) => combine_spec(*ctx, pool@) is Panics,
        },
{
    let store = match pool.get(ctx.lang) {
        Some(s) => s,
        None => {
            return Ok(Err(PromptError::UnknownLang(owned(ctx.lang.as_str()))));
        },
    };
    let t = &ctx.theme;
    let mut rng = Lcg::new(ctx.seed);
    let mut selected: Vec<(String, String)> = Vec::new();
    let ghost s0 = ComposeState::Going(rng@, sel_view(selected@));
    assert(sel_view(selected@) =~= Seq::<(Seq<char>, Seq<char>)>::empty());
    let ghost s1 = required_steps(*t, store@, t.order.fixed@, s0);
    match draw_required(t, store, &t.order.fixed, &mut rng, &mut selected) {
        Ok(Ok(())) => {},
        Ok(Err(e)) => {
            proof {
                lemma_required_from_ended(*t, store@, t.order.random@, s1);
                lemma_optional_from_ended(*t, store@, t.order.optional@, s1);
            }
            return Ok(Err(e));
        },
        Err(()) => {
            proof {
                lemma_required_from_ended(*t, store@, t.order.random@, s1);
                lemma_optional_from_ended(*t, store@, t.order.optional@, s1);
            }
            return Err(());
        },
    }
    let ghost s2 = required_steps(*t, store@, t.order.random@, s1);
    match draw_required(t, store, &t.order.random, &mut rng, &mut selected) {
        Ok(Ok(())) => {},
        Ok(Err(e)) => {
            proof {
                lemma_optional_from_ended(*t, store@, t.order.optional@, s2);
            }
            return Ok(Err(e));
        },
        Err(()) => {
            proof {
                lemma_optional_from_ended(*t, store@, t.order.optional@, s2);
            }
            return Err(());
        },
    }
    match draw_optional(t, store, &t.order.optional, &mut rng, &mut selected) {
        Ok(Ok(())) => {},
        Ok(Err(e)) => {
            return Ok(Err(e));
        },
        Err(()) => {
            return Err(());
        },
    }
    let ghost all = sel_view(selected@);
    if selected.len() > t.generation.max_elements {
        selected.truncate(t.generation.max_elements);
        assert(sel_view(selected@) =~= all.subrange(0, t.generation.max_elements as int));
    }
    let items = selected_tags(&selected);
    let joined = ctx.strategy.join(items.as_slice());
    let prompt = take_chars(joined.as_str(), ctx.max_length);
    Ok(Ok(CombineOutput { prompt, selected }))
}

/// Whether composing from `ctx` and `pool` would overflow the draw
/// arithmetic (a category whose bucket holds fewer tags than its count, but
/// some); `combine` is not defined there.
pub fn combine_would_panic(ctx: &CombineContext, pool: &LangAwarePool) -> (r: bool)
    ensures
        r == (combine_spec(*ctx, pool@) is Panics),
{
    match combine_inner(ctx, pool) {
        Ok(_) => false,
        Err(()) => true,
    }
}

/// Composes a prompt: draws the fixed, random and optional categories of
/// the theme from the pool of `ctx.lang` with a generator seeded by
/// `ctx.seed`, keeps at most `max_elements` tags, joins them with the
/// strategy and keeps the first `ctx.max_length` characters.
pub fn combine(ctx: &CombineContext, pool: &LangAwarePool) -> (r: Result<CombineOutput, PromptError>)
    requires
        !(combine_spec(*ctx, pool@) is Panics),
    ensures
        r matches Ok(out) ==> combine_spec(*ctx, pool@) == CombineSpec::Done(out.prompt@, sel_view(out.selected@)),
        r matches Err(e) ==> combine_spec(*ctx, pool@) == CombineSpec::Failed(e@),
{
    match combine_inner(ctx, pool) {
        Ok(r) => r,
        Err(()) => {
            assert(false);
            Err(PromptError::UnknownLang(String::new()))
        },
    }
}

/// The stem of a tag file path (`Path::file_stem`), naming its category.
pub fn stem_from_file(file: &str) -> (r: Option<String>)
    ensures
        match r {
            Some(s) => file_stem_spec(file@) == Some(s@),
            None => file_stem_spec(file@) is None,
        },
{
    file_stem(file)
}

} // verus!
