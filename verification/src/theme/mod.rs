//! Themes: which tag categories a prompt draws from, how many tags each
//! gives, which tags may not stand together, and the limits of a prompt.

use vstd::prelude::*;

use crate::paths::{join_path, join_path_spec};
use crate::text::{decimal_spec, decimal_u64, owned, push_all, str_eq, trim, trim_spec};

verus! {

/// Why a theme could not be used.
#[derive(Debug)]
pub enum ThemeError {
    /// The theme file could not be read; the reason.
    Io(String),
    /// The theme file is not a valid theme document; the reason.
    Parse(String),
    /// No theme file has this id.
    NotFound(String),
    /// A field has a value the theme rules refuse.
    Invalid { field: String, reason: String },
}

/// The plain content of a `ThemeError`.
pub enum ThemeErrorView {
    Io(Seq<char>),
    Parse(Seq<char>),
    NotFound(Seq<char>),
    Invalid { field: Seq<char>, reason: Seq<char> },
}

impl View for ThemeError {
    type V = ThemeErrorView;

    open spec fn view(&self) -> ThemeErrorView {
        match self {
            ThemeError::Io(s) => ThemeErrorView::Io(s@),
            ThemeError::Parse(s) => ThemeErrorView::Parse(s@),
            ThemeError::NotFound(s) => ThemeErrorView::NotFound(s@),
            ThemeError::Invalid { field, reason } => ThemeErrorView::Invalid { field: field@, reason: reason@ },
        }
    }
}

/// Identity of a theme.
#[derive(Debug, Clone)]
pub struct ThemeMeta {
    pub id: String,
    pub name: String,
    pub description: String,
    /// `zh`, `en` or `mixed`.
    pub lang: String,
    pub version: String,
}

/// A required category: its tag file and how many tags it gives
/// (`count`, up to `max` when set).
#[derive(Debug, Clone)]
pub struct CategoryRef {
    pub file: String,
    pub count: usize,
    pub max: Option<usize>,
}

/// A category that is used only when the generator's draw allows it.
///
/// The category is used when the generator's 32-bit draw is below
/// `draw_limit`, which lies in `0..=2^32`: a probability of 0 gives 0 (never
/// used), and a probability `p` above 0 gives the number of draws `d` whose
/// ratio `d / u32::MAX`, computed in `f32`, is at most `p` (1 gives `2^32`,
/// always used).
#[derive(Debug, Clone)]
pub struct OptionalCategoryRef {
    pub file: String,
    pub draw_limit: u64,
    pub count: usize,
}

/// The categories of a theme, each named, in the order they are drawn.
#[derive(Debug, Clone)]
pub struct OrderSections {
    pub fixed: Vec<(String, CategoryRef)>,
    pub random: Vec<(String, CategoryRef)>,
    pub optional: Vec<(String, OptionalCategoryRef)>,
}

impl Default for OrderSections {
    fn default() -> (r: OrderSections)
        ensures
            r.fixed@.len() == 0,
            r.random@.len() == 0,
            r.optional@.len() == 0,
    {
        OrderSections { fixed: Vec::new(), random: Vec::new(), optional: Vec::new() }
    }
}

/// Per category, groups of tags of which at most one may be drawn.
#[derive(Debug, Clone)]
pub struct Compatibility {
    pub conflicts: Vec<(String, Vec<Vec<String>>)>,
}

impl Default for Compatibility {
    fn default() -> (r: Compatibility)
        ensures
            r.conflicts@.len() == 0,
    {
        Compatibility { conflicts: Vec::new() }
    }
}

/// Limits of a composed prompt.
#[derive(Debug, Clone)]
pub struct GenerationOptions {
    /// At most this many tags are kept.
    pub max_elements: usize,
    /// Default limit, in UTF-8 bytes, of the prompt text.
    pub max_length: usize,
}

impl Default for GenerationOptions {
    fn default() -> (r: GenerationOptions)
        ensures
            r.max_elements == 30,
            r.max_length == 800,
    {
        GenerationOptions { max_elements: 30, max_length: 800 }
    }
}

/// A theme.
#[derive(Debug, Clone)]
pub struct Theme {
    pub meta: ThemeMeta,
    pub order: OrderSections,
    pub compatibility: Compatibility,
    pub generation: GenerationOptions,
}

/// The languages a theme may declare.
pub open spec fn theme_lang_ok(l: Seq<char>) -> bool {
    l == "zh"@ || l == "en"@ || l == "mixed"@
}

/// What is wrong with one required category, if anything: a zero count, or a
/// `max` below the count.
pub open spec fn category_problem(name: Seq<char>, c: CategoryRef) -> Option<ThemeErrorView> {
    if c.count == 0 {
        Some(
            ThemeErrorView::Invalid {
                field: "order."@ + name + ".count"@,
                reason: "must be > 0 for fixed/random"@,
            },
        )
    } else {
        match c.max {
            Some(m) => if m < c.count {
                Some(
                    ThemeErrorView::Invalid {
                        field: "order."@ + name + ".max"@,
                        reason: "max ("@ + decimal_spec(m as nat) + ") must be >= count ("@
                            + decimal_spec(c.count as nat) + ")"@,
                    },
                )
            } else {
                None
            },
            None => None,
        }
    }
}

/// The problem of the first faulty category, in order.
pub open spec fn first_category_problem(cats: Seq<(String, CategoryRef)>) -> Option<ThemeErrorView>
    decreases cats.len(),
{
    if cats.len() == 0 {
        None
    } else {
        match first_category_problem(cats.drop_last()) {
            Some(e) => Some(e),
            None => category_problem(cats.last().0@, cats.last().1),
        }
    }
}

/// No name occurs twice among the entries (what the keys of a map give).
pub open spec fn names_unique<V>(t: Seq<(String, V)>) -> bool {
    forall|i: int, j: int| 0 <= i < j < t.len() ==> t[i].0@ != t[j].0@
}

/// Each table of a theme names each category at most once: the fixed, the
/// random and the optional categories, and the conflict lists.
pub open spec fn theme_tables_ok(t: Theme) -> bool {
    &&& names_unique(t.order.fixed@)
    &&& names_unique(t.order.random@)
    &&& names_unique(t.order.optional@)
    &&& names_unique(t.compatibility.conflicts@)
}

/// The first rule a theme breaks, if any: the language, then the id, then
/// the required categories (fixed ones first), then a name given twice in
/// one table.
pub open spec fn theme_problem(t: Theme) -> Option<ThemeErrorView> {
    if !theme_lang_ok(t.meta.lang@) {
        Some(
            ThemeErrorView::Invalid {
                field: "meta.lang"@,
                reason: "must be zh|en|mixed, got "@ + t.meta.lang@,
            },
        )
    } else if trim_spec(t.meta.id@).len() == 0 {
        Some(ThemeErrorView::Invalid { field: "meta.id"@, reason: "must not be empty"@ })
    } else if first_category_problem(t.order.fixed@ + t.order.random@) is Some {
        first_category_problem(t.order.fixed@ + t.order.random@)
    } else if !theme_tables_ok(t) {
        Some(ThemeErrorView::Invalid { field: "order"@, reason: "a name occurs twice in one table"@ })
    } else {
        None
    }
}

/// Whether no name occurs twice among the entries.
fn unique_names<V>(t: &Vec<(String, V)>) -> (r: bool)
    ensures
        r == names_unique(t@),
{
    let mut i: usize = 0;
    while i < t.len()
        invariant
            i <= t@.len(),
            forall|a: int, b: int| 0 <= a < b < t@.len() && a < i ==> t@[a].0@ != t@[b].0@,
        decreases t@.len() - i,
    {
        let mut j: usize = i + 1;
        while j < t.len()
            invariant
                i < t@.len(),
                i + 1 <= j <= t@.len(),
                forall|a: int, b: int| 0 <= a < b < t@.len() && a < i ==> t@[a].0@ != t@[b].0@,
                forall|b: int| i < b < j ==> t@[i as int].0@ != t@[b].0@,
            decreases t@.len() - j,
        {
            if str_eq(t[i].0.as_str(), t[j].0.as_str()) {
                return false;
            }
            j = j + 1;
        }
        i = i + 1;
    }
    true
}

/// A category is refused exactly when its count is zero or its `max` is
/// below its count; a `max` equal to the count is accepted.
pub proof fn category_rule_law(name: Seq<char>, c: CategoryRef)
    ensures
        category_problem(name, c) is None <==> (c.count > 0 && (c.max matches Some(m) ==> m >= c.count)),
{
}

/// A theme whose language is accepted, whose id is not blank, whose fixed
/// and random categories each have a count above zero and no `max` below it,
/// and whose tables name no category twice, passes validation.
pub proof fn valid_theme_law(t: Theme)
    requires
        t.meta.lang@ == "zh"@ || t.meta.lang@ == "en"@ || t.meta.lang@ == "mixed"@,
        trim_spec(t.meta.id@).len() > 0,
        forall|i: int| 0 <= i < (t.order.fixed@ + t.order.random@).len() ==> {
            let c = #[trigger] (t.order.fixed@ + t.order.random@)[i].1;
            c.count > 0 && (c.max matches Some(m) ==> m >= c.count)
        },
        theme_tables_ok(t),
    ensures
        theme_problem(t) is None,
{
    lemma_no_category_problem(t.order.fixed@ + t.order.random@);
}

proof fn lemma_no_category_problem(cats: Seq<(String, CategoryRef)>)
    requires
        forall|i: int| 0 <= i < cats.len() ==> {
            let c = #[trigger] cats[i].1;
            c.count > 0 && (c.max matches Some(m) ==> m >= c.count)
        },
    ensures
        first_category_problem(cats) is None,
    decreases cats.len(),
{
    if cats.len() > 0 {
        let pre = cats.drop_last();
        assert forall|i: int| 0 <= i < pre.len() implies {
            let c = #[trigger] pre[i].1;
            c.count > 0 && (c.max matches Some(m) ==> m >= c.count)
        } by {
            assert(pre[i] == cats[i]);
        }
        lemma_no_category_problem(pre);
        assert(cats.last() == cats[cats.len() - 1]);
    }
}

fn invalid(field: String, reason: String) -> (r: ThemeError)
    ensures
        r@ == (ThemeErrorView::Invalid { field: field@, reason: reason@ }),
{
    ThemeError::Invalid { field, reason }
}

fn check_category(name: &str, c: &CategoryRef) -> (r: Option<ThemeError>)
    ensures
        match r {
            Some(e) => category_problem(name@, *c) == Some(e@),
            None => category_problem(name@, *c) is None,
        },
{
    if c.count == 0 {
        let mut field = owned("order.");
        push_all(&mut field, name);
        push_all(&mut field, ".count");
        return Some(invalid(field, owned("must be > 0 for fixed/random")));
    }
    match c.max {
        Some(m) => {
            if m < c.count {
                let mut field = owned("order.");
                push_all(&mut field, name);
                push_all(&mut field, ".max");
                let mut reason = owned("max (");
                push_all(&mut reason, decimal_u64(m as u64).as_str());
                push_all(&mut reason, ") must be >= count (");
                push_all(&mut reason, decimal_u64(c.count as u64).as_str());
                push_all(&mut reason, ")");
                Some(invalid(field, reason))
            } else {
                None
            }
        },
        None => None,
    }
}

impl Theme {
    /// Checks the theme rules, in order: the language is `zh`, `en` or
    /// `mixed`; the id is not blank; each fixed, then each random category has
    /// a count above zero and a `max`, when set, not below it; no table names
    /// a category twice.
    pub fn validate(&self) -> (r: Result<(), ThemeError>)
        ensures
            r is Ok <==> theme_problem(*self) is None,
            r matches Err(e) ==> theme_problem(*self) == Some(e@),
            r is Ok ==> theme_tables_ok(*self),
    {
        let lang = self.meta.lang.as_str();
        if !(str_eq(lang, "zh") || str_eq(lang, "en") || str_eq(lang, "mixed")) {
            let mut reason = owned("must be zh|en|mixed, got ");
            push_all(&mut reason, lang);
            return Err(invalid(owned("meta.lang"), reason));
        }
        let id = trim(self.meta.id.as_str());
        if id.as_str().is_empty() {
            return Err(invalid(owned("meta.id"), owned("must not be empty")));
        }
        let ghost fixed = self.order.fixed@;
        let ghost random = self.order.random@;
        let mut i: usize = 0;
        while i < self.order.fixed.len()
            invariant
                i <= fixed.len(),
                fixed == self.order.fixed@,
                random == self.order.random@,
                theme_lang_ok(self.meta.lang@),
                trim_spec(self.meta.id@).len() > 0,
                first_category_problem(fixed.subrange(0, i as int)) is None,
            decreases fixed.len() - i,
        {
            assert(fixed.subrange(0, i + 1).drop_last() =~= fixed.subrange(0, i as int));
            let entry = &self.order.fixed[i];
            if let Some(e) = check_category(entry.0.as_str(), &entry.1) {
                proof {
                    assert((fixed + random).subrange(0, i + 1) =~= fixed.subrange(0, i + 1));
                    lemma_first_problem_prefix(fixed + random, i as int);
                }
                return Err(e);
            }
            i = i + 1;
        }
        assert(fixed.subrange(0, fixed.len() as int) =~= fixed);
        let mut j: usize = 0;
        while j < self.order.random.len()
            invariant
                j <= random.len(),
                fixed == self.order.fixed@,
                random == self.order.random@,
                theme_lang_ok(self.meta.lang@),
                trim_spec(self.meta.id@).len() > 0,
                first_category_problem(fixed + random.subrange(0, j as int)) is None,
            decreases random.len() - j,
        {
            assert((fixed + random.subrange(0, j + 1)).drop_last() =~= fixed + random.subrange(0, j as int));
            let entry = &self.order.random[j];
            if let Some(e) = check_category(entry.0.as_str(), &entry.1) {
                proof {
                    assert((fixed + random).subrange(0, fixed.len() + j + 1) =~= fixed + random.subrange(0, j + 1));
                    lemma_first_problem_prefix(fixed + random, fixed.len() + j);
                }
                return Err(e);
            }
            j = j + 1;
        }
        assert(random.subrange(0, random.len() as int) =~= random);
        assert(fixed + random.subrange(0, random.len() as int) =~= fixed + random);
        if !(unique_names(&self.order.fixed) && unique_names(&self.order.random) && unique_names(&self.order.optional)
            && unique_names(&self.compatibility.conflicts)) {
            return Err(invalid(owned("order"), owned("a name occurs twice in one table")));
        }
        Ok(())
    }
}

/// A problem found in a prefix is the problem of the whole sequence.
proof fn lemma_first_problem_prefix(cats: Seq<(String, CategoryRef)>, i: int)
    requires
        0 <= i < cats.len(),
        first_category_problem(cats.subrange(0, i + 1)) is Some,
    ensures
        first_category_problem(cats) == first_category_problem(cats.subrange(0, i + 1)),
    decreases cats.len() - i,
{
    if i + 1 < cats.len() {
        assert(cats.subrange(0, i + 2).drop_last() =~= cats.subrange(0, i + 1));
        lemma_first_problem_prefix(cats, i + 1);
    } else {
        assert(cats.subrange(0, i + 1) =~= cats);
    }
}

/// The file of theme `id`: `{themes_dir}/{id}.toml`.
pub fn theme_file(themes_dir: &str, id: &str) -> (r: String)
    ensures
        r@ == join_path_spec(themes_dir@, id@ + ".toml"@),
{
    let mut name = owned(id);
    push_all(&mut name, ".toml");
    join_path(themes_dir, name.as_str())
}

} // verus!
