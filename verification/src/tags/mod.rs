//! Tag pools: per language, per category, an ordered set of tags read from
//! plain text (one tag per line, blank lines and `#` comments skipped).

use indexmap::IndexSet;
use vstd::prelude::*;

use crate::paths::{extension_spec, file_extension, file_stem, file_stem_spec};
use crate::text::{lines, lines_spec, owned, str_eq, to_chars, trim, trim_law, trim_spec, views};

verus! {

#[verifier::external_type_specification]
#[verifier::external_body]
#[verifier::reject_recursive_types(T)]
#[verifier::reject_recursive_types(S)]
pub struct ExIndexSet<T, S>(IndexSet<T, S>);

/// The tags an `IndexSet` holds, in insertion order.
pub uninterp spec fn set_items(s: IndexSet<String>) -> Seq<Seq<char>>;

/// `IndexSet::new`: an empty set.
#[verifier::external_body]
fn set_new() -> (r: IndexSet<String>)
    ensures
        set_items(r) == Seq::<Seq<char>>::empty(),
{
    IndexSet::new()
}

/// `IndexSet::insert`: a tag already present leaves the set and its order
/// unchanged and gives `false`; a new tag goes last and gives `true`.
#[verifier::external_body]
fn set_insert(s: &mut IndexSet<String>, v: String) -> (r: bool)
    ensures
        set_items(*old(s)).contains(v@) ==> !r && set_items(*final(s)) == set_items(*old(s)),
        !set_items(*old(s)).contains(v@) ==> r && set_items(*final(s)) == set_items(*old(s)).push(v@),
{
    s.insert(v)
}

/// `IndexSet::len`.
#[verifier::external_body]
pub fn set_len(s: &IndexSet<String>) -> (r: usize)
    ensures
        r == set_items(*s).len(),
{
    s.len()
}

/// `IndexSet::get_index`: the tag at a position, if there is one.
#[verifier::external_body]
pub fn set_get_index(s: &IndexSet<String>, i: usize) -> (r: Option<&String>)
    ensures
        r is Some == (i < set_items(*s).len()),
        r matches Some(x) ==> x@ == set_items(*s)[i as int],
{
    s.get_index(i)
}

/// Languages of the tag directories.
#[derive(Debug, Clone, Copy, PartialEq, Eq, Structural)]
pub enum Lang {
    Zh,
    En,
}

/// The directory name of a language.
pub open spec fn lang_name(l: Lang) -> Seq<char> {
    match l {
        Lang::Zh => "zh"@,
        Lang::En => "en"@,
    }
}

impl Lang {
    /// `zh` or `en`.
    pub fn as_str(&self) -> (r: &'static str)
        ensures
            r@ == lang_name(*self),
    {
        match self {
            Lang::Zh => "zh",
            Lang::En => "en",
        }
    }

    /// Reads `zh` or `en`.
    pub fn parse(s: &str) -> (r: Option<Lang>)
        ensures
            s@ == "zh"@ <==> r == Some(Lang::Zh),
            s@ == "en"@ <==> r == Some(Lang::En),
            r is None <==> (s@ != "zh"@ && s@ != "en"@),
    {
        proof {
            reveal_strlit("zh");
            reveal_strlit("en");
            assert("zh"@[0] != "en"@[0]);
        }
        if str_eq(s, "zh") {
            Some(Lang::Zh)
        } else if str_eq(s, "en") {
            Some(Lang::En)
        } else {
            None
        }
    }
}

/// Why tags could not be loaded.
#[derive(Debug)]
pub enum TagsError {
    /// A tag file could not be read; its path and the reason.
    Io { path: String, reason: String },
    /// The tag directory of a language does not exist.
    DirNotFound(String),
}

/// A line of a tag file is a tag unless it is blank or a `#` comment.
pub open spec fn is_tag_line(t: Seq<char>) -> bool {
    t.len() > 0 && t[0] != '#'
}

/// The tags a text lists, in order: its trimmed lines, blank lines and
/// comments skipped.
pub open spec fn tag_lines_spec(text: Seq<char>) -> Seq<Seq<char>> {
    lines_spec(text).map_values(|l: Seq<char>| trim_spec(l)).filter(|t: Seq<char>| is_tag_line(t))
}

/// The tags of a text are exactly its trimmed lines that are neither blank
/// nor `#` comments: each listed tag is such a line, trimmed (so it has no
/// surrounding whitespace), and each such line is listed.
pub proof fn tag_lines_law(text: Seq<char>)
    ensures
        forall|k: int| 0 <= k < tag_lines_spec(text).len() ==> {
            let t = #[trigger] tag_lines_spec(text)[k];
            &&& t.len() > 0
            &&& t[0] != '#'
            &&& trim_spec(t) == t
            &&& exists|i: int| 0 <= i < lines_spec(text).len() && trim_spec(#[trigger] lines_spec(text)[i]) == t
        },
        forall|i: int|
            0 <= i < lines_spec(text).len() && is_tag_line(trim_spec(#[trigger] lines_spec(text)[i]))
                ==> tag_lines_spec(text).contains(trim_spec(lines_spec(text)[i])),
{
    let trimmed = lines_spec(text).map_values(|l: Seq<char>| trim_spec(l));
    let pred = |t: Seq<char>| is_tag_line(t);
    trimmed.filter_lemma(pred);
    assert forall|k: int| 0 <= k < tag_lines_spec(text).len() implies {
        let t = #[trigger] tag_lines_spec(text)[k];
        &&& t.len() > 0
        &&& t[0] != '#'
        &&& trim_spec(t) == t
        &&& exists|i: int| 0 <= i < lines_spec(text).len() && trim_spec(#[trigger] lines_spec(text)[i]) == t
    } by {
        let t = tag_lines_spec(text)[k];
        assert(pred(t));
        assert(trimmed.filter(pred).contains(t));
        trimmed.lemma_filter_contains_rev(pred, t);
        assert(trimmed.contains(t));
        let i = choose|i: int| 0 <= i < trimmed.len() && trimmed[i] == t;
        assert(trimmed[i] == trim_spec(lines_spec(text)[i]));
        trim_law(lines_spec(text)[i]);
    }
    assert forall|i: int|
        0 <= i < lines_spec(text).len() && is_tag_line(trim_spec(#[trigger] lines_spec(text)[i]))
            implies tag_lines_spec(text).contains(trim_spec(lines_spec(text)[i])) by {
        assert(trimmed[i] == trim_spec(lines_spec(text)[i]));
        assert(pred(trimmed[i]));
    }
}

/// `items` followed by each of `more` that is not already there, in order.
pub open spec fn append_new(items: Seq<Seq<char>>, more: Seq<Seq<char>>) -> Seq<Seq<char>>
    decreases more.len(),
{
    if more.len() == 0 {
        items
    } else {
        let base = append_new(items, more.drop_last());
        if base.contains(more.last()) {
            base
        } else {
            base.push(more.last())
        }
    }
}

/// The tags of a text, trimmed, skipping blank lines and `#` comments.
pub fn tag_lines(text: &str) -> (r: Vec<String>)
    ensures
        r@.map_values(|s: String| s@) == tag_lines_spec(text@),
{
    let cs = to_chars(text);
    let ls = lines(cs.as_slice());
    let ghost trimmed = lines_spec(text@).map_values(|l: Seq<char>| trim_spec(l));
    let mut out: Vec<String> = Vec::new();
    let mut i: usize = 0;
    assert(trimmed.subrange(0, 0).filter(|t: Seq<char>| is_tag_line(t)) =~= Seq::<Seq<char>>::empty()) by {
        reveal(Seq::filter);
    }
    while i < ls.len()
        invariant
            i <= ls@.len(),
            views(ls@) == lines_spec(text@),
            trimmed == lines_spec(text@).map_values(|l: Seq<char>| trim_spec(l)),
            out@.map_values(|s: String| s@) == trimmed.subrange(0, i as int).filter(
                |t: Seq<char>| is_tag_line(t),
            ),
        decreases ls@.len() - i,
    {
        let line = crate::text::from_chars(ls[i].as_slice());
        let t = trim(line.as_str());
        let tc = to_chars(t.as_str());
        assert(trimmed[i as int] == t@);
        assert(trimmed.subrange(0, i + 1).drop_last() =~= trimmed.subrange(0, i as int));
        proof {
            reveal(Seq::filter);
            assert(trimmed.subrange(0, i as int).push(t@) =~= trimmed.subrange(0, i + 1));
            assert(trimmed.subrange(0, i + 1).last() == t@);
        }
        if tc.len() > 0 && tc[0] != '#' {
            let ghost before = out@;
            out.push(t);
            assert(out@.map_values(|s: String| s@) =~= before.map_values(|s: String| s@).push(tc@));
        }
        i = i + 1;
    }
    assert(trimmed.subrange(0, ls@.len() as int) =~= trimmed);
    out
}

/// Tags of one language, by category, each an ordered set.
#[derive(Debug, Clone)]
pub struct TagStore {
    by_category: Vec<(String, IndexSet<String>)>,
}

impl View for TagStore {
    type V = Seq<(Seq<char>, Seq<Seq<char>>)>;

    closed spec fn view(&self) -> Seq<(Seq<char>, Seq<Seq<char>>)> {
        self.by_category@.map_values(|e: (String, IndexSet<String>)| (e.0@, set_items(e.1)))
    }
}

/// Index of the first entry with key `k`.
pub open spec fn key_index<V>(entries: Seq<(Seq<char>, V)>, k: Seq<char>) -> Option<int>
    decreases entries.len(),
{
    if entries.len() == 0 {
        None
    } else {
        match key_index(entries.drop_last(), k) {
            Some(i) => Some(i),
            None => if entries.last().0 == k {
                Some(entries.len() - 1)
            } else {
                None
            },
        }
    }
}

/// The value under key `k`, if any.
pub open spec fn lookup<V>(entries: Seq<(Seq<char>, V)>, k: Seq<char>) -> Option<V> {
    match key_index(entries, k) {
        Some(i) => Some(entries[i].1),
        None => None,
    }
}

pub proof fn lemma_key_index_prefix<V>(entries: Seq<(Seq<char>, V)>, k: Seq<char>, n: int)
    requires
        0 <= n <= entries.len(),
        key_index(entries.subrange(0, n), k) is Some,
    ensures
        key_index(entries, k) == key_index(entries.subrange(0, n), k),
    decreases entries.len() - n,
{
    if n < entries.len() {
        assert(entries.subrange(0, n + 1).drop_last() =~= entries.subrange(0, n));
        lemma_key_index_prefix(entries, k, n + 1);
    } else {
        assert(entries.subrange(0, n) =~= entries);
    }
}

pub proof fn lemma_key_index_bounds<V>(entries: Seq<(Seq<char>, V)>, k: Seq<char>)
    ensures
        key_index(entries, k) matches Some(i) ==> 0 <= i < entries.len() && entries[i].0 == k
            && forall|j: int| 0 <= j < i ==> entries[j].0 != k,
        key_index(entries, k) is None ==> forall|j: int| 0 <= j < entries.len() ==> entries[j].0 != k,
    decreases entries.len(),
{
    if entries.len() > 0 {
        lemma_key_index_bounds(entries.drop_last(), k);
        assert forall|j: int| 0 <= j < entries.len() - 1 implies entries.drop_last()[j] == entries[j] by {}
    }
}

impl TagStore {
    /// A store with no categories.
    pub fn new() -> (r: TagStore)
        ensures
            r@ == Seq::<(Seq<char>, Seq<Seq<char>>)>::empty(),
    {
        let r = TagStore { by_category: Vec::new() };
        assert(r@ =~= Seq::<(Seq<char>, Seq<Seq<char>>)>::empty());
        r
    }

    fn find(&self, category: &str) -> (r: Option<usize>)
        ensures
            r matches Some(i) ==> key_index(self@, category@) == Some(i as int),
            r is None ==> key_index(self@, category@) is None,
    {
        let mut i: usize = 0;
        while i < self.by_category.len()
            invariant
                i <= self.by_category@.len(),
                key_index(self@.subrange(0, i as int), category@) is None,
            decreases self.by_category@.len() - i,
        {
            assert(self@.subrange(0, i + 1).drop_last() =~= self@.subrange(0, i as int));
            assert(self@[i as int].0 == self.by_category@[i as int].0@);
            if str_eq(self.by_category[i].0.as_str(), category) {
                proof {
                    lemma_key_index_prefix(self@, category@, i + 1);
                }
                return Some(i);
            }
            i = i + 1;
        }
        assert(self@.subrange(0, self@.len() as int) =~= self@);
        None
    }

    /// The tags of `category`, if the store has it.
    pub fn get(&self, category: &str) -> (r: Option<&IndexSet<String>>)
        ensures
            r matches Some(b) ==> lookup(self@, category@) == Some(set_items(*b)),
            r is None ==> lookup(self@, category@) is None,
    {
        match self.find(category) {
            Some(i) => {
                proof {
                    lemma_key_index_bounds(self@, category@);
                }
                Some(&self.by_category[i].1)
            },
            None => None,
        }
    }

    /// Adds the tags listed in `text` to `category` (creating it last if
    /// new): trimmed lines, blank lines and `#` comments skipped, tags already
    /// present ignored.
    pub fn load_text(&mut self, category: &str, text: &str)
        ensures
            lookup(final(self)@, category@) == Some(
                append_new(
                    match lookup(old(self)@, category@) {
                        Some(items) => items,
                        None => Seq::<Seq<char>>::empty(),
                    },
                    tag_lines_spec(text@),
                ),
            ),
            forall|k: Seq<char>| k != category@ ==> lookup(final(self)@, k) == lookup(old(self)@, k),
    {
        let idx = match self.find(category) {
            Some(i) => i,
            None => {
                let ghost before = self@;
                self.by_category.push((owned(category), set_new()));
                proof {
                    lemma_key_index_bounds(before, category@);
                    assert(self@ =~= before.push((category@, Seq::<Seq<char>>::empty())));
                    assert(self@.drop_last() =~= before);
                    assert forall|k: Seq<char>| k != category@ implies lookup(self@, k) == lookup(before, k) by {
                        lemma_key_index_bounds(self@, k);
                        lemma_key_index_bounds(before, k);
                    }
                }
                self.by_category.len() - 1
            },
        };
        proof {
            lemma_key_index_bounds(self@, category@);
        }
        let ghost start = self@;
        let tags = tag_lines(text);
        let ghost tl = tag_lines_spec(text@);
        let mut i: usize = 0;
        let ghost base = self@[idx as int].1;
        assert(tl.subrange(0, 0) =~= Seq::<Seq<char>>::empty());
        while i < tags.len()
            invariant
                i <= tags@.len(),
                tags@.map_values(|s: String| s@) == tl,
                idx < self@.len(),
                self@.len() == start.len(),
                key_index(self@, category@) == Some(idx as int),
                self@[idx as int].0 == category@,
                self@[idx as int].1 == append_new(base, tl.subrange(0, i as int)),
                forall|j: int| 0 <= j < self@.len() && j != idx ==> self@[j] == start[j],
            decreases tags@.len() - i,
        {
            assert(tl[i as int] == tags@[i as int]@);
            assert(tl.subrange(0, i + 1).drop_last() =~= tl.subrange(0, i as int));
            let ghost before = self@;
            let (name, mut set) = self.by_category.remove(idx);
            set_insert(&mut set, tags[i].clone());
            self.by_category.insert(idx, (name, set));
            proof {
                assert forall|j: int| 0 <= j < self@.len() && j != idx implies self@[j] == before[j] by {}
                assert forall|j: int| 0 <= j < self@.len() implies self@[j].0 == before[j].0 by {}
                lemma_key_index_same_keys(before, self@, category@);
            }
            i = i + 1;
        }
        assert(tl.subrange(0, tags@.len() as int) =~= tl);
        proof {
            assert forall|k: Seq<char>| k != category@ implies lookup(self@, k) == lookup(start, k) by {
                lemma_key_index_same_keys(start, self@, k);
                lemma_key_index_bounds(self@, k);
            }
        }
    }
}

/// Key lookup depends only on the keys.
pub proof fn lemma_key_index_same_keys<V>(a: Seq<(Seq<char>, V)>, b: Seq<(Seq<char>, V)>, k: Seq<char>)
    requires
        a.len() == b.len(),
        forall|j: int| 0 <= j < a.len() ==> a[j].0 == b[j].0,
    ensures
        key_index(a, k) == key_index(b, k),
    decreases a.len(),
{
    if a.len() > 0 {
        lemma_key_index_same_keys(a.drop_last(), b.drop_last(), k);
    }
}

/// Key lookup depends only on the keys, whatever the values.
pub proof fn lemma_key_index_keys<V, W>(a: Seq<(Seq<char>, V)>, b: Seq<(Seq<char>, W)>, k: Seq<char>)
    requires
        a.len() == b.len(),
        forall|j: int| 0 <= j < a.len() ==> a[j].0 == b[j].0,
    ensures
        key_index(a, k) == key_index(b, k),
    decreases a.len(),
{
    if a.len() > 0 {
        lemma_key_index_keys(a.drop_last(), b.drop_last(), k);
    }
}

/// Tag stores by language.
#[derive(Debug, Clone)]
pub struct LangAwarePool {
    pools: Vec<(String, TagStore)>,
}

impl View for LangAwarePool {
    type V = Seq<(Seq<char>, Seq<(Seq<char>, Seq<Seq<char>>)>)>;

    closed spec fn view(&self) -> Seq<(Seq<char>, Seq<(Seq<char>, Seq<Seq<char>>)>)> {
        self.pools@.map_values(|e: (String, TagStore)| (e.0@, e.1@))
    }
}

impl LangAwarePool {
    /// A pool with no languages.
    pub fn new() -> (r: LangAwarePool)
        ensures
            r@ == Seq::<(Seq<char>, Seq<(Seq<char>, Seq<Seq<char>>)>)>::empty(),
    {
        let r = LangAwarePool { pools: Vec::new() };
        assert(r@ =~= Seq::<(Seq<char>, Seq<(Seq<char>, Seq<Seq<char>>)>)>::empty());
        r
    }

    fn find(&self, lang: Lang) -> (r: Option<usize>)
        ensures
            r matches Some(i) ==> key_index(self@, lang_name(lang)) == Some(i as int),
            r is None ==> key_index(self@, lang_name(lang)) is None,
    {
        let name = lang.as_str();
        let mut i: usize = 0;
        while i < self.pools.len()
            invariant
                i <= self.pools@.len(),
                name@ == lang_name(lang),
                key_index(self@.subrange(0, i as int), lang_name(lang)) is None,
            decreases self.pools@.len() - i,
        {
            assert(self@.subrange(0, i + 1).drop_last() =~= self@.subrange(0, i as int));
            assert(self@[i as int].0 == self.pools@[i as int].0@);
            if str_eq(self.pools[i].0.as_str(), name) {
                proof {
                    lemma_key_index_prefix(self@, lang_name(lang), i + 1);
                }
                return Some(i);
            }
            i = i + 1;
        }
        assert(self@.subrange(0, self@.len() as int) =~= self@);
        None
    }

    /// The tags of `lang`, if the pool has that language.
    pub fn get(&self, lang: Lang) -> (r: Option<&TagStore>)
        ensures
            r matches Some(t) ==> lookup(self@, lang_name(lang)) == Some(t@),
            r is None ==> lookup(self@, lang_name(lang)) is None,
    {
        match self.find(lang) {
            Some(i) => {
                proof {
                    lemma_key_index_bounds(self@, lang_name(lang));
                }
                Some(&self.pools[i].1)
            },
            None => None,
        }
    }

    /// Makes sure the pool has a (possibly empty) store for `lang`, added last
    /// if new; returns its position.
    fn ensure(&mut self, lang: Lang) -> (r: usize)
        ensures
            key_index(final(self)@, lang_name(lang)) == Some(r as int),
            r < final(self)@.len(),
            lookup(old(self)@, lang_name(lang)) is None ==> final(self)@[r as int].1 == Seq::<(Seq<char>, Seq<Seq<char>>)>::empty(),
            lookup(old(self)@, lang_name(lang)) matches Some(t) ==> final(self)@[r as int].1 == t,
            forall|k: Seq<char>| k != lang_name(lang) ==> lookup(final(self)@, k) == lookup(old(self)@, k),
            forall|j: int| 0 <= j < old(self)@.len() ==> final(self)@[j] == old(self)@[j],
            final(self)@.len() >= old(self)@.len(),
    {
        proof {
            lemma_key_index_bounds(self@, lang_name(lang));
        }
        match self.find(lang) {
            Some(i) => i,
            None => {
                let ghost before = self@;
                let name = lang.as_str();
                self.pools.push((owned(name), TagStore::new()));
                proof {
                    assert(self@ =~= before.push((lang_name(lang), Seq::<(Seq<char>, Seq<Seq<char>>)>::empty())));
                    assert(self@.drop_last() =~= before);
                    assert forall|k: Seq<char>| k != lang_name(lang) implies lookup(self@, k) == lookup(before, k) by {
                        lemma_key_index_bounds(self@, k);
                        lemma_key_index_bounds(before, k);
                    }
                }
                self.pools.len() - 1
            },
        }
    }

    /// Registers `lang` (its directory exists) with no tags yet.
    pub fn add_lang(&mut self, lang: Lang)
        ensures
            lookup(final(self)@, lang_name(lang)) == Some(match lookup(old(self)@, lang_name(lang)) {
                Some(t) => t,
                None => Seq::<(Seq<char>, Seq<Seq<char>>)>::empty(),
            }),
            forall|k: Seq<char>| k != lang_name(lang) ==> lookup(final(self)@, k) == lookup(old(self)@, k),
    {
        let _ = self.ensure(lang);
    }

    /// Adds the tags of one file's text to `category` of `lang` (see
    /// `TagStore::load_text`).
    pub fn load_text(&mut self, lang: Lang, category: &str, text: &str)
        ensures
            lookup(final(self)@, lang_name(lang)) is Some,
            forall|k: Seq<char>| k != lang_name(lang) ==> lookup(final(self)@, k) == lookup(old(self)@, k),
            lookup(lookup(final(self)@, lang_name(lang))->0, category@) == Some(
                append_new(
                    match lookup(old(self)@, lang_name(lang)) {
                        Some(t) => match lookup(t, category@) {
                            Some(items) => items,
                            None => Seq::<Seq<char>>::empty(),
                        },
                        None => Seq::<Seq<char>>::empty(),
                    },
                    tag_lines_spec(text@),
                ),
            ),
            forall|c: Seq<char>| c != category@ ==> lookup(lookup(final(self)@, lang_name(lang))->0, c)
                == match lookup(old(self)@, lang_name(lang)) {
                    Some(t) => lookup(t, c),
                    None => None,
                },
    {
        let i = self.ensure(lang);
        let ghost mid = self@;
        let (name, mut store) = self.pools.remove(i);
        store.load_text(category, text);
        self.pools.insert(i, (name, store));
        proof {
            assert forall|j: int| 0 <= j < self@.len() implies self@[j].0 == mid[j].0 by {}
            lemma_key_index_same_keys(mid, self@, lang_name(lang));
            lemma_key_index_bounds(mid, lang_name(lang));
            assert forall|k: Seq<char>| k != lang_name(lang) implies lookup(self@, k) == lookup(mid, k) by {
                lemma_key_index_same_keys(mid, self@, k);
                lemma_key_index_bounds(mid, k);
                if let Some(j) = key_index(mid, k) {
                    assert(j != i);
                }
            }
            lemma_key_index_bounds(self@, lang_name(lang));
            assert(self@[i as int].1 == store@);
        }
    }
}

/// The category a file of a tag directory holds: files with the extension
/// `txt` name their category by their stem; other files hold none.
pub fn category_of_file(path: &str) -> (r: Option<String>)
    ensures
        match r {
            Some(c) => extension_spec(path@) == Some("txt"@) && file_stem_spec(path@) == Some(c@),
            None => extension_spec(path@) != Some("txt"@) || file_stem_spec(path@) is None,
        },
{
    match file_extension(path) {
        Some(e) => {
            if str_eq(e.as_str(), "txt") {
                file_stem(path)
            } else {
                None
            }
        },
        None => None,
    }
}

/// Loading tags into a category keeps what it held, in order, and adds each
/// new tag once: the result begins with the old tags, holds every loaded
/// tag, holds nothing else, and repeats nothing when the old tags did not.
pub proof fn append_new_law(items: Seq<Seq<char>>, more: Seq<Seq<char>>)
    ensures
        append_new(items, more).len() >= items.len(),
        append_new(items, more).subrange(0, items.len() as int) == items,
        forall|i: int| 0 <= i < more.len() ==> append_new(items, more).contains(#[trigger] more[i]),
        forall|x: Seq<char>| #[trigger] append_new(items, more).contains(x) ==> items.contains(x) || more.contains(x),
        items.no_duplicates() ==> append_new(items, more).no_duplicates(),
    decreases more.len(),
{
    if more.len() == 0 {
        assert(items.subrange(0, items.len() as int) =~= items);
    } else {
        let pre = more.drop_last();
        let last = more.last();
        append_new_law(items, pre);
        let base = append_new(items, pre);
        assert forall|i: int| 0 <= i < more.len() implies append_new(items, more).contains(#[trigger] more[i]) by {
            if i < pre.len() {
                assert(pre[i] == more[i]);
                assert(base.contains(pre[i]));
                if !base.contains(last) {
                    let k = choose|k: int| 0 <= k < base.len() && base[k] == pre[i];
                    assert(base.push(last)[k] == pre[i]);
                }
            } else if !base.contains(last) {
                assert(base.push(last)[base.len() as int] == last);
            }
        }
        assert forall|x: Seq<char>| #[trigger] append_new(items, more).contains(x) implies items.contains(x)
            || more.contains(x) by {
            if base.contains(x) {
                if pre.contains(x) {
                    let k = choose|k: int| 0 <= k < pre.len() && pre[k] == x;
                    assert(more[k] == x);
                }
            } else {
                assert(x == last);
                assert(more[more.len() - 1] == x);
            }
        }
        if !base.contains(last) {
            assert(base.push(last).subrange(0, items.len() as int) =~= base.subrange(0, items.len() as int));
            if items.no_duplicates() {
                assert forall|i: int, j: int|
                    0 <= i < base.push(last).len() && 0 <= j < base.push(last).len() && i != j implies base.push(
                        last,
                    )[i] != base.push(last)[j] by {
                    if i < base.len() && j < base.len() {
                    } else if i < base.len() {
                        assert(base.push(last)[j] == last);
                        assert(base.push(last)[i] == base[i]);
                    } else {
                        assert(base.push(last)[i] == last);
                        assert(base.push(last)[j] == base[j]);
                    }
                }
            }
        }
    }
}

} // verus!
