//! The `tags` command: a category's tag file as text, counted, extended by
//! a tag, or rid of one.

use vstd::prelude::*;

use crate::paths::{join_path, join_path_spec};
use crate::tags::{is_tag_line, tag_lines_spec, tag_lines};
use crate::text::{
    from_chars, is_ws, join, join_spec, lines, lines_spec, owned, push_all, push_char, split_scan, strip_cr,
    string_views, to_chars, trim, trim_end_spec, trim_spec, trim_start_spec, views, lemma_scan_append,
};

verus! {

/// Subcommands of `tags`.
#[derive(Debug, Clone)]
pub enum TagsCommand {
    /// Every category with its tag count.
    List,
    /// The tags of a category.
    Show { category: String },
    /// Adds a tag to a category.
    Add { category: String, tag: String },
    /// Removes a tag from a category.
    Remove { category: String, tag: String },
}

/// Arguments of the `tags` command.
#[derive(Debug, Clone)]
pub struct TagsArgs {
    pub command: TagsCommand,
    pub lang: Option<String>,
}

/// The tag file of a category: `{dir}/{category}.txt`.
pub fn category_file(dir: &str, category: &str) -> (r: String)
    ensures
        r@ == join_path_spec(dir@, category@ + ".txt"@),
{
    let mut name = owned(category);
    push_all(&mut name, ".txt");
    join_path(dir, name.as_str())
}

/// The number of tags a file lists (blank lines and comments not counted).
pub fn count_tags(text: &str) -> (r: usize)
    ensures
        r == tag_lines_spec(text@).len(),
{
    tag_lines(text).len()
}

/// Whether some line of `text`, trimmed, is `tag`.
pub open spec fn has_line(text: Seq<char>, tag: Seq<char>) -> bool {
    exists|i: int| 0 <= i < lines_spec(text).len() && trim_spec(#[trigger] lines_spec(text)[i]) == tag
}

/// The text after adding `tag` as a last line: a line break first when the
/// text does not end with one, and one after the tag.
pub open spec fn added_text(text: Seq<char>, tag: Seq<char>) -> Seq<char> {
    text + (if text.len() > 0 && text.last() != '\n' {
        seq!['\n']
    } else {
        Seq::empty()
    }) + tag + seq!['\n']
}

/// The lines of `ls` that, trimmed, are not `tag`.
pub open spec fn lines_without(ls: Seq<Seq<char>>, tag: Seq<char>) -> Seq<Seq<char>>
    decreases ls.len(),
{
    if ls.len() == 0 {
        ls
    } else {
        let rest = lines_without(ls.drop_last(), tag);
        if trim_spec(ls.last()) == tag {
            rest
        } else {
            rest.push(ls.last())
        }
    }
}

/// The text after removing `tag`: the other lines joined by line breaks,
/// with a final one unless nothing is left.
pub open spec fn removed_text(text: Seq<char>, tag: Seq<char>) -> Seq<char> {
    let j = join_spec(lines_without(lines_spec(text), tag), seq!['\n']);
    if j.len() > 0 {
        j + seq!['\n']
    } else {
        j
    }
}

/// Whether a line, trimmed, is `tag`.
fn line_is(line: &Vec<char>, tag: &str) -> (r: bool)
    ensures
        r == (trim_spec(line@) == tag@),
{
    let s = from_chars(line.as_slice());
    let t = trim(s.as_str());
    crate::text::str_eq(t.as_str(), tag)
}

/// The file text with `tag` added as a last line, or none when a line of
/// the text, trimmed, already is `tag`.
pub fn add_tag(existing: &str, tag: &str) -> (r: Option<String>)
    ensures
        r is None <==> has_line(existing@, tag@),
        r matches Some(n) ==> n@ == added_text(existing@, tag@),
{
    let cs = to_chars(existing);
    let ls = lines(cs.as_slice());
    let mut i: usize = 0;
    while i < ls.len()
        invariant
            i <= ls@.len(),
            views(ls@) == lines_spec(existing@),
            forall|j: int| 0 <= j < i ==> trim_spec(#[trigger] lines_spec(existing@)[j]) != tag@,
        decreases ls@.len() - i,
    {
        assert(lines_spec(existing@)[i as int] == ls@[i as int]@);
        if line_is(&ls[i], tag) {
            return None;
        }
        i = i + 1;
    }
    let mut out = owned(existing);
    if cs.len() > 0 && cs[cs.len() - 1] != '\n' {
        push_char(&mut out, '\n');
    } else {
        assert(out@ + Seq::<char>::empty() =~= out@);
    }
    push_all(&mut out, tag);
    push_char(&mut out, '\n');
    Some(out)
}

/// The file text without the lines that, trimmed, are `tag`, or none when
/// there is no such line.
pub fn remove_tag(existing: &str, tag: &str) -> (r: Option<String>)
    ensures
        r is None <==> lines_without(lines_spec(existing@), tag@).len() == lines_spec(existing@).len(),
        r matches Some(n) ==> n@ == removed_text(existing@, tag@),
{
    let cs = to_chars(existing);
    let ls = lines(cs.as_slice());
    let ghost all = lines_spec(existing@);
    let mut kept: Vec<String> = Vec::new();
    let mut i: usize = 0;
    while i < ls.len()
        invariant
            i <= ls@.len(),
            all == lines_spec(existing@),
            views(ls@) == all,
            string_views(kept@) == lines_without(all.subrange(0, i as int), tag@),
        decreases ls@.len() - i,
    {
        assert(all[i as int] == ls@[i as int]@);
        assert(all.subrange(0, i + 1).drop_last() =~= all.subrange(0, i as int));
        if !line_is(&ls[i], tag) {
            let ghost before = kept@;
            kept.push(from_chars(ls[i].as_slice()));
            assert(string_views(kept@) =~= string_views(before).push(all[i as int]));
        }
        i = i + 1;
    }
    assert(all.subrange(0, all.len() as int) =~= all);
    proof {
        lemma_lines_without_len(all, tag@);
    }
    if kept.len() == ls.len() {
        return None;
    }
    let mut out = join(kept.as_slice(), "\n");
    proof {
        reveal_strlit("\n");
        assert("\n"@ =~= seq!['\n']);
    }
    if !out.as_str().is_empty() {
        push_char(&mut out, '\n');
    }
    Some(out)
}

proof fn lemma_lines_without_len(ls: Seq<Seq<char>>, tag: Seq<char>)
    ensures
        lines_without(ls, tag).len() <= ls.len(),
    decreases ls.len(),
{
    if ls.len() > 0 {
        lemma_lines_without_len(ls.drop_last(), tag);
    }
}

/// Pieces cut by a scan never hold the separator.
proof fn lemma_scan_pieces(s: Seq<char>, sep: char)
    ensures
        forall|k: int, i: int|
            0 <= k < split_scan(s, sep).0.len() && 0 <= i < split_scan(s, sep).0[k].len() ==> split_scan(
                s,
                sep,
            ).0[k][i] != sep,
        forall|i: int| 0 <= i < split_scan(s, sep).1.len() ==> split_scan(s, sep).1[i] != sep,
    decreases s.len(),
{
    if s.len() > 0 {
        lemma_scan_pieces(s.drop_last(), sep);
        let d = split_scan(s.drop_last(), sep).0;
        let c = split_scan(s.drop_last(), sep).1;
        if s.last() == sep {
            assert forall|k: int, i: int| 0 <= k < d.push(c).len() && 0 <= i < d.push(c)[k].len() implies d.push(
                c,
            )[k][i] != sep by {
                if k < d.len() {
                    assert(d.push(c)[k] == d[k]);
                } else {
                    assert(d.push(c)[k] == c);
                }
            }
        } else {
            assert forall|i: int| 0 <= i < c.push(s.last()).len() implies c.push(s.last())[i] != sep by {
                if i < c.len() {
                    assert(c.push(s.last())[i] == c[i]);
                }
            }
        }
    }
}

/// A text that is empty or ends with a line break leaves no open piece.
proof fn lemma_scan_closed(s: Seq<char>)
    requires
        s.len() == 0 || s.last() == '\n',
    ensures
        split_scan(s, '\n').1 == Seq::<char>::empty(),
{
}

/// Trailing whitespace does not change the trimmed text.
proof fn lemma_trim_push_ws(s: Seq<char>, c: char)
    requires
        is_ws(c),
    ensures
        trim_spec(s.push(c)) == trim_spec(s),
    decreases s.len(),
{
    let e = Seq::<char>::empty();
    if s.len() == 0 {
        assert(s.push(c) =~= seq![c]);
        assert(seq![c].drop_first() =~= e);
        assert(trim_start_spec(e) == e);
        assert(trim_start_spec(seq![c]) == trim_start_spec(e));
        assert(trim_end_spec(e) == e);
        assert(s =~= e);
    } else if is_ws(s[0]) {
        lemma_trim_push_ws(s.drop_first(), c);
        assert(s.push(c).drop_first() =~= s.drop_first().push(c));
        assert(s.push(c)[0] == s[0]);
        assert(trim_start_spec(s.push(c)) == trim_start_spec(s.drop_first().push(c)));
        assert(trim_start_spec(s) == trim_start_spec(s.drop_first()));
    } else {
        assert(s.push(c)[0] == s[0]);
        assert(trim_start_spec(s.push(c)) == s.push(c));
        assert(trim_start_spec(s) == s);
        assert(s.push(c).drop_last() =~= s);
        assert(trim_end_spec(s.push(c)) == trim_end_spec(s));
    }
}

/// Dropping a final carriage return does not change the trimmed text.
proof fn lemma_trim_strip_cr(l: Seq<char>)
    ensures
        trim_spec(strip_cr(l)) == trim_spec(l),
{
    if l.len() > 0 && l.last() == '\r' {
        assert(l.drop_last().push('\r') =~= l);
        lemma_trim_push_ws(l.drop_last(), '\r');
    }
}

/// Lines joined by line breaks and ended by one scan back into the lines.
proof fn lemma_scan_join(items: Seq<Seq<char>>)
    requires
        items.len() > 0,
        forall|k: int, i: int| 0 <= k < items.len() && 0 <= i < items[k].len() ==> items[k][i] != '\n',
    ensures
        split_scan(join_spec(items, seq!['\n']) + seq!['\n'], '\n') == (items, Seq::<char>::empty()),
    decreases items.len(),
{
    let nl = seq!['\n'];
    if items.len() == 1 {
        lemma_scan_append(Seq::<char>::empty(), items[0], '\n');
        assert(Seq::<char>::empty() + items[0] =~= items[0]);
        assert((items[0] + nl).drop_last() =~= items[0]);
        assert(Seq::<Seq<char>>::empty().push(items[0]) =~= items);
    } else {
        let pre = items.drop_last();
        assert forall|k: int, i: int| 0 <= k < pre.len() && 0 <= i < pre[k].len() implies pre[k][i] != '\n' by {
            assert(pre[k] == items[k]);
        }
        lemma_scan_join(pre);
        let head = join_spec(pre, nl) + nl;
        let last = items.last();
        assert(forall|i: int| 0 <= i < last.len() ==> last[i] != '\n') by {
            assert(last == items[items.len() - 1]);
        }
        lemma_scan_append(head, last, '\n');
        assert(join_spec(items, nl) + nl =~= (head + last).push('\n'));
        assert((head + last).push('\n').drop_last() =~= head + last);
        assert(Seq::<char>::empty() + last =~= last);
        assert(pre.push(last) =~= items);
    }
}

/// Every line of a text is free of line breaks.
proof fn lemma_lines_no_break(text: Seq<char>)
    ensures
        forall|k: int, i: int|
            0 <= k < lines_spec(text).len() && 0 <= i < lines_spec(text)[k].len() ==> lines_spec(text)[k][i] != '\n',
{
    lemma_scan_pieces(text, '\n');
    let (done, cur) = split_scan(text, '\n');
    assert forall|k: int, i: int|
        0 <= k < lines_spec(text).len() && 0 <= i < lines_spec(text)[k].len() implies lines_spec(text)[k][i] != '\n' by {
        if k < done.len() {
            let d = done[k];
            assert(lines_spec(text)[k] == strip_cr(d));
            if d.len() > 0 && d.last() == '\r' {
                assert(strip_cr(d)[i] == d[i]);
            }
        } else {
            assert(lines_spec(text)[k] == cur);
        }
    }
}

proof fn lemma_lines_without_props(ls: Seq<Seq<char>>, tag: Seq<char>)
    ensures
        forall|k: int| 0 <= k < lines_without(ls, tag).len() ==> trim_spec(#[trigger] lines_without(ls, tag)[k]) != tag,
        forall|k: int|
            0 <= k < lines_without(ls, tag).len() ==> exists|j: int| 0 <= j < ls.len() && ls[j] == #[trigger] lines_without(ls, tag)[k],
    decreases ls.len(),
{
    if ls.len() > 0 {
        lemma_lines_without_props(ls.drop_last(), tag);
        let rest = lines_without(ls.drop_last(), tag);
        assert forall|k: int| 0 <= k < lines_without(ls, tag).len() implies exists|j: int|
            0 <= j < ls.len() && ls[j] == #[trigger] lines_without(ls, tag)[k] by {
            if k < rest.len() {
                let j = choose|j: int| 0 <= j < ls.drop_last().len() && ls.drop_last()[j] == rest[k];
                assert(ls[j] == ls.drop_last()[j]);
            } else {
                assert(ls[ls.len() - 1] == lines_without(ls, tag)[k]);
            }
        }
    }
}

/// After a tag (a single line with no surrounding whitespace) is added to a
/// tag file, a line of the file is that tag, so adding it again changes
/// nothing.
pub proof fn add_tag_law(text: Seq<char>, tag: Seq<char>)
    requires
        forall|i: int| 0 <= i < tag.len() ==> tag[i] != '\n',
        trim_spec(tag) == tag,
    ensures
        has_line(added_text(text, tag), tag),
{
    let sep: Seq<char> = if text.len() > 0 && text.last() != '\n' {
        seq!['\n']
    } else {
        Seq::empty()
    };
    let p = text + sep;
    assert(p.len() == 0 || p.last() == '\n');
    lemma_scan_closed(p);
    lemma_scan_append(p, tag, '\n');
    let n = added_text(text, tag);
    assert(n =~= (p + tag).push('\n'));
    assert((p + tag).push('\n').drop_last() =~= p + tag);
    assert(Seq::<char>::empty() + tag =~= tag);
    let done = split_scan(p, '\n').0;
    assert(split_scan(n, '\n') == (done.push(tag), Seq::<char>::empty()));
    let ls = lines_spec(n);
    assert(ls =~= done.push(tag).map_values(|l: Seq<char>| strip_cr(l)));
    let k = done.len() as int;
    assert(ls[k] == strip_cr(tag));
    lemma_trim_strip_cr(tag);
}

/// After a tag is removed from a tag file, no line of the file is, trimmed,
/// that tag.
pub proof fn remove_tag_law(text: Seq<char>, tag: Seq<char>)
    ensures
        !has_line(removed_text(text, tag), tag),
{
    let all = lines_spec(text);
    let kept = lines_without(all, tag);
    lemma_lines_without_props(all, tag);
    lemma_lines_no_break(text);
    let nl = seq!['\n'];
    let j = join_spec(kept, nl);
    if j.len() > 0 {
        assert(kept.len() > 0);
        assert forall|k: int, i: int| 0 <= k < kept.len() && 0 <= i < kept[k].len() implies kept[k][i] != '\n' by {
            let w = choose|w: int| 0 <= w < all.len() && all[w] == kept[k];
        }
        lemma_scan_join(kept);
        let n = removed_text(text, tag);
        assert(lines_spec(n) =~= kept.map_values(|l: Seq<char>| strip_cr(l)));
        assert forall|i: int| 0 <= i < lines_spec(n).len() implies trim_spec(#[trigger] lines_spec(n)[i]) != tag by {
            lemma_trim_strip_cr(kept[i]);
        }
    } else {
        assert(lines_spec(removed_text(text, tag)) =~= Seq::<Seq<char>>::empty());
    }
}

/// A text is the join of its pieces by the separator.
proof fn lemma_join_scan(s: Seq<char>)
    ensures
        join_spec(split_scan(s, '\n').0.push(split_scan(s, '\n').1), seq!['\n']) == s,
    decreases s.len(),
{
    let nl = seq!['\n'];
    let e = Seq::<char>::empty();
    if s.len() == 0 {
        assert(Seq::<Seq<char>>::empty().push(e) =~= seq![e]);
    } else {
        let p = s.drop_last();
        lemma_join_scan(p);
        let (d, c) = split_scan(p, '\n');
        let x = s.last();
        assert(p.push(x) =~= s);
        if x == '\n' {
            let items = d.push(c).push(e);
            assert(items.drop_last() =~= d.push(c));
            assert(join_spec(items, nl) == join_spec(d.push(c), nl) + nl + e);
            assert(p + nl + e =~= s);
        } else {
            let items = d.push(c.push(x));
            if d.len() == 0 {
                assert(d.push(c) =~= seq![c]);
                assert(items =~= seq![c.push(x)]);
            } else {
                assert(items.drop_last() =~= d);
                assert(d.push(c).drop_last() =~= d);
                assert(join_spec(items, nl) == join_spec(d, nl) + nl + c.push(x));
                assert(join_spec(d.push(c), nl) == join_spec(d, nl) + nl + c);
                assert(join_spec(d, nl) + nl + c.push(x) =~= (join_spec(d, nl) + nl + c).push(x));
            }
        }
    }
}

/// A character the text lacks is in none of its pieces.
proof fn lemma_scan_avoids(s: Seq<char>, sep: char, ch: char)
    requires
        forall|i: int| 0 <= i < s.len() ==> s[i] != ch,
    ensures
        forall|k: int, i: int|
            0 <= k < split_scan(s, sep).0.len() && 0 <= i < split_scan(s, sep).0[k].len() ==> split_scan(
                s,
                sep,
            ).0[k][i] != ch,
        forall|i: int| 0 <= i < split_scan(s, sep).1.len() ==> split_scan(s, sep).1[i] != ch,
    decreases s.len(),
{
    if s.len() > 0 {
        lemma_scan_avoids(s.drop_last(), sep, ch);
        let d = split_scan(s.drop_last(), sep).0;
        let c = split_scan(s.drop_last(), sep).1;
        assert(s.last() == s[s.len() - 1]);
        if s.last() == sep {
            assert forall|k: int, i: int| 0 <= k < d.push(c).len() && 0 <= i < d.push(c)[k].len() implies d.push(
                c,
            )[k][i] != ch by {
                if k < d.len() {
                    assert(d.push(c)[k] == d[k]);
                } else {
                    assert(d.push(c)[k] == c);
                }
            }
        } else {
            assert forall|i: int| 0 <= i < c.push(s.last()).len() implies c.push(s.last())[i] != ch by {
                if i < c.len() {
                    assert(c.push(s.last())[i] == c[i]);
                }
            }
        }
    }
}

/// Trimming the end leaves nothing or a last character that is not
/// whitespace.
proof fn lemma_trim_end_last(s: Seq<char>)
    ensures
        trim_end_spec(s).len() == 0 || !is_ws(trim_end_spec(s).last()),
    decreases s.len(),
{
    if s.len() > 0 && is_ws(s.last()) {
        lemma_trim_end_last(s.drop_last());
    }
}

/// Lines none of which, trimmed, is `tag` are all kept.
proof fn lemma_lines_without_none(ls: Seq<Seq<char>>, tag: Seq<char>)
    requires
        forall|i: int| 0 <= i < ls.len() ==> trim_spec(#[trigger] ls[i]) != tag,
    ensures
        lines_without(ls, tag) == ls,
    decreases ls.len(),
{
    if ls.len() > 0 {
        lemma_lines_without_none(ls.drop_last(), tag);
        assert(ls.last() == ls[ls.len() - 1]);
        assert(ls.drop_last().push(ls.last()) =~= ls);
    }
}

/// Removing a tag just added to a tag file gives the file back, when the
/// file had no line that is, trimmed, that tag, holds no carriage return and
/// is empty or ends with a line break, and the tag is a single non-empty line
/// with no surrounding whitespace.  (A file holding a lone line break is the
/// exception: removing gives the empty file.)
pub proof fn add_then_remove_law(text: Seq<char>, tag: Seq<char>)
    requires
        forall|i: int| 0 <= i < text.len() ==> text[i] != '\r',
        text.len() == 0 || text.last() == '\n',
        text != seq!['\n'],
        !has_line(text, tag),
        tag.len() > 0,
        trim_spec(tag) == tag,
        forall|i: int| 0 <= i < tag.len() ==> tag[i] != '\n',
    ensures
        removed_text(added_text(text, tag), tag) == text,
{
    let nl = seq!['\n'];
    let e = Seq::<char>::empty();
    let n = added_text(text, tag);
    assert(text + e =~= text);
    assert(n =~= (text + tag).push('\n'));
    lemma_scan_closed(text);
    lemma_scan_append(text, tag, '\n');
    assert(e + tag =~= tag);
    let done = split_scan(text, '\n').0;
    assert((text + tag).push('\n').drop_last() =~= text + tag);
    assert(split_scan(n, '\n') == (done.push(tag), e));
    lemma_scan_avoids(text, '\n', '\r');
    assert forall|k: int| 0 <= k < done.len() implies strip_cr(#[trigger] done[k]) == done[k] by {
        if done[k].len() > 0 {
            assert(done[k].last() == done[k][done[k].len() - 1]);
        }
    }
    lemma_trim_end_last(trim_start_spec(tag));
    assert(strip_cr(tag) == tag) by {
        assert(is_ws('\r'));
    }
    let f = |l: Seq<char>| strip_cr(l);
    assert(done.map_values(f) =~= done);
    assert(lines_spec(n) =~= done.push(tag));
    assert(lines_spec(text) =~= done);
    assert forall|i: int| 0 <= i < done.len() implies trim_spec(#[trigger] done[i]) != tag by {
        if trim_spec(done[i]) == tag {
            assert(lines_spec(text)[i] == done[i]);
        }
    }
    lemma_lines_without_none(done, tag);
    assert(done.push(tag).drop_last() =~= done);
    assert(lines_without(done.push(tag), tag) == done);
    lemma_join_scan(text);
    if done.len() == 0 {
        assert(done.push(e) =~= seq![e]);
    } else {
        assert(done.push(e).drop_last() =~= done);
        assert(join_spec(done.push(e), nl) == join_spec(done, nl) + nl + e);
        assert(join_spec(done, nl) + nl + e =~= join_spec(done, nl) + nl);
        if join_spec(done, nl).len() == 0 {
            assert(join_spec(done, nl) + nl =~= nl);
        }
    }
}

} // verus!
