//! Unix paths held as text: joining, and the file name, stem and extension
//! of a path, as `std::path::Path` documents them.

use vstd::prelude::*;

use crate::text::{
    from_chars, lemma_scan_append, owned, push_all, push_char, split_char, split_scan, split_spec, to_chars, views,
};

verus! {

/// `Path::join` on Unix: an absolute `rest` replaces `base`; otherwise
/// `rest` follows `base`, with a `/` between unless `base` is empty or
/// already ends in `/`.
pub open spec fn join_path_spec(base: Seq<char>, rest: Seq<char>) -> Seq<char> {
    if rest.len() > 0 && rest[0] == '/' {
        rest
    } else if base.len() == 0 || base.last() == '/' {
        base + rest
    } else {
        base + seq!['/'] + rest
    }
}

/// `base` joined with `rest` (see `join_path_spec`).
pub fn join_path(base: &str, rest: &str) -> (r: String)
    ensures
        r@ == join_path_spec(base@, rest@),
{
    let b = to_chars(base);
    let t = to_chars(rest);
    if t.len() > 0 && t[0] == '/' {
        return owned(rest);
    }
    let mut out = owned(base);
    if b.len() > 0 && b[b.len() - 1] != '/' {
        push_char(&mut out, '/');
    }
    push_all(&mut out, rest);
    out
}

/// A piece between slashes that names something: not empty and not `.`
/// (repeated separators and `.` components are normalized away).
pub open spec fn is_name_piece(p: Seq<char>) -> bool {
    p.len() > 0 && p != seq!['.']
}

/// The last naming piece, if any.
pub open spec fn last_name_piece(ps: Seq<Seq<char>>) -> Option<Seq<char>>
    decreases ps.len(),
{
    if ps.len() == 0 {
        None
    } else if is_name_piece(ps.last()) {
        Some(ps.last())
    } else {
        last_name_piece(ps.drop_last())
    }
}

/// `Path::file_name`: the final component, none when there is none or it is
/// `..`.
pub open spec fn file_name_spec(p: Seq<char>) -> Option<Seq<char>> {
    match last_name_piece(split_spec(p, '/')) {
        Some(n) => if n == seq!['.', '.'] {
            None
        } else {
            Some(n)
        },
        None => None,
    }
}

/// Index of the last `c` in `s`.
pub open spec fn rfind_spec(s: Seq<char>, c: char) -> Option<int>
    decreases s.len(),
{
    if s.len() == 0 {
        None
    } else if s.last() == c {
        Some(s.len() - 1)
    } else {
        rfind_spec(s.drop_last(), c)
    }
}

/// The stem of a file name: the whole name when it has no `.` or only a
/// leading one, else the part before the last `.`.
pub open spec fn stem_of(name: Seq<char>) -> Seq<char> {
    match rfind_spec(name, '.') {
        Some(i) => if i == 0 {
            name
        } else {
            name.subrange(0, i)
        },
        None => name,
    }
}

/// The extension of a file name: the part after the last `.`, none when
/// there is no `.` or only a leading one.
pub open spec fn extension_of(name: Seq<char>) -> Option<Seq<char>> {
    match rfind_spec(name, '.') {
        Some(i) => if i == 0 {
            None
        } else {
            Some(name.subrange(i + 1, name.len() as int))
        },
        None => None,
    }
}

/// `Path::file_stem`.
pub open spec fn file_stem_spec(p: Seq<char>) -> Option<Seq<char>> {
    match file_name_spec(p) {
        Some(n) => Some(stem_of(n)),
        None => None,
    }
}

/// `Path::extension`.
pub open spec fn extension_spec(p: Seq<char>) -> Option<Seq<char>> {
    match file_name_spec(p) {
        Some(n) => extension_of(n),
        None => None,
    }
}

proof fn lemma_rfind_bounds(s: Seq<char>, c: char)
    ensures
        rfind_spec(s, c) matches Some(i) ==> 0 <= i < s.len() && s[i] == c && forall|j: int|
            i < j < s.len() ==> s[j] != c,
        rfind_spec(s, c) is None ==> forall|j: int| 0 <= j < s.len() ==> s[j] != c,
    decreases s.len(),
{
    if s.len() > 0 {
        lemma_rfind_bounds(s.drop_last(), c);
        assert forall|j: int| 0 <= j < s.len() - 1 implies s.drop_last()[j] == s[j] by {}
    }
}

/// A single name: not empty, not `.` or `..`, without `/`.
pub open spec fn plain_name(n: Seq<char>) -> bool {
    &&& n.len() > 0
    &&& n != seq!['.']
    &&& n != seq!['.', '.']
    &&& forall|i: int| 0 <= i < n.len() ==> n[i] != '/'
}

proof fn lemma_rfind_append(x: Seq<char>, y: Seq<char>, c: char)
    requires
        forall|i: int| 0 <= i < y.len() ==> y[i] != c,
        rfind_spec(x, c) is Some,
    ensures
        rfind_spec(x + y, c) == rfind_spec(x, c),
    decreases y.len(),
{
    if y.len() > 0 {
        lemma_rfind_append(x, y.drop_last(), c);
        assert((x + y).drop_last() =~= x + y.drop_last());
        assert((x + y).last() == y[y.len() - 1]);
    } else {
        assert(x + y =~= x);
    }
}

/// Joining a single name onto a relative or absolute directory names that
/// file: the joined path's file name is the name.
pub proof fn join_file_name_law(base: Seq<char>, n: Seq<char>)
    requires
        plain_name(n),
    ensures
        file_name_spec(join_path_spec(base, n)) == Some(n),
{
    let j = join_path_spec(base, n);
    let head = if base.len() == 0 || base.last() == '/' {
        base
    } else {
        base + seq!['/']
    };
    assert(j == head + n) by {
        if !(base.len() == 0 || base.last() == '/') {
            assert(base + seq!['/'] + n == head + n);
        }
    }
    lemma_scan_append(head, n, '/');
    let e = Seq::<char>::empty();
    if head.len() > 0 {
        assert(head.last() == '/') by {
            if !(base.len() == 0 || base.last() == '/') {
                assert(head.last() == (base + seq!['/']).last());
            }
        }
        assert(head.drop_last().push('/') =~= head);
    }
    assert(split_scan(head, '/').1 == e);
    assert(e + n =~= n);
    let ps = split_spec(j, '/');
    assert(ps.last() == n);
    assert(ps.len() > 0);
}

/// A file name made of a stem and an extension, each without `.` and the
/// stem not empty, has that stem and that extension.
pub proof fn stem_extension_law(stem: Seq<char>, ext: Seq<char>)
    requires
        stem.len() > 0,
        forall|i: int| 0 <= i < stem.len() ==> stem[i] != '.',
        forall|i: int| 0 <= i < ext.len() ==> ext[i] != '.',
    ensures
        stem_of(stem + seq!['.'] + ext) == stem,
        extension_of(stem + seq!['.'] + ext) == Some(ext),
{
    let x = stem + seq!['.'];
    assert(x.last() == '.');
    assert(rfind_spec(x, '.') == Some(stem.len() as int));
    lemma_rfind_append(x, ext, '.');
    let name = x + ext;
    assert(name.subrange(0, stem.len() as int) =~= stem);
    assert(name.subrange(stem.len() as int + 1, name.len() as int) =~= ext);
}

/// Index of the last `c` in `cs`.
fn rfind_char(cs: &[char], c: char) -> (r: Option<usize>)
    ensures
        r matches Some(i) ==> rfind_spec(cs@, c) == Some(i as int),
        r is None ==> rfind_spec(cs@, c) is None,
{
    let mut i: usize = cs.len();
    assert(cs@.subrange(0, i as int) =~= cs@);
    while i > 0
        invariant
            i <= cs@.len(),
            rfind_spec(cs@, c) == rfind_spec(cs@.subrange(0, i as int), c),
        decreases i,
    {
        assert(cs@.subrange(0, i as int).drop_last() =~= cs@.subrange(0, i - 1));
        if cs[i - 1] == c {
            return Some(i - 1);
        }
        i = i - 1;
    }
    None
}

/// The final component of `path`, if it has one.
fn file_name(path: &str) -> (r: Option<Vec<char>>)
    ensures
        match r {
            Some(n) => file_name_spec(path@) == Some(n@),
            None => file_name_spec(path@) is None,
        },
{
    let cs = to_chars(path);
    let pieces = split_char(cs.as_slice(), '/');
    let ghost ps = views(pieces@);
    let mut i: usize = pieces.len();
    assert(ps.subrange(0, i as int) =~= ps);
    while i > 0
        invariant
            i <= pieces@.len(),
            ps == views(pieces@),
            ps == split_spec(path@, '/'),
            last_name_piece(ps) == last_name_piece(ps.subrange(0, i as int)),
        decreases i,
    {
        let p = &pieces[i - 1];
        assert(ps.subrange(0, i as int).drop_last() =~= ps.subrange(0, i - 1));
        assert(ps[i - 1] == p@);
        if p.len() > 0 && !(p.len() == 1 && p[0] == '.') {
            assert(p@ != seq!['.']);
            if p.len() == 2 && p[0] == '.' && p[1] == '.' {
                assert(p@ =~= seq!['.', '.']);
                return None;
            }
            assert(p@ != seq!['.', '.']);
            return Some(p.clone());
        }
        assert(!is_name_piece(p@)) by {
            if p@.len() == 1 {
                assert(p@ =~= seq!['.']);
            }
        }
        i = i - 1;
    }
    None
}

/// The stem of the file name of `path` (`Path::file_stem`).
pub fn file_stem(path: &str) -> (r: Option<String>)
    ensures
        match r {
            Some(s) => file_stem_spec(path@) == Some(s@),
            None => file_stem_spec(path@) is None,
        },
{
    match file_name(path) {
        Some(n) => match rfind_char(n.as_slice(), '.') {
            Some(i) => {
                if i == 0 {
                    Some(from_chars(n.as_slice()))
                } else {
                    proof {
                        lemma_rfind_bounds(n@, '.');
                    }
                    let mut out: Vec<char> = Vec::new();
                    let mut k: usize = 0;
                    while k < i
                        invariant
                            k <= i < n@.len(),
                            out@ == n@.subrange(0, k as int),
                        decreases i - k,
                    {
                        out.push(n[k]);
                        k = k + 1;
                    }
                    Some(from_chars(out.as_slice()))
                }
            },
            None => Some(from_chars(n.as_slice())),
        },
        None => None,
    }
}

/// The extension of the file name of `path` (`Path::extension`).
pub fn file_extension(path: &str) -> (r: Option<String>)
    ensures
        match r {
            Some(s) => extension_spec(path@) == Some(s@),
            None => extension_spec(path@) is None,
        },
{
    match file_name(path) {
        Some(n) => match rfind_char(n.as_slice(), '.') {
            Some(i) => {
                if i == 0 {
                    None
                } else {
                    proof {
                        lemma_rfind_bounds(n@, '.');
                    }
                    let mut out: Vec<char> = Vec::new();
                    let mut k: usize = i + 1;
                    while k < n.len()
                        invariant
                            i < k <= n@.len(),
                            out@ == n@.subrange(i + 1, k as int),
                        decreases n@.len() - k,
                    {
                        out.push(n[k]);
                        k = k + 1;
                    }
                    Some(from_chars(out.as_slice()))
                }
            },
            None => None,
        },
        None => None,
    }
}

} // verus!
