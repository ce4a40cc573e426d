//! Character-level string helpers shared by the parsers and formatters.
//!
//! Strings are modelled by their views, `Seq<char>`.  Every helper here is
//! stated against a spec function that says what the corresponding `str`
//! operation of the standard library computes.

use vstd::prelude::*;

verus! {

broadcast use vstd::string::group_string_axioms;

/// Appends one character to a `String` (`String::push`).
#[verifier::external_body]
pub(crate) fn push_char(s: &mut String, c: char)
    ensures
        final(s)@ == old(s)@.push(c),
{
    s.push(c);
}

/// The characters of `s`, in order.
pub fn to_chars(s: &str) -> (r: Vec<char>)
    ensures
        r@ == s@,
{
    let mut out: Vec<char> = Vec::new();
    for c in it: s.chars()
        invariant
            out@ == it.seq().take(it.index() as int),
    {
        out.push(c);
    }
    out
}

/// A `String` holding exactly the characters of `cs`.
pub fn from_chars(cs: &[char]) -> (r: String)
    ensures
        r@ == cs@,
{
    let mut out = String::new();
    let mut i: usize = 0;
    while i < cs.len()
        invariant
            i <= cs@.len(),
            out@ == cs@.subrange(0, i as int),
        decreases cs@.len() - i,
    {
        push_char(&mut out, cs[i]);
        i = i + 1;
    }
    out
}

/// A fresh `String` with the characters of `s`.
pub fn owned(s: &str) -> (r: String)
    ensures
        r@ == s@,
{
    s.to_owned()
}

/// Appends all characters of `tail` to `s`.
pub fn push_all(s: &mut String, tail: &str)
    ensures
        final(s)@ == old(s)@ + tail@,
{
    let cs = to_chars(tail);
    let mut i: usize = 0;
    while i < cs.len()
        invariant
            i <= cs@.len(),
            cs@ == tail@,
            s@ == old(s)@ + cs@.subrange(0, i as int),
        decreases cs@.len() - i,
    {
        push_char(s, cs[i]);
        i = i + 1;
    }
    assert(cs@.subrange(0, cs@.len() as int) =~= cs@);
}

/// Whether two character slices are equal.
pub fn chars_eq(a: &[char], b: &[char]) -> (r: bool)
    ensures
        r == (a@ == b@),
{
    if a.len() != b.len() {
        return false;
    }
    let mut i: usize = 0;
    while i < a.len()
        invariant
            a@.len() == b@.len(),
            i <= a@.len(),
            forall|j: int| 0 <= j < i ==> a@[j] == b@[j],
        decreases a@.len() - i,
    {
        if a[i] != b[i] {
            return false;
        }
        i = i + 1;
    }
    assert(a@ =~= b@);
    true
}

/// Whether two strings hold the same characters.
pub fn str_eq(a: &str, b: &str) -> (r: bool)
    ensures
        r == (a@ == b@),
{
    let ca = to_chars(a);
    let cb = to_chars(b);
    chars_eq(ca.as_slice(), cb.as_slice())
}

/// Unicode `White_Space`, the set that `char::is_whitespace` tests.
pub open spec fn is_ws(c: char) -> bool {
    let u = c as u32;
    ||| 0x9 <= u <= 0xd
    ||| u == 0x20
    ||| u == 0x85
    ||| u == 0xa0
    ||| u == 0x1680
    ||| 0x2000 <= u <= 0x200a
    ||| u == 0x2028
    ||| u == 0x2029
    ||| u == 0x202f
    ||| u == 0x205f
    ||| u == 0x3000
}

/// `char::is_whitespace`.
pub fn is_whitespace(c: char) -> (r: bool)
    ensures
        r == is_ws(c),
{
    let u = c as u32;
    (0x9 <= u && u <= 0xd) || u == 0x20 || u == 0x85 || u == 0xa0 || u == 0x1680 || (0x2000 <= u
        && u <= 0x200a) || u == 0x2028 || u == 0x2029 || u == 0x202f || u == 0x205f || u == 0x3000
}

/// `str::trim_start`: drops leading whitespace.
pub open spec fn trim_start_spec(s: Seq<char>) -> Seq<char>
    decreases s.len(),
{
    if s.len() > 0 && is_ws(s[0]) {
        trim_start_spec(s.drop_first())
    } else {
        s
    }
}

/// `str::trim_end`: drops trailing whitespace.
pub open spec fn trim_end_spec(s: Seq<char>) -> Seq<char>
    decreases s.len(),
{
    if s.len() > 0 && is_ws(s.last()) {
        trim_end_spec(s.drop_last())
    } else {
        s
    }
}

/// `str::trim`: drops leading and trailing whitespace.
pub open spec fn trim_spec(s: Seq<char>) -> Seq<char> {
    trim_end_spec(trim_start_spec(s))
}

proof fn lemma_trim_start_first(s: Seq<char>)
    ensures
        trim_start_spec(s).len() == 0 || !is_ws(trim_start_spec(s)[0]),
    decreases s.len(),
{
    if s.len() > 0 && is_ws(s[0]) {
        lemma_trim_start_first(s.drop_first());
    }
}

proof fn lemma_trim_end_prefix(s: Seq<char>)
    ensures
        trim_end_spec(s).len() <= s.len(),
        trim_end_spec(s) == s.subrange(0, trim_end_spec(s).len() as int),
        trim_end_spec(s).len() == 0 || !is_ws(trim_end_spec(s).last()),
    decreases s.len(),
{
    if s.len() > 0 && is_ws(s.last()) {
        lemma_trim_end_prefix(s.drop_last());
        let r = trim_end_spec(s.drop_last());
        assert(s.subrange(0, r.len() as int) =~= s.drop_last().subrange(0, r.len() as int));
    } else {
        assert(s.subrange(0, s.len() as int) =~= s);
    }
}

/// Trimming leaves no whitespace at either end, so trimming again changes
/// nothing.
pub proof fn trim_law(s: Seq<char>)
    ensures
        trim_spec(s).len() == 0 || (!is_ws(trim_spec(s)[0]) && !is_ws(trim_spec(s).last())),
        trim_spec(trim_spec(s)) == trim_spec(s),
{
    let a = trim_start_spec(s);
    lemma_trim_start_first(a);
    lemma_trim_start_first(s);
    lemma_trim_end_prefix(a);
    let r = trim_end_spec(a);
    if r.len() > 0 {
        assert(r[0] == a[0]);
        assert(trim_start_spec(r) == r);
        assert(trim_end_spec(r) == r);
    }
}

proof fn lemma_trim_start_step(s: Seq<char>, i: int)
    requires
        0 <= i < s.len(),
        is_ws(s[i]),
    ensures
        trim_start_spec(s.subrange(i, s.len() as int)) == trim_start_spec(
            s.subrange(i + 1, s.len() as int),
        ),
{
    assert(s.subrange(i, s.len() as int).drop_first() =~= s.subrange(i + 1, s.len() as int));
}

proof fn lemma_trim_end_step(s: Seq<char>, j: int)
    requires
        0 < j <= s.len(),
        is_ws(s[j - 1]),
    ensures
        trim_end_spec(s.subrange(0, j)) == trim_end_spec(s.subrange(0, j - 1)),
{
    assert(s.subrange(0, j).drop_last() =~= s.subrange(0, j - 1));
}

/// Bounds `(b, e)` with `cs[b..e]` the trimmed text of `cs`.
pub fn trim_bounds(cs: &[char]) -> (r: (usize, usize))
    ensures
        r.0 <= r.1 <= cs@.len(),
        cs@.subrange(r.0 as int, r.1 as int) == trim_spec(cs@),
{
    let n = cs.len();
    let mut b: usize = 0;
    proof {
        assert(cs@.subrange(0, n as int) =~= cs@);
    }
    while b < n && is_whitespace(cs[b])
        invariant
            b <= n,
            n == cs@.len(),
            trim_start_spec(cs@) == trim_start_spec(cs@.subrange(b as int, n as int)),
        decreases n - b,
    {
        proof {
            lemma_trim_start_step(cs@, b as int);
        }
        b = b + 1;
    }
    let ghost t = cs@.subrange(b as int, n as int);
    assert(trim_start_spec(t) == t);
    let mut e: usize = n;
    proof {
        assert(t.subrange(0, (n - b) as int) =~= t);
    }
    while e > b && is_whitespace(cs[e - 1])
        invariant
            b <= e <= n,
            n == cs@.len(),
            t == cs@.subrange(b as int, n as int),
            trim_end_spec(t) == trim_end_spec(cs@.subrange(b as int, e as int)),
        decreases e,
    {
        proof {
            let u = cs@.subrange(b as int, e as int);
            lemma_trim_end_step(t, (e - b) as int);
            assert(t.subrange(0, (e - b) as int) =~= u);
            assert(t.subrange(0, (e - b - 1) as int) =~= cs@.subrange(b as int, e - 1));
            assert(u.drop_last() =~= cs@.subrange(b as int, e - 1));
        }
        e = e - 1;
    }
    (b, e)
}

/// `str::trim`.
pub fn trim(s: &str) -> (r: String)
    ensures
        r@ == trim_spec(s@),
{
    let cs = to_chars(s);
    let (b, e) = trim_bounds(cs.as_slice());
    let mut out = String::new();
    let mut i = b;
    while i < e
        invariant
            b <= i <= e <= cs@.len(),
            out@ == cs@.subrange(b as int, i as int),
        decreases e - i,
    {
        push_char(&mut out, cs[i]);
        i = i + 1;
    }
    out
}

/// Whether `c` is an ASCII decimal digit.
pub open spec fn is_digit(c: char) -> bool {
    '0' <= c <= '9'
}

/// The value of a decimal digit.
pub open spec fn digit_value(c: char) -> int {
    (c as int) - ('0' as int)
}

/// Whether every character of `s` is a decimal digit.
pub open spec fn all_digits(s: Seq<char>) -> bool {
    forall|i: int| 0 <= i < s.len() ==> is_digit(#[trigger] s[i])
}

/// The number that a string of decimal digits spells.
pub open spec fn digits_value(s: Seq<char>) -> nat
    decreases s.len(),
{
    if s.len() == 0 {
        0
    } else {
        (digits_value(s.drop_last()) * 10 + digit_value(s.last())) as nat
    }
}

/// What `u64::from_str` / `u32::from_str` give: an optional `+`, then one or
/// more decimal digits whose value is at most `max`.
pub open spec fn parse_unsigned_spec(s: Seq<char>, max: nat) -> Option<nat> {
    let t = if s.len() > 0 && s[0] == '+' {
        s.drop_first()
    } else {
        s
    };
    if t.len() > 0 && all_digits(t) && digits_value(t) <= max {
        Some(digits_value(t))
    } else {
        None
    }
}

proof fn lemma_digits_value_monotone(s: Seq<char>, k: int)
    requires
        0 <= k <= s.len(),
        all_digits(s),
    ensures
        digits_value(s.subrange(0, k)) <= digits_value(s),
    decreases s.len() - k,
{
    if k < s.len() {
        lemma_digits_value_monotone(s, k + 1);
        assert(s.subrange(0, k + 1).drop_last() =~= s.subrange(0, k));
        assert(is_digit(s[k]));
    } else {
        assert(s.subrange(0, k) =~= s);
    }
}

/// `u64::from_str` on a character slice.
pub fn parse_u64(cs: &[char]) -> (r: Option<u64>)
    ensures
        r matches Some(v) ==> parse_unsigned_spec(cs@, u64::MAX as nat) == Some(v as nat),
        r is None ==> parse_unsigned_spec(cs@, u64::MAX as nat) is None,
{
    let n = cs.len();
    let start: usize = if n > 0 && cs[0] == '+' {
        1
    } else {
        0
    };
    let ghost t = if cs@.len() > 0 && cs@[0] == '+' {
        cs@.drop_first()
    } else {
        cs@
    };
    assert(t =~= cs@.subrange(start as int, n as int));
    assert(parse_unsigned_spec(cs@, u64::MAX as nat) == (if t.len() > 0 && all_digits(t)
        && digits_value(t) <= u64::MAX as nat {
        Some(digits_value(t))
    } else {
        None
    }));
    if start == n {
        return None;
    }
    let mut acc: u64 = 0;
    let mut i: usize = start;
    assert(t.subrange(0, 0) =~= Seq::<char>::empty());
    while i < n
        invariant
            start <= i <= n,
            n == cs@.len(),
            t =~= cs@.subrange(start as int, n as int),
            parse_unsigned_spec(cs@, u64::MAX as nat) == (if t.len() > 0 && all_digits(t)
                && digits_value(t) <= u64::MAX as nat {
                Some(digits_value(t))
            } else {
                None
            }),
            forall|j: int| start <= j < i ==> is_digit(#[trigger] cs@[j]),
            acc as nat == digits_value(t.subrange(0, (i - start) as int)),
        decreases n - i,
    {
        let c = cs[i];
        if !('0' <= c && c <= '9') {
            assert(t[(i - start) as int] == cs@[i as int]);
            assert(!is_digit(t[(i - start) as int]));
            assert(!all_digits(t));
            return None;
        }
        let d: u64 = ((c as u32) - ('0' as u32)) as u64;
        let ghost k = (i - start) as int;
        assert(t[k] == cs@[i as int]);
        assert(t.subrange(0, k + 1).drop_last() =~= t.subrange(0, k));
        assert(digits_value(t.subrange(0, k + 1)) == acc * 10 + d);
        let next = acc.checked_mul(10);
        let next = match next {
            Some(m) => m.checked_add(d),
            None => None,
        };
        match next {
            Some(v) => {
                acc = v;
            },
            None => {
                proof {
                    if all_digits(t) {
                        lemma_digits_value_monotone(t, k + 1);
                    }
                }
                return None;
            },
        }
        i = i + 1;
    }
    assert(t.subrange(0, (n - start) as int) =~= t);
    assert(all_digits(t));
    Some(acc)
}

/// `u32::from_str` on a character slice.
pub fn parse_u32(cs: &[char]) -> (r: Option<u32>)
    ensures
        r matches Some(v) ==> parse_unsigned_spec(cs@, u32::MAX as nat) == Some(v as nat),
        r is None ==> parse_unsigned_spec(cs@, u32::MAX as nat) is None,
{
    match parse_u64(cs) {
        Some(v) => {
            if v <= 0xffff_ffff {
                Some(v as u32)
            } else {
                None
            }
        },
        None => {
            proof {
                let t = if cs@.len() > 0 && cs@[0] == '+' {
                    cs@.drop_first()
                } else {
                    cs@
                };
                if t.len() > 0 && all_digits(t) && digits_value(t) <= u32::MAX as nat {
                    assert(digits_value(t) <= u64::MAX as nat);
                }
            }
            None
        },
    }
}

/// The character of a decimal digit.
pub open spec fn digit_char(d: nat) -> char {
    (('0' as nat) + d) as char
}

/// The decimal text of a natural number, without sign or leading zeros.
pub open spec fn decimal_spec(n: nat) -> Seq<char>
    decreases n,
{
    if n < 10 {
        seq![digit_char(n)]
    } else {
        decimal_spec(n / 10).push(digit_char(n % 10))
    }
}

/// A decimal text is a nonempty run of digits spelling its number.
pub proof fn lemma_decimal(n: nat)
    ensures
        decimal_spec(n).len() > 0,
        all_digits(decimal_spec(n)),
        digits_value(decimal_spec(n)) == n,
    decreases n,
{
    if n < 10 {
        let s = decimal_spec(n);
        assert(s.drop_last() =~= Seq::<char>::empty());
        assert(s.last() == digit_char(n));
        assert(digit_value(digit_char(n)) == n);
        assert(digits_value(s) == (digits_value(s.drop_last()) * 10 + digit_value(s.last())) as nat);
    } else {
        lemma_decimal(n / 10);
        let s = decimal_spec(n);
        assert(s.drop_last() =~= decimal_spec(n / 10));
        assert(digit_value(digit_char(n % 10)) == n % 10);
        assert(s.last() == digit_char(n % 10));
        assert(digits_value(s) == (digits_value(s.drop_last()) * 10 + digit_value(s.last())) as nat);
        assert((n / 10) * 10 + n % 10 == n);
        assert forall|i: int| 0 <= i < s.len() implies is_digit(#[trigger] s[i]) by {
            if i < s.len() - 1 {
                assert(s[i] == decimal_spec(n / 10)[i]);
            }
        }
    }
}

/// A number written in decimal reads back as itself.
pub proof fn decimal_read_back_law(n: nat, max: nat)
    requires
        n <= max,
    ensures
        parse_unsigned_spec(decimal_spec(n), max) == Some(n),
{
    lemma_decimal(n);
    assert(is_digit(decimal_spec(n)[0]));
}

/// The decimal text of an integer, `-` first when negative
/// (what `i64::to_string` gives).
pub open spec fn signed_decimal_spec(n: int) -> Seq<char> {
    if n < 0 {
        seq!['-'] + decimal_spec((-n) as nat)
    } else {
        decimal_spec(n as nat)
    }
}

/// The decimal text of `n` (what `u64::to_string` gives).
pub fn decimal_u64(n: u64) -> (r: String)
    ensures
        r@ == decimal_spec(n as nat),
{
    let mut rest = n;
    let mut suffix: Vec<char> = Vec::new();
    while rest >= 10
        invariant
            decimal_spec(n as nat) == decimal_spec(rest as nat) + suffix@,
        decreases rest,
    {
        let d = rest % 10;
        let c = ((('0' as u32) + (d as u32)) as u8) as char;
        assert(c == digit_char(d as nat));
        proof {
            assert(decimal_spec(rest as nat) == decimal_spec((rest / 10) as nat).push(
                digit_char((rest % 10) as nat),
            ));
        }
        let ghost prev = suffix@;
        suffix.insert(0, c);
        assert(suffix@ =~= seq![c] + prev);
        assert(decimal_spec(rest as nat) + prev =~= decimal_spec((rest / 10) as nat) + suffix@);
        rest = rest / 10;
    }
    let c0 = ((('0' as u32) + (rest as u32)) as u8) as char;
    assert(c0 == digit_char(rest as nat));
    let mut out = String::new();
    push_char(&mut out, c0);
    let mut i: usize = 0;
    while i < suffix.len()
        invariant
            i <= suffix@.len(),
            out@ == seq![c0] + suffix@.subrange(0, i as int),
        decreases suffix@.len() - i,
    {
        push_char(&mut out, suffix[i]);
        assert(suffix@.subrange(0, i + 1) =~= suffix@.subrange(0, i as int).push(suffix@[i as int]));
        i = i + 1;
    }
    assert(suffix@.subrange(0, suffix@.len() as int) =~= suffix@);
    assert(decimal_spec(rest as nat) =~= seq![c0]);
    out
}

/// The decimal text of `n` (what `i64::to_string` gives).
pub fn decimal_i64(n: i64) -> (r: String)
    ensures
        r@ == signed_decimal_spec(n as int),
{
    if n < 0 {
        let m: u64 = ((-(n + 1)) as u64) + 1;
        let digits = decimal_u64(m);
        let mut out = String::new();
        push_char(&mut out, '-');
        push_all(&mut out, digits.as_str());
        out
    } else {
        decimal_u64(n as u64)
    }
}

/// Views of a sequence of character vectors.
pub open spec fn views(v: Seq<Vec<char>>) -> Seq<Seq<char>> {
    v.map_values(|x: Vec<char>| x@)
}

/// Left-to-right scan that cuts `s` at every `sep`: the finished pieces and
/// the piece still open.
pub open spec fn split_scan(s: Seq<char>, sep: char) -> (Seq<Seq<char>>, Seq<char>)
    decreases s.len(),
{
    if s.len() == 0 {
        (seq![], seq![])
    } else {
        let (done, cur) = split_scan(s.drop_last(), sep);
        if s.last() == sep {
            (done.push(cur), seq![])
        } else {
            (done, cur.push(s.last()))
        }
    }
}

/// Appending text without the separator extends the open piece.
pub proof fn lemma_scan_append(x: Seq<char>, y: Seq<char>, sep: char)
    requires
        forall|i: int| 0 <= i < y.len() ==> y[i] != sep,
    ensures
        split_scan(x + y, sep) == (split_scan(x, sep).0, split_scan(x, sep).1 + y),
    decreases y.len(),
{
    if y.len() == 0 {
        assert(x + y =~= x);
        assert(split_scan(x, sep).1 + y =~= split_scan(x, sep).1);
    } else {
        lemma_scan_append(x, y.drop_last(), sep);
        assert((x + y).drop_last() =~= x + y.drop_last());
        assert((x + y).last() == y.last());
        assert(split_scan(x, sep).1 + y.drop_last() + seq![y.last()] =~= split_scan(x, sep).1 + y);
    }
}

/// `str::split(sep)` for a single-character separator.
pub open spec fn split_spec(s: Seq<char>, sep: char) -> Seq<Seq<char>> {
    split_scan(s, sep).0.push(split_scan(s, sep).1)
}

/// Text joined by a separator it does not hold splits back into its items.
pub proof fn lemma_split_join(items: Seq<Seq<char>>, sep: char)
    requires
        items.len() > 0,
        forall|k: int, i: int| 0 <= k < items.len() && 0 <= i < items[k].len() ==> items[k][i] != sep,
    ensures
        split_spec(join_spec(items, seq![sep]), sep) == items,
    decreases items.len(),
{
    let e = Seq::<char>::empty();
    let last = items.last();
    assert(forall|i: int| 0 <= i < last.len() ==> last[i] != sep) by {
        assert(last == items[items.len() - 1]);
    }
    if items.len() == 1 {
        lemma_scan_append(e, items[0], sep);
        assert(e + items[0] =~= items[0]);
        assert(Seq::<Seq<char>>::empty().push(items[0]) =~= items);
    } else {
        let pre = items.drop_last();
        assert forall|k: int, i: int| 0 <= k < pre.len() && 0 <= i < pre[k].len() implies pre[k][i] != sep by {
            assert(pre[k] == items[k]);
        }
        lemma_split_join(pre, sep);
        let head = join_spec(pre, seq![sep]);
        let hs = head + seq![sep];
        assert(hs.drop_last() =~= head);
        assert(split_scan(hs, sep) == (split_scan(head, sep).0.push(split_scan(head, sep).1), e));
        lemma_scan_append(hs, last, sep);
        assert(e + last =~= last);
        assert(join_spec(items, seq![sep]) == hs + last);
        assert(pre.push(last) =~= items);
    }
}


/// Drops one trailing carriage return.
pub open spec fn strip_cr(l: Seq<char>) -> Seq<char> {
    if l.len() > 0 && l.last() == '\r' {
        l.drop_last()
    } else {
        l
    }
}

/// `str::lines`: pieces between `\n`, a `\r` before a `\n` dropped, and no
/// empty piece after a final `\n`.
pub open spec fn lines_spec(s: Seq<char>) -> Seq<Seq<char>> {
    let (done, cur) = split_scan(s, '\n');
    done.map_values(|l: Seq<char>| strip_cr(l)) + if cur.len() > 0 {
        seq![cur]
    } else {
        seq![]
    }
}

/// Cuts `cs` at every `sep`, returning the finished pieces and the open one
/// (see `split_scan`).
pub fn split_pieces(cs: &[char], sep: char) -> (r: (Vec<Vec<char>>, Vec<char>))
    ensures
        (views(r.0@), r.1@) == split_scan(cs@, sep),
{
    let mut done: Vec<Vec<char>> = Vec::new();
    let mut cur: Vec<char> = Vec::new();
    let mut i: usize = 0;
    while i < cs.len()
        invariant
            i <= cs@.len(),
            (views(done@), cur@) == split_scan(cs@.subrange(0, i as int), sep),
        decreases cs@.len() - i,
    {
        let c = cs[i];
        proof {
            assert(cs@.subrange(0, i + 1).drop_last() =~= cs@.subrange(0, i as int));
        }
        if c == sep {
            let ghost before = done@;
            let piece = cur;
            cur = Vec::new();
            done.push(piece);
            assert(views(done@) =~= views(before).push(piece@));
        } else {
            cur.push(c);
        }
        i = i + 1;
    }
    assert(cs@.subrange(0, cs@.len() as int) =~= cs@);
    (done, cur)
}

/// `str::split(sep)`.
pub fn split_char(cs: &[char], sep: char) -> (r: Vec<Vec<char>>)
    ensures
        views(r@) == split_spec(cs@, sep),
{
    let (mut done, cur) = split_pieces(cs, sep);
    let ghost before = done@;
    done.push(cur);
    assert(views(done@) =~= views(before).push(cur@));
    done
}

/// `str::lines`.
pub fn lines(cs: &[char]) -> (r: Vec<Vec<char>>)
    ensures
        views(r@) == lines_spec(cs@),
{
    let (done, cur) = split_pieces(cs, '\n');
    let ghost sc = split_scan(cs@, '\n');
    let mut out: Vec<Vec<char>> = Vec::new();
    let mut i: usize = 0;
    while i < done.len()
        invariant
            i <= done@.len(),
            views(done@) == sc.0,
            views(out@) =~= sc.0.subrange(0, i as int).map_values(|l: Seq<char>| strip_cr(l)),
        decreases done@.len() - i,
    {
        let piece = &done[i];
        let n = piece.len();
        let mut line: Vec<char> = Vec::new();
        let keep = if n > 0 && piece[n - 1] == '\r' {
            n - 1
        } else {
            n
        };
        let mut j: usize = 0;
        while j < keep
            invariant
                j <= keep <= piece@.len(),
                line@ == piece@.subrange(0, j as int),
            decreases keep - j,
        {
            line.push(piece[j]);
            j = j + 1;
        }
        assert(sc.0[i as int] == piece@);
        assert(line@ =~= strip_cr(piece@));
        let ghost before = out@;
        out.push(line);
        assert(views(out@) =~= views(before).push(line@));
        assert(sc.0.subrange(0, i + 1) =~= sc.0.subrange(0, i as int).push(sc.0[i as int]));
        i = i + 1;
    }
    assert(sc.0.subrange(0, done@.len() as int) =~= sc.0);
    if cur.len() > 0 {
        let ghost before = out@;
        out.push(cur);
        assert(views(out@) =~= views(before).push(cur@));
    }
    out
}

/// Left-to-right scan of `str::split_whitespace`: finished words and the open
/// word.
pub open spec fn ws_scan(s: Seq<char>) -> (Seq<Seq<char>>, Seq<char>)
    decreases s.len(),
{
    if s.len() == 0 {
        (seq![], seq![])
    } else {
        let (done, cur) = ws_scan(s.drop_last());
        if is_ws(s.last()) {
            if cur.len() > 0 {
                (done.push(cur), seq![])
            } else {
                (done, cur)
            }
        } else {
            (done, cur.push(s.last()))
        }
    }
}

/// `str::split_whitespace`: the maximal runs of non-whitespace characters.
pub open spec fn split_whitespace_spec(s: Seq<char>) -> Seq<Seq<char>> {
    let (done, cur) = ws_scan(s);
    if cur.len() > 0 {
        done.push(cur)
    } else {
        done
    }
}

/// `str::split_whitespace`.
pub fn split_whitespace(cs: &[char]) -> (r: Vec<Vec<char>>)
    ensures
        views(r@) == split_whitespace_spec(cs@),
{
    let mut done: Vec<Vec<char>> = Vec::new();
    let mut cur: Vec<char> = Vec::new();
    let mut i: usize = 0;
    while i < cs.len()
        invariant
            i <= cs@.len(),
            (views(done@), cur@) == ws_scan(cs@.subrange(0, i as int)),
        decreases cs@.len() - i,
    {
        let c = cs[i];
        proof {
            assert(cs@.subrange(0, i + 1).drop_last() =~= cs@.subrange(0, i as int));
        }
        if is_whitespace(c) {
            if cur.len() > 0 {
                let ghost before = done@;
                let piece = cur;
                cur = Vec::new();
                done.push(piece);
                assert(views(done@) =~= views(before).push(piece@));
            }
        } else {
            cur.push(c);
        }
        i = i + 1;
    }
    assert(cs@.subrange(0, cs@.len() as int) =~= cs@);
    if cur.len() > 0 {
        let ghost before = done@;
        done.push(cur);
        assert(views(done@) =~= views(before).push(cur@));
    }
    done
}

/// Index of the first `c` in `s`.
pub open spec fn find_spec(s: Seq<char>, c: char) -> Option<int>
    decreases s.len(),
{
    if s.len() == 0 {
        None
    } else {
        match find_spec(s.drop_last(), c) {
            Some(i) => Some(i),
            None => if s.last() == c {
                Some(s.len() - 1)
            } else {
                None
            },
        }
    }
}

/// Index of the first `c` in `cs`.
pub fn find_char(cs: &[char], c: char) -> (r: Option<usize>)
    ensures
        r matches Some(i) ==> find_spec(cs@, c) == Some(i as int) && i < cs@.len() && cs@[i as int]
            == c,
        r is None ==> find_spec(cs@, c) is None,
{
    let mut i: usize = 0;
    while i < cs.len()
        invariant
            i <= cs@.len(),
            find_spec(cs@.subrange(0, i as int), c) is None,
        decreases cs@.len() - i,
    {
        assert(cs@.subrange(0, i + 1).drop_last() =~= cs@.subrange(0, i as int));
        if cs[i] == c {
            proof {
                lemma_find_prefix(cs@, c, i + 1);
            }
            return Some(i);
        }
        i = i + 1;
    }
    assert(cs@.subrange(0, cs@.len() as int) =~= cs@);
    None
}

/// A match in a prefix is the first match of the whole sequence.
pub proof fn lemma_find_prefix(s: Seq<char>, c: char, k: int)
    requires
        0 <= k <= s.len(),
        find_spec(s.subrange(0, k), c) is Some,
    ensures
        find_spec(s, c) == find_spec(s.subrange(0, k), c),
    decreases s.len() - k,
{
    if k < s.len() {
        assert(s.subrange(0, k + 1).drop_last() =~= s.subrange(0, k));
        lemma_find_prefix(s, c, k + 1);
    } else {
        assert(s.subrange(0, k) =~= s);
    }
}

/// `str::replace(pat, rep)` for a non-empty pattern: every non-overlapping
/// occurrence, scanning left to right, is replaced.
pub open spec fn replace_spec(s: Seq<char>, pat: Seq<char>, rep: Seq<char>) -> Seq<char>
    decreases s.len(),
{
    if pat.len() == 0 || s.len() < pat.len() {
        s
    } else if s.subrange(0, pat.len() as int) == pat {
        rep + replace_spec(s.subrange(pat.len() as int, s.len() as int), pat, rep)
    } else {
        seq![s[0]] + replace_spec(s.drop_first(), pat, rep)
    }
}

/// Whether `pat` occurs in `cs` at position `i`.
pub fn matches_at(cs: &[char], i: usize, pat: &[char]) -> (r: bool)
    requires
        i <= cs@.len(),
    ensures
        r == (i + pat@.len() <= cs@.len() && cs@.subrange(i as int, i + pat@.len()) == pat@),
{
    if pat.len() > cs.len() - i {
        return false;
    }
    let mut j: usize = 0;
    while j < pat.len()
        invariant
            j <= pat@.len(),
            i + pat@.len() <= cs@.len(),
            cs@.len() == cs.len(),
            forall|k: int| 0 <= k < j ==> cs@[i + k] == pat@[k],
        decreases pat@.len() - j,
    {
        if cs[i + j] != pat[j] {
            assert(cs@.subrange(i as int, i + pat@.len())[j as int] != pat@[j as int]);
            return false;
        }
        j = j + 1;
    }
    assert(cs@.subrange(i as int, i + pat@.len()) =~= pat@);
    true
}

/// `str::starts_with` with a string pattern.
pub fn starts_with(s: &str, prefix: &str) -> (r: bool)
    ensures
        r == (prefix@.len() <= s@.len() && s@.subrange(0, prefix@.len() as int) == prefix@),
{
    let cs = to_chars(s);
    let ps = to_chars(prefix);
    matches_at(cs.as_slice(), 0, ps.as_slice())
}

/// The first `n` characters of `s`, or all of it when it is shorter.
pub open spec fn take_spec(s: Seq<char>, n: nat) -> Seq<char> {
    if s.len() <= n {
        s
    } else {
        s.subrange(0, n as int)
    }
}

/// `s.chars().take(n).collect::<String>()`.
pub fn take_chars(s: &str, n: usize) -> (r: String)
    ensures
        r@ == take_spec(s@, n as nat),
{
    let cs = to_chars(s);
    let mut out = String::new();
    let mut i: usize = 0;
    while i < cs.len() && i < n
        invariant
            i <= cs@.len(),
            i <= n,
            cs@ == s@,
            out@ == s@.subrange(0, i as int),
        decreases cs@.len() - i,
    {
        push_char(&mut out, cs[i]);
        i = i + 1;
        assert(out@ =~= s@.subrange(0, i as int));
    }
    assert(out@ =~= take_spec(s@, n as nat));
    out
}

/// `str::replace(pat, rep)` on character slices.
pub fn replace_all(cs: &[char], pat: &[char], rep: &[char]) -> (r: Vec<char>)
    requires
        pat@.len() > 0,
    ensures
        r@ == replace_spec(cs@, pat@, rep@),
{
    let n = cs.len();
    let mut out: Vec<char> = Vec::new();
    let mut i: usize = 0;
    assert(cs@.subrange(0, n as int) =~= cs@);
    while i < n
        invariant
            i <= n,
            n == cs@.len(),
            pat@.len() > 0,
            replace_spec(cs@, pat@, rep@) == out@ + replace_spec(
                cs@.subrange(i as int, n as int),
                pat@,
                rep@,
            ),
        decreases n - i,
    {
        let ghost rest = cs@.subrange(i as int, n as int);
        if matches_at(cs, i, pat) {
            assert(rest.subrange(0, pat@.len() as int) =~= cs@.subrange(i as int, i + pat@.len()));
            assert(rest.subrange(pat@.len() as int, rest.len() as int) =~= cs@.subrange(
                i + pat@.len(),
                n as int,
            ));
            let mut j: usize = 0;
            let ghost before = out@;
            while j < rep.len()
                invariant
                    j <= rep@.len(),
                    out@ == before + rep@.subrange(0, j as int),
                decreases rep@.len() - j,
            {
                out.push(rep[j]);
                j = j + 1;
            }
            assert(rep@.subrange(0, rep@.len() as int) =~= rep@);
            assert(out@ == before + rep@);
            assert(before + (rep@ + replace_spec(
                cs@.subrange(i + pat@.len(), n as int),
                pat@,
                rep@,
            )) =~= out@ + replace_spec(cs@.subrange(i + pat@.len(), n as int), pat@, rep@));
            i = i + pat.len();
        } else {
            proof {
                if rest.len() >= pat@.len() {
                    assert(rest.subrange(0, pat@.len() as int) =~= cs@.subrange(
                        i as int,
                        i + pat@.len(),
                    ));
                }
                assert(rest.drop_first() =~= cs@.subrange(i + 1, n as int));
                assert(rest[0] == cs@[i as int]);
            }
            let ghost before = out@;
            out.push(cs[i]);
            assert(before + (seq![cs@[i as int]] + replace_spec(
                cs@.subrange(i + 1, n as int),
                pat@,
                rep@,
            )) =~= out@ + replace_spec(cs@.subrange(i + 1, n as int), pat@, rep@));
            i = i + 1;
        }
    }
    assert(cs@.subrange(n as int, n as int) =~= Seq::<char>::empty());
    assert(out@ + Seq::<char>::empty() =~= out@);
    out
}

/// `[..].join(sep)` over character sequences.
pub open spec fn join_spec(items: Seq<Seq<char>>, sep: Seq<char>) -> Seq<char>
    decreases items.len(),
{
    if items.len() == 0 {
        seq![]
    } else if items.len() == 1 {
        items[0]
    } else {
        join_spec(items.drop_last(), sep) + sep + items.last()
    }
}

/// Views of a sequence of strings.
pub open spec fn string_views(v: Seq<String>) -> Seq<Seq<char>> {
    v.map_values(|x: String| x@)
}

/// `[String]::join(sep)`.
pub fn join(items: &[String], sep: &str) -> (r: String)
    ensures
        r@ == join_spec(string_views(items@), sep@),
{
    let mut out = String::new();
    let mut i: usize = 0;
    while i < items.len()
        invariant
            i <= items@.len(),
            out@ == join_spec(string_views(items@.subrange(0, i as int)), sep@),
        decreases items@.len() - i,
    {
        let ghost pre = string_views(items@.subrange(0, i as int));
        let ghost post = string_views(items@.subrange(0, i + 1));
        assert(post.drop_last() =~= pre);
        assert(post.last() == items@[i as int]@);
        if i > 0 {
            push_all(&mut out, sep);
        } else {
            assert(post =~= seq![items@[0]@]);
        }
        push_all(&mut out, items[i].as_str());
        i = i + 1;
    }
    assert(items@.subrange(0, items@.len() as int) =~= items@);
    out
}

} // verus!
