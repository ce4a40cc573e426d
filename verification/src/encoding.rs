//! UTF-8 encoding of characters, percent-encoding and hexadecimal text.

use vstd::prelude::*;
use vstd::utf8::*;
use crate::text::{push_char, to_chars};

verus! {

broadcast use vstd::utf8::char_is_scalar;

/// Byte count of one character in UTF-8.
pub open spec fn char_utf8_len(c: char) -> nat {
    encode_scalar(c as u32).len()
}

/// The UTF-8 bytes of `c`.
pub fn encode_char(c: char) -> (r: Vec<u8>)
    ensures
        r@ == encode_scalar(c as u32),
{
    let u = c as u32;
    let mut out: Vec<u8> = Vec::new();
    if u <= 0x7f {
        out.push((u & 0x7F) as u8);
    } else if u <= 0x7ff {
        out.push(0xC0 | ((u >> 6) & 0x1F) as u8);
        out.push(0x80 | (u & 0x3F) as u8);
    } else if u <= 0xffff {
        out.push(0xE0 | ((u >> 12) & 0x0F) as u8);
        out.push(0x80 | ((u >> 6) & 0x3F) as u8);
        out.push(0x80 | (u & 0x3F) as u8);
    } else {
        out.push(0xF0 | ((u >> 18) & 0x7) as u8);
        out.push(0x80 | ((u >> 12) & 0x3F) as u8);
        out.push(0x80 | ((u >> 6) & 0x3F) as u8);
        out.push(0x80 | (u & 0x3F) as u8);
    }
    assert(out@ =~= encode_scalar(u));
    out
}

/// The number of UTF-8 bytes of `c` (`char::len_utf8`).
pub fn char_len_utf8(c: char) -> (r: usize)
    ensures
        r == char_utf8_len(c),
        1 <= r <= 4,
{
    let u = c as u32;
    if u <= 0x7f {
        1
    } else if u <= 0x7ff {
        2
    } else if u <= 0xffff {
        3
    } else {
        4
    }
}

/// Characters that a URL query keeps as they are.
pub open spec fn is_unreserved(c: char) -> bool {
    ('a' <= c <= 'z') || ('A' <= c <= 'Z') || ('0' <= c <= '9') || c == '-' || c == '_' || c
        == '.' || c == '~'
}

/// Upper-case hexadecimal digit for a value below 16.
pub open spec fn hex_upper(d: nat) -> char {
    if d < 10 {
        (('0' as nat) + d) as char
    } else {
        (('A' as nat) + d - 10) as char
    }
}

/// Lower-case hexadecimal digit for a value below 16.
pub open spec fn hex_lower(d: nat) -> char {
    if d < 10 {
        (('0' as nat) + d) as char
    } else {
        (('a' as nat) + d - 10) as char
    }
}

/// `%XX` for every byte, upper-case hex.
pub open spec fn percent_bytes(bs: Seq<u8>) -> Seq<char>
    decreases bs.len(),
{
    if bs.len() == 0 {
        seq![]
    } else {
        percent_bytes(bs.drop_last()) + seq![
            '%',
            hex_upper((bs.last() / 16) as nat),
            hex_upper((bs.last() % 16) as nat),
        ]
    }
}

/// Percent-encoding of one character.
pub open spec fn url_encode_char(c: char) -> Seq<char> {
    if is_unreserved(c) {
        seq![c]
    } else {
        percent_bytes(encode_scalar(c as u32))
    }
}

/// Percent-encoding of a string: unreserved characters stay, every byte of
/// the UTF-8 encoding of any other character becomes `%XX`.
pub open spec fn url_encode_spec(s: Seq<char>) -> Seq<char>
    decreases s.len(),
{
    if s.len() == 0 {
        seq![]
    } else {
        url_encode_spec(s.drop_last()) + url_encode_char(s.last())
    }
}

/// Characters that can appear in percent-encoded text: unreserved ones,
/// `%`, and upper-case hexadecimal digits.
pub open spec fn url_safe_char(c: char) -> bool {
    is_unreserved(c) || c == '%' || ('0' <= c <= '9') || ('A' <= c <= 'F')
}

proof fn lemma_percent_safe(bs: Seq<u8>)
    ensures
        forall|i: int| 0 <= i < percent_bytes(bs).len() ==> url_safe_char(#[trigger] percent_bytes(bs)[i]),
    decreases bs.len(),
{
    if bs.len() > 0 {
        lemma_percent_safe(bs.drop_last());
        let pre = percent_bytes(bs.drop_last());
        let b = bs.last();
        let tail = seq!['%', hex_upper((b / 16) as nat), hex_upper((b % 16) as nat)];
        assert forall|i: int| 0 <= i < percent_bytes(bs).len() implies url_safe_char(#[trigger] percent_bytes(bs)[i]) by {
            if i >= pre.len() {
                assert(percent_bytes(bs)[i] == tail[i - pre.len()]);
            } else {
                assert(percent_bytes(bs)[i] == pre[i]);
            }
        }
    }
}

/// Percent-encoding keeps a text made of unreserved characters as it is,
/// encodes a text piece by piece (`a + b` gives the encodings of `a` and `b`
/// one after the other), and gives only unreserved characters, `%` and
/// upper-case hexadecimal digits.
pub proof fn url_encode_law(a: Seq<char>, b: Seq<char>)
    ensures
        (forall|i: int| 0 <= i < a.len() ==> is_unreserved(#[trigger] a[i])) ==> url_encode_spec(a) == a,
        url_encode_spec(a + b) == url_encode_spec(a) + url_encode_spec(b),
        forall|i: int| 0 <= i < url_encode_spec(a).len() ==> url_safe_char(#[trigger] url_encode_spec(a)[i]),
    decreases a.len() + b.len(),
{
    if b.len() > 0 {
        url_encode_law(a, b.drop_last());
        assert((a + b).drop_last() =~= a + b.drop_last());
        assert((a + b).last() == b.last());
        assert(url_encode_spec(a) + url_encode_spec(b.drop_last()) + url_encode_char(b.last()) =~= url_encode_spec(a)
            + (url_encode_spec(b.drop_last()) + url_encode_char(b.last())));
    } else {
        assert(a + b =~= a);
        assert(url_encode_spec(a) + url_encode_spec(b) =~= url_encode_spec(a));
    }
    if a.len() > 0 {
        url_encode_law(a.drop_last(), b);
        let pre = url_encode_spec(a.drop_last());
        let last = url_encode_char(a.last());
        assert(a.last() == a[a.len() - 1]);
        if !is_unreserved(a.last()) {
            lemma_percent_safe(encode_scalar(a.last() as u32));
        }
        assert forall|i: int| 0 <= i < url_encode_spec(a).len() implies url_safe_char(#[trigger] url_encode_spec(a)[i]) by {
            if i < pre.len() {
                assert(url_encode_spec(a)[i] == pre[i]);
            } else {
                assert(url_encode_spec(a)[i] == last[i - pre.len()]);
            }
        }
        if forall|i: int| 0 <= i < a.len() ==> is_unreserved(#[trigger] a[i]) {
            assert forall|i: int| 0 <= i < a.drop_last().len() implies is_unreserved(#[trigger] a.drop_last()[i]) by {
                assert(a.drop_last()[i] == a[i]);
            }
            assert(a.drop_last().push(a.last()) =~= a);
            assert(last == seq![a.last()]);
            assert(pre + last =~= a.drop_last() + seq![a.last()]);
        }
    }
}

/// Upper-case hex digit.
pub fn hex_digit_upper(d: u8) -> (r: char)
    requires
        d < 16,
    ensures
        r == hex_upper(d as nat),
{
    if d < 10 {
        ((('0' as u8) + d) as char)
    } else {
        ((('A' as u8) + d - 10) as char)
    }
}

/// Lower-case hex digit.
pub fn hex_digit_lower(d: u8) -> (r: char)
    requires
        d < 16,
    ensures
        r == hex_lower(d as nat),
{
    if d < 10 {
        ((('0' as u8) + d) as char)
    } else {
        ((('a' as u8) + d - 10) as char)
    }
}

/// Percent-encodes `s` for a URL query value.
pub fn urlencoded(s: &str) -> (r: String)
    ensures
        r@ == url_encode_spec(s@),
{
    let cs = to_chars(s);
    let mut out = String::new();
    let mut i: usize = 0;
    assert(cs@.subrange(0, 0) =~= Seq::<char>::empty());
    while i < cs.len()
        invariant
            i <= cs@.len(),
            cs@ == s@,
            out@ == url_encode_spec(cs@.subrange(0, i as int)),
        decreases cs@.len() - i,
    {
        let c = cs[i];
        assert(cs@.subrange(0, i + 1).drop_last() =~= cs@.subrange(0, i as int));
        if ('a' <= c && c <= 'z') || ('A' <= c && c <= 'Z') || ('0' <= c && c <= '9') || c == '-'
            || c == '_' || c == '.' || c == '~' {
            push_char(&mut out, c);
        } else {
            let bytes = encode_char(c);
            let ghost base = out@;
            let mut j: usize = 0;
            assert(bytes@.subrange(0, 0) =~= Seq::<u8>::empty());
            while j < bytes.len()
                invariant
                    j <= bytes@.len(),
                    out@ == base + percent_bytes(bytes@.subrange(0, j as int)),
                decreases bytes@.len() - j,
            {
                let b = bytes[j];
                assert(bytes@.subrange(0, j + 1).drop_last() =~= bytes@.subrange(0, j as int));
                push_char(&mut out, '%');
                push_char(&mut out, hex_digit_upper(b / 16));
                push_char(&mut out, hex_digit_upper(b % 16));
                j = j + 1;
            }
            assert(bytes@.subrange(0, bytes@.len() as int) =~= bytes@);
        }
        i = i + 1;
    }
    assert(cs@.subrange(0, cs@.len() as int) =~= cs@);
    out
}

} // verus!
