//! Durations written as a number and a unit: `30s`, `5m`, `2h`.

use std::time::Duration;

use vstd::prelude::*;

use crate::encoding::{char_len_utf8, char_utf8_len};
use crate::scheduler::error::{ScheduleError, ScheduleErrorView};
use crate::text::{
    decimal_read_back_law, decimal_spec, from_chars, is_digit, is_ws, lemma_decimal, parse_u64, parse_unsigned_spec,
    to_chars, trim, trim_spec,
};
use vstd::utf8::encode_scalar;

verus! {

/// What `Duration::from_secs` builds for a number of seconds.
pub uninterp spec fn duration_of_secs(secs: u64) -> Duration;

/// `Duration::from_secs`.
#[verifier::external_body]
fn duration_from_secs(secs: u64) -> (d: Duration)
    ensures
        d == duration_of_secs(secs),
{
    Duration::from_secs(secs)
}

/// Outcome of reading a duration: seconds, or the error to report.
pub enum DurationSpec {
    Secs(nat),
    Error(ScheduleErrorView),
    /// The text makes the reader split inside a character or overflow.
    Panics,
}

/// The trimmed text minus its last character, and that character.
pub open spec fn duration_parts(s: Seq<char>) -> (Seq<char>, Seq<char>) {
    let t = trim_spec(s);
    if t.len() == 0 {
        (t, t)
    } else {
        (t.drop_last(), seq![t.last()])
    }
}

/// What reading `s` as a duration gives: trim, split off the last character
/// as the unit (`s`, `m` or `h`), read the rest as a `u64`.
pub open spec fn duration_spec(s: Seq<char>) -> DurationSpec {
    let t = trim_spec(s);
    let (num, unit) = duration_parts(s);
    if t.len() > 0 && char_utf8_len(t.last()) != 1 {
        DurationSpec::Panics
    } else {
        match parse_unsigned_spec(num, u64::MAX as nat) {
            None => DurationSpec::Error(ScheduleErrorView::DurationNumber(num)),
            Some(n) => if unit == seq!['s'] {
                DurationSpec::Secs(n)
            } else if unit == seq!['m'] {
                if n * 60 > u64::MAX {
                    DurationSpec::Panics
                } else {
                    DurationSpec::Secs(n * 60)
                }
            } else if unit == seq!['h'] {
                if n * 3600 > u64::MAX {
                    DurationSpec::Panics
                } else {
                    DurationSpec::Secs(n * 3600)
                }
            } else {
                DurationSpec::Error(ScheduleErrorView::DurationUnit(unit))
            },
        }
    }
}

/// A text with no whitespace at either end is its own trim.
proof fn lemma_trim_unchanged(s: Seq<char>)
    requires
        s.len() > 0,
        !is_ws(s[0]),
        !is_ws(s.last()),
    ensures
        trim_spec(s) == s,
{
}

/// A number followed by `s`, `m` or `h` is that many seconds, minutes or
/// hours, counted in seconds.
pub proof fn duration_units_law(n: nat)
    requires
        n * 3600 <= u64::MAX,
    ensures
        duration_spec(decimal_spec(n).push('s')) == DurationSpec::Secs(n),
        duration_spec(decimal_spec(n).push('m')) == DurationSpec::Secs(n * 60),
        duration_spec(decimal_spec(n).push('h')) == DurationSpec::Secs(n * 3600),
{
    lemma_decimal(n);
    decimal_read_back_law(n, u64::MAX as nat);
    let d = decimal_spec(n);
    assert(is_digit(d[0]));
    assert(n * 60 <= n * 3600) by (nonlinear_arith);
    assert forall|u: char| u == 's' || u == 'm' || u == 'h' implies {
        let t = #[trigger] d.push(u);
        &&& trim_spec(t) == t
        &&& duration_parts(t) == (d, seq![u])
        &&& char_utf8_len(t.last()) == 1
    } by {
        let t = d.push(u);
        assert(t[0] == d[0]);
        lemma_trim_unchanged(t);
        assert(t.drop_last() =~= d);
        assert(encode_scalar(u as u32).len() == 1);
    }
    let ts = d.push('s');
    let tm = d.push('m');
    let th = d.push('h');
    assert(duration_parts(ts) == (d, seq!['s']) && duration_parts(tm) == (d, seq!['m']) && duration_parts(th) == (d,
        seq!['h']));
    assert(seq!['m'] != seq!['s']) by {
        assert(seq!['m'][0] != seq!['s'][0]);
    }
    assert(seq!['h'] != seq!['s']) by {
        assert(seq!['h'][0] != seq!['s'][0]);
    }
    assert(seq!['h'] != seq!['m']) by {
        assert(seq!['h'][0] != seq!['m'][0]);
    }
}

/// Reads a duration such as `30s`, `5m` or `2h` as a number of seconds, or
/// tells that the text cannot be read without a panic.
fn scan_duration(s: &str) -> (r: Result<Result<u64, ScheduleError>, ()>)
    ensures
        r matches Ok(Ok(n)) ==> duration_spec(s@) == DurationSpec::Secs(n as nat),
        r matches Ok(Err(e)) ==> duration_spec(s@) == DurationSpec::Error(e@),
        r is Err ==> duration_spec(s@) == DurationSpec::Panics,
{
    let t = trim(s);
    let cs = to_chars(t.as_str());
    let len = cs.len();
    if len > 0 && char_len_utf8(cs[len - 1]) != 1 {
        return Err(());
    }
    let cut: usize = if len > 0 {
        len - 1
    } else {
        0
    };
    let num_cs = &cs.as_slice()[0..cut];
    let unit_cs = &cs.as_slice()[cut..len];
    assert(num_cs@ == duration_parts(s@).0);
    assert(unit_cs@ == duration_parts(s@).1);
    let n = match parse_u64(num_cs) {
        Some(n) => n,
        None => {
            return Ok(Err(ScheduleError::DurationNumber(from_chars(num_cs))));
        },
    };
    if unit_cs.len() == 1 && unit_cs[0] == 's' {
        assert(unit_cs@ =~= seq!['s']);
        Ok(Ok(n))
    } else if unit_cs.len() == 1 && unit_cs[0] == 'm' {
        assert(unit_cs@ =~= seq!['m']);
        match n.checked_mul(60) {
            Some(v) => Ok(Ok(v)),
            None => Err(()),
        }
    } else if unit_cs.len() == 1 && unit_cs[0] == 'h' {
        assert(unit_cs@ =~= seq!['h']);
        match n.checked_mul(3600) {
            Some(v) => Ok(Ok(v)),
            None => Err(()),
        }
    } else {
        assert(unit_cs@ != seq!['s'] && unit_cs@ != seq!['m'] && unit_cs@ != seq!['h']) by {
            if unit_cs@.len() == 1 {
                assert(unit_cs@[0] == unit_cs[0]);
            }
        }
        Ok(Err(ScheduleError::DurationUnit(from_chars(unit_cs))))
    }
}

/// Whether reading `s` as a duration would split a multi-byte character or
/// overflow `u64` seconds, inputs on which `parse_duration` is not defined.
pub fn duration_would_panic(s: &str) -> (r: bool)
    ensures
        r == (duration_spec(s@) is Panics),
{
    match scan_duration(s) {
        Ok(_) => false,
        Err(_) => true,
    }
}

/// The duration `s` denotes, in whole seconds.
pub fn parse_duration_secs(s: &str) -> (r: Result<u64, ScheduleError>)
    requires
        !(duration_spec(s@) is Panics),
    ensures
        r matches Ok(n) ==> duration_spec(s@) == DurationSpec::Secs(n as nat),
        r matches Err(e) ==> duration_spec(s@) == DurationSpec::Error(e@),
{
    match scan_duration(s) {
        Ok(r) => r,
        Err(()) => {
            assert(false);
            Err(ScheduleError::DurationNumber(String::new()))
        },
    }
}

/// Reads `30s`, `5m`, `2h` (surrounding whitespace ignored) as a `Duration`.
pub fn parse_duration(s: &str) -> (r: Result<Duration, ScheduleError>)
    requires
        !(duration_spec(s@) is Panics),
    ensures
        r matches Ok(d) ==> (exists|n: u64|
            duration_spec(s@) == DurationSpec::Secs(n as nat) && d == duration_of_secs(n)),
        r matches Err(e) ==> duration_spec(s@) == DurationSpec::Error(e@),
{
    match parse_duration_secs(s) {
        Ok(n) => Ok(duration_from_secs(n)),
        Err(e) => Err(e),
    }
}

} // verus!
