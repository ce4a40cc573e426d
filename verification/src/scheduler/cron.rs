//! Five-field cron expressions: minute, hour, day of month, month, weekday.
//!
//! Each field is a comma list of pieces; a piece is `*`, a number `n` or a
//! range `a-b`, optionally followed by `/step`.  Quartz extensions (`?`, `L`,
//! `W`, `#`) are rejected.

use vstd::prelude::*;

use crate::scheduler::error::{ScheduleError, ScheduleErrorView};
use crate::text::{
    all_digits, decimal_spec, lemma_decimal, decimal_u64, digits_value, find_char, find_spec, from_chars, is_digit, is_ws,
    digit_char, digit_value, join, join_spec, lemma_scan_append, lemma_split_join, parse_u32, parse_unsigned_spec, push_all, split_char, split_scan,
    split_spec, split_whitespace, split_whitespace_spec, string_views, to_chars, views, ws_scan,
};

verus! {

/// The plain description of one cron piece.
pub enum PieceSpec {
    /// Every `lo + k * step` up to `hi`.
    Range { lo: nat, hi: nat, step: nat },
    Error(ScheduleErrorView),
}

/// The text before the first `sep` and the text after it, if `sep` occurs.
pub open spec fn split_once_spec(s: Seq<char>, sep: char) -> Option<(Seq<char>, Seq<char>)> {
    match find_spec(s, sep) {
        Some(i) => Some((s.subrange(0, i), s.subrange(i + 1, s.len() as int))),
        None => None,
    }
}

/// The step of a piece (1 when there is no `/`), or the error it gives.
pub open spec fn piece_step(p: Seq<char>) -> Result<nat, ScheduleErrorView> {
    match split_once_spec(p, '/') {
        None => Ok(1),
        Some((_, st)) => match parse_unsigned_spec(st, u32::MAX as nat) {
            None => Err(ScheduleErrorView::CronStep(p)),
            Some(k) => if k == 0 {
                Err(ScheduleErrorView::CronZeroStep(p))
            } else {
                Ok(k)
            },
        },
    }
}

/// The text of a piece before its `/`.
pub open spec fn piece_range_text(p: Seq<char>) -> Seq<char> {
    match split_once_spec(p, '/') {
        None => p,
        Some((r, _)) => r,
    }
}

/// The bounds that the range text of a piece names, before the bound check.
pub open spec fn piece_bounds(p: Seq<char>, min: nat, max: nat) -> Result<(nat, nat), ScheduleErrorView> {
    let r = piece_range_text(p);
    if r == seq!['*'] {
        Ok((min, max))
    } else {
        match split_once_spec(r, '-') {
            Some((a, b)) => match parse_unsigned_spec(a, u32::MAX as nat) {
                None => Err(ScheduleErrorView::CronRangeStart(p)),
                Some(x) => match parse_unsigned_spec(b, u32::MAX as nat) {
                    None => Err(ScheduleErrorView::CronRangeEnd(p)),
                    Some(y) => Ok((x, y)),
                },
            },
            None => match parse_unsigned_spec(r, u32::MAX as nat) {
                None => Err(ScheduleErrorView::CronNumber(p)),
                Some(n) => Ok((n, n)),
            },
        }
    }
}

/// What one piece of a field with bounds `[min, max]` means.
pub open spec fn piece_spec(p: Seq<char>, min: nat, max: nat) -> PieceSpec {
    match piece_step(p) {
        Err(e) => PieceSpec::Error(e),
        Ok(step) => match piece_bounds(p, min, max) {
            Err(e) => PieceSpec::Error(e),
            Ok((lo, hi)) => if lo < min || hi > max || lo > hi {
                PieceSpec::Error(ScheduleErrorView::CronRange(p))
            } else {
                PieceSpec::Range { lo, hi, step }
            },
        },
    }
}

/// Values a range piece selects.
pub open spec fn piece_values(lo: nat, hi: nat, step: nat) -> Set<nat> {
    Set::new(|v: nat| lo <= v <= hi && (v - lo) % (step as int) == 0)
}

/// Stepping through a range piece walks past `u32::MAX` after its last value.
pub open spec fn piece_overflows(lo: nat, hi: nat, step: nat) -> bool {
    step > hi - lo && lo + step > u32::MAX
}

/// Outcome of reading the pieces of one field in order.
pub enum FieldScan {
    Values(Set<nat>),
    Error(ScheduleErrorView),
    Panics,
}

/// Reads `pieces` left to right: the first error stops, a piece whose
/// stepping overflows panics, otherwise the selected values accumulate.
pub open spec fn field_scan(pieces: Seq<Seq<char>>, min: nat, max: nat) -> FieldScan
    decreases pieces.len(),
{
    if pieces.len() == 0 {
        FieldScan::Values(Set::empty())
    } else {
        match field_scan(pieces.drop_last(), min, max) {
            FieldScan::Values(acc) => match piece_spec(pieces.last(), min, max) {
                PieceSpec::Error(e) => FieldScan::Error(e),
                PieceSpec::Range { lo, hi, step } => if piece_overflows(lo, hi, step) {
                    FieldScan::Panics
                } else {
                    FieldScan::Values(acc.union(piece_values(lo, hi, step)))
                },
            },
            other => other,
        }
    }
}

/// What a field text means for bounds `[min, max]`.
pub open spec fn field_spec(s: Seq<char>, min: nat, max: nat) -> FieldScan {
    field_scan(split_spec(s, ','), min, max)
}

/// The values one field selects, in increasing order.
#[derive(Debug, Clone, PartialEq)]
pub struct FieldSet {
    values: Vec<u32>,
}

impl View for FieldSet {
    type V = Seq<u32>;

    closed spec fn view(&self) -> Seq<u32> {
        self.values@
    }
}

/// `v` lists exactly the members of `set`, strictly increasing.
pub open spec fn lists_set(v: Seq<u32>, set: Set<nat>) -> bool {
    &&& forall|i: int, j: int| 0 <= i < j < v.len() ==> v[i] < v[j]
    &&& forall|x: nat| set.contains(x) <==> x <= u32::MAX && v.contains(x as u32)
}

impl FieldSet {
    /// Whether `v` is selected.
    pub fn contains(&self, v: u32) -> (r: bool)
        ensures
            r == self@.contains(v),
    {
        let mut i: usize = 0;
        while i < self.values.len()
            invariant
                i <= self.values@.len(),
                forall|j: int| 0 <= j < i ==> self.values@[j] != v,
            decreases self.values@.len() - i,
        {
            if self.values[i] == v {
                return true;
            }
            i = i + 1;
        }
        false
    }
}

proof fn lemma_step_mod(lo: int, v: int, step: int, w: int)
    requires
        step > 0,
        lo <= v,
        (v - lo) % step == 0,
        v < w < v + step,
    ensures
        (w - lo) % step != 0,
{
    assert((w - lo) % step != 0) by (nonlinear_arith)
        requires
            step > 0,
            lo <= v,
            (v - lo) % step == 0,
            v < w < v + step,
    ;
}

proof fn lemma_step_mod_next(lo: int, v: int, step: int)
    requires
        step > 0,
        lo <= v,
        (v - lo) % step == 0,
    ensures
        (v + step - lo) % step == 0,
{
    assert((v + step - lo) % step == 0) by (nonlinear_arith)
        requires
            step > 0,
            lo <= v,
            (v - lo) % step == 0,
    ;
}

/// Reads one piece.
fn scan_piece(p: &[char], min: u32, max: u32) -> (r: Result<(u32, u32, u32), ScheduleError>)
    requires
        min <= max,
    ensures
        r matches Ok((lo, hi, step)) ==> piece_spec(p@, min as nat, max as nat) == (PieceSpec::Range {
            lo: lo as nat,
            hi: hi as nat,
            step: step as nat,
        }),
        r matches Err(e) ==> piece_spec(p@, min as nat, max as nat) == PieceSpec::Error(e@),
{
    let (range_part, step): (&[char], u32) = match find_char(p, '/') {
        Some(i) => {
            assert(i < p.len());
            let st = &p[(i + 1)..p.len()];
            match parse_u32(st) {
                Some(k) => {
                    if k == 0 {
                        return Err(ScheduleError::CronZeroStep(from_chars(p)));
                    }
                    (&p[0..i], k)
                },
                None => {
                    return Err(ScheduleError::CronStep(from_chars(p)));
                },
            }
        },
        None => (p, 1),
    };
    assert(range_part@ == piece_range_text(p@));
    assert(piece_step(p@) == Ok::<nat, ScheduleErrorView>(step as nat));
    let (lo, hi): (u32, u32) = if range_part.len() == 1 && range_part[0] == '*' {
        assert(range_part@ =~= seq!['*']);
        (min, max)
    } else {
        assert(range_part@ != seq!['*']) by {
            if range_part@.len() == 1 {
                assert(range_part@[0] == range_part[0]);
            }
        }
        match find_char(range_part, '-') {
            Some(j) => {
                let a = match parse_u32(&range_part[0..j]) {
                    Some(a) => a,
                    None => {
                        return Err(ScheduleError::CronRangeStart(from_chars(p)));
                    },
                };
                let b = match parse_u32(&range_part[j + 1..range_part.len()]) {
                    Some(b) => b,
                    None => {
                        return Err(ScheduleError::CronRangeEnd(from_chars(p)));
                    },
                };
                (a, b)
            },
            None => match parse_u32(range_part) {
                Some(n) => (n, n),
                None => {
                    return Err(ScheduleError::CronNumber(from_chars(p)));
                },
            },
        }
    };
    if lo < min || hi > max || lo > hi {
        return Err(ScheduleError::CronRange(from_chars(p)));
    }
    Ok((lo, hi, step))
}

/// Marks the values of one range piece in `present` (indexed by value).
fn mark_piece(present: &mut Vec<bool>, lo: u32, hi: u32, step: u32)
    requires
        lo <= hi < old(present)@.len(),
        step > 0,
    ensures
        final(present)@.len() == old(present)@.len(),
        forall|w: int|
            0 <= w < final(present)@.len() ==> (#[trigger] final(present)@[w] == (old(present)@[w] || (lo
                <= w <= hi && (w - lo) % (step as int) == 0))),
{
    let mut v: u32 = lo;
    assert((v - lo) % (step as int) == 0) by (nonlinear_arith)
        requires
            v == lo,
            step > 0,
    ;
    loop
        invariant
            lo <= v <= hi,
            hi < present@.len(),
            present@.len() == old(present)@.len(),
            step > 0,
            (v - lo) % (step as int) == 0,
            forall|w: int|
                0 <= w < present@.len() ==> (#[trigger] present@[w] == (old(present)@[w] || (lo
                    <= w < v && (w - lo) % (step as int) == 0))),
        decreases hi - v,
    {
        let ghost before = present@;
        present.set(v as usize, true);
        if step > hi - v {
            assert forall|w: int| 0 <= w < present@.len() implies #[trigger] present@[w] == (
            old(present)@[w] || (lo <= w <= hi && (w - lo) % (step as int) == 0)) by {
                if v < w <= hi {
                    lemma_step_mod(lo as int, v as int, step as int, w);
                }
            }
            return;
        }
        proof {
            lemma_step_mod_next(lo as int, v as int, step as int);
            assert forall|w: int| 0 <= w < present@.len() implies #[trigger] present@[w] == (
            old(present)@[w] || (lo <= w < v + step && (w - lo) % (step as int) == 0)) by {
                if v < w < v + step {
                    lemma_step_mod(lo as int, v as int, step as int, w);
                }
            }
        }
        v = v + step;
    }
}

/// Reads one field: its values in increasing order, the error, or `Err(())`
/// when stepping would overflow.
fn scan_field(s: &[char], min: u32, max: u32) -> (r: Result<Result<FieldSet, ScheduleError>, ()>)
    requires
        min <= max <= 59,
    ensures
        r matches Ok(Ok(f)) ==> field_spec(s@, min as nat, max as nat) is Values && lists_set(
            f@,
            field_spec(s@, min as nat, max as nat)->Values_0,
        ),
        r matches Ok(Err(e)) ==> field_spec(s@, min as nat, max as nat) == FieldScan::Error(e@),
        r is Err ==> field_spec(s@, min as nat, max as nat) is Panics,
{
    let pieces = split_char(s, ',');
    let ghost ps = views(pieces@);
    let mut present: Vec<bool> = Vec::new();
    let mut k: u32 = 0;
    while k <= max
        invariant
            k <= max + 1,
            max <= 59,
            present@.len() == k,
            forall|w: int| 0 <= w < k ==> !(#[trigger] present@[w]),
        decreases max + 1 - k,
    {
        present.push(false);
        k = k + 1;
    }
    let ghost mut acc: Set<nat> = Set::empty();
    let mut i: usize = 0;
    assert(ps.subrange(0, 0) =~= Seq::<Seq<char>>::empty());
    while i < pieces.len()
        invariant
            i <= pieces@.len(),
            ps == views(pieces@),
            ps == split_spec(s@, ','),
            min <= max <= 59,
            present@.len() == max + 1,
            field_scan(ps.subrange(0, i as int), min as nat, max as nat) == FieldScan::Values(acc),
            forall|w: int| 0 <= w <= max ==> (#[trigger] present@[w] <==> acc.contains(w as nat)),
            forall|x: nat| acc.contains(x) ==> min <= x <= max,
        decreases pieces@.len() - i,
    {
        let piece = &pieces[i];
        assert(ps[i as int] == piece@);
        assert(ps.subrange(0, i + 1).drop_last() =~= ps.subrange(0, i as int));
        match scan_piece(piece.as_slice(), min, max) {
            Err(e) => {
                proof {
                    lemma_field_scan_stops(ps, min as nat, max as nat, i as int + 1);
                }
                return Ok(Err(e));
            },
            Ok((lo, hi, step)) => {
                if step > hi - lo && step > 0xffff_ffffu32 - lo {
                    proof {
                        lemma_field_scan_stops(ps, min as nat, max as nat, i as int + 1);
                    }
                    return Err(());
                }
                mark_piece(&mut present, lo, hi, step);
                proof {
                    let pv = piece_values(lo as nat, hi as nat, step as nat);
                    acc = acc.union(pv);
                    assert forall|w: int| 0 <= w <= max implies (#[trigger] present@[w]
                        <==> acc.contains(w as nat)) by {
                        if lo <= w <= hi && (w - lo) % (step as int) == 0 {
                            assert(pv.contains(w as nat));
                        }
                    }
                }
            },
        }
        i = i + 1;
    }
    assert(ps.subrange(0, pieces@.len() as int) =~= ps);
    let mut values: Vec<u32> = Vec::new();
    let mut w: u32 = 0;
    while w <= max
        invariant
            w <= max + 1,
            max <= 59,
            present@.len() == max + 1,
            forall|j: int| 0 <= j < values@.len() ==> values@[j] < w,
            forall|a: int, b: int| 0 <= a < b < values@.len() ==> values@[a] < values@[b],
            forall|x: int| 0 <= x < w ==> (present@[x] <==> values@.contains(x as u32)),
            forall|x: u32| values@.contains(x) ==> x < w,
        decreases max + 1 - w,
    {
        if present[w as usize] {
            let ghost before = values@;
            values.push(w);
            assert forall|x: int| 0 <= x < w + 1 implies (present@[x] <==> values@.contains(
                x as u32,
            )) by {
                if x < w {
                    if before.contains(x as u32) {
                        let k = choose|k: int| 0 <= k < before.len() && before[k] == x as u32;
                        assert(values@[k] == x as u32);
                    }
                    if values@.contains(x as u32) {
                        let k = choose|k: int| 0 <= k < values@.len() && values@[k] == x as u32;
                        if k < before.len() {
                            assert(before[k] == x as u32);
                        }
                    }
                } else {
                    assert(values@[before.len() as int] == w);
                }
            }
        } else {
            assert forall|x: int| 0 <= x < w + 1 implies (present@[x] <==> values@.contains(
                x as u32,
            )) by {
                if x == w {
                    assert(!values@.contains(x as u32));
                }
            }
        }
        w = w + 1;
    }
    let f = FieldSet { values };
    assert(field_spec(s@, min as nat, max as nat) == FieldScan::Values(acc));
    assert(lists_set(f@, acc)) by {
        assert forall|x: nat| acc.contains(x) <==> x <= u32::MAX && f@.contains(x as u32) by {
            if acc.contains(x) {
                assert(present@[x as int]);
            }
            if x <= u32::MAX && f@.contains(x as u32) {
                assert(x <= max);
                assert(present@[x as int]);
            }
        }
    }
    assert(field_spec(s@, min as nat, max as nat) == FieldScan::Values(acc) && lists_set(f@, acc));
    Ok(Ok(f))
}

proof fn lemma_field_scan_stops(ps: Seq<Seq<char>>, min: nat, max: nat, k: int)
    requires
        0 < k <= ps.len(),
        !(field_scan(ps.subrange(0, k), min, max) is Values),
    ensures
        field_scan(ps, min, max) == field_scan(ps.subrange(0, k), min, max),
    decreases ps.len() - k,
{
    if k < ps.len() {
        assert(ps.subrange(0, k + 1).drop_last() =~= ps.subrange(0, k));
        lemma_field_scan_stops(ps, min, max, k + 1);
    } else {
        assert(ps.subrange(0, k) =~= ps);
    }
}

/// Bounds of the five fields: minute, hour, day of month, month, weekday
/// (0 = Sunday).
pub open spec fn field_bounds(k: int) -> (nat, nat) {
    if k == 0 {
        (0, 59)
    } else if k == 1 {
        (0, 23)
    } else if k == 2 {
        (1, 31)
    } else if k == 3 {
        (1, 12)
    } else {
        (0, 6)
    }
}

/// Outcome of reading a whole cron expression.
pub enum CronSpec {
    /// The values each field selects, minute field first.
    Fields(Seq<Set<nat>>),
    Error(ScheduleErrorView),
    Panics,
}

/// Reads the first `k` fields of `parts` in order; the first field that fails
/// decides.
pub open spec fn cron_fields_scan(parts: Seq<Seq<char>>, k: nat) -> CronSpec
    decreases k,
{
    if k == 0 {
        CronSpec::Fields(seq![])
    } else {
        match cron_fields_scan(parts, (k - 1) as nat) {
            CronSpec::Fields(sets) => {
                let (lo, hi) = field_bounds(k - 1);
                match field_spec(parts[k - 1], lo, hi) {
                    FieldScan::Values(set) => CronSpec::Fields(sets.push(set)),
                    FieldScan::Error(e) => CronSpec::Error(e),
                    FieldScan::Panics => CronSpec::Panics,
                }
            },
            other => other,
        }
    }
}

/// What `parse_cron` makes of `expr`: five whitespace-separated fields.
pub open spec fn cron_spec(expr: Seq<char>) -> CronSpec {
    let parts = split_whitespace_spec(expr);
    if parts.len() != 5 {
        CronSpec::Error(ScheduleErrorView::CronFieldCount(parts.len()))
    } else {
        cron_fields_scan(parts, 5)
    }
}

/// A parsed cron expression.
#[derive(Debug, Clone, PartialEq)]
pub struct CronExpr {
    minutes: FieldSet,
    hours: FieldSet,
    days: FieldSet,
    months: FieldSet,
    weekdays: FieldSet,
}

/// The calendar fields of a moment that a cron expression is matched against.
#[derive(Debug, Clone, Copy, PartialEq, Eq)]
pub struct CronTime {
    pub minute: u32,
    pub hour: u32,
    pub day: u32,
    pub month: u32,
    /// Days since Sunday, 0 to 6.
    pub weekday: u32,
}

impl CronExpr {
    /// The value lists of the five fields, minute field first.
    pub closed spec fn fields(&self) -> Seq<Seq<u32>> {
        seq![self.minutes@, self.hours@, self.days@, self.months@, self.weekdays@]
    }

    /// Whether the expression selects `t`: every field lists the matching
    /// value.
    pub fn matches(&self, t: &CronTime) -> (r: bool)
        ensures
            r == (self.fields()[0].contains(t.minute) && self.fields()[1].contains(t.hour)
                && self.fields()[2].contains(t.day) && self.fields()[3].contains(t.month)
                && self.fields()[4].contains(t.weekday)),
    {
        self.minutes.contains(t.minute) && self.hours.contains(t.hour) && self.days.contains(t.day)
            && self.months.contains(t.month) && self.weekdays.contains(t.weekday)
    }

    /// The text `minutes hours days months weekdays`, each field written as
    /// in `FieldSet::describe`.
    pub fn describe(&self) -> (r: String)
        ensures
            (exists|ps: Seq<Seq<char>>|
                ps.len() == 5 && (forall|k: int| 0 <= k < 5 ==> field_text_ok(self.fields()[k], #[trigger] ps[k]))
                    && r@ == join_spec(ps, seq![' '])),
    {
        let a = self.minutes.describe();
        let b = self.hours.describe();
        let c = self.days.describe();
        let d = self.months.describe();
        let e = self.weekdays.describe();
        let ghost ps = seq![a@, b@, c@, d@, e@];
        let mut parts: Vec<String> = Vec::new();
        parts.push(a);
        parts.push(b);
        parts.push(c);
        parts.push(d);
        parts.push(e);
        let r = join(parts.as_slice(), " ");
        proof {
            reveal_strlit(" ");
            assert(" "@ =~= seq![' ']);
            assert(string_views(parts@) =~= ps);
            assert(forall|k: int| 0 <= k < 5 ==> field_text_ok(self.fields()[k], #[trigger] ps[k]));
        }
        r
    }
}

/// The decimal values of `v`, comma-separated.
pub open spec fn comma_list(v: Seq<u32>) -> Seq<char> {
    join_spec(v.map_values(|x: u32| decimal_spec(x as nat)), seq![','])
}

/// A field is written as its comma-separated values, or as `*` when it
/// starts at 0 and its value list happens to fill its allocation exactly.
pub open spec fn field_text_ok(v: Seq<u32>, t: Seq<char>) -> bool {
    t == comma_list(v) || (v.len() > 0 && v[0] == 0 && t == seq!['*'])
}

/// `Vec::capacity`: the number of elements the vector has room for.
#[verifier::external_body]
fn vec_capacity(v: &Vec<u32>) -> (r: usize)
    ensures
        r >= v@.len(),
{
    v.capacity()
}

impl FieldSet {
    /// The field as text: `*` when its first value is 0 and its value list
    /// fills its allocation exactly, otherwise its values comma-separated.
    pub fn describe(&self) -> (r: String)
        ensures
            field_text_ok(self@, r@),
    {
        let cap = vec_capacity(&self.values);
        if self.values.len() == cap && self.values.len() > 0 && self.values[0] == 0 {
            let mut out = String::new();
            crate::text::push_char(&mut out, '*');
            return out;
        }
        let mut texts: Vec<String> = Vec::new();
        let mut i: usize = 0;
        while i < self.values.len()
            invariant
                i <= self.values@.len(),
                string_views(texts@) =~= self.values@.subrange(0, i as int).map_values(
                    |x: u32| decimal_spec(x as nat),
                ),
            decreases self.values@.len() - i,
        {
            let t = decimal_u64(self.values[i] as u64);
            let ghost before = texts@;
            texts.push(t);
            assert(string_views(texts@) =~= string_views(before).push(t@));
            assert(self.values@.subrange(0, i + 1) =~= self.values@.subrange(0, i as int).push(
                self.values@[i as int],
            ));
            i = i + 1;
        }
        assert(self.values@.subrange(0, self.values@.len() as int) =~= self.values@);
        let r = join(texts.as_slice(), ",");
        proof {
            reveal_strlit(",");
            assert(","@ =~= seq![',']);
        }
        r
    }
}

/// `e` lists, field by field, exactly the sets in `sets`.
pub open spec fn expr_lists(e: CronExpr, sets: Seq<Set<nat>>) -> bool {
    sets.len() == 5 && forall|k: int| 0 <= k < 5 ==> lists_set(#[trigger] e.fields()[k], sets[k])
}

/// Reads field `k` of a cron expression.
fn scan_nth_field(parts: &Vec<Vec<char>>, k: usize) -> (r: Result<Result<FieldSet, ScheduleError>, ()>)
    requires
        parts@.len() == 5,
        k < 5,
    ensures
        ({
            let (lo, hi) = field_bounds(k as int);
            let f = field_spec(parts@[k as int]@, lo, hi);
            &&& r matches Ok(Ok(fs)) ==> f is Values && lists_set(fs@, f->Values_0)
            &&& r matches Ok(Err(e)) ==> f == FieldScan::Error(e@)
            &&& r is Err ==> f is Panics
        }),
{
    let (lo, hi): (u32, u32) = if k == 0 {
        (0, 59)
    } else if k == 1 {
        (0, 23)
    } else if k == 2 {
        (1, 31)
    } else if k == 3 {
        (1, 12)
    } else {
        (0, 6)
    };
    scan_field(parts[k].as_slice(), lo, hi)
}

fn scan_cron(expr: &str) -> (r: Result<Result<CronExpr, ScheduleError>, ()>)
    ensures
        r matches Ok(Ok(e)) ==> cron_spec(expr@) is Fields && expr_lists(e, cron_spec(expr@)->Fields_0),
        r matches Ok(Err(err)) ==> cron_spec(expr@) == CronSpec::Error(err@),
        r is Err ==> cron_spec(expr@) is Panics,
{
    let cs = to_chars(expr);
    let parts = split_whitespace(cs.as_slice());
    let ghost ps = views(parts@);
    if parts.len() != 5 {
        return Ok(Err(ScheduleError::CronFieldCount(parts.len())));
    }
    assert(ps == split_whitespace_spec(expr@));
    assert forall|k: int| 0 <= k < 5 implies ps[k] == (#[trigger] parts@[k])@ by {}
    let mut fields: Vec<FieldSet> = Vec::new();
    let mut k: usize = 0;
    while k < 5
        invariant
            k <= 5,
            parts@.len() == 5,
            ps == views(parts@),
            ps == split_whitespace_spec(expr@),
            fields@.len() == k,
            cron_fields_scan(ps, k as nat) is Fields,
            cron_fields_scan(ps, k as nat)->Fields_0.len() == k,
            forall|j: int| 0 <= j < k ==> lists_set(#[trigger] fields@[j]@, cron_fields_scan(ps, k as nat)->Fields_0[j]),
        decreases 5 - k,
    {
        let ghost prev = cron_fields_scan(ps, k as nat)->Fields_0;
        assert(ps[k as int] == parts@[k as int]@);
        match scan_nth_field(&parts, k) {
            Err(()) => {
                proof {
                    lemma_cron_scan_stops(ps, (k + 1) as nat);
                }
                return Err(());
            },
            Ok(Err(e)) => {
                proof {
                    lemma_cron_scan_stops(ps, (k + 1) as nat);
                }
                return Ok(Err(e));
            },
            Ok(Ok(f)) => {
                let ghost before = fields@;
                fields.push(f);
                proof {
                    let now = cron_fields_scan(ps, (k + 1) as nat)->Fields_0;
                    assert(now == prev.push(field_spec(ps[k as int], field_bounds(k as int).0, field_bounds(k as int).1)->Values_0));
                    assert forall|j: int| 0 <= j < k + 1 implies lists_set(#[trigger] fields@[j]@, now[j]) by {
                        if j < k {
                            assert(fields@[j] == before[j]);
                        }
                    }
                }
            },
        }
        k = k + 1;
    }
    let weekdays = fields.pop().unwrap();
    let months = fields.pop().unwrap();
    let days = fields.pop().unwrap();
    let hours = fields.pop().unwrap();
    let minutes = fields.pop().unwrap();
    let e = CronExpr { minutes, hours, days, months, weekdays };
    assert(e.fields()[0] == minutes@);
    Ok(Ok(e))
}

proof fn lemma_cron_scan_stops(parts: Seq<Seq<char>>, k: nat)
    requires
        0 < k <= 5,
        !(cron_fields_scan(parts, k) is Fields),
    ensures
        cron_fields_scan(parts, 5) == cron_fields_scan(parts, k),
    decreases 5 - k,
{
    if k < 5 {
        lemma_cron_scan_stops(parts, k + 1);
    }
}

/// Whether reading `expr` would step past `u32::MAX` in some field before any
/// error stops it; `parse_cron` is not defined on such input.
pub fn cron_would_panic(expr: &str) -> (r: bool)
    ensures
        r == (cron_spec(expr@) is Panics),
{
    match scan_cron(expr) {
        Ok(_) => false,
        Err(_) => true,
    }
}

/// Parses a five-field cron expression (minute hour day month weekday).
pub fn parse_cron(expr: &str) -> (r: Result<CronExpr, ScheduleError>)
    requires
        !(cron_spec(expr@) is Panics),
    ensures
        r matches Ok(e) ==> cron_spec(expr@) is Fields && expr_lists(e, cron_spec(expr@)->Fields_0),
        r matches Err(err) ==> cron_spec(expr@) == CronSpec::Error(err@),
{
    match scan_cron(expr) {
        Ok(r) => r,
        Err(()) => {
            assert(false);
            Err(ScheduleError::CronFieldCount(0))
        },
    }
}

proof fn lemma_field_scan_bounds(pieces: Seq<Seq<char>>, min: nat, max: nat)
    ensures
        field_scan(pieces, min, max) matches FieldScan::Values(set) ==> forall|v: nat| #[trigger]
            set.contains(v) ==> min <= v <= max,
    decreases pieces.len(),
{
    if pieces.len() > 0 {
        lemma_field_scan_bounds(pieces.drop_last(), min, max);
    }
}

proof fn lemma_cron_fields_bounds(parts: Seq<Seq<char>>, k: nat)
    requires
        k <= parts.len(),
    ensures
        cron_fields_scan(parts, k) matches CronSpec::Fields(sets) ==> sets.len() == k && forall|j: int, v: nat|
            0 <= j < k && #[trigger] sets[j].contains(v) ==> field_bounds(j).0 <= v <= field_bounds(j).1,
    decreases k,
{
    if k > 0 {
        lemma_cron_fields_bounds(parts, (k - 1) as nat);
        let (lo, hi) = field_bounds(k - 1);
        lemma_field_scan_bounds(split_spec(parts[k - 1], ','), lo, hi);
    }
}

/// A parsed cron expression has five fields, and every value a field selects
/// lies within that field's bounds (minute 0-59, hour 0-23, day 1-31,
/// month 1-12, weekday 0-6).
pub proof fn cron_bounds_law(expr: Seq<char>)
    ensures
        cron_spec(expr) matches CronSpec::Fields(sets) ==> sets.len() == 5 && forall|k: int, v: nat|
            0 <= k < 5 && #[trigger] sets[k].contains(v) ==> field_bounds(k).0 <= v <= field_bounds(k).1,
{
    let parts = split_whitespace_spec(expr);
    if parts.len() == 5 {
        lemma_cron_fields_bounds(parts, 5);
    }
}

/// The values a list selects, as a set.
pub open spec fn list_set(v: Seq<u32>) -> Set<nat> {
    Set::new(|x: nat| exists|i: int| 0 <= i < v.len() && v[i] as nat == x)
}

proof fn lemma_find_none(s: Seq<char>, c: char)
    requires
        forall|i: int| 0 <= i < s.len() ==> s[i] != c,
    ensures
        find_spec(s, c) is None,
    decreases s.len(),
{
    if s.len() > 0 {
        lemma_find_none(s.drop_last(), c);
    }
}

/// A number written in decimal reads back as one value.
proof fn lemma_number_piece(n: nat, min: nat, max: nat)
    requires
        min <= n <= max,
        max < 100,
    ensures
        piece_spec(decimal_spec(n), min, max) == (PieceSpec::Range { lo: n, hi: n, step: 1 }),
        !piece_overflows(n, n, 1),
        piece_values(n, n, 1) =~= set![n],
{
    let p = decimal_spec(n);
    lemma_decimal(n);
    assert(is_digit(p[0]));
    lemma_find_none(p, '/');
    lemma_find_none(p, '-');
    assert(p != seq!['*']) by {
        if p == seq!['*'] {
            assert(p[0] == '*');
        }
    }
}

/// Reading a field written as its value list gives back the set of its values.
proof fn lemma_list_field_scan(v: Seq<u32>, min: nat, max: nat)
    requires
        max < 100,
        forall|i: int| 0 <= i < v.len() ==> min <= #[trigger] v[i] <= max,
    ensures
        field_scan(v.map_values(|x: u32| decimal_spec(x as nat)), min, max) == FieldScan::Values(list_set(v)),
    decreases v.len(),
{
    let f = |x: u32| decimal_spec(x as nat);
    if v.len() == 0 {
        assert(v.map_values(f) =~= Seq::<Seq<char>>::empty());
        assert(list_set(v) =~= Set::<nat>::empty());
    } else {
        let pre = v.drop_last();
        lemma_list_field_scan(pre, min, max);
        assert(v.map_values(f).drop_last() =~= pre.map_values(f));
        let n = v.last() as nat;
        assert(v.map_values(f).last() == decimal_spec(n));
        lemma_number_piece(n, min, max);
        assert(list_set(pre).union(set![n]) =~= list_set(v)) by {
            assert forall|x: nat| list_set(v).contains(x) implies list_set(pre).union(set![n]).contains(x) by {
                let i = choose|i: int| 0 <= i < v.len() && v[i] as nat == x;
                if i < v.len() - 1 {
                    assert(pre[i] == v[i]);
                }
            }
            assert forall|x: nat| list_set(pre).contains(x) implies list_set(v).contains(x) by {
                let i = choose|i: int| 0 <= i < pre.len() && pre[i] as nat == x;
                assert(v[i] == pre[i]);
            }
            assert(v[v.len() - 1] as nat == n);
        }
    }
}

/// A field that reads successfully selects at least one value.
proof fn lemma_field_scan_nonempty(pieces: Seq<Seq<char>>, min: nat, max: nat)
    requires
        pieces.len() > 0,
    ensures
        field_scan(pieces, min, max) is Values ==> exists|x: nat| #[trigger] field_scan(pieces, min, max)->Values_0.contains(x),
{
    if let FieldScan::Values(acc) = field_scan(pieces.drop_last(), min, max) {
        if let PieceSpec::Range { lo, hi, step } = piece_spec(pieces.last(), min, max) {
            assert(step > 0);
            assert(lo <= hi);
            assert((lo - lo) % (step as int) == 0) by (nonlinear_arith)
                requires
                    step > 0,
            ;
            assert(piece_values(lo, hi, step).contains(lo));
            assert(acc.union(piece_values(lo, hi, step)).contains(lo));
            if !piece_overflows(lo, hi, step) {
                assert(field_scan(pieces, min, max) == FieldScan::Values(acc.union(piece_values(lo, hi, step))));
                assert(field_scan(pieces, min, max)->Values_0.contains(lo));
            }
        }
    }
}

/// A value list that is strictly increasing, lists a set of values within
/// bounds, and is the list of exactly that set.
proof fn lemma_lists_list_set(v: Seq<u32>, set: Set<nat>)
    requires
        lists_set(v, set),
    ensures
        list_set(v) == set,
{
    assert forall|x: nat| list_set(v).contains(x) <==> set.contains(x) by {
        if list_set(v).contains(x) {
            let i = choose|i: int| 0 <= i < v.len() && v[i] as nat == x;
            assert(v.contains(v[i]));
        }
        if set.contains(x) {
            assert(v.contains(x as u32));
            let i = choose|i: int| 0 <= i < v.len() && v[i] == x as u32;
            assert(v[i] as nat == x);
        }
    }
    assert(list_set(v) =~= set);
}

/// Whitespace-free words joined by single spaces split back into the words.
proof fn lemma_ws_split_join(items: Seq<Seq<char>>)
    requires
        items.len() > 0,
        forall|k: int| 0 <= k < items.len() ==> #[trigger] items[k].len() > 0,
        forall|k: int, i: int| 0 <= k < items.len() && 0 <= i < items[k].len() ==> !is_ws(items[k][i]),
    ensures
        ws_scan(join_spec(items, seq![' '])) == (items.drop_last(), items.last()),
    decreases items.len(),
{
    let e = Seq::<char>::empty();
    let last = items.last();
    assert(forall|i: int| 0 <= i < last.len() ==> !is_ws(last[i])) by {
        assert(last == items[items.len() - 1]);
    }
    if items.len() == 1 {
        lemma_ws_scan_append(e, items[0]);
        assert(e + items[0] =~= items[0]);
        assert(items.drop_last() =~= Seq::<Seq<char>>::empty());
    } else {
        let pre = items.drop_last();
        assert forall|k: int, i: int| 0 <= k < pre.len() && 0 <= i < pre[k].len() implies !is_ws(pre[k][i]) by {
            assert(pre[k] == items[k]);
        }
        assert forall|k: int| 0 <= k < pre.len() implies #[trigger] pre[k].len() > 0 by {
            assert(pre[k] == items[k]);
        }
        lemma_ws_split_join(pre);
        let head = join_spec(pre, seq![' ']);
        let hs = head + seq![' '];
        assert(hs.drop_last() =~= head);
        assert(pre.last() == items[items.len() - 2]);
        assert(is_ws(' '));
        assert(ws_scan(hs) == (pre.drop_last().push(pre.last()), e));
        assert(pre.drop_last().push(pre.last()) =~= pre);
        lemma_ws_scan_append(hs, last);
        assert(e + last =~= last);
        assert(join_spec(items, seq![' ']) == hs + last);
    }
}

proof fn lemma_ws_scan_append(x: Seq<char>, y: Seq<char>)
    requires
        forall|i: int| 0 <= i < y.len() ==> !is_ws(y[i]),
    ensures
        ws_scan(x + y) == (ws_scan(x).0, ws_scan(x).1 + y),
    decreases y.len(),
{
    if y.len() == 0 {
        assert(x + y =~= x);
        assert(ws_scan(x).1 + y =~= ws_scan(x).1);
    } else {
        lemma_ws_scan_append(x, y.drop_last());
        assert((x + y).drop_last() =~= x + y.drop_last());
        assert((x + y).last() == y.last());
        assert(ws_scan(x).1 + y.drop_last() + seq![y.last()] =~= ws_scan(x).1 + y);
    }
}

/// A successful reading of the first `n` fields reads field `k` as its set.
proof fn lemma_cron_scan_fields(parts: Seq<Seq<char>>, n: nat, k: int)
    requires
        0 <= k < n,
        cron_fields_scan(parts, n) is Fields,
    ensures
        cron_fields_scan(parts, n)->Fields_0.len() == n,
        field_spec(parts[k], field_bounds(k).0, field_bounds(k).1) == FieldScan::Values(
            cron_fields_scan(parts, n)->Fields_0[k],
        ),
    decreases n,
{
    if k < n - 1 {
        lemma_cron_scan_fields(parts, (n - 1) as nat, k);
    } else if n > 1 {
        lemma_cron_scan_fields(parts, (n - 1) as nat, 0);
    }
}

/// Digit words joined by a separator: not empty, and every character a
/// digit or the separator.
proof fn lemma_join_chars(items: Seq<Seq<char>>, sep: char)
    requires
        items.len() > 0,
        forall|m: int, i: int| 0 <= m < items.len() && 0 <= i < items[m].len() ==> is_digit(items[m][i]),
        forall|m: int| 0 <= m < items.len() ==> #[trigger] items[m].len() > 0,
    ensures
        join_spec(items, seq![sep]).len() > 0,
        forall|i: int| 0 <= i < join_spec(items, seq![sep]).len() ==> is_digit(join_spec(items, seq![sep])[i])
            || join_spec(items, seq![sep])[i] == sep,
    decreases items.len(),
{
    let j = join_spec(items, seq![sep]);
    let last = items.last();
    assert(last == items[items.len() - 1]);
    if items.len() == 1 {
        assert(items[0].len() > 0);
    } else {
        let pre = items.drop_last();
        assert forall|m: int, i: int| 0 <= m < pre.len() && 0 <= i < pre[m].len() implies is_digit(pre[m][i]) by {
            assert(pre[m] == items[m]);
        }
        assert forall|m: int| 0 <= m < pre.len() implies #[trigger] pre[m].len() > 0 by {
            assert(pre[m] == items[m]);
        }
        lemma_join_chars(pre, sep);
        let h = join_spec(pre, seq![sep]);
        assert(j == h + seq![sep] + last);
        assert forall|i: int| 0 <= i < j.len() implies is_digit(j[i]) || j[i] == sep by {
            if i < h.len() {
                assert(j[i] == h[i]);
            } else if i == h.len() {
                assert(j[i] == sep);
            } else {
                assert(j[i] == last[i - h.len() - 1]);
            }
        }
    }
}

/// A nonempty list of values within a field's bounds, written as its list,
/// is one whitespace-free word that reads back as the set of its values.
proof fn lemma_list_field(v: Seq<u32>, min: nat, max: nat)
    requires
        max < 100,
        v.len() > 0,
        forall|i: int| 0 <= i < v.len() ==> min <= #[trigger] v[i] <= max,
    ensures
        comma_list(v).len() > 0,
        forall|i: int| 0 <= i < comma_list(v).len() ==> !is_ws(#[trigger] comma_list(v)[i]),
        field_spec(comma_list(v), min, max) == FieldScan::Values(list_set(v)),
{
    let f = |x: u32| decimal_spec(x as nat);
    let items = v.map_values(f);
    assert forall|m: int| 0 <= m < items.len() implies #[trigger] items[m].len() > 0 && all_digits(items[m]) by {
        lemma_decimal(v[m] as nat);
    }
    assert forall|m: int, i: int| 0 <= m < items.len() && 0 <= i < items[m].len() implies is_digit(items[m][i]) by {
        assert(all_digits(items[m]));
    }
    assert forall|m: int, i: int| 0 <= m < items.len() && 0 <= i < items[m].len() implies items[m][i] != ',' by {
        assert(all_digits(items[m]));
        assert(is_digit(items[m][i]));
    }
    lemma_split_join(items, ',');
    lemma_join_chars(items, ',');
    lemma_list_field_scan(v, min, max);
    assert forall|i: int| 0 <= i < comma_list(v).len() implies !is_ws(#[trigger] comma_list(v)[i]) by {
        let c = comma_list(v)[i];
        assert(is_digit(c) || c == ',');
    }
}

/// The fields of a parsed expression, each written as its value list.
pub open spec fn list_fields(e: CronExpr) -> Seq<Seq<char>> {
    seq![
        comma_list(e.fields()[0]),
        comma_list(e.fields()[1]),
        comma_list(e.fields()[2]),
        comma_list(e.fields()[3]),
        comma_list(e.fields()[4]),
    ]
}

/// What field `k` of a parsed expression holds: the set it read, listed in
/// a nonempty list within the field's bounds.
proof fn lemma_parsed_field(expr: Seq<char>, e: CronExpr, k: int)
    requires
        cron_spec(expr) matches CronSpec::Fields(sets) && expr_lists(e, sets),
        0 <= k < 5,
    ensures
        list_set(e.fields()[k]) == cron_spec(expr)->Fields_0[k],
        e.fields()[k].len() > 0,
        forall|i: int| 0 <= i < e.fields()[k].len() ==> field_bounds(k).0 <= #[trigger] e.fields()[k][i] <= field_bounds(k).1,
{
    let sets = cron_spec(expr)->Fields_0;
    cron_bounds_law(expr);
    let v = e.fields()[k];
    assert(lists_set(v, sets[k]));
    lemma_lists_list_set(v, sets[k]);
    let parts = split_whitespace_spec(expr);
    lemma_cron_scan_fields(parts, 5, k);
    lemma_field_scan_nonempty(split_spec(parts[k], ','), field_bounds(k).0, field_bounds(k).1);
    let x = choose|x: nat| field_scan(split_spec(parts[k], ','), field_bounds(k).0, field_bounds(k).1)->Values_0.contains(x);
    assert(sets[k].contains(x));
    assert(list_set(v).contains(x));
    assert forall|i: int| 0 <= i < v.len() implies field_bounds(k).0 <= #[trigger] v[i] <= field_bounds(k).1 by {
        assert(list_set(v).contains(v[i] as nat));
        assert(sets[k].contains(v[i] as nat));
    }
}

/// A parsed cron expression written with every field as its value list
/// (the form `describe` gives) reads back as the same fields.  `describe`
/// may also write a field that starts at 0 as `*` (when its list happens to
/// fill its allocation), which reads back as the field's full range: `0-3 0 1
/// 1 0` can come back as `* 0 1 1 0`, so that form is left out.
pub proof fn describe_parse_law(expr: Seq<char>, e: CronExpr)
    requires
        cron_spec(expr) matches CronSpec::Fields(sets) && expr_lists(e, sets),
    ensures
        cron_spec(join_spec(list_fields(e), seq![' '])) == cron_spec(expr),
{
    let ps = list_fields(e);
    lemma_list_fields_words(expr, e);
    lemma_ws_split_join(ps);
    assert(ps.drop_last().push(ps.last()) =~= ps);
    assert(split_whitespace_spec(join_spec(ps, seq![' '])) == ps);
    lemma_list_fields_scan(expr, e);
}

/// The fields written as lists are nonempty whitespace-free words.
proof fn lemma_list_fields_words(expr: Seq<char>, e: CronExpr)
    requires
        cron_spec(expr) matches CronSpec::Fields(sets) && expr_lists(e, sets),
    ensures
        list_fields(e).len() == 5,
        forall|k: int| 0 <= k < list_fields(e).len() ==> #[trigger] list_fields(e)[k].len() > 0,
        forall|k: int, i: int| 0 <= k < list_fields(e).len() && 0 <= i < list_fields(e)[k].len() ==> !is_ws(
            list_fields(e)[k][i],
        ),
{
    let ps = list_fields(e);
    lemma_parsed_field(expr, e, 0);
    lemma_parsed_field(expr, e, 1);
    lemma_parsed_field(expr, e, 2);
    lemma_parsed_field(expr, e, 3);
    lemma_parsed_field(expr, e, 4);
    lemma_list_field(e.fields()[0], 0, 59);
    lemma_list_field(e.fields()[1], 0, 23);
    lemma_list_field(e.fields()[2], 1, 31);
    lemma_list_field(e.fields()[3], 1, 12);
    lemma_list_field(e.fields()[4], 0, 6);
    lemma_words(ps);
}

/// The fields written as lists read back as the sets they were read from.
/// Fields that each read as the matching set make the scan give those sets.
proof fn lemma_scan_sets(ps: Seq<Seq<char>>, sets: Seq<Set<nat>>, n: nat)
    requires
        n <= sets.len(),
        forall|k: int| 0 <= k < n ==> field_spec(ps[k], field_bounds(k).0, field_bounds(k).1) == FieldScan::Values(
            #[trigger] sets[k],
        ),
    ensures
        cron_fields_scan(ps, n) == CronSpec::Fields(sets.subrange(0, n as int)),
    decreases n,
{
    if n == 0 {
        assert(sets.subrange(0, 0) =~= Seq::<Set<nat>>::empty());
    } else {
        lemma_scan_sets(ps, sets, (n - 1) as nat);
        assert(sets.subrange(0, n - 1).push(sets[n - 1]) =~= sets.subrange(0, n as int));
    }
}

/// The fields written as lists read back as the sets they were read from.
proof fn lemma_list_fields_scan(expr: Seq<char>, e: CronExpr)
    requires
        cron_spec(expr) matches CronSpec::Fields(sets) && expr_lists(e, sets),
    ensures
        cron_fields_scan(list_fields(e), 5) == cron_spec(expr),
{
    let sets = cron_spec(expr)->Fields_0;
    let ps = list_fields(e);
    lemma_cron_scan_fields(split_whitespace_spec(expr), 5, 0);
    assert forall|k: int| 0 <= k < 5 implies field_spec(ps[k], field_bounds(k).0, field_bounds(k).1)
        == FieldScan::Values(#[trigger] sets[k]) by {
        lemma_field_k(expr, e, k);
    }
    lemma_scan_sets(ps, sets, 5);
    assert(sets.subrange(0, 5) =~= sets);
}

/// Field `k` written as its list reads back as its set.
proof fn lemma_field_k(expr: Seq<char>, e: CronExpr, k: int)
    requires
        cron_spec(expr) matches CronSpec::Fields(sets) && expr_lists(e, sets),
        0 <= k < 5,
    ensures
        field_spec(list_fields(e)[k], field_bounds(k).0, field_bounds(k).1) == FieldScan::Values(
            cron_spec(expr)->Fields_0[k],
        ),
{
    lemma_parsed_field(expr, e, k);
    lemma_list_field(e.fields()[k], field_bounds(k).0, field_bounds(k).1);
    assert(list_fields(e)[k] == comma_list(e.fields()[k]));
}

/// Five nonempty whitespace-free words.
proof fn lemma_words(ps: Seq<Seq<char>>)
    requires
        ps.len() == 5,
        forall|k: int| 0 <= k < 5 ==> ps[k].len() > 0,
        ps[0].len() > 0 && forall|i: int| 0 <= i < ps[0].len() ==> !is_ws(#[trigger] ps[0][i]),
        ps[1].len() > 0 && forall|i: int| 0 <= i < ps[1].len() ==> !is_ws(#[trigger] ps[1][i]),
        ps[2].len() > 0 && forall|i: int| 0 <= i < ps[2].len() ==> !is_ws(#[trigger] ps[2][i]),
        ps[3].len() > 0 && forall|i: int| 0 <= i < ps[3].len() ==> !is_ws(#[trigger] ps[3][i]),
        ps[4].len() > 0 && forall|i: int| 0 <= i < ps[4].len() ==> !is_ws(#[trigger] ps[4][i]),
    ensures
        forall|k: int| 0 <= k < ps.len() ==> #[trigger] ps[k].len() > 0,
        forall|k: int, i: int| 0 <= k < ps.len() && 0 <= i < ps[k].len() ==> !is_ws(ps[k][i]),
{
    assert forall|k: int, i: int| 0 <= k < ps.len() && 0 <= i < ps[k].len() implies !is_ws(ps[k][i]) by {
        if k == 0 {
            assert(!is_ws(ps[0][i]));
        } else if k == 1 {
            assert(!is_ws(ps[1][i]));
        } else if k == 2 {
            assert(!is_ws(ps[2][i]));
        } else if k == 3 {
            assert(!is_ws(ps[3][i]));
        } else {
            assert(!is_ws(ps[4][i]));
        }
    }
}

/// Every value from `min` to `max`, both included.
pub open spec fn full_range(min: nat, max: nat) -> Set<nat> {
    Set::new(|v: nat| min <= v <= max)
}

/// A field written `*` selects exactly every value of the field's bounds,
/// from the lower to the upper one, both included.
pub proof fn star_field_law(min: nat, max: nat)
    requires
        min <= max < u32::MAX,
    ensures
        field_spec(seq!['*'], min, max) == FieldScan::Values(full_range(min, max)),
{
    let p = seq!['*'];
    lemma_find_none(p, '/');
    lemma_find_none(p, '-');
    let pieces = split_spec(p, ',');
    let e = Seq::<char>::empty();
    lemma_scan_append(e, p, ',');
    assert(e + p =~= p);
    assert(split_scan(e, ',') == (Seq::<Seq<char>>::empty(), e));
    assert(e + p =~= p);
    assert(split_scan(p, ',') == (Seq::<Seq<char>>::empty(), p));
    assert(pieces =~= seq![p]);
    assert(pieces.drop_last() =~= Seq::<Seq<char>>::empty());
    assert(piece_spec(p, min, max) == (PieceSpec::Range { lo: min, hi: max, step: 1 }));
    assert(field_scan(pieces.drop_last(), min, max) == FieldScan::Values(Set::<nat>::empty()));
    assert(pieces.last() == p);
    assert(!piece_overflows(min, max, 1));
    assert forall|v: nat| #[trigger] full_range(min, max).contains(v) implies piece_values(min, max, 1).contains(v) by {
        assert((v - min) % 1int == 0);
    }
    assert(piece_values(min, max, 1) =~= full_range(min, max));
    assert(Set::<nat>::empty().union(piece_values(min, max, 1)) =~= full_range(min, max));
    assert(field_scan(pieces, min, max) == FieldScan::Values(full_range(min, max)));
}

/// `* * * * *` selects every minute, hour, day of month, month and weekday.
pub proof fn all_stars_law()
    ensures
        cron_spec(seq!['*', ' ', '*', ' ', '*', ' ', '*', ' ', '*']) == CronSpec::Fields(
            seq![
                full_range(0, 59),
                full_range(0, 23),
                full_range(1, 31),
                full_range(1, 12),
                full_range(0, 6),
            ],
        ),
{
    let star = seq!['*'];
    let ps = seq![star, star, star, star, star];
    assert forall|k: int| 0 <= k < ps.len() implies #[trigger] ps[k].len() > 0 by {}
    assert forall|k: int, i: int| 0 <= k < ps.len() && 0 <= i < ps[k].len() implies !is_ws(ps[k][i]) by {
        assert(ps[k] == star);
    }
    lemma_ws_split_join(ps);
    let nl = seq![' '];
    let p1 = seq![star];
    let p2 = seq![star, star];
    let p3 = seq![star, star, star];
    let p4 = seq![star, star, star, star];
    assert(p2.drop_last() =~= p1);
    assert(p3.drop_last() =~= p2);
    assert(p4.drop_last() =~= p3);
    assert(ps.drop_last() =~= p4);
    assert(join_spec(p1, nl) == star);
    assert(join_spec(p2, nl) =~= seq!['*', ' ', '*']);
    assert(join_spec(p3, nl) =~= seq!['*', ' ', '*', ' ', '*']);
    assert(join_spec(p4, nl) =~= seq!['*', ' ', '*', ' ', '*', ' ', '*']);
    assert(join_spec(ps, nl) =~= seq!['*', ' ', '*', ' ', '*', ' ', '*', ' ', '*']);
    assert(ps.drop_last().push(ps.last()) =~= ps);
    assert(split_whitespace_spec(join_spec(ps, nl)) == ps);
    star_field_law(0, 59);
    star_field_law(0, 23);
    star_field_law(1, 31);
    star_field_law(1, 12);
    star_field_law(0, 6);
    let sets = seq![full_range(0, 59), full_range(0, 23), full_range(1, 31), full_range(1, 12), full_range(0, 6)];
    assert(cron_fields_scan(ps, 0) == CronSpec::Fields(Seq::<Set<nat>>::empty()));
    assert(ps[0] == star);
    assert(field_spec(ps[0], 0, 59) == FieldScan::Values(sets[0]));
    assert(Seq::<Set<nat>>::empty().push(sets[0]) =~= seq![sets[0]]);
    assert(cron_fields_scan(ps, 1) == CronSpec::Fields(seq![sets[0]]));
    assert(seq![sets[0]].push(sets[1]) =~= seq![sets[0], sets[1]]);
    assert(cron_fields_scan(ps, 2) == CronSpec::Fields(seq![sets[0], sets[1]]));
    assert(seq![sets[0], sets[1]].push(sets[2]) =~= seq![sets[0], sets[1], sets[2]]);
    assert(cron_fields_scan(ps, 3) == CronSpec::Fields(seq![sets[0], sets[1], sets[2]]));
    assert(seq![sets[0], sets[1], sets[2]].push(sets[3]) =~= seq![sets[0], sets[1], sets[2], sets[3]]);
    assert(cron_fields_scan(ps, 4) == CronSpec::Fields(seq![sets[0], sets[1], sets[2], sets[3]]));
    assert(seq![sets[0], sets[1], sets[2], sets[3]].push(sets[4]) =~= sets);
}

/// The expression `* * * * *`, once parsed, matches every moment: each field
/// lists every value of its bounds.
pub proof fn all_stars_match_law(e: CronExpr, t: CronTime)
    requires
        cron_spec(seq!['*', ' ', '*', ' ', '*', ' ', '*', ' ', '*']) matches CronSpec::Fields(sets) && expr_lists(
            e,
            sets,
        ),
        t.minute <= 59,
        t.hour <= 23,
        1 <= t.day <= 31,
        1 <= t.month <= 12,
        t.weekday <= 6,
    ensures
        e.fields()[0].contains(t.minute),
        e.fields()[1].contains(t.hour),
        e.fields()[2].contains(t.day),
        e.fields()[3].contains(t.month),
        e.fields()[4].contains(t.weekday),
{
    all_stars_law();
    let sets = cron_spec(seq!['*', ' ', '*', ' ', '*', ' ', '*', ' ', '*'])->Fields_0;
    assert(lists_set(e.fields()[0], sets[0]));
    assert(lists_set(e.fields()[1], sets[1]));
    assert(lists_set(e.fields()[2], sets[2]));
    assert(lists_set(e.fields()[3], sets[3]));
    assert(lists_set(e.fields()[4], sets[4]));
    assert(sets[0].contains(t.minute as nat));
    assert(sets[1].contains(t.hour as nat));
    assert(sets[2].contains(t.day as nat));
    assert(sets[3].contains(t.month as nat));
    assert(sets[4].contains(t.weekday as nat));
}

} // verus!
