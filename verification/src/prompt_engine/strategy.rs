//! Joining strategies, errors of the composer and its seeded generator.

use vstd::prelude::*;

use crate::text::{join, join_spec, str_eq, string_views};

verus! {

/// Why a prompt could not be composed; each variant names the offending
/// language, category or file.
#[derive(Debug)]
pub enum PromptError {
    /// The pool holds no tags for the requested language.
    UnknownLang(String),
    /// A required category has no tag file in the pool.
    UnknownCategory(String),
    /// A required category could not supply enough distinct tags.
    EmptyCategory(String),
    /// A category's file path has no usable file stem.
    InvalidFile(String),
}

/// The plain content of a `PromptError`.
pub enum PromptErrorView {
    UnknownLang(Seq<char>),
    UnknownCategory(Seq<char>),
    EmptyCategory(Seq<char>),
    InvalidFile(Seq<char>),
}

impl View for PromptError {
    type V = PromptErrorView;

    open spec fn view(&self) -> PromptErrorView {
        match self {
            PromptError::UnknownLang(s) => PromptErrorView::UnknownLang(s@),
            PromptError::UnknownCategory(s) => PromptErrorView::UnknownCategory(s@),
            PromptError::EmptyCategory(s) => PromptErrorView::EmptyCategory(s@),
            PromptError::InvalidFile(s) => PromptErrorView::InvalidFile(s@),
        }
    }
}

/// How selected tags are joined into one prompt.
#[derive(Debug, Clone, Copy, PartialEq, Eq, Structural)]
pub enum CombineStrategy {
    /// `a, b`
    Comma,
    /// One tag per line.
    Newline,
    /// `a b`
    Natural,
}

/// The separator of a strategy.
pub open spec fn separator(s: CombineStrategy) -> Seq<char> {
    match s {
        CombineStrategy::Comma => ", "@,
        CombineStrategy::Newline => "\n"@,
        CombineStrategy::Natural => " "@,
    }
}

impl CombineStrategy {
    /// Reads `comma`, `newline` or `natural`.
    pub fn parse(s: &str) -> (r: Option<CombineStrategy>)
        ensures
            s@ == "comma"@ <==> r == Some(CombineStrategy::Comma),
            s@ == "newline"@ <==> r == Some(CombineStrategy::Newline),
            s@ == "natural"@ <==> r == Some(CombineStrategy::Natural),
            r is None <==> (s@ != "comma"@ && s@ != "newline"@ && s@ != "natural"@),
    {
        proof {
            reveal_strlit("comma");
            reveal_strlit("newline");
            reveal_strlit("natural");
            assert("comma"@.len() != "newline"@.len());
            assert("comma"@.len() != "natural"@.len());
            assert("newline"@[1] != "natural"@[1]);
        }
        if str_eq(s, "comma") {
            Some(CombineStrategy::Comma)
        } else if str_eq(s, "newline") {
            Some(CombineStrategy::Newline)
        } else if str_eq(s, "natural") {
            Some(CombineStrategy::Natural)
        } else {
            None
        }
    }

    /// Joins `items` with the strategy's separator: `", "`, `"\n"` or `" "`.
    pub fn join(&self, items: &[String]) -> (r: String)
        ensures
            r@ == join_spec(string_views(items@), separator(*self)),
    {
        match self {
            CombineStrategy::Comma => join(items, ", "),
            CombineStrategy::Newline => join(items, "\n"),
            CombineStrategy::Natural => join(items, " "),
        }
    }
}

/// Multiplier of the generator.
pub const LCG_MUL: u64 = 2862933555777941757;

/// Increment of the generator.
pub const LCG_INC: u64 = 3037000493;

/// The state a seed starts from: 0 is replaced by a fixed odd constant.
pub open spec fn lcg_seed(seed: u64) -> u64 {
    if seed == 0 {
        0x9E3779B97F4A7C15
    } else {
        seed
    }
}

/// One step of the generator: `state * LCG_MUL + LCG_INC` modulo 2^64.
pub open spec fn lcg_step(state: u64) -> u64 {
    vstd::wrapping::u64_specs::wrapping_add(
        vstd::wrapping::u64_specs::wrapping_mul(state, LCG_MUL),
        LCG_INC,
    )
}

/// The output drawn with a step: the high 32 bits of the new state.
pub open spec fn lcg_output(state: u64) -> u32 {
    (lcg_step(state) / 0x1_0000_0000) as u32
}

/// A draw below `upper` (0 when `upper` is 0): the output modulo `upper`.
pub open spec fn lcg_below(state: u64, upper: nat) -> nat {
    if upper == 0 {
        0
    } else {
        (lcg_output(state) as nat) % upper
    }
}

/// The generator's state after a range draw: one step unless `upper` is 0.
pub open spec fn lcg_after_below(state: u64, upper: nat) -> u64 {
    if upper == 0 {
        state
    } else {
        lcg_step(state)
    }
}

/// A 64-bit linear congruential generator; the same seed gives the same
/// sequence.
#[derive(Debug, Clone)]
pub struct Lcg(u64);

impl View for Lcg {
    type V = u64;

    closed spec fn view(&self) -> u64 {
        self.0
    }
}

impl Lcg {
    /// A generator seeded with `seed`.
    pub fn new(seed: u64) -> (r: Lcg)
        ensures
            r@ == lcg_seed(seed),
    {
        let s = if seed == 0 {
            0x9E3779B97F4A7C15
        } else {
            seed
        };
        Lcg(s)
    }

    /// Advances the state and returns its high 32 bits.
    pub fn next_u32(&mut self) -> (r: u32)
        ensures
            final(self)@ == lcg_step(old(self)@),
            r == lcg_output(old(self)@),
    {
        self.0 = self.0.wrapping_mul(LCG_MUL).wrapping_add(LCG_INC);
        (self.0 / 0x1_0000_0000) as u32
    }

    /// A value below `upper` (0 when `upper` is 0, without drawing).
    pub fn gen_range(&mut self, upper: usize) -> (r: usize)
        ensures
            r == lcg_below(old(self)@, upper as nat),
            final(self)@ == lcg_after_below(old(self)@, upper as nat),
            upper > 0 ==> r < upper,
            upper == 0 ==> r == 0,
    {
        if upper == 0 {
            0
        } else {
            (self.next_u32() as usize) % upper
        }
    }
}

} // verus!
