//! The `batch` command: one pipeline run per item, each with its own seed,
//! and the tally that decides the command's result.

use vstd::prelude::*;

use crate::cli::pipeline::PipelineOpts;
use crate::text::{decimal_spec, decimal_u64, owned, push_all};

verus! {

/// Arguments of the `batch` command.
#[derive(Debug, Clone)]
pub struct BatchArgs {
    /// How many items; must be above zero.
    pub count: u32,
    pub theme: String,
    pub lang: Option<String>,
    pub strategy: Option<String>,
    pub max_length: Option<usize>,
    /// Base seed; 0 takes the clock's sub-second nanoseconds instead.
    pub seed: u64,
    pub template: String,
    pub no_send: bool,
    pub refine: bool,
}

/// The seed of item `i` (counting from 1): the base seed plus `i`, wrapping,
/// or, when the base is 0, the clock's sub-second nanoseconds plus `i`.
pub fn batch_seed(base: u64, i: u32, subsec_nanos: u32) -> (r: u64)
    ensures
        r == if base == 0 {
            subsec_nanos + i
        } else {
            (base + i) % 0x1_0000_0000_0000_0000
        },
{
    if base == 0 {
        subsec_nanos as u64 + i as u64
    } else {
        base.wrapping_add(i as u64)
    }
}

/// The options of one item.
pub fn batch_opts(args: &BatchArgs, seed: u64) -> (r: PipelineOpts)
    ensures
        r.theme_name@ == args.theme@,
        r.lang == args.lang,
        r.strategy == args.strategy,
        r.max_length == args.max_length,
        r.seed == seed,
        r.template@ == args.template@,
        r.no_send == args.no_send,
        r.use_refine == args.refine,
        r.width is None,
        r.height is None,
{
    PipelineOpts {
        theme_name: args.theme.clone(),
        lang: args.lang.clone(),
        strategy: args.strategy.clone(),
        max_length: args.max_length,
        seed,
        template: args.template.clone(),
        no_send: args.no_send,
        use_refine: args.refine,
        width: None,
        height: None,
    }
}

/// The line reported for a finished item: `[i/count] prompt`, marked
/// `[refined]` when the polish changed the prompt.
pub fn batch_item_line(i: u32, count: u32, refined: bool, prompt: &str) -> (r: String)
    ensures
        r@ == "["@ + decimal_spec(i as nat) + "/"@ + decimal_spec(count as nat) + "] "@ + (if refined {
            "[refined] "@
        } else {
            ""@
        }) + prompt@,
{
    let mut out = owned("[");
    push_all(&mut out, decimal_u64(i as u64).as_str());
    push_all(&mut out, "/");
    push_all(&mut out, decimal_u64(count as u64).as_str());
    push_all(&mut out, "] ");
    if refined {
        push_all(&mut out, "[refined] ");
    } else {
        proof {
            reveal_strlit("");
        }
        assert(out@ + ""@ =~= out@);
    }
    push_all(&mut out, prompt);
    out
}

/// How many items of a batch succeeded and failed.
#[derive(Debug, Clone, Copy)]
pub struct BatchTally {
    count: u32,
    generated: u32,
    failed: u32,
}

impl BatchTally {
    /// Items planned.
    pub closed spec fn planned(&self) -> nat {
        self.count as nat
    }

    /// Items that succeeded so far.
    pub closed spec fn done_ok(&self) -> nat {
        self.generated as nat
    }

    /// Items that failed so far.
    pub closed spec fn done_failed(&self) -> nat {
        self.failed as nat
    }

    /// The tally holds at most the planned items.
    pub closed spec fn wf(&self) -> bool {
        self.generated + self.failed <= self.count
    }

    /// A tally for `count` items; a count of 0 is refused.
    pub fn start(count: u32) -> (r: Result<BatchTally, String>)
        ensures
            count == 0 <==> r is Err,
            r matches Err(m) ==> m@ == "--count must be > 0"@,
            r matches Ok(t) ==> t.wf() && t.planned() == count && t.done_ok() == 0 && t.done_failed() == 0,
    {
        if count == 0 {
            return Err(owned("--count must be > 0"));
        }
        Ok(BatchTally { count, generated: 0, failed: 0 })
    }

    /// Records one finished item.
    pub fn record(&mut self, ok: bool)
        requires
            old(self).wf(),
            old(self).done_ok() + old(self).done_failed() < old(self).planned(),
        ensures
            final(self).wf(),
            final(self).planned() == old(self).planned(),
            final(self).done_ok() == old(self).done_ok() + if ok {
                1nat
            } else {
                0nat
            },
            final(self).done_failed() == old(self).done_failed() + if ok {
                0nat
            } else {
                1nat
            },
    {
        if ok {
            self.generated = self.generated + 1;
        } else {
            self.failed = self.failed + 1;
        }
    }

    /// `batch done: {generated} generated, {failed} failed`.
    pub fn summary(&self) -> (r: String)
        ensures
            r@ == "batch done: "@ + decimal_spec(self.done_ok()) + " generated, "@ + decimal_spec(self.done_failed())
                + " failed"@,
    {
        let mut out = owned("batch done: ");
        push_all(&mut out, decimal_u64(self.generated as u64).as_str());
        push_all(&mut out, " generated, ");
        push_all(&mut out, decimal_u64(self.failed as u64).as_str());
        push_all(&mut out, " failed");
        out
    }

    /// The result of the batch: it fails only when items failed and none
    /// succeeded.
    pub fn verdict(&self) -> (r: Result<(), String>)
        ensures
            r is Err <==> (self.done_failed() > 0 && self.done_ok() == 0),
            r matches Err(m) ==> m@ == "all "@ + decimal_spec(self.done_failed()) + " batch items failed"@,
    {
        if self.failed > 0 && self.generated == 0 {
            let mut m = owned("all ");
            push_all(&mut m, decimal_u64(self.failed as u64).as_str());
            push_all(&mut m, " batch items failed");
            return Err(m);
        }
        Ok(())
    }
}

} // verus!
