//! Progress tracker: a numeric cell reporting completion percentage for one
//! long-running operation, plus a sentinel value meaning "finished, clear the
//! indicator".

use vstd::prelude::*;

verus! {

/// Sentinel value written when an operation has finished; it is greater than
/// 100 so an observer can tell "done, stop showing the bar" from "at 100%".
pub const PROGRESS_DONE: u32 = 101;

/// Percentage of completion after `processed` of `total` steps, rounded down.
pub open spec fn percent_spec(processed: nat, total: nat) -> nat {
    processed * 100 / total
}

/// Completion percentages never exceed 100.
pub proof fn lemma_percent_le_100(processed: nat, total: nat)
    requires
        0 < total,
        processed <= total,
    ensures
        percent_spec(processed, total) <= 100,
{
    assert(processed * 100 <= total * 100) by (nonlinear_arith)
        requires
            processed <= total,
    ;
    vstd::arithmetic::div_mod::lemma_div_is_ordered(
        (processed * 100) as int,
        (total * 100) as int,
        total as int,
    );
    vstd::arithmetic::div_mod::lemma_div_multiples_vanish(100, total as int);
}

/// Progress is monotone: reporting more processed steps never lowers the
/// percentage shown.
pub proof fn lemma_percent_monotonic(p1: nat, p2: nat, total: nat)
    requires
        0 < total,
        p1 <= p2,
    ensures
        percent_spec(p1, total) <= percent_spec(p2, total),
{
    assert(p1 * 100 <= p2 * 100) by (nonlinear_arith)
        requires
            p1 <= p2,
    ;
    vstd::arithmetic::div_mod::lemma_div_is_ordered(
        (p1 * 100) as int,
        (p2 * 100) as int,
        total as int,
    );
}

/// A finished operation reports exactly 100 before the sentinel is written,
/// and an unstarted one reports 0.
pub proof fn lemma_percent_endpoints(total: nat)
    requires
        0 < total,
    ensures
        percent_spec(0, total) == 0,
        percent_spec(total, total) == 100,
{
    vstd::arithmetic::div_mod::lemma_div_multiples_vanish(100, total as int);
}

/// The shared integer cell a worker writes and an observer polls.  The cell
/// itself is single-writer state; sharing it between the worker thread and
/// the observer is the calling layer's concern.
pub struct ProgressCell {
    value: u32,
}

impl ProgressCell {
    /// The value an observer would currently read.
    pub closed spec fn current(self) -> u32 {
        self.value
    }

    /// A cell only ever holds a percentage or the sentinel.
    pub closed spec fn wf(self) -> bool {
        self.value <= PROGRESS_DONE
    }

    pub fn new() -> (r: ProgressCell)
        ensures
            r.current() == 0,
            r.wf(),
    {
        ProgressCell { value: 0 }
    }

    pub fn get(&self) -> (r: u32)
        ensures
            r == self.current(),
    {
        self.value
    }

    /// Record that `processed` of `total` steps are complete.
    pub fn report(&mut self, processed: usize, total: usize)
        requires
            0 < total,
            processed <= total,
        ensures
            final (self).current() == percent_spec(processed as nat, total as nat),
            final (self).current() <= 100,
            final (self).wf(),
    {
        proof {
            lemma_percent_le_100(processed as nat, total as nat);
        }
        let wide: u128 = (processed as u128) * 100 / (total as u128);
        self.value = wide as u32;
    }

    /// Record that the operation is over and the indicator should be cleared.
    pub fn finish(&mut self)
        ensures
            final (self).current() == PROGRESS_DONE,
            final (self).wf(),
    {
        self.value = PROGRESS_DONE;
    }
}

} // verus!
