//! Per-item mastery estimator.
//!
//! Each item carries a pair of exponentially decayed counters
//! `(weighted_total, weighted_correct)`: recording an answer first scales
//! both counters by the decay factor `p = 9/10` and then adds one full
//! answer's weight to the total (and to the correct counter when the
//! answer was correct).  Recent answers therefore dominate the estimate.
//!
//! The counters are held in fixed point: the value `1.0` is `SCALE`.
//! Because `SCALE` is divisible by 100, short histories come out exact;
//! in general the scaled-down counter is truncated, which keeps every
//! bound below intact.
//!
//! The mastery estimate itself is the exact rational
//! `weighted_correct / weighted_total`, with `1/2` standing in for an
//! item that has never been answered.  It is always derived from the
//! counters, never stored.

use vstd::prelude::*;

verus! {

use vstd::arithmetic::div_mod::lemma_div_is_ordered;
use vstd::arithmetic::div_mod::lemma_div_pos_is_pos;
use vstd::arithmetic::div_mod::lemma_hoist_over_denominator;

/// One answer's full weight in the fixed-point encoding of the counters.
pub const SCALE: u64 = 1_000_000;

/// The decayed counters of one item, plus how many answers it has seen.
///
/// `num_events` is only used to tell items that were practiced at least
/// once from items that never were; the estimate depends on the two
/// counters alone.
#[derive(Clone, Copy, Debug, PartialEq, Eq, Structural)]
pub struct MasteryState {
    pub weighted_total: u64,
    pub weighted_correct: u64,
    pub num_events: u64,
}

/// A mastery estimate as an exact rational in `[0, 1]`.
#[derive(Clone, Copy, Debug, PartialEq, Eq, Structural)]
pub struct Estimate {
    pub num: u64,
    pub den: u64,
}

impl Estimate {
    pub open spec fn wf(self) -> bool {
        &&& 0 < self.den <= 10 * SCALE
        &&& self.num <= self.den
    }
}

/// One decay step on the mathematical counter pair `(total, correct)`.
pub open spec fn decay_next(s: (int, int), correct: bool) -> (int, int) {
    ((s.0 * 9) / 10 + SCALE, (s.1 * 9) / 10 + if correct {
        SCALE as int
    } else {
        0int
    })
}

/// The counter pair after folding a whole answer history, oldest first,
/// starting from the neutral state.
pub open spec fn decay_fold(evs: Seq<bool>) -> (int, int)
    decreases evs.len(),
{
    if evs.len() == 0 {
        (0int, 0int)
    } else {
        decay_next(decay_fold(evs.drop_last()), evs.last())
    }
}

/// The counter pair after folding a history on top of a given start state.
pub open spec fn decay_run(s: (int, int), evs: Seq<bool>) -> (int, int)
    decreases evs.len(),
{
    if evs.len() == 0 {
        s
    } else {
        decay_next(decay_run(s, evs.drop_last()), evs.last())
    }
}

impl MasteryState {
    pub open spec fn wf(self) -> bool {
        &&& self.weighted_correct <= self.weighted_total
        &&& self.weighted_total <= 10 * SCALE
        &&& (self.num_events == 0 <==> self.weighted_total == 0)
        &&& (self.weighted_total > 0 ==> self.weighted_total >= SCALE)
    }

    /// The mathematical counter pair this state encodes.
    pub open spec fn model(self) -> (int, int) {
        (self.weighted_total as int, self.weighted_correct as int)
    }

    pub open spec fn estimate_spec(self) -> Estimate {
        if self.weighted_total == 0 {
            Estimate { num: 1, den: 2 }
        } else {
            Estimate { num: self.weighted_correct, den: self.weighted_total }
        }
    }

    /// The neutral state of an item with no recorded answers.
    pub fn new() -> (s: MasteryState)
        ensures
            s.wf(),
            s.model() == (0int, 0int),
            s.num_events == 0,
    {
        MasteryState { weighted_total: 0, weighted_correct: 0, num_events: 0 }
    }

    /// Records one answer: decays both counters and adds the new answer's
    /// weight, exactly as `decay_next` describes; returns the new estimate.
    pub fn apply(&mut self, correct: bool) -> (est: Estimate)
        requires
            old(self).wf(),
            old(self).num_events < u64::MAX,
        ensures
            final(self).wf(),
            final(self).model() == decay_next(old(self).model(), correct),
            final(self).num_events == old(self).num_events + 1,
            est == final(self).estimate_spec(),
            est.wf(),
    {
        let t9: u64 = self.weighted_total * 9;
        let c9: u64 = self.weighted_correct * 9;
        proof {
            lemma_div_is_ordered(c9 as int, t9 as int, 10);
            lemma_div_is_ordered(t9 as int, (90 * SCALE) as int, 10);
            lemma_div_pos_is_pos(t9 as int, 10);
        }
        self.weighted_total = t9 / 10 + SCALE;
        self.weighted_correct = c9 / 10 + if correct {
            SCALE
        } else {
            0
        };
        self.num_events = self.num_events + 1;
        self.estimate()
    }

    /// The current estimate, recomputed from the counters.
    pub fn estimate(&self) -> (est: Estimate)
        requires
            self.wf(),
        ensures
            est == self.estimate_spec(),
            est.wf(),
    {
        if self.weighted_total == 0 {
            Estimate { num: 1, den: 2 }
        } else {
            Estimate { num: self.weighted_correct, den: self.weighted_total }
        }
    }

    /// Whether the item has been answered at least once.
    pub fn practiced(&self) -> (r: bool)
        ensures
            r == (self.num_events > 0),
    {
        self.num_events > 0
    }
}

/// Monotonic decay bounds: after any answer history the counters satisfy
/// `0 <= weighted_correct <= weighted_total <= 10 * SCALE`, so the
/// estimate derived from them always lies in `[0, 1]`.
pub proof fn lemma_decay_fold_bounds(evs: Seq<bool>)
    ensures
        0 <= decay_fold(evs).1 <= decay_fold(evs).0 <= 10 * SCALE,
    decreases evs.len(),
{
    if evs.len() == 0 {
    } else {
        lemma_decay_fold_bounds(evs.drop_last());
        let s = decay_fold(evs.drop_last());
        lemma_div_pos_is_pos(s.1 * 9, 10);
        lemma_div_is_ordered(s.1 * 9, s.0 * 9, 10);
        lemma_div_is_ordered(s.0 * 9, (90 * SCALE) as int, 10);
    }
}

/// The estimate of any well-formed state is a rational in `[0, 1]` with a
/// positive denominator.
pub proof fn lemma_estimate_in_unit_interval(s: MasteryState)
    requires
        s.wf(),
    ensures
        0 < s.estimate_spec().den,
        s.estimate_spec().num <= s.estimate_spec().den,
{
}

/// The total counter evolves the same way whatever the answers were.
proof fn lemma_decay_run_total(s1: (int, int), s2: (int, int), evs: Seq<bool>)
    requires
        s1.0 == s2.0,
    ensures
        decay_run(s1, evs).0 == decay_run(s2, evs).0,
    decreases evs.len(),
{
    if evs.len() == 0 {
    } else {
        lemma_decay_run_total(s1, s2, evs.drop_last());
    }
}

/// A lead in the correct counter survives any common suffix of answers.
proof fn lemma_decay_run_correct_monotone(s1: (int, int), s2: (int, int), evs: Seq<bool>)
    requires
        s1.1 >= s2.1,
    ensures
        decay_run(s1, evs).1 >= decay_run(s2, evs).1,
    decreases evs.len(),
{
    if evs.len() == 0 {
    } else {
        lemma_decay_run_correct_monotone(s1, s2, evs.drop_last());
        let a = decay_run(s1, evs.drop_last());
        let b = decay_run(s2, evs.drop_last());
        lemma_div_is_ordered(b.1 * 9, a.1 * 9, 10);
    }
}

/// Recency dominance: from any state, answering (incorrect, then correct)
/// leaves the same total counter and at least as large a correct counter
/// as answering (correct, then incorrect), whatever common history
/// follows.  Since the totals agree, the estimate of the run whose most
/// recent answer was correct is greater or equal; with no trailing
/// history the lead is exactly `SCALE / 10`, so the estimate is strictly
/// higher there.
pub proof fn lemma_recency_dominance(s: (int, int), rest: Seq<bool>)
    requires
        s.1 >= 0,
    ensures
        decay_run(decay_next(decay_next(s, false), true), rest).0 == decay_run(
            decay_next(decay_next(s, true), false),
            rest,
        ).0,
        decay_run(decay_next(decay_next(s, false), true), rest).1 >= decay_run(
            decay_next(decay_next(s, true), false),
            rest,
        ).1,
        rest.len() == 0 ==> decay_run(decay_next(decay_next(s, false), true), rest).1 == decay_run(
            decay_next(decay_next(s, true), false),
            rest,
        ).1 + SCALE / 10,
{
    let a = (s.1 * 9) / 10;
    lemma_div_pos_is_pos(s.1 * 9, 10);
    let hi = decay_next(decay_next(s, false), true);
    let lo = decay_next(decay_next(s, true), false);
    // hi.1 == (a * 9) / 10 + SCALE
    // lo.1 == ((a + SCALE) * 9) / 10 == (a * 9) / 10 + (9 * SCALE) / 10
    assert((a + SCALE) * 9 == a * 9 + 9 * SCALE) by (nonlinear_arith) {}
    lemma_hoist_over_denominator(a * 9, ((9 * SCALE) / 10) as int, 10nat);
    assert(lo.1 == (a * 9) / 10 + (9 * SCALE) / 10);
    assert(hi.1 == lo.1 + SCALE / 10);
    lemma_decay_run_total(hi, lo, rest);
    lemma_decay_run_correct_monotone(hi, lo, rest);
}

} // verus!
