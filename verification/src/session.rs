//! The practice-session coordinator as a state machine.
//!
//! One session walks a chosen list of items in a freshly shuffled order.
//! Each answer advances the cursor; a wrong answer queues the item for
//! the next pass.  When a pass ends and there were misses, a new pass
//! starts over exactly the missed items, reshuffled; a clean pass ends
//! the session.  There is no iteration cap: the session runs until every
//! outstanding item has been answered correctly.
//!
//! The surrounding program drives the loop: it presents the current
//! item, collects the correctness signal, records it both here and with
//! the estimator, and calls `advance_pass` at the end of each pass.

use vstd::prelude::*;

verus! {

use crate::selection::shuffle_ids;

pub struct Session {
    pub queue: Vec<i64>,
    pub pos: usize,
    pub misses: Vec<i64>,
}

impl Session {
    pub open spec fn wf(self) -> bool {
        self.pos <= self.queue@.len()
    }

    /// Starts a session over the given items, in shuffled order.
    pub fn new(items: Vec<i64>) -> (s: Session)
        ensures
            s.wf(),
            s.queue@.to_multiset() == items@.to_multiset(),
            s.pos == 0,
            s.misses@ == Seq::<i64>::empty(),
    {
        let mut queue = items;
        shuffle_ids(&mut queue);
        Session { queue, pos: 0, misses: Vec::new() }
    }

    /// The item to present next, or nothing when the pass is over.
    pub fn current(&self) -> (r: Option<i64>)
        requires
            self.wf(),
        ensures
            r == if self.pos < self.queue@.len() {
                Option::Some(self.queue@[self.pos as int])
            } else {
                Option::None::<i64>
            },
    {
        if self.pos < self.queue.len() {
            Option::Some(self.queue[self.pos])
        } else {
            Option::None
        }
    }

    /// Records the correctness signal for the current item: the cursor
    /// advances, and a miss queues the item for the next pass.
    pub fn record_answer(&mut self, correct: bool)
        requires
            old(self).wf(),
            old(self).pos < old(self).queue@.len(),
        ensures
            final(self).wf(),
            final(self).queue == old(self).queue,
            final(self).pos == old(self).pos + 1,
            final(self).misses@ == if correct {
                old(self).misses@
            } else {
                old(self).misses@.push(old(self).queue@[old(self).pos as int])
            },
    {
        if !correct {
            let id = self.queue[self.pos];
            self.misses.push(id);
        }
        proof {
            assert(self.queue.len() == self.queue@.len());
        }
        self.pos = self.pos + 1;
    }

    /// At the end of a pass: finishes the session when the pass was
    /// clean, otherwise starts a new pass over exactly the missed items,
    /// reshuffled.
    pub fn advance_pass(&mut self) -> (finished: bool)
        requires
            old(self).wf(),
            old(self).pos == old(self).queue@.len(),
        ensures
            final(self).wf(),
            finished == (old(self).misses@.len() == 0),
            finished ==> *final(self) == *old(self),
            !finished ==> {
                &&& final(self).queue@.to_multiset() == old(self).misses@.to_multiset()
                &&& final(self).pos == 0
                &&& final(self).misses@ == Seq::<i64>::empty()
            },
    {
        if self.misses.len() == 0 {
            true
        } else {
            let mut next = Vec::new();
            core::mem::swap(&mut next, &mut self.misses);
            shuffle_ids(&mut next);
            self.queue = next;
            self.pos = 0;
            false
        }
    }

    /// How many items the current pass holds.
    pub fn pass_len(&self) -> (r: usize)
        ensures
            r == self.queue@.len(),
    {
        self.queue.len()
    }

    /// How many items of the current pass were answered.
    pub fn answered(&self) -> (r: usize)
        ensures
            r == self.pos,
    {
        self.pos
    }

    /// How many items of the current pass were missed so far.
    pub fn miss_count(&self) -> (r: usize)
        ensures
            r == self.misses@.len(),
    {
        self.misses.len()
    }
}

} // verus!
