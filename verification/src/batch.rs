//! Admission control of a bounded batch: items wait in a queue, at most
//! `limit` of them are active at once, and a finished item frees its slot
//! for the next queued one, first come first served.

use vstd::prelude::*;

verus! {

/// The number of queued items admitted when `active` items are running
/// under `limit` and `queued` are waiting.
pub open spec fn admitted(limit: nat, active: nat, queued: nat) -> nat {
    if active >= limit {
        0
    } else if limit - active < queued {
        (limit - active) as nat
    } else {
        queued
    }
}

/// A bounded batch of items of type `T`.
pub struct BatchSchedule<T> {
    queued: Vec<T>,
    active: Vec<T>,
    limit: usize,
}

impl<T> BatchSchedule<T> {
    /// Items waiting, oldest first.
    pub closed spec fn waiting(self) -> Seq<T> {
        self.queued@
    }

    /// Items running, in admission order (finished ones removed).
    pub closed spec fn running(self) -> Seq<T> {
        self.active@
    }

    /// Most items running at once.
    pub closed spec fn bound(self) -> nat {
        self.limit as nat
    }

    /// All of `items` waiting, none running, at most `limit` (at least one)
    /// running at once.
    pub fn new(items: Vec<T>, limit: usize) -> (r: Self)
        ensures
            r.waiting() == items@,
            r.running() == Seq::<T>::empty(),
            r.bound() == (if limit == 0 { 1 } else { limit as nat }),
    {
        BatchSchedule { queued: items, active: Vec::new(), limit: if limit == 0 { 1 } else { limit } }
    }

    /// Start waiting items, oldest first, until `bound()` are running or
    /// none is left waiting.
    pub fn fill(&mut self)
        ensures
            final(self).bound() == old(self).bound(),
            final(self).running() == old(self).running() + old(self).waiting().take(
                admitted(old(self).bound(), old(self).running().len(), old(self).waiting().len()) as int,
            ),
            final(self).waiting() == old(self).waiting().skip(
                admitted(old(self).bound(), old(self).running().len(), old(self).waiting().len()) as int,
            ),
    {
        let ghost q0 = self.queued@;
        let ghost a0 = self.active@;
        let ghost mut k: nat = 0;
        while self.active.len() < self.limit && self.queued.len() > 0
            invariant
                self.limit == old(self).limit,
                q0 == old(self).queued@,
                a0 == old(self).active@,
                k <= q0.len(),
                self.active@ == a0 + q0.take(k as int),
                self.queued@ == q0.skip(k as int),
                a0.len() >= self.limit ==> k == 0,
                a0.len() < self.limit ==> k <= self.limit - a0.len(),
            decreases self.queued@.len(),
        {
            let item = self.queued.remove(0);
            self.active.push(item);
            proof {
                assert(q0.take((k + 1) as int) =~= q0.take(k as int).push(item));
                k = k + 1;
                assert(self.queued@ =~= q0.skip(k as int));
                assert(self.active@ =~= a0 + q0.take(k as int));
            }
        }
        proof {
            assert(k == admitted(self.limit as nat, a0.len(), q0.len()));
        }
    }

    /// Remove the running item at `idx`, which has finished.
    pub fn finish(&mut self, idx: usize) -> (r: T)
        requires
            idx < old(self).running().len(),
        ensures
            r == old(self).running()[idx as int],
            final(self).running() == old(self).running().remove(idx as int),
            final(self).waiting() == old(self).waiting(),
            final(self).bound() == old(self).bound(),
    {
        self.active.remove(idx)
    }

    /// The running item at `idx`.
    pub fn running_at(&self, idx: usize) -> (r: &T)
        requires
            idx < self.running().len(),
        ensures
            *r == self.running()[idx as int],
    {
        &self.active[idx]
    }

    /// Number of running items.
    pub fn running_len(&self) -> (r: usize)
        ensures
            r == self.running().len(),
    {
        self.active.len()
    }

    /// Nothing running and nothing waiting.
    pub fn is_done(&self) -> (r: bool)
        ensures
            r == (self.running().len() == 0 && self.waiting().len() == 0),
    {
        self.active.len() == 0 && self.queued.len() == 0
    }
}

/// Filling never exceeds the bound, and runs every item eventually:
/// after filling, at most `bound()` items run when at most that many ran
/// before, and an empty running set after filling means nothing waits.
pub proof fn lemma_fill_respects_bound(limit: nat, active: nat, queued: nat)
    requires
        limit >= 1,
    ensures
        active <= limit ==> active + admitted(limit, active, queued) <= limit,
        active + admitted(limit, active, queued) == 0 ==> queued == 0,
        admitted(limit, active, queued) <= queued,
{
}

} // verus!
