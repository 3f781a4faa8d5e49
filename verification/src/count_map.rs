//! Signed counts per timestamp, kept as the list of the changes that were reported.

use vstd::prelude::*;
use crate::event::{count_changes, delta_sum, lemma_count_changes_sum, lemma_delta_sum_concat};

verus! {

/// A tally of capability or record counts per timestamp.
///
/// The tally keeps every reported change, in order; the count that it holds for a timestamp
/// is the sum of the changes reported for it.
#[derive(Clone, Debug)]
pub struct CountMap<T> {
    updates: Vec<(T, i64)>,
}

impl<T> View for CountMap<T> {
    type V = Seq<(T, i64)>;

    closed spec fn view(&self) -> Seq<(T, i64)> {
        self.updates@
    }
}

impl<T> CountMap<T> {
    /// The count that the tally holds for `time`.
    pub open spec fn net(&self, time: T) -> int {
        delta_sum(self@, time)
    }

    /// An empty tally.
    pub fn new() -> (r: Self)
        ensures
            r@ == Seq::<(T, i64)>::empty(),
    {
        CountMap { updates: Vec::new() }
    }

    /// A tally of the given changes.
    pub fn from_updates(updates: Vec<(T, i64)>) -> (r: Self)
        ensures
            r@ == updates@,
    {
        CountMap { updates }
    }

    /// Reports a change of `delta` at `time`.
    pub fn update(&mut self, time: T, delta: i64)
        ensures
            final(self)@ == old(self)@.push((time, delta)),
    {
        self.updates.push((time, delta));
    }

    /// Reports each of `deltas`, in order.
    pub fn extend(&mut self, deltas: &Vec<(T, i64)>) where T: Copy
        ensures
            final(self)@ == old(self)@ + deltas@,
    {
        let mut i: usize = 0;
        while i < deltas.len()
            invariant
                i <= deltas.len(),
                self@ == old(self)@ + deltas@.take(i as int),
            decreases deltas.len() - i,
        {
            let (time, delta) = deltas[i];
            self.updates.push((time, delta));
            i = i + 1;
            assert(self@ =~= old(self)@ + deltas@.take(i as int));
        }
        assert(deltas@.take(i as int) =~= deltas@);
    }

    /// Reports `count` more at `time`, in as many changes as a signed count needs.
    pub fn update_count(&mut self, time: T, count: usize) where T: Copy
        ensures
            final(self)@ == old(self)@ + count_changes(time, count as nat),
            forall|t: T| #[trigger]
                final(self).net(t) == old(self).net(t) + if t == time {
                    count as int
                } else {
                    0
                },
    {
        let mut left: u64 = count as u64;
        while left > 0
            invariant
                left <= count,
                self@ + count_changes(time, left as nat) == old(self)@ + count_changes(
                    time,
                    count as nat,
                ),
            decreases left,
        {
            let step: u64 = if left > 0x7fff_ffff_ffff_ffff {
                0x7fff_ffff_ffff_ffff
            } else {
                left
            };
            let ghost before = self@;
            let ghost rest = count_changes(time, (left - step) as nat);
            assert(count_changes(time, left as nat) =~= seq![(time, step as i64)] + rest);
            self.updates.push((time, step as i64));
            left = left - step;
            assert(self@ + rest =~= before + (seq![(time, step as i64)] + rest));
        }
        assert(self@ =~= self@ + count_changes(time, 0));
        proof {
            assert forall|t: T| #[trigger]
                self.net(t) == old(self).net(t) + if t == time {
                    count as int
                } else {
                    0
                } by {
                lemma_delta_sum_concat(old(self)@, count_changes(time, count as nat), t);
                lemma_count_changes_sum(time, count as nat, t);
            }
        }
    }

    /// The changes reported so far, in order.
    pub fn updates(&self) -> (r: &Vec<(T, i64)>)
        ensures
            r@ == self@,
    {
        &self.updates
    }

    /// Whether no change has been reported.
    pub fn is_empty(&self) -> (r: bool)
        ensures
            r == (self@.len() == 0),
    {
        self.updates.len() == 0
    }

    /// Forgets every reported change.
    pub fn clear(&mut self)
        ensures
            final(self)@ == Seq::<(T, i64)>::empty(),
    {
        self.updates.clear();
    }

    /// Hands out the reported changes and leaves the tally empty.
    pub fn drain(&mut self) -> (r: Vec<(T, i64)>)
        ensures
            r@ == old(self)@,
            final(self)@ == Seq::<(T, i64)>::empty(),
    {
        let mut taken: Vec<(T, i64)> = Vec::new();
        std::mem::swap(&mut self.updates, &mut taken);
        taken
    }

    /// The reported changes, by value.
    pub fn into_inner(self) -> (r: Vec<(T, i64)>)
        ensures
            r@ == self@,
    {
        self.updates
    }
}

} // verus!
