//! The two capabilities of an event channel: appending an event, and taking the next one.

use vstd::prelude::*;
use crate::event::{Event, EventModel};

verus! {

/// The producing end of an event channel.
pub trait EventPusher<T, D> {
    /// Every event appended through this end so far, oldest first.
    spec fn pushed(&self) -> Seq<EventModel<T, D>>;

    /// Appends `event`.
    fn push(&mut self, event: Event<T, D>)
        ensures
            final(self).pushed() == old(self).pushed().push(event@),
    ;
}

/// The consuming end of an event channel.
pub trait EventIterator<T, D> {
    /// The events that are fully available and not yet consumed, oldest first.
    spec fn pending(&self) -> Seq<EventModel<T, D>>;

    /// Takes the next available event. `None` means that none is available now, not that
    /// none will come.
    fn next<'a>(&'a mut self) -> (r: Option<&'a Event<T, D>>)
        ensures
            match r {
                Some(event) => old(self).pending().len() > 0 && event@ == old(self).pending()[0]
                    && final(self).pending() == old(self).pending().skip(1),
                None => old(self).pending().len() == 0 && final(self).pending().len() == 0,
            },
    ;
}

} // verus!
