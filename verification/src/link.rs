//! The in-memory log: an append-only sequence of events that any number of cursors replay.

use vstd::prelude::*;
use crate::channel::{EventIterator, EventPusher};
use crate::event::{Event, EventModel};

verus! {

/// An append-only log of events.
///
/// The head of the log is the `Start` marker: it stands before the first appended event and
/// takes no room. Positions count the appended events from there.
pub struct EventLink<T, D> {
    events: Vec<Event<T, D>>,
}

/// A consumer's place in an [`EventLink`]: the log it reads, and how many of its events lie
/// behind it.
pub struct EventCursor<'a, T, D> {
    log: &'a EventLink<T, D>,
    at: usize,
}

impl<T, D> EventLink<T, D> {
    /// A fresh log: the `Start` marker and nothing after it.
    pub fn new() -> (r: EventLink<T, D>)
        ensures
            r.pushed() == Seq::<EventModel<T, D>>::empty(),
    {
        let r = EventLink { events: Vec::new() };
        assert(r.pushed() =~= Seq::<EventModel<T, D>>::empty());
        r
    }

    /// The number of events appended so far.
    pub fn len(&self) -> (r: usize)
        ensures
            r == self.pushed().len(),
    {
        self.events.len()
    }

    /// The `index`-th appended event.
    pub fn get(&self, index: usize) -> (r: Option<&Event<T, D>>)
        ensures
            match r {
                Some(event) => index < self.pushed().len() && event@ == self.pushed()[index as int],
                None => index >= self.pushed().len(),
            },
    {
        if index < self.events.len() {
            Some(&self.events[index])
        } else {
            None
        }
    }

    /// A cursor on the head of the log: everything appended lies ahead of it.
    pub fn cursor(&self) -> (r: EventCursor<'_, T, D>)
        ensures
            r.log() == self.pushed(),
            r.position() == 0,
            r.pending() == self.pushed(),
    {
        let r = EventCursor { log: self, at: 0 };
        assert(r.pending() =~= self.pushed());
        r
    }

    /// A cursor with the first `position` appended events behind it. A position beyond the
    /// tail of the log gives a cursor on the tail.
    pub fn cursor_at(&self, position: usize) -> (r: EventCursor<'_, T, D>)
        ensures
            r.log() == self.pushed(),
            position <= self.pushed().len() ==> r.position() == position,
            position > self.pushed().len() ==> r.position() == self.pushed().len(),
            r.pending() == self.pushed().skip(r.position() as int),
    {
        let at = if position <= self.events.len() {
            position
        } else {
            self.events.len()
        };
        let r = EventCursor { log: self, at };
        assert(r.pending() =~= self.pushed().skip(at as int));
        r
    }
}

impl<T, D> EventPusher<T, D> for EventLink<T, D> {
    closed spec fn pushed(&self) -> Seq<EventModel<T, D>> {
        self.events@.map_values(|e: Event<T, D>| e@)
    }

    /// Appends a node that holds `event` at the tail.
    fn push(&mut self, event: Event<T, D>) {
        self.events.push(event);
        assert(self.pushed() =~= old(self).pushed().push(event@));
    }
}

impl<'a, T, D> EventCursor<'a, T, D> {
    /// Every event appended to the log that the cursor reads.
    pub closed spec fn log(&self) -> Seq<EventModel<T, D>> {
        self.log.pushed()
    }

    /// The number of appended events that lie behind the cursor.
    pub closed spec fn position(&self) -> nat {
        if self.at <= self.log.events@.len() {
            self.at as nat
        } else {
            self.log.events@.len()
        }
    }
}

impl<'a, T, D> Clone for EventCursor<'a, T, D> {
    /// A second cursor at the same position of the same log.
    fn clone(&self) -> (r: Self)
        ensures
            r == *self,
    {
        EventCursor { log: self.log, at: self.at }
    }
}

impl<'a, T, D> EventIterator<T, D> for EventCursor<'a, T, D> {
    closed spec fn pending(&self) -> Seq<EventModel<T, D>> {
        self.log().skip(self.position() as int)
    }

    /// Moves past the next appended event, if there is one, and hands it out.
    fn next<'b>(&'b mut self) -> (r: Option<&'b Event<T, D>>)
        ensures
            final(self).log() == old(self).log(),
            r is Some ==> final(self).position() == old(self).position() + 1,
            r is None ==> final(self).position() == old(self).position(),
    {
        let log: &'a EventLink<T, D> = self.log;
        if self.at < log.events.len() {
            self.at = self.at + 1;
            assert(self.pending() =~= old(self).pending().skip(1));
            Some(&log.events[self.at - 1])
        } else {
            None
        }
    }
}

/// Fan-out: the events ahead of a cursor are those appended to its log after its position,
/// all of them and in order. Two cursors that stand at one position of one log therefore
/// have the same events ahead of them, whatever either has consumed to get there.
pub proof fn lemma_fan_out<'a, T, D>(a: EventCursor<'a, T, D>, b: EventCursor<'a, T, D>)
    requires
        a.log() == b.log(),
        a.position() == b.position(),
    ensures
        a.position() <= a.log().len(),
        a.pending() == a.log().skip(a.position() as int),
        b.pending() == a.pending(),
{
}

} // verus!
