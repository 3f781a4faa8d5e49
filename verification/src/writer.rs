//! The producing end of a byte stream: events are encoded into a buffer that the owner of
//! the sink writes out and clears.

use vstd::prelude::*;
use crate::channel::{EventIterator, EventPusher};
use crate::codec::{lemma_history_round_trip, lemma_view_fits, wire_event, wire_history};
use crate::event::{Event, EventModel};
use crate::reader::EventReader;
use crate::wire::Wire;

verus! {

/// Encodes the events pushed to it.
///
/// The writer holds the bytes that are owed to the sink. Whoever owns the sink writes them
/// in one call and clears the writer before the next event is pushed.
pub struct EventWriter<T, D> {
    buffer: Vec<u8>,
    history: Ghost<Seq<EventModel<T, D>>>,
    owed: Ghost<Seq<EventModel<T, D>>>,
}

impl<T, D> EventWriter<T, D> {
    /// The bytes that are owed to the sink, oldest first.
    pub closed spec fn bytes(&self) -> Seq<u8> {
        self.buffer@
    }

    /// The events whose bytes are owed to the sink, oldest first.
    pub closed spec fn owed(&self) -> Seq<EventModel<T, D>> {
        self.owed@
    }

    /// A writer that has encoded nothing.
    pub fn new() -> (r: EventWriter<T, D>)
        ensures
            r.bytes() == Seq::<u8>::empty(),
            r.history() == Seq::<EventModel<T, D>>::empty(),
            r.owed() == Seq::<EventModel<T, D>>::empty(),
    {
        EventWriter { buffer: Vec::new(), history: Ghost(Seq::empty()), owed: Ghost(Seq::empty()) }
    }

    /// Every event pushed so far, oldest first.
    pub closed spec fn history(&self) -> Seq<EventModel<T, D>> {
        self.history@
    }

    /// The bytes that are owed to the sink.
    pub fn as_bytes(&self) -> (r: &[u8])
        ensures
            r@ == self.bytes(),
    {
        self.buffer.as_slice()
    }

    /// Forgets the bytes owed, once they are written.
    pub fn clear(&mut self)
        ensures
            final(self).bytes() == Seq::<u8>::empty(),
            final(self).owed() == Seq::<EventModel<T, D>>::empty(),
            final(self).history() == old(self).history(),
    {
        self.buffer.clear();
        self.owed = Ghost(Seq::empty());
    }

    /// Hands out the bytes owed and keeps none.
    pub fn take(&mut self) -> (r: Vec<u8>)
        ensures
            r@ == old(self).bytes(),
            final(self).bytes() == Seq::<u8>::empty(),
            final(self).owed() == Seq::<EventModel<T, D>>::empty(),
            final(self).history() == old(self).history(),
    {
        let mut taken: Vec<u8> = Vec::new();
        std::mem::swap(&mut self.buffer, &mut taken);
        self.owed = Ghost(Seq::empty());
        taken
    }
}

impl<T: Wire, D: Wire> EventPusher<T, D> for EventWriter<T, D> {
    open spec fn pushed(&self) -> Seq<EventModel<T, D>> {
        self.history()
    }

    /// Appends the code of `event` to the bytes owed.
    fn push(&mut self, event: Event<T, D>)
        ensures
            final(self).bytes() == old(self).bytes() + wire_event(event@),
            final(self).owed() == old(self).owed().push(event@),
            old(self).wf() ==> final(self).wf(),
    {
        proof {
            lemma_view_fits(event);
            assert(self.owed@.push(event@).drop_last() =~= self.owed@);
        }
        event.encode(&mut self.buffer);
        self.history = Ghost(self.history@.push(event@));
        self.owed = Ghost(self.owed@.push(event@));
    }
}

impl<T: Wire, D: Wire> EventWriter<T, D> {
    /// The bytes owed are the codes of the events owed, in order. This holds of a new
    /// writer, and every operation keeps it.
    pub open spec fn wf(&self) -> bool {
        &&& self.bytes() == wire_history(self.owed())
        &&& forall|i: int| 0 <= i < self.owed().len() ==> (#[trigger] self.owed()[i]).fits()
    }
}

/// Round trip over bytes: a reader whose unconsumed bytes are the bytes that a writer owes
/// has exactly the events that the writer owes ahead of it, in order.
pub proof fn lemma_stream_round_trip<T: Wire, D: Wire>(
    writer: EventWriter<T, D>,
    reader: EventReader<T, D>,
)
    requires
        writer.wf(),
        reader.window() == writer.bytes(),
    ensures
        reader.pending() == writer.owed(),
{
    lemma_history_round_trip(writer.owed());
}

} // verus!
