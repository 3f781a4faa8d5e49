//! The consuming end of a byte stream: received bytes are buffered, and events are decoded
//! from the front of what has not been consumed.

use vstd::prelude::*;
use crate::channel::EventIterator;
use crate::codec::{
    events_in, lemma_event_begun, lemma_event_first, lemma_history_round_trip, lemma_view_fits,
    wire_event, wire_history,
};
use crate::event::{Event, EventModel};
use crate::wire::{begins, lemma_prefix_trans, window, Decoded, Wire};

verus! {

/// Decodes events from the bytes fed to it.
///
/// Whoever owns the source feeds the reader what one read returned, each time `next` has
/// found no event.
pub struct EventReader<T, D> {
    buffer: Vec<u8>,
    consumed: usize,
    current: Option<Event<T, D>>,
}

impl<T, D> EventReader<T, D> {
    /// The receive buffer: the bytes fed and not yet discarded.
    pub closed spec fn buffer(&self) -> Seq<u8> {
        self.buffer@
    }

    /// The offset in the receive buffer up to which the bytes have been decoded.
    pub closed spec fn consumed(&self) -> nat {
        self.consumed as nat
    }

    /// The consumed offset lies within the receive buffer.
    pub open spec fn wf(&self) -> bool {
        self.consumed() <= self.buffer().len()
    }

    /// The bytes received and not yet consumed.
    pub open spec fn window(&self) -> Seq<u8> {
        window(self.buffer(), self.consumed() as int)
    }

    /// A reader that has received nothing.
    pub fn new() -> (r: EventReader<T, D>)
        ensures
            r.wf(),
            r.buffer() == Seq::<u8>::empty(),
            r.consumed() == 0,
    {
        EventReader { buffer: Vec::new(), consumed: 0, current: None }
    }

    /// Appends what one read from the source returned: no bytes, or some.
    pub fn feed(&mut self, bytes: &[u8])
        ensures
            final(self).buffer() == old(self).buffer() + bytes@,
            final(self).consumed() == old(self).consumed(),
            old(self).wf() ==> final(self).wf() && final(self).window() == old(self).window()
                + bytes@,
    {
        let mut i: usize = 0;
        while i < bytes.len()
            invariant
                i <= bytes.len(),
                self.consumed == old(self).consumed,
                self.buffer@ == old(self).buffer@ + bytes@.take(i as int),
            decreases bytes.len() - i,
        {
            self.buffer.push(bytes[i]);
            i = i + 1;
            assert(self.buffer@ =~= old(self).buffer@ + bytes@.take(i as int));
        }
        assert(bytes@.take(i as int) =~= bytes@);
        assert(old(self).wf() ==> self.window() =~= old(self).window() + bytes@);
    }

    /// Discards the consumed bytes and moves the rest to the front of the buffer.
    fn compact(&mut self)
        ensures
            final(self).consumed() == 0,
            final(self).buffer() == old(self).window(),
            final(self).window() == old(self).window(),
    {
        if self.consumed > 0 {
            if self.consumed <= self.buffer.len() {
                let rest = self.buffer.split_off(self.consumed);
                self.buffer = rest;
            } else {
                self.buffer.clear();
            }
            self.consumed = 0;
        }
        assert(self.buffer() =~= old(self).window());
        assert(self.window() =~= old(self).window());
    }
}

impl<T: Wire, D: Wire> EventReader<T, D> {
    /// Whether the bytes not yet consumed can never begin with an event, whatever is fed
    /// after them.
    pub fn is_corrupt(&self) -> (r: bool)
        ensures
            r == forall|e: EventModel<T, D>, more: Seq<u8>|
                e.fits() ==> !(#[trigger] wire_event(e).is_prefix_of(self.window() + more)),
    {
        let ghost w = self.window();
        match Event::<T, D>::decode(self.buffer.as_slice(), self.consumed) {
            Decoded::Complete(event, _) => {
                proof {
                    lemma_view_fits(event);
                    assert(w + Seq::<u8>::empty() =~= w);
                    assert(wire_event(event@).is_prefix_of(w + Seq::<u8>::empty()));
                }
                false
            },
            Decoded::Incomplete => {
                proof {
                    let e = choose|e: EventModel<T, D>|
                        e.fits() && #[trigger] begins(w, wire_event(e));
                    let more = wire_event(e).skip(w.len() as int);
                    assert(w + more =~= wire_event(e));
                    assert(wire_event(e).is_prefix_of(w + more)) by {
                        assert(wire_event(e) =~= (w + more).subrange(0, wire_event(e).len() as int));
                    }
                }
                false
            },
            Decoded::Malformed => true,
        }
    }
}

impl<T: Wire, D: Wire> EventIterator<T, D> for EventReader<T, D> {
    open spec fn pending(&self) -> Seq<EventModel<T, D>> {
        events_in::<T, D>(self.window())
    }

    /// Decodes one event at the consumed offset and moves the offset past it. Where the
    /// bytes there begin with no event, discards the consumed bytes instead; the bytes not
    /// yet consumed stay as they are.
    fn next<'a>(&'a mut self) -> (r: Option<&'a Event<T, D>>)
        ensures
            final(self).wf(),
            match r {
                Some(event) => {
                    &&& wire_event(event@).is_prefix_of(old(self).window())
                    &&& final(self).buffer() == old(self).buffer()
                    &&& final(self).consumed() == old(self).consumed() + wire_event(event@).len()
                    &&& final(self).window() == old(self).window().skip(
                        wire_event(event@).len() as int,
                    )
                },
                None => {
                    &&& final(self).consumed() == 0
                    &&& final(self).buffer() == old(self).window()
                    &&& final(self).window() == old(self).window()
                },
            },
    {
        let ghost w = self.window();
        let total = self.buffer.len();
        match Event::<T, D>::decode(self.buffer.as_slice(), self.consumed) {
            Decoded::Complete(event, n) => {
                assert(2 <= n <= w.len() && self.consumed + n <= total);
                proof {
                    lemma_view_fits(event);
                    lemma_event_first(event@, w);
                    assert(self.window().skip(n as int) =~= window(
                        self.buffer(),
                        self.consumed + n,
                    ));
                }
                self.consumed = self.consumed + n;
                self.current = Some(event);
                match &self.current {
                    Some(event) => Some(event),
                    None => None,
                }
            },
            Decoded::Incomplete => {
                proof {
                    let e = choose|e: EventModel<T, D>|
                        e.fits() && #[trigger] begins(w, wire_event(e));
                    lemma_event_begun(e, w);
                }
                self.compact();
                None
            },
            Decoded::Malformed => {
                proof {
                    assert(w + Seq::<u8>::empty() =~= w);
                    assert forall|e: EventModel<T, D>| e.fits() implies !(
                    #[trigger] wire_event(e).is_prefix_of(w)) by {
                        assert(!wire_event(e).is_prefix_of(w + Seq::<u8>::empty()));
                    }
                    assert(events_in::<T, D>(w) =~= Seq::<EventModel<T, D>>::empty());
                }
                self.compact();
                None
            },
        }
    }
}

/// The bytes of `chunks`, one chunk after another.
pub open spec fn joined(chunks: Seq<Seq<u8>>) -> Seq<u8>
    decreases chunks.len(),
{
    if chunks.len() == 0 {
        Seq::empty()
    } else {
        joined(chunks.drop_last()) + chunks.last()
    }
}

/// The first chunks of a run, joined, are the beginning of the whole run, joined.
pub proof fn lemma_joined_take(chunks: Seq<Seq<u8>>, k: int)
    requires
        0 <= k <= chunks.len(),
    ensures
        joined(chunks.take(k)).is_prefix_of(joined(chunks)),
    decreases chunks.len() - k,
{
    if k == chunks.len() {
        assert(chunks.take(k) =~= chunks);
        assert(joined(chunks) =~= joined(chunks).subrange(0, joined(chunks).len() as int));
    } else {
        lemma_joined_take(chunks, k + 1);
        assert(chunks.take(k + 1).drop_last() =~= chunks.take(k));
        assert(joined(chunks.take(k)).is_prefix_of(joined(chunks.take(k + 1)))) by {
            assert(joined(chunks.take(k)) =~= joined(chunks.take(k + 1)).subrange(
                0,
                joined(chunks.take(k)).len() as int,
            ));
        }
        lemma_prefix_trans(joined(chunks.take(k)), joined(chunks.take(k + 1)), joined(chunks));
    }
}

/// Chunked reading, by chunks: where the code of an event arrives cut into chunks of any
/// sizes, the bytes of the first `k` chunks hold no event as long as a byte of the code is
/// missing, and hold exactly the event once the last byte is there.
pub proof fn lemma_chunks_read<T: Wire, D: Wire>(
    event: EventModel<T, D>,
    chunks: Seq<Seq<u8>>,
    k: int,
)
    requires
        event.fits(),
        joined(chunks) == wire_event(event),
        0 <= k <= chunks.len(),
    ensures
        joined(chunks.take(k)).is_prefix_of(wire_event(event)),
        joined(chunks.take(k)).len() < wire_event(event).len() ==> events_in::<T, D>(
            joined(chunks.take(k)),
        ) == Seq::<EventModel<T, D>>::empty(),
        joined(chunks.take(k)).len() == wire_event(event).len() ==> events_in::<T, D>(
            joined(chunks.take(k)),
        ) == seq![event],
{
    let w = joined(chunks.take(k));
    lemma_joined_take(chunks, k);
    if w.len() < wire_event(event).len() {
        lemma_event_begun(event, w);
    } else {
        assert(w =~= wire_event(event));
        lemma_history_round_trip(seq![event]);
        assert(seq![event].drop_last() =~= Seq::<EventModel<T, D>>::empty());
        assert(wire_history(Seq::<EventModel<T, D>>::empty()) =~= Seq::<u8>::empty());
        assert(wire_history(seq![event]) =~= wire_event(event));
    }
}

/// Chunked reading: as long as the bytes not yet consumed are a proper beginning of the code
/// of an event, however they were fed, the reader has no event to give; once they begin
/// with the whole code, the event is the next one that the reader gives.
pub proof fn lemma_chunked_read<T: Wire, D: Wire>(
    reader: EventReader<T, D>,
    event: EventModel<T, D>,
)
    requires
        event.fits(),
    ensures
        begins(reader.window(), wire_event(event)) ==> reader.pending().len() == 0,
        wire_event(event).is_prefix_of(reader.window()) ==> reader.pending().len() > 0
            && reader.pending()[0] == event,
{
    if begins(reader.window(), wire_event(event)) {
        lemma_event_begun(event, reader.window());
    }
    if wire_event(event).is_prefix_of(reader.window()) {
        lemma_event_first(event, reader.window());
    }
}

} // verus!
