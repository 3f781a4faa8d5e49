//! The wire format of events: a version byte, a tag byte, and the event's batches as lists.

use vstd::prelude::*;
use crate::event::{Event, EventModel};
use crate::list::{decode_list, encode_list, lemma_unique_list, wire_list};
use crate::wire::{
    begins, lemma_prefix_cancel, lemma_prefix_extend, lemma_prefix_split, lemma_prefix_trans,
    lemma_unique_code, lemma_window_skip, window, Decoded, Wire,
};

verus! {

/// The first byte of every event on the wire.
pub const WIRE_VERSION: u8 = 1;

/// The second byte of a `Start` event.
pub const TAG_START: u8 = 0;

/// The second byte of a `Progress` event.
pub const TAG_PROGRESS: u8 = 1;

/// The second byte of a `Messages` event.
pub const TAG_MESSAGES: u8 = 2;

impl<T, D> EventModel<T, D> {
    /// Whether the event's batch is short enough for its length to stand in one word.
    /// Every [`Event`] is.
    pub open spec fn fits(self) -> bool {
        match self {
            EventModel::Start => true,
            EventModel::Progress(deltas) => deltas.len() <= u64::MAX,
            EventModel::Messages(_, batch) => batch.len() <= u64::MAX,
        }
    }
}

/// The tag byte of an event.
pub open spec fn event_tag<T, D>(event: EventModel<T, D>) -> u8 {
    match event {
        EventModel::Start => TAG_START,
        EventModel::Progress(_) => TAG_PROGRESS,
        EventModel::Messages(_, _) => TAG_MESSAGES,
    }
}

/// What follows the two leading bytes of an event: nothing for `Start`, the list of changes
/// for `Progress`, the timestamp and the list of records for `Messages`.
pub open spec fn event_body<T: Wire, D: Wire>(event: EventModel<T, D>) -> Seq<u8> {
    match event {
        EventModel::Start => Seq::empty(),
        EventModel::Progress(deltas) => wire_list(deltas),
        EventModel::Messages(time, batch) => time.wire() + wire_list(batch),
    }
}

/// The code of an event.
pub open spec fn wire_event<T: Wire, D: Wire>(event: EventModel<T, D>) -> Seq<u8> {
    seq![WIRE_VERSION, event_tag(event)] + event_body(event)
}

/// The codes of the events of a history, one after another.
pub open spec fn wire_history<T: Wire, D: Wire>(history: Seq<EventModel<T, D>>) -> Seq<u8>
    decreases history.len(),
{
    if history.len() == 0 {
        Seq::empty()
    } else {
        wire_history(history.drop_last()) + wire_event(history.last())
    }
}

/// Whether `w` begins with the code of an event.
pub open spec fn has_event<T: Wire, D: Wire>(w: Seq<u8>) -> bool {
    exists|e: EventModel<T, D>| e.fits() && #[trigger] wire_event(e).is_prefix_of(w)
}

/// The event with whose code `w` begins, where there is one.
pub open spec fn first_event<T: Wire, D: Wire>(w: Seq<u8>) -> EventModel<T, D> {
    choose|e: EventModel<T, D>| e.fits() && #[trigger] wire_event(e).is_prefix_of(w)
}

/// The events that `w` holds in full, from its first byte on, in order.
pub open spec fn events_in<T: Wire, D: Wire>(w: Seq<u8>) -> Seq<EventModel<T, D>>
    decreases w.len(),
{
    if has_event::<T, D>(w) {
        let e = first_event::<T, D>(w);
        seq![e] + events_in::<T, D>(w.skip(wire_event(e).len() as int))
    } else {
        Seq::empty()
    }
}

/// The batch of an event in memory is never too long for the wire.
pub proof fn lemma_view_fits<T, D>(event: Event<T, D>)
    ensures
        event@.fits(),
{
    match event {
        Event::Start => {},
        Event::Progress(deltas) => {
            assert(deltas@.len() == deltas.len());
        },
        Event::Messages(_, batch) => {
            assert(batch@.len() == batch.len());
        },
    }
}

/// A sequence of bytes begins with the code of at most one event.
pub proof fn lemma_unique_event<T: Wire, D: Wire>(
    a: EventModel<T, D>,
    b: EventModel<T, D>,
    w: Seq<u8>,
)
    requires
        a.fits(),
        b.fits(),
        wire_event(a).is_prefix_of(w),
        wire_event(b).is_prefix_of(w),
    ensures
        a == b,
{
    let ha = seq![WIRE_VERSION, event_tag(a)];
    let hb = seq![WIRE_VERSION, event_tag(b)];
    assert(wire_event(a)[1] == w[1] && wire_event(b)[1] == w[1]);
    assert(ha =~= hb);
    lemma_prefix_extend(ha, ha, event_body(a));
    lemma_prefix_trans(ha, wire_event(a), w);
    lemma_prefix_split(ha, w);
    let body = w.skip(2);
    lemma_prefix_cancel(ha, event_body(a), body);
    lemma_prefix_cancel(ha, event_body(b), body);
    match (a, b) {
        (EventModel::Start, EventModel::Start) => {},
        (EventModel::Progress(da), EventModel::Progress(db)) => {
            lemma_unique_list(da, db, body);
        },
        (EventModel::Messages(ta, ba), EventModel::Messages(tb, bb)) => {
            lemma_prefix_extend(ta.wire(), ta.wire(), wire_list(ba));
            lemma_prefix_extend(tb.wire(), tb.wire(), wire_list(bb));
            lemma_prefix_trans(ta.wire(), event_body(a), body);
            lemma_prefix_trans(tb.wire(), event_body(b), body);
            lemma_unique_code(ta, tb, body);
            lemma_prefix_split(ta.wire(), body);
            let tail = body.skip(ta.wire().len() as int);
            lemma_prefix_cancel(ta.wire(), wire_list(ba), tail);
            lemma_prefix_cancel(ta.wire(), wire_list(bb), tail);
            lemma_unique_list(ba, bb, tail);
        },
        _ => {},
    }
}

/// A sequence of bytes that is a proper beginning of the code of an event begins with the
/// code of none.
pub proof fn lemma_event_begun<T: Wire, D: Wire>(event: EventModel<T, D>, w: Seq<u8>)
    requires
        event.fits(),
        begins(w, wire_event(event)),
    ensures
        !has_event::<T, D>(w),
        events_in::<T, D>(w) == Seq::<EventModel<T, D>>::empty(),
{
    if has_event::<T, D>(w) {
        let e = first_event::<T, D>(w);
        lemma_prefix_trans(wire_event(e), w, wire_event(event));
        assert(wire_event(event).is_prefix_of(wire_event(event))) by {
            assert(wire_event(event) =~= wire_event(event).subrange(
                0,
                wire_event(event).len() as int,
            ));
        }
        lemma_unique_event(e, event, wire_event(event));
    }
}

/// A sequence of bytes that begins with the code of an event holds that event first, and
/// then the events of what follows the code.
pub proof fn lemma_event_first<T: Wire, D: Wire>(event: EventModel<T, D>, w: Seq<u8>)
    requires
        event.fits(),
        wire_event(event).is_prefix_of(w),
    ensures
        has_event::<T, D>(w),
        first_event::<T, D>(w) == event,
        events_in::<T, D>(w) == seq![event] + events_in::<T, D>(
            w.skip(wire_event(event).len() as int),
        ),
{
    let e = first_event::<T, D>(w);
    lemma_unique_event(e, event, w);
}

/// Decoding inverts encoding: the bytes of a history hold exactly that history.
pub proof fn lemma_history_round_trip<T: Wire, D: Wire>(history: Seq<EventModel<T, D>>)
    requires
        forall|i: int| 0 <= i < history.len() ==> (#[trigger] history[i]).fits(),
    ensures
        events_in::<T, D>(wire_history(history)) == history,
{
    lemma_history_then(history, Seq::empty());
    assert(wire_history(history) + Seq::<u8>::empty() =~= wire_history(history));
    assert(!has_event::<T, D>(Seq::empty())) by {
        if has_event::<T, D>(Seq::empty()) {
            let e = first_event::<T, D>(Seq::empty());
            assert(wire_event(e).len() >= 2);
        }
    }
    assert(history + Seq::<EventModel<T, D>>::empty() =~= history);
}

/// The bytes of a history, followed by more bytes, hold that history and then the events of
/// the bytes that follow.
pub proof fn lemma_history_then<T: Wire, D: Wire>(
    history: Seq<EventModel<T, D>>,
    rest: Seq<u8>,
)
    requires
        forall|i: int| 0 <= i < history.len() ==> (#[trigger] history[i]).fits(),
    ensures
        events_in::<T, D>(wire_history(history) + rest) == history + events_in::<T, D>(rest),
    decreases history.len(),
{
    if history.len() == 0 {
        assert(wire_history(history) + rest =~= rest);
        assert(history + events_in::<T, D>(rest) =~= events_in::<T, D>(rest));
    } else {
        let front = history.drop_last();
        let last = history.last();
        lemma_prefix_extend(wire_event(last), wire_event(last), rest);
        assert(wire_event(last).is_prefix_of(wire_event(last))) by {
            assert(wire_event(last) =~= wire_event(last).subrange(
                0,
                wire_event(last).len() as int,
            ));
        }
        lemma_event_first(last, wire_event(last) + rest);
        assert((wire_event(last) + rest).skip(wire_event(last).len() as int) =~= rest);
        lemma_history_then(front, wire_event(last) + rest);
        assert(wire_history(history) + rest =~= wire_history(front) + (wire_event(last) + rest));
        assert(history + events_in::<T, D>(rest) =~= front + (seq![last] + events_in::<T, D>(
            rest,
        )));
    }
}

impl<T: Wire, D: Wire> Event<T, D> {
    /// Appends the code of the event to `out`.
    pub fn encode(&self, out: &mut Vec<u8>)
        ensures
            final(out)@ == old(out)@ + wire_event(self@),
    {
        out.push(WIRE_VERSION);
        match self {
            Event::Start => {
                out.push(TAG_START);
            },
            Event::Progress(deltas) => {
                out.push(TAG_PROGRESS);
                encode_list(deltas, out);
            },
            Event::Messages(time, batch) => {
                out.push(TAG_MESSAGES);
                time.encode(out);
                encode_list(batch, out);
            },
        }
        assert(out@ =~= old(out)@ + wire_event(self@));
    }

    /// Reads one event from `bytes`, starting at the offset `at`.
    ///
    /// The three outcomes exclude each other: the bytes from `at` on begin with the code of
    /// the event returned, with its length; or they are a proper beginning of some event's
    /// code, so that more input is needed; or no input that could follow would make them
    /// begin with an event.
    pub fn decode(bytes: &[u8], at: usize) -> (r: Decoded<Event<T, D>>)
        ensures
            match r {
                Decoded::Complete(event, n) => wire_event(event@).is_prefix_of(
                    window(bytes@, at as int),
                ) && n == wire_event(event@).len(),
                Decoded::Incomplete => exists|e: EventModel<T, D>|
                    e.fits() && #[trigger] begins(window(bytes@, at as int), wire_event(e)),
                Decoded::Malformed => forall|e: EventModel<T, D>, more: Seq<u8>|
                    e.fits() ==> !(#[trigger] wire_event(e).is_prefix_of(
                        window(bytes@, at as int) + more,
                    )),
            },
    {
        let ghost w = window(bytes@, at as int);
        let total = bytes.len();
        if at >= total {
            assert(begins(w, wire_event(EventModel::<T, D>::Start)));
            return Decoded::Incomplete;
        }
        if bytes[at] != WIRE_VERSION {
            assert forall|e: EventModel<T, D>, more: Seq<u8>| e.fits() implies !(
            #[trigger] wire_event(e).is_prefix_of(w + more)) by {
                if wire_event(e).is_prefix_of(w + more) {
                    assert(wire_event(e)[0] == (w + more)[0]);
                }
            }
            return Decoded::Malformed;
        }
        if total - at < 2 {
            assert(w =~= seq![WIRE_VERSION]);
            assert(w =~= wire_event(EventModel::<T, D>::Start).subrange(0, 1));
            assert(begins(w, wire_event(EventModel::<T, D>::Start)));
            return Decoded::Incomplete;
        }
        let tag = bytes[at + 1];
        let ghost head = seq![WIRE_VERSION, tag];
        let ghost body = window(bytes@, at + 2);
        proof {
            assert(head =~= w.subrange(0, 2));
            lemma_window_skip(bytes@, at as int, 2);
            lemma_prefix_split(head, w);
        }
        if tag == TAG_START {
            let event: Event<T, D> = Event::Start;
            assert(wire_event(event@) =~= head);
            Decoded::Complete(event, 2)
        } else if tag == TAG_PROGRESS {
            match decode_list::<(T, i64)>(bytes, at + 2) {
                Decoded::Complete(deltas, n) => {
                    let event: Event<T, D> = Event::Progress(deltas);
                    proof {
                        lemma_prefix_cancel(head, wire_list(deltas@), body);
                    }
                    Decoded::Complete(event, 2 + n)
                },
                Decoded::Incomplete => {
                    proof {
                        let list = choose|list: Seq<(T, i64)>|
                            list.len() <= u64::MAX && #[trigger] begins(body, wire_list(list));
                        let e = EventModel::<T, D>::Progress(list);
                        lemma_prefix_cancel(head, body, wire_list(list));
                        assert(begins(w, wire_event(e)));
                    }
                    Decoded::Incomplete
                },
                Decoded::Malformed => {
                    proof {
                        assert forall|e: EventModel<T, D>, more: Seq<u8>| e.fits() implies !(
                        #[trigger] wire_event(e).is_prefix_of(w + more)) by {
                            if wire_event(e).is_prefix_of(w + more) {
                                assert(wire_event(e)[1] == (w + more)[1]);
                                assert(w + more =~= head + (body + more));
                                lemma_prefix_cancel(head, event_body(e), body + more);
                                assert(wire_list(e->Progress_0).is_prefix_of(body + more));
                            }
                        }
                    }
                    Decoded::Malformed
                },
            }
        } else if tag == TAG_MESSAGES {
            match T::decode(bytes, at + 2) {
                Decoded::Complete(time, n) => {
                    assert(n <= body.len() && body.len() <= total);
                    let ghost tail = window(bytes@, at + 2 + n);
                    proof {
                        lemma_window_skip(bytes@, at + 2, n as int);
                        lemma_prefix_split(time.wire(), body);
                    }
                    match decode_list::<D>(bytes, at + 2 + n) {
                        Decoded::Complete(batch, m) => {
                            let event: Event<T, D> = Event::Messages(time, batch);
                            proof {
                                lemma_prefix_cancel(time.wire(), wire_list(batch@), tail);
                                lemma_prefix_cancel(head, event_body(event@), body);
                            }
                            Decoded::Complete(event, 2 + n + m)
                        },
                        Decoded::Incomplete => {
                            proof {
                                let list = choose|list: Seq<D>|
                                    list.len() <= u64::MAX && #[trigger] begins(
                                        tail,
                                        wire_list(list),
                                    );
                                let e = EventModel::<T, D>::Messages(time, list);
                                lemma_prefix_cancel(time.wire(), tail, wire_list(list));
                                lemma_prefix_cancel(head, body, event_body(e));
                                assert(begins(w, wire_event(e)));
                            }
                            Decoded::Incomplete
                        },
                        Decoded::Malformed => {
                            proof {
                                assert forall|e: EventModel<T, D>, more: Seq<u8>|
                                    e.fits() implies !(#[trigger] wire_event(e).is_prefix_of(
                                    w + more,
                                )) by {
                                    if wire_event(e).is_prefix_of(w + more) {
                                        assert(wire_event(e)[1] == (w + more)[1]);
                                        assert(w + more =~= head + (body + more));
                                        lemma_prefix_cancel(head, event_body(e), body + more);
                                        let t = e->Messages_0;
                                        let list = e->Messages_1;
                                        lemma_prefix_extend(t.wire(), t.wire(), wire_list(list));
                                        lemma_prefix_trans(t.wire(), event_body(e), body + more);
                                        lemma_prefix_extend(time.wire(), body, more);
                                        lemma_unique_code(t, time, body + more);
                                        assert(body + more =~= time.wire() + (tail + more));
                                        lemma_prefix_cancel(
                                            time.wire(),
                                            wire_list(list),
                                            tail + more,
                                        );
                                        assert(wire_list(list).is_prefix_of(tail + more));
                                    }
                                }
                            }
                            Decoded::Malformed
                        },
                    }
                },
                Decoded::Incomplete => {
                    proof {
                        let time = choose|v: T| #[trigger] begins(body, v.wire());
                        let e = EventModel::<T, D>::Messages(time, Seq::empty());
                        lemma_prefix_extend(body, time.wire(), wire_list(Seq::<D>::empty()));
                        lemma_prefix_cancel(head, body, event_body(e));
                        assert(begins(w, wire_event(e)));
                    }
                    Decoded::Incomplete
                },
                Decoded::Malformed => {
                    proof {
                        assert forall|e: EventModel<T, D>, more: Seq<u8>| e.fits() implies !(
                        #[trigger] wire_event(e).is_prefix_of(w + more)) by {
                            if wire_event(e).is_prefix_of(w + more) {
                                assert(wire_event(e)[1] == (w + more)[1]);
                                assert(w + more =~= head + (body + more));
                                lemma_prefix_cancel(head, event_body(e), body + more);
                                let t = e->Messages_0;
                                lemma_prefix_extend(t.wire(), t.wire(), wire_list(e->Messages_1));
                                lemma_prefix_trans(t.wire(), event_body(e), body + more);
                                assert(t.wire().is_prefix_of(body + more));
                            }
                        }
                    }
                    Decoded::Malformed
                },
            }
        } else {
            assert forall|e: EventModel<T, D>, more: Seq<u8>| e.fits() implies !(
            #[trigger] wire_event(e).is_prefix_of(w + more)) by {
                if wire_event(e).is_prefix_of(w + more) {
                    assert(wire_event(e)[1] == (w + more)[1]);
                }
            }
            Decoded::Malformed
        }
    }
}

} // verus!
