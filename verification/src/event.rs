//! The unit of recorded history, and what a history of such units amounts to.

use vstd::prelude::*;

verus! {

/// One unit of recorded history.
#[derive(Clone, Debug, PartialEq, Eq)]
pub enum Event<T, D> {
    /// Marks the head of a fresh log; carries nothing.
    Start,
    /// Changes to the number of outstanding capabilities, one signed count per timestamp
    /// entry, in the order in which they were observed.
    Progress(Vec<(T, i64)>),
    /// Records that were all emitted at one timestamp, in the order of their emission.
    Messages(T, Vec<D>),
}

/// What an [`Event`] says, with its batches as mathematical sequences.
pub enum EventModel<T, D> {
    Start,
    Progress(Seq<(T, i64)>),
    Messages(T, Seq<D>),
}

impl<T, D> View for Event<T, D> {
    type V = EventModel<T, D>;

    open spec fn view(&self) -> EventModel<T, D> {
        match *self {
            Event::Start => EventModel::Start,
            Event::Progress(deltas) => EventModel::Progress(deltas@),
            Event::Messages(time, batch) => EventModel::Messages(time, batch@),
        }
    }
}

/// The sum of the signed counts that `deltas` holds for the timestamp `time`.
pub open spec fn delta_sum<T>(deltas: Seq<(T, i64)>, time: T) -> int
    decreases deltas.len(),
{
    if deltas.len() == 0 {
        0
    } else {
        delta_sum(deltas.drop_last(), time) + if deltas.last().0 == time {
            deltas.last().1 as int
        } else {
            0
        }
    }
}

/// The capability changes that one event carries: its entries for `Progress`, none otherwise.
pub open spec fn event_deltas<T, D>(event: EventModel<T, D>) -> Seq<(T, i64)> {
    match event {
        EventModel::Progress(deltas) => deltas,
        _ => Seq::empty(),
    }
}

/// The records of `batch`, each with the timestamp `time`, in order.
pub open spec fn stamped<T, D>(time: T, batch: Seq<D>) -> Seq<(T, D)> {
    Seq::new(batch.len(), |i: int| (time, batch[i]))
}

/// The records that one event carries, each with its timestamp, in order.
pub open spec fn event_records<T, D>(event: EventModel<T, D>) -> Seq<(T, D)> {
    match event {
        EventModel::Messages(time, batch) => stamped(time, batch),
        _ => Seq::empty(),
    }
}

/// The number of records that one event carries at the timestamp `time`.
pub open spec fn event_count<T, D>(event: EventModel<T, D>, time: T) -> int {
    match event {
        EventModel::Messages(t, batch) => if t == time {
            batch.len() as int
        } else {
            0
        },
        _ => 0,
    }
}

/// The changes by which a count of `count` at `time` is reported: one change where a signed
/// count holds it, and changes of the greatest signed count first where it does not.
pub open spec fn count_changes<T>(time: T, count: nat) -> Seq<(T, i64)>
    decreases count,
{
    if count == 0 {
        Seq::empty()
    } else if count <= i64::MAX {
        seq![(time, count as i64)]
    } else {
        seq![(time, i64::MAX)] + count_changes(time, (count - i64::MAX) as nat)
    }
}

/// The changes by which the number of records of one event is reported.
pub open spec fn event_counts<T, D>(event: EventModel<T, D>) -> Seq<(T, i64)> {
    match event {
        EventModel::Messages(time, batch) => count_changes(time, batch.len()),
        _ => Seq::empty(),
    }
}

/// All capability changes of a history, in the order of their recording.
pub open spec fn deltas<T, D>(history: Seq<EventModel<T, D>>) -> Seq<(T, i64)>
    decreases history.len(),
{
    if history.len() == 0 {
        Seq::empty()
    } else {
        deltas(history.drop_last()) + event_deltas(history.last())
    }
}

/// All records of a history with their timestamps, in the order of their recording.
pub open spec fn records<T, D>(history: Seq<EventModel<T, D>>) -> Seq<(T, D)>
    decreases history.len(),
{
    if history.len() == 0 {
        Seq::empty()
    } else {
        records(history.drop_last()) + event_records(history.last())
    }
}

/// The changes by which the numbers of records of a history are reported, event by event.
pub open spec fn counts<T, D>(history: Seq<EventModel<T, D>>) -> Seq<(T, i64)>
    decreases history.len(),
{
    if history.len() == 0 {
        Seq::empty()
    } else {
        counts(history.drop_last()) + event_counts(history.last())
    }
}

/// The net change that a history makes to the capabilities outstanding at `time`.
pub open spec fn net_change<T, D>(history: Seq<EventModel<T, D>>, time: T) -> int {
    delta_sum(deltas(history), time)
}

/// The number of records that a history holds at the timestamp `time`.
pub open spec fn record_count<T, D>(history: Seq<EventModel<T, D>>, time: T) -> int
    decreases history.len(),
{
    if history.len() == 0 {
        0
    } else {
        record_count(history.drop_last(), time) + event_count(history.last(), time)
    }
}

/// `delta_sum` of a concatenation is the sum over its two parts.
pub proof fn lemma_delta_sum_concat<T>(a: Seq<(T, i64)>, b: Seq<(T, i64)>, time: T)
    ensures
        delta_sum(a + b, time) == delta_sum(a, time) + delta_sum(b, time),
    decreases b.len(),
{
    if b.len() == 0 {
        assert(a + b =~= a);
    } else {
        assert((a + b).drop_last() =~= a + b.drop_last());
        lemma_delta_sum_concat(a, b.drop_last(), time);
    }
}

/// The changes that report a count sum to that count at its timestamp, and to nothing at
/// any other.
pub proof fn lemma_count_changes_sum<T>(time: T, count: nat, at: T)
    ensures
        delta_sum(count_changes(time, count), at) == if at == time {
            count as int
        } else {
            0
        },
    decreases count,
{
    let none = Seq::<(T, i64)>::empty();
    if count == 0 {
    } else if count <= i64::MAX {
        let one = seq![(time, count as i64)];
        assert(one.drop_last() =~= none);
        assert(delta_sum(none, at) == 0);
    } else {
        let one = seq![(time, i64::MAX)];
        assert(one.drop_last() =~= none);
        assert(delta_sum(none, at) == 0);
        lemma_count_changes_sum(time, (count - i64::MAX) as nat, at);
        lemma_delta_sum_concat(one, count_changes(time, (count - i64::MAX) as nat), at);
    }
}

/// The changes that report the numbers of records of a history sum, for every timestamp, to
/// the number of records that the history holds there.
pub proof fn lemma_counts_sum<T, D>(history: Seq<EventModel<T, D>>, time: T)
    ensures
        delta_sum(counts(history), time) == record_count(history, time),
    decreases history.len(),
{
    if history.len() > 0 {
        lemma_counts_sum(history.drop_last(), time);
        lemma_delta_sum_concat(counts(history.drop_last()), event_counts(history.last()), time);
        match history.last() {
            EventModel::Messages(t, batch) => {
                lemma_count_changes_sum(t, batch.len(), time);
            },
            _ => {},
        }
    }
}

/// Appending one event to a history appends what it carries to each of the history's readings.
pub proof fn lemma_history_push<T, D>(history: Seq<EventModel<T, D>>, event: EventModel<T, D>)
    ensures
        deltas(history.push(event)) == deltas(history) + event_deltas(event),
        records(history.push(event)) == records(history) + event_records(event),
        counts(history.push(event)) == counts(history) + event_counts(event),
        forall|time: T| #[trigger]
            net_change(history.push(event), time) == net_change(history, time) + delta_sum(
                event_deltas(event),
                time,
            ),
        forall|time: T| #[trigger]
            record_count(history.push(event), time) == record_count(history, time) + event_count(
                event,
                time,
            ),
{
    assert(history.push(event).drop_last() =~= history);
    assert forall|time: T| #[trigger]
        net_change(history.push(event), time) == net_change(history, time) + delta_sum(
            event_deltas(event),
            time,
        ) by {
        lemma_delta_sum_concat(deltas(history), event_deltas(event), time);
    }
}

/// The readings of a history are those of its first event, then those of the rest.
pub proof fn lemma_history_front<T, D>(history: Seq<EventModel<T, D>>)
    requires
        history.len() > 0,
    ensures
        deltas(history) == event_deltas(history[0]) + deltas(history.skip(1)),
        records(history) == event_records(history[0]) + records(history.skip(1)),
        counts(history) == event_counts(history[0]) + counts(history.skip(1)),
        forall|time: T| #[trigger]
            net_change(history, time) == delta_sum(event_deltas(history[0]), time) + net_change(
                history.skip(1),
                time,
            ),
        forall|time: T| #[trigger]
            record_count(history, time) == event_count(history[0], time) + record_count(
                history.skip(1),
                time,
            ),
{
    let first = seq![history[0]];
    assert(history =~= first + history.skip(1));
    lemma_history_concat(first, history.skip(1));
    let none = Seq::<EventModel<T, D>>::empty();
    assert(first.drop_last() =~= none);
    assert(first.last() == history[0]);
    assert(deltas(none) =~= Seq::<(T, i64)>::empty());
    assert(records(none) =~= Seq::<(T, D)>::empty());
    assert(counts(none) =~= Seq::<(T, i64)>::empty());
    assert(deltas(first) =~= event_deltas(history[0]));
    assert(records(first) =~= event_records(history[0]));
    assert(counts(first) =~= event_counts(history[0]));
    assert forall|time: T| #[trigger]
        record_count(history, time) == event_count(history[0], time) + record_count(
            history.skip(1),
            time,
        ) by {
        assert(record_count(first + history.skip(1), time) == record_count(first, time)
            + record_count(history.skip(1), time));
        assert(record_count(none, time) == 0);
        assert(record_count(first, time) == event_count(history[0], time));
    }
    assert forall|time: T| #[trigger]
        net_change(history, time) == delta_sum(event_deltas(history[0]), time) + net_change(
            history.skip(1),
            time,
        ) by {
        assert(net_change(first + history.skip(1), time) == net_change(first, time) + net_change(
            history.skip(1),
            time,
        ));
    }
}

/// The readings of two histories laid end to end are the readings of each, laid end to end.
pub proof fn lemma_history_concat<T, D>(a: Seq<EventModel<T, D>>, b: Seq<EventModel<T, D>>)
    ensures
        deltas(a + b) == deltas(a) + deltas(b),
        records(a + b) == records(a) + records(b),
        counts(a + b) == counts(a) + counts(b),
        forall|time: T| #[trigger] net_change(a + b, time) == net_change(a, time) + net_change(b, time),
        forall|time: T| #[trigger]
            record_count(a + b, time) == record_count(a, time) + record_count(b, time),
    decreases b.len(),
{
    if b.len() == 0 {
        assert(a + b =~= a);
        assert(deltas(a) + deltas(b) =~= deltas(a));
        assert(records(a) + records(b) =~= records(a));
        assert(counts(a) + counts(b) =~= counts(a));
    } else {
        assert((a + b).drop_last() =~= a + b.drop_last());
        lemma_history_concat(a, b.drop_last());
        assert(deltas(a + b) =~= deltas(a) + deltas(b));
        assert(records(a + b) =~= records(a) + records(b));
        assert(counts(a + b) =~= counts(a) + counts(b));
        assert forall|time: T| #[trigger]
            record_count(a + b, time) == record_count(a, time) + record_count(b, time) by {
            assert(record_count(a + b.drop_last(), time) == record_count(a, time) + record_count(
                b.drop_last(),
                time,
            ));
        }
    }
    assert forall|time: T| #[trigger]
        net_change(a + b, time) == net_change(a, time) + net_change(b, time) by {
        lemma_delta_sum_concat(deltas(a), deltas(b), time);
    }
}

} // verus!
