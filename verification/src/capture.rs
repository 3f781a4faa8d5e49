//! The capture operator: one input, no output. It turns what its host tells it of a stream
//! into events, and appends them to the producing end of a channel.

use vstd::prelude::*;
use std::marker::PhantomData;
use crate::channel::EventPusher;
use crate::count_map::CountMap;
use crate::event::{
    counts, lemma_counts_sum, lemma_delta_sum_concat, lemma_history_push, record_count, Event,
    EventModel,
};

verus! {

/// The event that records one input batch: its timestamp and its records.
pub open spec fn batch_event<T, D>(batch: (T, Vec<D>)) -> EventModel<T, D> {
    EventModel::Messages(batch.0, batch.1@)
}

/// The events that record the batches of one scheduling, one `Messages` for each, in order.
pub open spec fn batch_events<T, D>(batches: Seq<(T, Vec<D>)>) -> Seq<EventModel<T, D>> {
    Seq::new(batches.len(), |i: int| batch_event(batches[i]))
}

/// An operator that records the stream on its input through the producing end of a channel.
pub struct CaptureOperator<T, D, P: EventPusher<T, D>> {
    events: P,
    marker: PhantomData<(T, D)>,
}

impl<T, D, P: EventPusher<T, D>> CaptureOperator<T, D, P> {
    /// Every event appended through the operator's end of the channel, oldest first.
    pub closed spec fn pushed(&self) -> Seq<EventModel<T, D>> {
        self.events.pushed()
    }

    /// An operator that records through `pusher`.
    pub fn new(pusher: P) -> (r: Self)
        ensures
            r.pushed() == pusher.pushed(),
    {
        CaptureOperator { events: pusher, marker: PhantomData }
    }

    /// The operator's name.
    pub fn name(&self) -> (r: &'static str)
        ensures
            r@ == "Capture"@,
    {
        "Capture"
    }

    /// The number of input ports: one.
    pub fn inputs(&self) -> (r: usize)
        ensures
            r == 1,
    {
        1
    }

    /// The number of output ports: none.
    pub fn outputs(&self) -> (r: usize)
        ensures
            r == 0,
    {
        0
    }

    /// Records the frontier that the input starts under: appends one `Progress` with the
    /// changes of `counts`, and empties `counts`, so that no change is recorded twice.
    pub fn set_external_summary(&mut self, counts: &mut CountMap<T>)
        ensures
            final(self).pushed() == old(self).pushed().push(EventModel::Progress(old(counts)@)),
            final(counts)@ == Seq::<(T, i64)>::empty(),
    {
        let changes = counts.drain();
        self.events.push(Event::Progress(changes));
    }

    /// Records a change of the frontier: appends one `Progress` with the changes of
    /// `counts`, and empties `counts`, so that no change is recorded twice.
    pub fn push_external_progress(&mut self, counts: &mut CountMap<T>)
        ensures
            final(self).pushed() == old(self).pushed().push(EventModel::Progress(old(counts)@)),
            final(counts)@ == Seq::<(T, i64)>::empty(),
    {
        let changes = counts.drain();
        self.events.push(Event::Progress(changes));
    }

    /// Records the batches that one scheduling finds on the input: appends one `Messages`
    /// for each, in order, and reports the number of records taken at each timestamp to
    /// `consumed`. The operator is never finished of its own accord: the answer is `false`.
    pub fn pull_internal_progress(
        &mut self,
        input: Vec<(T, Vec<D>)>,
        consumed: &mut CountMap<T>,
    ) -> (r: bool) where T: Copy
        ensures
            !r,
            final(self).pushed() == old(self).pushed() + batch_events(input@),
            final(consumed)@ == old(consumed)@ + counts(batch_events(input@)),
            forall|time: T| #[trigger]
                final(consumed).net(time) == old(consumed).net(time) + record_count(
                    batch_events(input@),
                    time,
                ),
    {
        let ghost all = input@;
        assert(batch_events(all.take(0)) =~= Seq::<EventModel<T, D>>::empty());
        assert(self.pushed() =~= old(self).pushed() + batch_events(all.take(0)));
        assert(consumed@ =~= old(consumed)@ + counts(batch_events(all.take(0))));
        for batch in it: input
            invariant
                it.seq() == all,
                self.pushed() == old(self).pushed() + batch_events(all.take(it.index() as int)),
                consumed@ == old(consumed)@ + counts(batch_events(all.take(it.index() as int))),
        {
            let ghost k = it.index() as int;
            let ghost done = batch_events(all.take(k));
            let (time, data) = batch;
            let count = data.len();
            proof {
                assert(batch_events(all.take(k + 1)) =~= done.push(batch_event(batch)));
                lemma_history_push(done, batch_event(batch));
            }
            self.events.push(Event::Messages(time, data));
            consumed.update_count(time, count);
            proof {
                assert(self.pushed() =~= old(self).pushed() + batch_events(all.take(k + 1)));
                assert(consumed@ =~= old(consumed)@ + counts(batch_events(all.take(k + 1))));
            }
        }
        assert(all.take(all.len() as int) =~= all);
        proof {
            assert forall|time: T| #[trigger]
                consumed.net(time) == old(consumed).net(time) + record_count(
                    batch_events(all),
                    time,
                ) by {
                lemma_delta_sum_concat(old(consumed)@, counts(batch_events(all)), time);
                lemma_counts_sum(batch_events(all), time);
            }
        }
        false
    }

    /// Gives back the producing end of the channel, with all that was recorded through it.
    pub fn into_inner(self) -> (r: P)
        ensures
            r.pushed() == self.pushed(),
    {
        self.events
    }
}

/// One call of a host on an operator that is attached to a stream.
#[derive(Clone, Debug)]
pub enum Activity<T, D> {
    /// The frontier of the stream changed by these signed counts.
    Progress(Vec<(T, i64)>),
    /// The operator was scheduled, and these batches were on its input.
    Input(Vec<(T, Vec<D>)>),
}

/// The events that record one call.
pub open spec fn activity_events<T, D>(activity: Activity<T, D>) -> Seq<EventModel<T, D>> {
    match activity {
        Activity::Progress(changes) => seq![EventModel::Progress(changes@)],
        Activity::Input(batches) => batch_events(batches@),
    }
}

/// The events that record a run of calls, in order.
pub open spec fn captured<T, D>(calls: Seq<Activity<T, D>>) -> Seq<EventModel<T, D>>
    decreases calls.len(),
{
    if calls.len() == 0 {
        Seq::empty()
    } else {
        captured(calls.drop_last()) + activity_events(calls.last())
    }
}

/// A finite stream, as a host presents it to an operator on it: the frontier that the
/// operator starts under, then every later call, in order.
#[derive(Clone, Debug)]
pub struct Stream<T, D> {
    /// The frontier at the start, as signed counts per timestamp.
    pub summary: Vec<(T, i64)>,
    /// The calls that follow, oldest first.
    pub calls: Vec<Activity<T, D>>,
}

/// Capture of a stream of timestamped data for later replay.
pub trait Capture<T, D>: Sized {
    /// The events that record this stream. The first is a `Progress`.
    spec fn events(&self) -> Seq<EventModel<T, D>>;

    /// Captures the stream through `pusher`, which comes back with the events of the stream
    /// appended to what it held.
    fn capture_into<P: EventPusher<T, D>>(self, pusher: P) -> (r: P)
        ensures
            r.pushed() == pusher.pushed() + self.events(),
            self.events().len() > 0,
            self.events()[0] is Progress,
    ;
}

impl<T: Copy, D> Capture<T, D> for Stream<T, D> {
    open spec fn events(&self) -> Seq<EventModel<T, D>> {
        seq![EventModel::Progress(self.summary@)] + captured(self.calls@)
    }

    fn capture_into<P: EventPusher<T, D>>(self, pusher: P) -> (r: P) {
        let ghost first = seq![EventModel::<T, D>::Progress(self.summary@)];
        let ghost all = self.calls@;
        let Stream { summary, calls } = self;
        let mut operator = CaptureOperator::new(pusher);
        let mut counts = CountMap::from_updates(summary);
        operator.set_external_summary(&mut counts);
        assert(operator.pushed() =~= pusher.pushed() + first + captured(all.take(0)));
        for call in it: calls
            invariant
                it.seq() == all,
                operator.pushed() == pusher.pushed() + first + captured(
                    all.take(it.index() as int),
                ),
        {
            let ghost k = it.index() as int;
            proof {
                assert(all.take(k + 1).drop_last() =~= all.take(k));
            }
            match call {
                Activity::Progress(changes) => {
                    let mut counts = CountMap::from_updates(changes);
                    operator.push_external_progress(&mut counts);
                },
                Activity::Input(batches) => {
                    let mut consumed = CountMap::new();
                    operator.pull_internal_progress(batches, &mut consumed);
                },
            }
            assert(operator.pushed() =~= pusher.pushed() + first + captured(all.take(k + 1)));
        }
        assert(all.take(all.len() as int) =~= all);
        let r = operator.into_inner();
        assert(r.pushed() =~= pusher.pushed() + (first + captured(all)));
        r
    }
}

} // verus!
