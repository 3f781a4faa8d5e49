//! The replay operator: no input, one output. It takes events from the consuming end of a
//! channel and gives their content back to the graph that hosts it.

use vstd::prelude::*;
use crate::channel::EventIterator;
use crate::count_map::CountMap;
use crate::event::{
    counts, delta_sum, deltas, event_deltas, event_records, lemma_counts_sum,
    lemma_delta_sum_concat, lemma_history_front, lemma_history_push, net_change, record_count,
    records, stamped, Event, EventModel,
};

verus! {

/// Appends the records of `batch` to `output`, each with the timestamp `time`.
fn give_batch<T: Copy, D: Copy>(output: &mut Vec<(T, D)>, time: T, batch: &Vec<D>)
    ensures
        final(output)@ == old(output)@ + stamped(time, batch@),
{
    let mut i: usize = 0;
    while i < batch.len()
        invariant
            i <= batch.len(),
            output@ == old(output)@ + stamped(time, batch@.take(i as int)),
        decreases batch.len() - i,
    {
        output.push((time, batch[i]));
        i = i + 1;
        assert(output@ =~= old(output)@ + stamped(time, batch@.take(i as int)));
    }
    assert(batch@.take(i as int) =~= batch@);
}

/// An operator that replays the events of a channel into the graph that schedules it.
pub struct ReplayOperator<T, D, I: EventIterator<T, D>> {
    events: I,
    output: Vec<(T, D)>,
}

impl<T: Copy, D: Copy, I: EventIterator<T, D>> ReplayOperator<T, D, I> {
    /// The events that the operator can take now, oldest first.
    pub closed spec fn pending(&self) -> Seq<EventModel<T, D>> {
        self.events.pending()
    }

    /// The records that the operator has sent downstream, each with its timestamp, in order.
    pub closed spec fn emitted(&self) -> Seq<(T, D)> {
        self.output@
    }

    /// The consuming end that the operator reads.
    pub closed spec fn source(&self) -> I {
        self.events
    }

    /// An operator that reads `events` and has sent nothing yet.
    pub fn new(events: I) -> (r: Self)
        ensures
            r.source() == events,
            r.pending() == events.pending(),
            r.emitted() == Seq::<(T, D)>::empty(),
    {
        ReplayOperator { events, output: Vec::new() }
    }

    /// The operator's name.
    pub fn name(&self) -> (r: &'static str)
        ensures
            r@ == "Replay"@,
    {
        "Replay"
    }

    /// The number of input ports: none.
    pub fn inputs(&self) -> (r: usize)
        ensures
            r == 0,
    {
        0
    }

    /// The number of output ports: one.
    pub fn outputs(&self) -> (r: usize)
        ensures
            r == 1,
    {
        1
    }

    /// Polls the channel once for the event that opens the capture, and gives the
    /// capabilities that the replay starts with: the changes of that event where it is a
    /// `Progress`, none where it is anything else. The event is consumed either way, so a
    /// capture has to begin with a `Progress`. `None` means that no event is available yet:
    /// the negotiation has to be tried again.
    pub fn get_internal_summary(&mut self) -> (r: Option<CountMap<T>>)
        ensures
            final(self).emitted() == old(self).emitted(),
            match r {
                Some(counts) => {
                    &&& old(self).pending().len() > 0
                    &&& counts@ == event_deltas(old(self).pending()[0])
                    &&& final(self).pending() == old(self).pending().skip(1)
                },
                None => old(self).pending().len() == 0 && final(self).pending().len() == 0,
            },
    {
        match self.events.next() {
            Some(event) => {
                let mut result = CountMap::new();
                match event {
                    Event::Progress(changes) => {
                        result.extend(changes);
                        assert(result@ =~= event_deltas(event@));
                    },
                    _ => {},
                }
                Some(result)
            },
            None => None,
        }
    }

    /// Takes every event that is available. `Start` is passed over; the changes of a
    /// `Progress` are reported to `internal`, in order; the records of a `Messages` are sent
    /// downstream under its timestamp, in order, and their number is reported to `produced`.
    /// The operator is never finished of its own accord: the answer is `false`.
    pub fn pull_internal_progress(
        &mut self,
        internal: &mut CountMap<T>,
        produced: &mut CountMap<T>,
    ) -> (r: bool)
        ensures
            !r,
            final(self).pending().len() == 0,
            final(self).emitted() == old(self).emitted() + records(old(self).pending()),
            final(internal)@ == old(internal)@ + deltas(old(self).pending()),
            final(produced)@ == old(produced)@ + counts(old(self).pending()),
            forall|time: T| #[trigger]
                final(produced).net(time) == old(produced).net(time) + record_count(
                    old(self).pending(),
                    time,
                ),
    {
        let ghost all = self.events.pending();
        let ghost mut done: Seq<EventModel<T, D>> = Seq::empty();
        assert(all =~= done + self.events.pending());
        assert(self.output@ =~= old(self).output@ + records(done));
        assert(internal@ =~= old(internal)@ + deltas(done));
        assert(produced@ =~= old(produced)@ + counts(done));
        loop
            invariant
                all == done + self.events.pending(),
                self.output@ == old(self).output@ + records(done),
                internal@ == old(internal)@ + deltas(done),
                produced@ == old(produced)@ + counts(done),
            ensures
                self.events.pending().len() == 0,
                all == done + self.events.pending(),
                self.output@ == old(self).output@ + records(done),
                internal@ == old(internal)@ + deltas(done),
                produced@ == old(produced)@ + counts(done),
            decreases self.events.pending().len(),
        {
            let ghost before = self.events.pending();
            match self.events.next() {
                None => {
                    break ;
                },
                Some(event) => {
                    proof {
                        lemma_history_push(done, event@);
                        assert(done.push(event@) + before.skip(1) =~= done + before);
                    }
                    match event {
                        Event::Start => {},
                        Event::Progress(changes) => {
                            internal.extend(changes);
                        },
                        Event::Messages(time, batch) => {
                            give_batch(&mut self.output, *time, batch);
                            produced.update_count(*time, batch.len());
                        },
                    }
                    proof {
                        assert(self.output@ =~= old(self).output@ + records(done.push(event@)));
                        assert(internal@ =~= old(internal)@ + deltas(done.push(event@)));
                        assert(produced@ =~= old(produced)@ + counts(done.push(event@)));
                        done = done.push(event@);
                    }
                },
            }
        }
        assert(done =~= all);
        proof {
            assert forall|time: T| #[trigger]
                produced.net(time) == old(produced).net(time) + record_count(all, time) by {
                lemma_delta_sum_concat(old(produced)@, counts(all), time);
                lemma_counts_sum(all, time);
            }
        }
        false
    }

    /// The records sent downstream so far.
    pub fn output(&self) -> (r: &Vec<(T, D)>)
        ensures
            r@ == self.emitted(),
    {
        &self.output
    }

    /// Hands out the records sent downstream so far and keeps none.
    pub fn take_output(&mut self) -> (r: Vec<(T, D)>)
        ensures
            r@ == old(self).emitted(),
            final(self).emitted() == Seq::<(T, D)>::empty(),
            final(self).pending() == old(self).pending(),
            final(self).source() == old(self).source(),
    {
        let mut taken: Vec<(T, D)> = Vec::new();
        std::mem::swap(&mut self.output, &mut taken);
        taken
    }

    /// The consuming end that the operator reads, to hand it what has arrived.
    pub fn events_mut(&mut self) -> (r: &mut I)
        ensures
            *r == old(self).source(),
            final(self).source() == *final(r),
            final(self).emitted() == old(self).emitted(),
    {
        &mut self.events
    }
}

/// The tallies that the scheduler of a hosting graph keeps for a replayed stream.
#[derive(Clone, Debug)]
pub struct Scope<T> {
    /// The changes to the capabilities that the replay holds: those it started with, then
    /// those it reported.
    pub capabilities: CountMap<T>,
    /// The numbers of records that the replay reported as sent downstream.
    pub produced: CountMap<T>,
}

impl<T> Scope<T> {
    /// The tallies of a fresh graph: nothing outstanding, nothing produced.
    pub fn new() -> (r: Self)
        ensures
            r.capabilities@ == Seq::<(T, i64)>::empty(),
            r.produced@ == Seq::<(T, i64)>::empty(),
    {
        Scope { capabilities: CountMap::new(), produced: CountMap::new() }
    }
}

/// Replay of a captured stream into a hosting graph.
pub trait Replay<T, D>: Sized {
    /// The events that are available for replay, oldest first.
    spec fn available(&self) -> Seq<EventModel<T, D>>;

    /// Replays what is available into `scope` and returns the stream of records sent
    /// downstream, each with its timestamp.
    ///
    /// The first event opens the capture: only its capability changes are taken. Every
    /// capability change of the capture reaches `scope`, in order, so that the net change
    /// at every timestamp is conserved; every record after the first event reaches the
    /// stream, in order, which are all records where the capture opens with a `Progress`.
    fn replay_into(self, scope: &mut Scope<T>) -> (stream: Vec<(T, D)>)
        ensures
            final(scope).capabilities@ == old(scope).capabilities@ + deltas(self.available()),
            forall|time: T| #[trigger]
                final(scope).capabilities.net(time) == old(scope).capabilities.net(time)
                    + net_change(self.available(), time),
            self.available().len() > 0 ==> stream@ == records(self.available().skip(1)),
            self.available().len() == 0 ==> stream@ == Seq::<(T, D)>::empty(),
            self.available().len() > 0 && self.available()[0] is Progress ==> stream@ == records(
                self.available(),
            ),
            self.available().len() > 0 ==> final(scope).produced@ == old(scope).produced@
                + counts(self.available().skip(1)),
            self.available().len() == 0 ==> final(scope).produced@ == old(scope).produced@,
    ;
}

impl<T: Copy, D: Copy, I: EventIterator<T, D>> Replay<T, D> for I {
    open spec fn available(&self) -> Seq<EventModel<T, D>> {
        self.pending()
    }

    fn replay_into(self, scope: &mut Scope<T>) -> (stream: Vec<(T, D)>) {
        let ghost history = self.pending();
        proof {
            assert forall|time: T|
                delta_sum(old(scope).capabilities@ + deltas(history), time) == old(
                    scope,
                ).capabilities.net(time) + #[trigger] net_change(history, time) by {
                lemma_delta_sum_concat(old(scope).capabilities@, deltas(history), time);
            }
            if history.len() > 0 && history[0] is Progress {
                lemma_history_front(history);
                assert(event_records(history[0]) + records(history.skip(1)) =~= records(
                    history.skip(1),
                ));
            }
        }
        let mut operator = ReplayOperator::new(self);
        match operator.get_internal_summary() {
            Some(summary) => {
                proof {
                    lemma_history_front(history);
                }
                scope.capabilities.extend(summary.updates());
                operator.pull_internal_progress(&mut scope.capabilities, &mut scope.produced);
                assert(scope.capabilities@ =~= old(scope).capabilities@ + deltas(history));
                operator.take_output()
            },
            None => {
                assert(history =~= Seq::<EventModel<T, D>>::empty());
                assert(scope.capabilities@ =~= old(scope).capabilities@ + deltas(history));
                Vec::new()
            },
        }
    }
}

/// Conservation: for every timestamp, the capability changes that a replay starts with and
/// those that it reports afterwards sum to the changes that the capture recorded.
pub proof fn lemma_conservation<T, D>(history: Seq<EventModel<T, D>>, time: T)
    requires
        history.len() > 0,
    ensures
        event_deltas(history[0]) + deltas(history.skip(1)) == deltas(history),
        delta_sum(event_deltas(history[0]), time) + net_change(
            history.skip(1),
            time,
        ) == net_change(history, time),
{
    lemma_history_front(history);
}

/// Round trip: a capture that opens with a `Progress` is replayed whole. The records sent
/// downstream are the records captured, in order, and for every timestamp the net change of
/// capabilities replayed is the net change captured.
pub proof fn lemma_round_trip<T, D>(history: Seq<EventModel<T, D>>, time: T)
    requires
        history.len() > 0,
        history[0] is Progress,
    ensures
        records(history.skip(1)) == records(history),
        record_count(history.skip(1), time) == record_count(history, time),
        delta_sum(event_deltas(history[0]) + deltas(history.skip(1)), time)
            == net_change(history, time),
{
    lemma_history_front(history);
    assert(event_records(history[0]) + records(history.skip(1)) =~= records(history.skip(1)));
}

} // verus!
