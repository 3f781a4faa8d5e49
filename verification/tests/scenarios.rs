use capture_replay::capture::{Activity, Capture, CaptureOperator, Stream};
use capture_replay::channel::{EventIterator, EventPusher};
use capture_replay::count_map::CountMap;
use capture_replay::event::Event;
use capture_replay::link::EventLink;
use capture_replay::reader::EventReader;
use capture_replay::replay::{Replay, ReplayOperator, Scope};
use capture_replay::writer::EventWriter;

fn net(updates: &Vec<(u64, i64)>, time: u64) -> i64 {
    let mut sum = 0;
    for (t, delta) in updates.iter() {
        if *t == time {
            sum += *delta;
        }
    }
    sum
}

fn ten_records() -> Stream<u64, u64> {
    Stream {
        summary: vec![(0, 1)],
        calls: vec![
            Activity::Input(vec![(0, (0..10).collect())]),
            Activity::Progress(vec![(0, -1)]),
        ],
    }
}

#[test]
fn handle() {
    let handle1: EventLink<u64, u64> = EventLink::new();
    let handle1 = ten_records().capture_into(handle1);
    let handle2 = handle1.cursor();
    let mut scope = Scope::new();
    let replayed = handle2.replay_into(&mut scope);
    for x in replayed.iter() {
        println!("replayed: {:?}", x);
    }
    assert_eq!(replayed.len(), 10);
    let expected: Vec<(u64, u64)> = (0..10).map(|x| (0, x)).collect();
    assert_eq!(replayed, expected);
}

#[test]
fn stream() {
    let send: EventWriter<u64, u64> = EventWriter::new();
    let mut send = (Stream { summary: vec![(0, 1)], calls: vec![
        Activity::Input(vec![(0, (0..10u64).collect())]),
        Activity::Progress(vec![(0, -1)]),
    ] }).capture_into(send);
    let wire = send.take();
    let mut recv: EventReader<u64, u64> = EventReader::new();
    recv.feed(&wire);
    let mut scope = Scope::new();
    let replayed = recv.replay_into(&mut scope);
    for x in replayed.iter() {
        println!("replayed: {:?}", x);
    }
    let expected: Vec<(u64, u64)> = (0..10).map(|x| (0, x)).collect();
    assert_eq!(replayed, expected);
    assert_eq!(net(scope.capabilities.updates(), 0), 0);
}

#[test]
fn scenario_ten_records_replay_in_order_and_frontier_closes() {
    let mut log: EventLink<u64, u64> = EventLink::new();
    log.push(Event::Progress(vec![(0, 1)]));
    log.push(Event::Messages(0, vec![0, 1, 2, 3, 4, 5, 6, 7, 8, 9]));
    log.push(Event::Progress(vec![(0, -1)]));

    let mut operator = ReplayOperator::new(log.cursor());
    let summary = operator.get_internal_summary().expect("an opening event");
    assert_eq!(summary.updates(), &vec![(0u64, 1i64)]);

    let mut internal = CountMap::new();
    let mut produced = CountMap::new();
    let finished = operator.pull_internal_progress(&mut internal, &mut produced);
    assert!(!finished);
    assert_eq!(
        operator.output(),
        &vec![(0u64, 0u64), (0, 1), (0, 2), (0, 3), (0, 4), (0, 5), (0, 6), (0, 7), (0, 8), (0, 9)]
    );
    assert_eq!(internal.updates(), &vec![(0u64, -1i64)]);
    assert_eq!(net(produced.updates(), 0), 10);
    assert_eq!(net(summary.updates(), 0) + net(internal.updates(), 0), 0);
}

#[test]
fn scenario_empty_capture_replays_nothing() {
    let mut log: EventLink<u64, u64> = EventLink::new();
    log.push(Event::Progress(vec![]));
    log.push(Event::Progress(vec![]));
    let mut scope = Scope::new();
    let replayed = log.cursor().replay_into(&mut scope);
    assert!(replayed.is_empty());
    assert!(scope.capabilities.is_empty());
    assert!(scope.produced.is_empty());
}

#[test]
fn capture_operator_follows_the_host() {
    let log: EventLink<u64, u64> = EventLink::new();
    let mut operator = CaptureOperator::new(log);
    assert_eq!(operator.name(), "Capture");
    assert_eq!(operator.inputs(), 1);
    assert_eq!(operator.outputs(), 0);

    let mut counts = CountMap::from_updates(vec![(0u64, 1i64)]);
    operator.set_external_summary(&mut counts);
    assert!(counts.is_empty());

    let mut consumed = CountMap::new();
    let finished =
        operator.pull_internal_progress(vec![(0, vec![7, 8]), (1, vec![9])], &mut consumed);
    assert!(!finished);
    assert_eq!(net(consumed.updates(), 0), 2);
    assert_eq!(net(consumed.updates(), 1), 1);

    let mut counts = CountMap::from_updates(vec![(0u64, -1i64), (1, 1)]);
    operator.push_external_progress(&mut counts);
    assert!(counts.is_empty());

    let log = operator.into_inner();
    assert_eq!(log.len(), 4);
    assert_eq!(log.get(0), Some(&Event::Progress(vec![(0, 1)])));
    assert_eq!(log.get(1), Some(&Event::Messages(0, vec![7, 8])));
    assert_eq!(log.get(2), Some(&Event::Messages(1, vec![9])));
    assert_eq!(log.get(3), Some(&Event::Progress(vec![(0, -1), (1, 1)])));
    assert_eq!(log.get(4), None);
}

#[test]
fn capture_of_a_stream_begins_with_its_summary() {
    let log: EventLink<u64, u64> = EventLink::new();
    let log = ten_records().capture_into(log);
    assert_eq!(log.len(), 3);
    assert_eq!(log.get(0), Some(&Event::Progress(vec![(0, 1)])));
    assert_eq!(log.get(1), Some(&Event::Messages(0, (0..10).collect())));
    assert_eq!(log.get(2), Some(&Event::Progress(vec![(0, -1)])));
}

#[test]
fn round_trip_keeps_records_and_net_changes() {
    let stream: Stream<u64, u64> = Stream {
        summary: vec![(0, 2), (1, 1)],
        calls: vec![
            Activity::Input(vec![(0, vec![5, 6]), (1, vec![7])]),
            Activity::Progress(vec![(0, -1), (2, 3)]),
            Activity::Input(vec![]),
            Activity::Input(vec![(2, vec![]), (0, vec![8])]),
            Activity::Progress(vec![(0, -1), (1, -1), (2, -3)]),
        ],
    };
    let log = stream.capture_into(EventLink::new());
    let mut scope = Scope::new();
    let replayed = log.cursor().replay_into(&mut scope);
    assert_eq!(replayed, vec![(0, 5), (0, 6), (1, 7), (0, 8)]);
    assert_eq!(
        scope.capabilities.updates(),
        &vec![(0u64, 2i64), (1, 1), (0, -1), (2, 3), (0, -1), (1, -1), (2, -3)]
    );
    for time in 0..3u64 {
        assert_eq!(net(scope.capabilities.updates(), time), 0);
    }
    assert_eq!(net(scope.produced.updates(), 0), 3);
    assert_eq!(net(scope.produced.updates(), 1), 1);
    assert_eq!(net(scope.produced.updates(), 2), 0);
}

#[test]
fn messages_before_any_progress_are_dropped() {
    let mut log: EventLink<u64, u64> = EventLink::new();
    log.push(Event::Messages(3, vec![1, 2]));
    log.push(Event::Progress(vec![(3, 1)]));
    log.push(Event::Messages(3, vec![4]));
    let mut scope = Scope::new();
    let replayed = log.cursor().replay_into(&mut scope);
    assert_eq!(replayed, vec![(3, 4)]);
    assert_eq!(scope.capabilities.updates(), &vec![(3u64, 1i64)]);
}

#[test]
fn replay_of_nothing_is_not_negotiated() {
    let log: EventLink<u64, u64> = EventLink::new();
    let mut operator = ReplayOperator::new(log.cursor());
    assert_eq!(operator.name(), "Replay");
    assert_eq!(operator.inputs(), 0);
    assert_eq!(operator.outputs(), 1);
    assert!(operator.get_internal_summary().is_none());
    let mut scope = Scope::new();
    let replayed = log.cursor().replay_into(&mut scope);
    assert!(replayed.is_empty());
    assert!(scope.capabilities.is_empty());
}

#[test]
fn start_is_passed_over_in_replay() {
    let mut log: EventLink<u64, u64> = EventLink::new();
    log.push(Event::Progress(vec![(0, 1)]));
    log.push(Event::Start);
    log.push(Event::Messages(0, vec![1]));
    let mut operator = ReplayOperator::new(log.cursor());
    assert!(operator.get_internal_summary().is_some());
    let mut internal = CountMap::new();
    let mut produced = CountMap::new();
    operator.pull_internal_progress(&mut internal, &mut produced);
    assert!(internal.is_empty());
    assert_eq!(operator.take_output(), vec![(0, 1)]);
    assert!(operator.output().is_empty());
}

#[test]
fn replay_over_a_reader_continues_after_more_bytes() {
    let mut writer: EventWriter<u64, u64> = EventWriter::new();
    writer.push(Event::Progress(vec![(0, 1)]));
    writer.push(Event::Messages(0, vec![1, 2]));
    let first = writer.take();
    writer.push(Event::Messages(0, vec![3]));
    writer.push(Event::Progress(vec![(0, -1)]));
    let second = writer.take();

    let mut reader: EventReader<u64, u64> = EventReader::new();
    reader.feed(&first);
    let mut operator = ReplayOperator::new(reader);
    let summary = operator.get_internal_summary().expect("an opening event");
    assert_eq!(summary.updates(), &vec![(0u64, 1i64)]);
    let mut internal = CountMap::new();
    let mut produced = CountMap::new();
    operator.pull_internal_progress(&mut internal, &mut produced);
    assert_eq!(operator.output(), &vec![(0u64, 1u64), (0, 2)]);

    operator.events_mut().feed(&second);
    operator.pull_internal_progress(&mut internal, &mut produced);
    assert_eq!(operator.output(), &vec![(0u64, 1u64), (0, 2), (0, 3)]);
    assert_eq!(internal.updates(), &vec![(0u64, -1i64)]);
    assert_eq!(net(produced.updates(), 0), 3);
}
