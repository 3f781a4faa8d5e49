use capture_replay::channel::{EventIterator, EventPusher};
use capture_replay::codec::{TAG_MESSAGES, TAG_PROGRESS, TAG_START, WIRE_VERSION};
use capture_replay::count_map::CountMap;
use capture_replay::event::Event;
use capture_replay::link::EventLink;
use capture_replay::list::{decode_list, encode_list};
use capture_replay::reader::EventReader;
use capture_replay::wire::{Decoded, Wire};
use capture_replay::writer::EventWriter;

fn sample() -> Vec<Event<u64, u64>> {
    vec![
        Event::Progress(vec![(0, 1)]),
        Event::Messages(0, vec![10, 11]),
        Event::Messages(1, vec![]),
        Event::Progress(vec![(0, -1), (1, 1)]),
        Event::Start,
        Event::Progress(vec![(1, -1)]),
    ]
}

#[test]
fn fresh_log_has_nothing_ahead() {
    let log: EventLink<u64, u64> = EventLink::new();
    assert_eq!(log.len(), 0);
    let mut cursor = log.cursor();
    assert!(cursor.next().is_none());
    assert!(cursor.next().is_none());
}

#[test]
fn cursor_observes_events_in_order() {
    let mut log: EventLink<u64, u64> = EventLink::new();
    for event in sample() {
        log.push(event);
    }
    assert_eq!(log.len(), 6);
    let mut cursor = log.cursor();
    for event in sample() {
        assert_eq!(cursor.next(), Some(&event));
    }
    assert_eq!(cursor.next(), None);
}

#[test]
fn fan_out_two_cursors_observe_all_independently() {
    let mut log: EventLink<u64, u64> = EventLink::new();
    for event in sample() {
        log.push(event);
    }
    let mut a = log.cursor_at(2);
    let mut b = a.clone();
    let expected: Vec<Event<u64, u64>> = sample().into_iter().skip(2).collect();

    let mut seen_a = Vec::new();
    while let Some(event) = a.next() {
        seen_a.push(event.clone());
    }
    assert_eq!(seen_a, expected);

    let mut seen_b = Vec::new();
    while let Some(event) = b.next() {
        seen_b.push(event.clone());
    }
    assert_eq!(seen_b, expected);
}

#[test]
fn fan_out_interleaved_cursors_do_not_disturb_each_other() {
    let mut log: EventLink<u64, u64> = EventLink::new();
    for event in sample() {
        log.push(event);
    }
    let all = sample();
    let mut a = log.cursor();
    let mut b = log.cursor();
    assert_eq!(a.next(), Some(&all[0]));
    assert_eq!(a.next(), Some(&all[1]));
    assert_eq!(b.next(), Some(&all[0]));
    assert_eq!(a.next(), Some(&all[2]));
    assert_eq!(b.next(), Some(&all[1]));
}

#[test]
fn cursor_beyond_the_tail_stands_on_the_tail() {
    let mut log: EventLink<u64, u64> = EventLink::new();
    log.push(Event::Start);
    let mut cursor = log.cursor_at(9);
    assert!(cursor.next().is_none());
    let mut cursor = log.cursor_at(1);
    assert!(cursor.next().is_none());
    let mut cursor = log.cursor_at(0);
    assert_eq!(cursor.next(), Some(&Event::Start));
}

#[test]
fn word_is_eight_bytes_least_significant_first() {
    let mut out = vec![0xffu8];
    0x0102030405060708u64.encode(&mut out);
    assert_eq!(out, vec![0xff, 8, 7, 6, 5, 4, 3, 2, 1]);
    assert_eq!(u64::decode(&out, 1), Decoded::Complete(0x0102030405060708u64, 8));
    assert_eq!(u64::decode(&out, 2), Decoded::Incomplete);
    assert_eq!(u64::decode(&out, 9), Decoded::Incomplete);
    assert_eq!(u64::decode(&out, 100), Decoded::Incomplete);
}

#[test]
fn signed_word_is_twos_complement() {
    let mut out = Vec::new();
    (-2i64).encode(&mut out);
    assert_eq!(out, vec![0xfe, 0xff, 0xff, 0xff, 0xff, 0xff, 0xff, 0xff]);
    assert_eq!(i64::decode(&out, 0), Decoded::Complete(-2i64, 8));
    let mut out = Vec::new();
    i64::MIN.encode(&mut out);
    assert_eq!(i64::decode(&out, 0), Decoded::Complete(i64::MIN, 8));
    assert_eq!(i64::decode(&out[..7], 0), Decoded::Incomplete);
}

#[test]
fn byte_and_pair_codes() {
    let mut out = Vec::new();
    7u8.encode(&mut out);
    assert_eq!(out, vec![7]);
    assert_eq!(u8::decode(&out, 0), Decoded::Complete(7u8, 1));
    assert_eq!(u8::decode(&out, 1), Decoded::Incomplete);

    let mut out = Vec::new();
    (3u8, 0x0100u64).encode(&mut out);
    assert_eq!(out, vec![3, 0, 1, 0, 0, 0, 0, 0, 0]);
    assert_eq!(<(u8, u64)>::decode(&out, 0), Decoded::Complete((3u8, 0x0100u64), 9));
    assert_eq!(<(u8, u64)>::decode(&out[..5], 0), Decoded::Incomplete);
    assert_eq!(<(u8, u64)>::decode(&[], 0), Decoded::Incomplete);
}

#[test]
fn list_is_length_then_items() {
    let mut out = Vec::new();
    encode_list(&vec![5u8, 6, 7], &mut out);
    assert_eq!(out, vec![3, 0, 0, 0, 0, 0, 0, 0, 5, 6, 7]);
    assert_eq!(decode_list::<u8>(&out, 0), Decoded::Complete(vec![5u8, 6, 7], 11));
    assert_eq!(decode_list::<u8>(&out[..10], 0), Decoded::Incomplete);
    assert_eq!(decode_list::<u8>(&out[..4], 0), Decoded::Incomplete);
    let mut out = Vec::new();
    encode_list(&Vec::<u64>::new(), &mut out);
    assert_eq!(out, vec![0; 8]);
    assert_eq!(decode_list::<u64>(&out, 0), Decoded::Complete(vec![], 8));
}

#[test]
fn event_codes_are_version_tag_body() {
    let mut out = Vec::new();
    Event::<u64, u64>::Start.encode(&mut out);
    assert_eq!(out, vec![WIRE_VERSION, TAG_START]);

    let mut out = Vec::new();
    Event::<u8, u8>::Progress(vec![(9, -1)]).encode(&mut out);
    assert_eq!(
        out,
        vec![
            WIRE_VERSION, TAG_PROGRESS, 1, 0, 0, 0, 0, 0, 0, 0, 9, 0xff, 0xff, 0xff, 0xff, 0xff,
            0xff, 0xff, 0xff
        ]
    );

    let mut out = Vec::new();
    Event::<u8, u8>::Messages(5, vec![1, 2, 3]).encode(&mut out);
    assert_eq!(out, vec![WIRE_VERSION, TAG_MESSAGES, 5, 3, 0, 0, 0, 0, 0, 0, 0, 1, 2, 3]);
    assert_eq!(WIRE_VERSION, 1);
    assert_eq!((TAG_START, TAG_PROGRESS, TAG_MESSAGES), (0, 1, 2));
}

#[test]
fn scenario_encode_then_decode_messages() {
    let sent: Event<u64, u64> = Event::Messages(5, vec![1, 2, 3]);
    let mut bytes = Vec::new();
    sent.encode(&mut bytes);
    match Event::<u64, u64>::decode(&bytes, 0) {
        Decoded::Complete(event, used) => {
            assert_eq!(event, sent);
            assert_eq!(used, bytes.len());
        },
        other => panic!("not decoded: {:?}", other),
    }
}

#[test]
fn decode_consumes_exactly_what_encode_produced() {
    let mut bytes = vec![0xaa, 0xbb];
    let events = sample();
    for event in events.iter() {
        event.encode(&mut bytes);
    }
    bytes.push(WIRE_VERSION);
    let mut at = 2;
    for event in events.iter() {
        let mut alone = Vec::new();
        event.encode(&mut alone);
        assert_eq!(
            Event::<u64, u64>::decode(&bytes, at),
            Decoded::Complete(event.clone(), alone.len())
        );
        at += alone.len();
    }
    assert_eq!(Event::<u64, u64>::decode(&bytes, at), Decoded::Incomplete);
    assert_eq!(Event::<u64, u64>::decode(&bytes, at + 1), Decoded::Incomplete);
    assert_eq!(Event::<u64, u64>::decode(&bytes, at + 50), Decoded::Incomplete);
}

#[test]
fn decode_tells_missing_from_malformed() {
    let mut bytes = Vec::new();
    Event::<u64, u64>::Messages(5, vec![1, 2, 3]).encode(&mut bytes);
    for cut in 0..bytes.len() {
        assert_eq!(Event::<u64, u64>::decode(&bytes[..cut], 0), Decoded::Incomplete);
    }
    assert_eq!(Event::<u64, u64>::decode(&[2], 0), Decoded::Malformed);
    assert_eq!(Event::<u64, u64>::decode(&[0, TAG_START], 0), Decoded::Malformed);
    assert_eq!(Event::<u64, u64>::decode(&[WIRE_VERSION, 3], 0), Decoded::Malformed);
    assert_eq!(Event::<u64, u64>::decode(&[WIRE_VERSION, 0xff, 0, 0], 0), Decoded::Malformed);
    assert_eq!(Event::<u64, u64>::decode(&[WIRE_VERSION], 0), Decoded::Incomplete);
}

#[test]
fn writer_holds_the_bytes_owed() {
    let mut writer: EventWriter<u64, u64> = EventWriter::new();
    assert!(writer.as_bytes().is_empty());
    writer.push(Event::Start);
    assert_eq!(writer.as_bytes(), &[WIRE_VERSION, TAG_START]);
    writer.push(Event::Start);
    assert_eq!(writer.as_bytes(), &[WIRE_VERSION, TAG_START, WIRE_VERSION, TAG_START]);
    writer.clear();
    assert!(writer.as_bytes().is_empty());
    writer.push(Event::Progress(vec![]));
    let taken = writer.take();
    assert_eq!(taken, vec![WIRE_VERSION, TAG_PROGRESS, 0, 0, 0, 0, 0, 0, 0, 0]);
    assert!(writer.as_bytes().is_empty());
}

#[test]
fn reader_gives_what_the_writer_took() {
    let mut writer: EventWriter<u64, u64> = EventWriter::new();
    for event in sample() {
        writer.push(event);
    }
    let mut reader: EventReader<u64, u64> = EventReader::new();
    assert!(reader.next().is_none());
    reader.feed(&writer.take());
    for event in sample() {
        assert_eq!(reader.next(), Some(&event));
    }
    assert_eq!(reader.next(), None);
    assert!(!reader.is_corrupt());
}

#[test]
fn chunked_read_one_byte_per_read() {
    let sent: Event<u64, u64> = Event::Messages(5, vec![1, 2, 3]);
    let mut bytes = Vec::new();
    sent.encode(&mut bytes);

    let mut reader: EventReader<u64, u64> = EventReader::new();
    for byte in bytes.iter() {
        assert!(reader.next().is_none());
        assert!(!reader.is_corrupt());
        reader.feed(&[*byte]);
    }
    assert_eq!(reader.next(), Some(&sent));
    assert!(reader.next().is_none());
}

#[test]
fn chunked_read_with_empty_reads_and_uneven_chunks() {
    let events = sample();
    let mut bytes = Vec::new();
    for event in events.iter() {
        event.encode(&mut bytes);
    }
    let mut reader: EventReader<u64, u64> = EventReader::new();
    let mut seen = Vec::new();
    let mut at = 0;
    let mut size = 0;
    while at < bytes.len() {
        while let Some(event) = reader.next() {
            seen.push(event.clone());
        }
        let end = std::cmp::min(bytes.len(), at + size);
        reader.feed(&bytes[at..end]);
        at = end;
        size = (size + 3) % 7;
    }
    while let Some(event) = reader.next() {
        seen.push(event.clone());
    }
    assert_eq!(seen, events);
}

#[test]
fn reader_stalls_on_malformed_bytes() {
    let mut reader: EventReader<u64, u64> = EventReader::new();
    reader.feed(&[WIRE_VERSION, TAG_START, 9, 9]);
    assert_eq!(reader.next(), Some(&Event::Start));
    assert!(reader.is_corrupt());
    assert!(reader.next().is_none());
    reader.feed(&[WIRE_VERSION, TAG_START]);
    assert!(reader.next().is_none());
    assert!(reader.is_corrupt());
}

#[test]
fn count_map_keeps_changes_in_order() {
    let mut counts: CountMap<u64> = CountMap::new();
    assert!(counts.is_empty());
    counts.update(3, 2);
    counts.update(4, -1);
    counts.extend(&vec![(3, -2), (5, 0)]);
    assert_eq!(counts.updates(), &vec![(3u64, 2i64), (4, -1), (3, -2), (5, 0)]);
    let taken = counts.drain();
    assert_eq!(taken, vec![(3, 2), (4, -1), (3, -2), (5, 0)]);
    assert!(counts.is_empty());
    counts.update(1, 1);
    assert_eq!(counts.clone().into_inner(), vec![(1, 1)]);
    counts.clear();
    assert!(counts.is_empty());
}

#[test]
fn count_map_reports_counts_that_no_signed_word_holds() {
    let mut counts: CountMap<u64> = CountMap::from_updates(vec![(7, 1)]);
    counts.update_count(7, 0);
    assert_eq!(counts.updates(), &vec![(7u64, 1i64)]);
    counts.update_count(7, 12);
    assert_eq!(counts.updates(), &vec![(7u64, 1i64), (7, 12)]);
    let mut counts: CountMap<u64> = CountMap::new();
    counts.update_count(2, usize::MAX);
    let sum: i128 = counts.updates().iter().map(|(_, n)| *n as i128).sum();
    assert_eq!(sum, usize::MAX as i128);
    assert!(counts.updates().iter().all(|(t, n)| *t == 2 && *n > 0));
}
