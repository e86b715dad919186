use itmsink::cli;
use itmsink::itm::{Event, Parser, Timestamp};
use itmsink::output::Output;

fn parser_for(specs: Vec<cli::Output>) -> Parser {
    Parser::new(Output::open_all(&specs))
}

fn wildcard_stdout() -> Parser {
    parser_for(vec![cli::Output { ports: Vec::new(), path: None }])
}

fn no_warnings(events: &[Event]) -> bool {
    events.iter().all(|e| {
        !matches!(
            e,
            Event::Overflow
                | Event::BadSynchronization { .. }
                | Event::BadExtension
                | Event::BadTimestamp
                | Event::InvalidHeader
        )
    })
}

#[test]
fn single_software_packet_to_stdout() {
    let mut p = wildcard_stdout();
    let mut events = Vec::new();
    for b in [0x09u8, 0x41] {
        events.extend(p.pump(b));
    }
    assert!(no_warnings(&events));
    assert_eq!(
        events,
        vec![
            Event::Source { software: true, port: 1, payload: vec![0x41] },
            Event::SinkWrite { sink: 0, data: vec![0x41] },
        ]
    );
    assert_eq!(p.outputs[0].output.written, b"A".to_vec());
}

#[test]
fn overflow_then_two_byte_packet() {
    let mut p = wildcard_stdout();
    let mut events = Vec::new();
    for b in [0x70u8, 0x12, 0x42, 0x43] {
        events.extend(p.pump(b));
    }
    assert_eq!(
        events,
        vec![
            Event::Overflow,
            Event::Source { software: true, port: 2, payload: vec![0x42, 0x43] },
            Event::SinkWrite { sink: 0, data: vec![0x42, 0x43] },
        ]
    );
    assert_eq!(p.outputs[0].output.written, b"BC".to_vec());
}

#[test]
fn malformed_synchronization_recycles_and_recovers() {
    let mut p = wildcard_stdout();
    let mut events = Vec::new();
    for b in [0x00u8, 0x00, 0x01, 0x01, 0x58] {
        events.extend(p.pump(b));
    }
    let bad: Vec<&Event> = events
        .iter()
        .filter(|e| matches!(e, Event::BadSynchronization { .. }))
        .collect();
    assert_eq!(bad.len(), 2);
    assert_eq!(*bad[0], Event::BadSynchronization { zeros: 16 });
    assert_eq!(*bad[1], Event::BadSynchronization { zeros: 8 });
    assert!(events.contains(&Event::Source { software: true, port: 0, payload: vec![0x58] }));
    assert_eq!(p.outputs[0].output.written, b"X".to_vec());
}

#[test]
fn valid_synchronization_with_47_zeros() {
    let mut p = wildcard_stdout();
    let mut events = Vec::new();
    for b in [0x00u8, 0x00, 0x00, 0x00, 0x00, 0x80] {
        events.extend(p.pump(b));
    }
    assert_eq!(events, vec![Event::Synchronization { zeros: 47 }]);
    assert!(p.outputs[0].output.written.is_empty());
    assert!(p.recycle.is_empty());
}

#[test]
fn synchronization_discards_stale_recycled_bytes() {
    let mut p = wildcard_stdout();
    let mut events = Vec::new();
    // A bad synchronization recycles `00 00 01`; the popped `00` restarts a
    // scan with `01` still below it on the stack. The valid synchronization
    // that follows resynchronizes the stream and discards that stale byte.
    for b in [0x00u8, 0x00, 0x00, 0x01, 0x00, 0x00, 0x00, 0x00, 0x00, 0x80] {
        events.extend(p.pump(b));
    }
    assert_eq!(
        events,
        vec![
            Event::BadSynchronization { zeros: 24 },
            Event::Synchronization { zeros: 55 },
        ]
    );
    assert!(p.recycle.is_empty());
    assert!(p.outputs[0].output.written.is_empty());
}

#[test]
fn forty_six_zeros_are_not_enough() {
    let mut p = wildcard_stdout();
    let mut events = Vec::new();
    for b in [0x00u8, 0x00, 0x00, 0x00, 0x00, 0x40] {
        events.extend(p.pump(b));
    }
    assert_eq!(events[0], Event::BadSynchronization { zeros: 46 });
    assert!(p.outputs[0].output.written.is_empty());
}

#[test]
fn long_local_timestamp_then_source() {
    let mut p = wildcard_stdout();
    let mut events = Vec::new();
    for b in [0xC0u8, 0x81, 0x02, 0x09, 0x5A] {
        events.extend(p.pump(b));
    }
    assert_eq!(
        events,
        vec![
            Event::Timestamp {
                ts: Timestamp::Local { tc: 0 },
                payload: vec![0x81, 0x02]
            },
            Event::Source { software: true, port: 1, payload: vec![0x5A] },
            Event::SinkWrite { sink: 0, data: vec![0x5A] },
        ]
    );
    assert_eq!(p.outputs[0].output.written, b"Z".to_vec());
}

#[test]
fn two_file_outputs_split_ports() {
    let mut p = parser_for(vec![
        cli::Output { ports: vec![1], path: Some(b"/tmp/a".to_vec()) },
        cli::Output { ports: vec![2], path: Some(b"/tmp/b".to_vec()) },
    ]);
    for b in [0x09u8, 0x41, 0x11, 0x42, 0x09, 0x43] {
        p.pump(b);
    }
    assert_eq!(p.outputs[0].output.written, b"AC".to_vec());
    assert_eq!(p.outputs[1].output.written, b"B".to_vec());
}

#[test]
fn forged_zero_size_header_is_invalid() {
    let mut p = wildcard_stdout();
    let events = p.pump(0x80);
    assert_eq!(events, vec![Event::InvalidHeader]);
    assert!(p.outputs[0].output.written.is_empty());
    assert!(p.recycle.is_empty());
}

#[test]
fn long_timestamp_payload_of_four_continuations_is_recycled() {
    let mut p = wildcard_stdout();
    let mut events = Vec::new();
    for b in [0xC0u8, 0x81, 0x82, 0x83, 0x84] {
        events.extend(p.pump(b));
    }
    assert_eq!(events, vec![Event::BadTimestamp]);
    // The four recycled bytes re-classify: 0x81 opens a one-byte source
    // packet for port 16, which swallows 0x82; 0x83 opens another, which
    // swallows 0x84.
    assert!(p.outputs[0].output.written.is_empty());
}

#[test]
fn extension_without_payload() {
    let mut p = wildcard_stdout();
    let events = p.pump(0x08);
    assert_eq!(events, vec![Event::Extension { sh: 0, ex: 0, payload: vec![] }]);
}

#[test]
fn extension_with_payload_terminates_on_clear_msb() {
    let mut p = wildcard_stdout();
    let mut events = Vec::new();
    for b in [0x88u8, 0xFF, 0x7F] {
        events.extend(p.pump(b));
    }
    assert_eq!(events, vec![Event::Extension { sh: 0, ex: 0, payload: vec![0xFF, 0x7F] }]);
}

#[test]
fn extension_payload_of_four_continuations_is_recycled() {
    let mut p = wildcard_stdout();
    let mut events = Vec::new();
    for b in [0x88u8, 0x81, 0x82, 0x83, 0x84] {
        events.extend(p.pump(b));
    }
    assert_eq!(events, vec![Event::BadExtension]);
}

#[test]
fn short_local_timestamp_from_header_bits() {
    let mut p = wildcard_stdout();
    let events = p.pump(0x30);
    assert_eq!(
        events,
        vec![Event::Timestamp { ts: Timestamp::Local { tc: 0 }, payload: vec![3] }]
    );
}

#[test]
fn global_timestamps() {
    let mut p = wildcard_stdout();
    let mut events = Vec::new();
    for b in [0x94u8, 0x01, 0xB4, 0x02] {
        events.extend(p.pump(b));
    }
    assert_eq!(
        events,
        vec![
            Event::Timestamp { ts: Timestamp::Global1, payload: vec![0x01] },
            Event::Timestamp { ts: Timestamp::Global2, payload: vec![0x02] },
        ]
    );
}

#[test]
fn hardware_source_packet() {
    let mut p = wildcard_stdout();
    let mut events = Vec::new();
    for b in [0x0Du8, 0x41] {
        events.extend(p.pump(b));
    }
    assert_eq!(
        events,
        vec![
            Event::Source { software: false, port: 1, payload: vec![0x41] },
            Event::SinkWrite { sink: 0, data: vec![0x41] },
        ]
    );
}

#[test]
fn four_byte_source_packet() {
    let mut p = wildcard_stdout();
    let mut events = Vec::new();
    for b in [0x0Bu8, 0x01, 0x02, 0x03, 0x04] {
        events.extend(p.pump(b));
    }
    assert_eq!(
        events,
        vec![
            Event::Source { software: true, port: 1, payload: vec![1, 2, 3, 4] },
            Event::SinkWrite { sink: 0, data: vec![1, 2, 3, 4] },
        ]
    );
}

#[test]
fn duplicate_route_writes_twice() {
    let mut p = parser_for(vec![cli::Output { ports: vec![1, 1], path: None }]);
    for b in [0x09u8, 0x41] {
        p.pump(b);
    }
    assert_eq!(p.outputs[0].output.written, b"AA".to_vec());
}

#[test]
fn unrouted_port_writes_nothing() {
    let mut p = parser_for(vec![cli::Output { ports: vec![2], path: None }]);
    for b in [0x09u8, 0x41] {
        p.pump(b);
    }
    assert!(p.outputs[0].output.written.is_empty());
}

#[test]
fn rerun_on_same_input_gives_identical_output() {
    let stream = [0x70u8, 0x09, 0x41, 0x00, 0x00, 0x01, 0x11, 0x42, 0x09, 0x43];
    let mut first: Option<Vec<u8>> = None;
    for _ in 0..2 {
        let mut p = wildcard_stdout();
        for b in stream {
            p.pump(b);
        }
        match &first {
            None => first = Some(p.outputs[0].output.written.clone()),
            Some(w) => assert_eq!(*w, p.outputs[0].output.written),
        }
    }
}

#[test]
fn round_trip_single_port_to_one_sink() {
    let mut p = parser_for(vec![cli::Output { ports: vec![3], path: Some(b"f".to_vec()) }]);
    // Three well-formed software packets for port 3, sizes 1, 2 and 4.
    let stream = [0x19u8, 0x10, 0x1A, 0x20, 0x21, 0x1B, 0x30, 0x31, 0x32, 0x33];
    for b in stream {
        p.pump(b);
    }
    assert_eq!(
        p.outputs[0].output.written,
        vec![0x10, 0x20, 0x21, 0x30, 0x31, 0x32, 0x33]
    );
}
