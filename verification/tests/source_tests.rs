use tty_events::ansi::AnsiParser;
use tty_events::event::{Event, InternalEvent};
use tty_events::source::InternalEventSource;

fn key(b: u8) -> InternalEvent {
    InternalEvent::Event(Event::Key(b))
}

/// Runs one driver step and collects every event it produced.
fn advance_all(
    source: &mut InternalEventSource,
    bytes: &[u8],
    more_available: bool,
) -> Vec<InternalEvent> {
    let mut events = Vec::new();
    if let Some(ev) = source.advance(&AnsiParser, bytes, more_available) {
        events.push(ev);
        while let Some(ev) = source.pop_pending() {
            events.push(ev);
        }
    }
    events
}

#[test]
fn fresh_source_has_nothing_pending() {
    let mut source = InternalEventSource::new();
    assert_eq!(source.pop_pending(), None);
    assert_eq!(source.max_read_len(), 8192);
}

#[test]
fn one_read_with_one_sequence_yields_one_event() {
    let mut source = InternalEventSource::new();
    assert_eq!(advance_all(&mut source, b"\x1b[A", false), vec![key(b'A')]);
    assert_eq!(source.pop_pending(), None);
}

#[test]
fn split_sequence_yields_the_same_single_event() {
    // One 3-byte escape sequence delivered as 1+1+1 bytes across three reads.
    let mut source = InternalEventSource::new();
    assert_eq!(advance_all(&mut source, b"\x1b", true), vec![]);
    assert_eq!(advance_all(&mut source, b"[", true), vec![]);
    assert_eq!(advance_all(&mut source, b"A", false), vec![key(b'A')]);

    let mut oneshot = InternalEventSource::new();
    assert_eq!(advance_all(&mut oneshot, b"\x1b[A", false), vec![key(b'A')]);
}

#[test]
fn invalid_prefix_is_discarded_exactly() {
    let mut source = InternalEventSource::new();
    assert_eq!(
        advance_all(&mut source, b"\xffq", false),
        vec![key(b'q')],
    );
}

#[test]
fn events_are_delivered_in_fifo_order() {
    let mut source = InternalEventSource::new();
    let first = source.advance(&AnsiParser, b"abc", false);
    assert_eq!(first, Some(key(b'a')));
    assert_eq!(source.pop_pending(), Some(key(b'b')));
    assert_eq!(source.pop_pending(), Some(key(b'c')));
    assert_eq!(source.pop_pending(), None);
}

#[test]
fn queued_events_come_before_newly_decoded_ones() {
    let mut source = InternalEventSource::new();
    assert_eq!(source.advance(&AnsiParser, b"ab", false), Some(key(b'a')));
    // 'b' is still queued; a further read must not overtake it.
    assert_eq!(source.advance(&AnsiParser, b"c", false), Some(key(b'b')));
    assert_eq!(source.pop_pending(), Some(key(b'c')));
    assert_eq!(source.pop_pending(), None);
}

#[test]
fn full_capacity_read_resolves_and_reclaims_the_buffer() {
    let mut source = InternalEventSource::new();
    let chunk = vec![b'y'; source.max_read_len()];
    assert_eq!(chunk.len(), 8192);
    let events = advance_all(&mut source, &chunk, false);
    assert_eq!(events.len(), 8192);
    assert!(events.iter().all(|ev| *ev == key(b'y')));
    // Everything was consumed and the live region compacted away.
    assert_eq!(source.max_read_len(), 8192);
}

#[test]
fn compaction_keeps_a_straddling_sequence() {
    // Push the head cursor past the compaction threshold with a partial
    // sequence still unresolved; the relocated bytes must still decode.
    let mut source = InternalEventSource::new();

    let chunk = vec![b'x'; 4000];
    assert_eq!(advance_all(&mut source, &chunk, true).len(), 4000);

    let mut tail = vec![b'x'; 3680];
    tail.extend_from_slice(b"\x1b[12;3");
    assert_eq!(advance_all(&mut source, &tail, true).len(), 3680);

    // The live region was moved to the front; plenty of room to read again.
    assert!(source.max_read_len() > 8000);

    assert_eq!(
        advance_all(&mut source, b"4R", false),
        vec![InternalEvent::CursorPosition(12, 34)],
    );
}

#[test]
fn round_trip_under_every_chunking() {
    let stream = b"a\x1b[5;7R\x1b[Bq";
    let expected = vec![
        key(b'a'),
        InternalEvent::CursorPosition(5, 7),
        key(b'B'),
        key(b'q'),
    ];

    for chunk_len in 1..=stream.len() {
        let mut source = InternalEventSource::new();
        let mut events = Vec::new();
        let mut start = 0;
        while start < stream.len() {
            let end = (start + chunk_len).min(stream.len());
            let more_available = end < stream.len();
            events.extend(advance_all(&mut source, &stream[start..end], more_available));
            start = end;
        }
        assert_eq!(events, expected, "chunk length {}", chunk_len);
        assert_eq!(source.pop_pending(), None);
    }
}

#[test]
fn coalesced_resize_signals_yield_one_event_decision() {
    // Two queued resize signals, drained together: one resize is owed.
    let drained = vec![28, 28];
    assert!(InternalEventSource::wants_resize(&drained, 28));
    // Other signals alone owe none.
    assert!(!InternalEventSource::wants_resize(&vec![2, 15], 28));
    assert!(!InternalEventSource::wants_resize(&vec![], 28));
}

#[test]
fn resize_event_carries_the_measured_size() {
    assert_eq!(
        InternalEventSource::resize_event(80, 24),
        InternalEvent::Event(Event::Resize(80, 24)),
    );
}
