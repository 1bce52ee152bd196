use tty_events::ansi::AnsiParser;
use tty_events::event::{Event, InternalEvent};
use tty_events::parse::{IncrementalParser, ParseOutcome};

fn key(b: u8) -> ParseOutcome {
    ParseOutcome::Parsed(InternalEvent::Event(Event::Key(b)))
}

#[test]
fn plain_byte_is_a_key_whatever_the_hint() {
    assert_eq!(AnsiParser.parse(b"a", false), key(b'a'));
    assert_eq!(AnsiParser.parse(b"a", true), key(b'a'));
}

#[test]
fn high_byte_is_invalid() {
    assert_eq!(AnsiParser.parse(&[0xff], false), ParseOutcome::Invalid);
    assert_eq!(AnsiParser.parse(&[0xff], true), ParseOutcome::Invalid);
}

#[test]
fn lone_escape_depends_on_the_hint() {
    assert_eq!(AnsiParser.parse(&[0x1b], true), ParseOutcome::Incomplete);
    assert_eq!(AnsiParser.parse(&[0x1b], false), key(0x1b));
}

#[test]
fn escape_followed_by_non_bracket_is_invalid() {
    assert_eq!(AnsiParser.parse(b"\x1ba", false), ParseOutcome::Invalid);
}

#[test]
fn unterminated_control_sequence_is_incomplete() {
    assert_eq!(AnsiParser.parse(b"\x1b[", true), ParseOutcome::Incomplete);
    assert_eq!(AnsiParser.parse(b"\x1b[", false), ParseOutcome::Incomplete);
    assert_eq!(AnsiParser.parse(b"\x1b[12;3", false), ParseOutcome::Incomplete);
}

#[test]
fn control_sequence_final_byte_is_forwarded_as_key() {
    assert_eq!(AnsiParser.parse(b"\x1b[A", false), key(b'A'));
    assert_eq!(AnsiParser.parse(b"\x1b[1;5m", true), key(b'm'));
}

#[test]
fn cursor_position_report_decodes_exactly() {
    assert_eq!(
        AnsiParser.parse(b"\x1b[12;34R", false),
        ParseOutcome::Parsed(InternalEvent::CursorPosition(12, 34)),
    );
}

#[test]
fn cursor_position_with_empty_params_is_zero() {
    assert_eq!(
        AnsiParser.parse(b"\x1b[R", false),
        ParseOutcome::Parsed(InternalEvent::CursorPosition(0, 0)),
    );
}

#[test]
fn cursor_position_values_wrap_modulo_field_width() {
    // 70000 mod 65536 == 4464.
    assert_eq!(
        AnsiParser.parse(b"\x1b[70000;2R", false),
        ParseOutcome::Parsed(InternalEvent::CursorPosition(4464, 2)),
    );
}

#[test]
fn control_sequence_with_stray_byte_is_invalid() {
    // 0x20 is neither a parameter byte nor a final byte.
    assert_eq!(AnsiParser.parse(b"\x1b[1\x20", false), ParseOutcome::Invalid);
}
