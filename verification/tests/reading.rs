use json_decoder::error::{ErrorKind, JsonError};
use json_decoder::reader::{BufferedReader, BUFFER_LEN};
use json_decoder::source::ByteSource;

fn source(text: &str) -> ByteSource {
    ByteSource::new(text.as_bytes().to_vec())
}

#[test]
fn read_gives_the_bytes_of_the_range() {
    let store = source("abcdef");
    assert_eq!(store.len(), 6);
    assert_eq!(store.read(0, 6), Ok(b"abcdef".to_vec()));
    assert_eq!(store.read(2, 3), Ok(b"cde".to_vec()));
    assert_eq!(store.read(6, 0), Ok(Vec::new()));
}

#[test]
fn read_past_the_end_is_an_io_error() {
    let store = source("abcdef");
    assert_eq!(store.read(4, 3), Err(ErrorKind::IoError));
    assert_eq!(store.read(7, 0), Err(ErrorKind::IoError));
    assert_eq!(store.read(0, usize::MAX), Err(ErrorKind::IoError));
    assert_eq!(store.read(usize::MAX, usize::MAX), Err(ErrorKind::IoError));
}

#[test]
fn advance_goes_through_the_input_one_character_at_a_time() {
    let store = source("0123456789abcdefghij");
    assert!(store.len() > 2 * BUFFER_LEN);
    let mut reader = BufferedReader::new(&store);
    assert_eq!(reader.offset(), 0);
    assert_eq!(reader.curr_char(), '\0');
    assert_eq!(reader.prev_char(), '\0');
    let mut seen = String::new();
    let mut before = '\0';
    for expected in 1..=20 {
        let c = reader.get_next_char().unwrap();
        seen.push(c);
        assert_eq!(reader.offset(), expected);
        assert_eq!(reader.curr_char(), c);
        assert_eq!(reader.prev_char(), before);
        before = c;
    }
    assert_eq!(seen, "0123456789abcdefghij");
    assert_eq!(
        reader.get_next_char(),
        Err(JsonError { kind: ErrorKind::IoError, line: 0, offset: 20, found: None })
    );
    assert_eq!(reader.offset(), 20);
    assert_eq!(reader.curr_char(), 'j');
}

#[test]
fn advance_counts_the_line_feeds() {
    let store = source("a\nb\r\n\nc");
    let mut reader = BufferedReader::new(&store);
    let mut lines = Vec::new();
    while let Ok(_) = reader.get_next_char() {
        lines.push(reader.line());
    }
    assert_eq!(lines, vec![0, 1, 1, 1, 2, 3, 3]);
    assert_eq!(
        reader.get_next_char(),
        Err(JsonError { kind: ErrorKind::IoError, line: 3, offset: 7, found: None })
    );
}

#[test]
fn peek_looks_further_ahead_with_every_call() {
    let store = source("0123456789abc");
    let mut reader = BufferedReader::new(&store);
    assert_eq!(reader.get_next_char(), Ok('0'));
    assert_eq!(reader.peek_next_char(), Some('1'));
    assert_eq!(reader.peek_next_char(), Some('2'));
    assert_eq!(reader.peek_next_char(), Some('3'));
    assert_eq!(reader.offset(), 1);
    assert_eq!(reader.curr_char(), '0');
    reader.reset_lookahead();
    assert_eq!(reader.peek_next_char(), Some('1'));
    assert_eq!(reader.get_next_char(), Ok('1'));
    assert_eq!(reader.peek_next_char(), Some('2'));
}

#[test]
fn peek_reaches_beyond_the_window_and_stops_at_the_end() {
    let store = source("0123456789abc");
    let mut reader = BufferedReader::new(&store);
    let mut seen = String::new();
    while let Some(c) = reader.peek_next_char() {
        seen.push(c);
    }
    assert_eq!(seen, "0123456789abc");
    assert_eq!(reader.peek_next_char(), None);
    assert_eq!(reader.offset(), 0);
    assert_eq!(reader.get_next_char(), Ok('0'));
}

#[test]
fn a_byte_is_read_as_the_character_of_its_value() {
    let store = ByteSource::new(vec![0xE9, 0x00, 0xFF]);
    let mut reader = BufferedReader::new(&store);
    assert_eq!(reader.get_next_char(), Ok('\u{e9}'));
    assert_eq!(reader.get_next_char(), Ok('\0'));
    assert_eq!(reader.get_next_char(), Ok('\u{ff}'));
}

#[test]
fn an_empty_source_has_nothing_to_read() {
    let store = ByteSource::new(Vec::new());
    let mut reader = BufferedReader::new(&store);
    assert_eq!(reader.peek_next_char(), None);
    assert_eq!(
        reader.get_next_char(),
        Err(JsonError { kind: ErrorKind::IoError, line: 0, offset: 0, found: None })
    );
}
