use mementocached::connection::{encode_frame, FrameError, FrameReader, ReadOutcome, HEADER_LEN};

/// Hands `bytes` to a fresh reader, in pieces of at most `piece` bytes and
/// never more than the reader wants, then the end of the stream if `close`.
/// Returns the outcome and how many bytes the reader took.
fn read_from(bytes: &[u8], piece: usize, close: bool) -> (ReadOutcome, usize) {
    let mut reader = FrameReader::new();
    let mut taken = 0;
    while taken < bytes.len() {
        let wanted = reader.wanted() as usize;
        let n = wanted.min(piece).min(bytes.len() - taken);
        let outcome = reader.feed(&bytes[taken..taken + n]);
        taken += n;
        match outcome {
            ReadOutcome::Pending => {}
            other => return (other, taken),
        }
    }
    if close {
        (reader.end_of_stream(), taken)
    } else {
        (ReadOutcome::Pending, taken)
    }
}

fn message_of(outcome: ReadOutcome) -> Vec<u8> {
    match outcome {
        ReadOutcome::Message(m) => m,
        _ => panic!("expected a whole message"),
    }
}

#[test]
fn write_read_message() {
    let message_send = "test_write_read_message";

    let bytes = encode_frame(message_send.as_bytes());
    let (outcome, _) = read_from(&bytes, usize::MAX, true);
    let buffer = message_of(outcome);
    let message_rcv = std::str::from_utf8(&buffer).unwrap();

    assert_eq!(message_send, message_rcv);
}

#[test]
fn write_read_message_multiple_step() {
    let message_send = "test_write_read_message";

    let mut reader = FrameReader::new();
    let header = message_send.len().to_be_bytes();
    assert!(matches!(reader.feed(header.as_slice()), ReadOutcome::Pending));
    assert!(matches!(reader.feed("test_write_".as_bytes()), ReadOutcome::Pending));
    let buffer = message_of(reader.feed("read_message".as_bytes()));
    let message_rcv = std::str::from_utf8(&buffer).unwrap();

    assert_eq!(message_send, message_rcv);
}

#[test]
fn unexpected_eof() {
    let mut reader = FrameReader::new();
    assert!(matches!(reader.feed(8_i32.to_be_bytes().as_slice()), ReadOutcome::Pending));
    let buffer = reader.end_of_stream();
    assert!(matches!(buffer, ReadOutcome::Failed(_)));
}

#[test]
fn frame_layout() {
    let bytes = encode_frame(b"abc");
    assert_eq!(bytes, vec![0, 0, 0, 0, 0, 0, 0, 3, b'a', b'b', b'c']);
    assert_eq!(HEADER_LEN, 8);
    let big = vec![7u8; 300];
    let bytes = encode_frame(&big);
    assert_eq!(&bytes[..8], &[0, 0, 0, 0, 0, 0, 1, 44]);
    assert_eq!(bytes.len(), 308);
}

#[test]
fn read_back_in_any_pieces() {
    let payload: Vec<u8> = (0..=255u8).cycle().take(1000).collect();
    let bytes = encode_frame(&payload);
    for piece in [1, 2, 3, 7, 8, 9, 100, 5000] {
        let (outcome, taken) = read_from(&bytes, piece, false);
        assert_eq!(message_of(outcome), payload);
        assert_eq!(taken, bytes.len());
    }
}

#[test]
fn reader_stops_at_frame_end() {
    let mut bytes = encode_frame(b"first");
    bytes.extend_from_slice(&encode_frame(b"second"));
    let (outcome, taken) = read_from(&bytes, usize::MAX, false);
    assert_eq!(message_of(outcome), b"first".to_vec());
    assert_eq!(taken, 13);
    let (outcome, taken2) = read_from(&bytes[taken..], usize::MAX, false);
    assert_eq!(message_of(outcome), b"second".to_vec());
    assert_eq!(taken2, 14);
}

#[test]
fn empty_message_closes() {
    let bytes = encode_frame(b"");
    assert_eq!(bytes, vec![0u8; 8]);
    let (outcome, _) = read_from(&bytes, usize::MAX, false);
    assert!(matches!(outcome, ReadOutcome::Closed));
}

#[test]
fn close_before_payload_is_clean() {
    let bytes = encode_frame(b"payload");
    let (outcome, taken) = read_from(&bytes[..8], usize::MAX, true);
    assert_eq!(taken, 8);
    assert!(matches!(outcome, ReadOutcome::Closed));
}

#[test]
fn close_inside_payload_fails() {
    let bytes = encode_frame(b"payload");
    let (outcome, _) = read_from(&bytes[..10], usize::MAX, true);
    assert!(matches!(outcome, ReadOutcome::Failed(FrameError::ConnectionReset)));
}

#[test]
fn close_inside_header_fails() {
    for cut in 1..8 {
        let bytes = encode_frame(b"payload");
        let (outcome, _) = read_from(&bytes[..cut], usize::MAX, true);
        assert!(matches!(outcome, ReadOutcome::Failed(FrameError::UnexpectedEof)));
    }
}

#[test]
fn wanted_counts_down() {
    let mut reader = FrameReader::new();
    assert_eq!(reader.wanted(), 8);
    reader.feed(&[0, 0, 0]);
    assert_eq!(reader.wanted(), 5);
    reader.feed(&[0, 0, 0, 0, 10]);
    assert_eq!(reader.wanted(), 10);
    reader.feed(&[1, 2, 3, 4]);
    assert_eq!(reader.wanted(), 6);
}

#[test]
fn close_between_frames_is_clean() {
    let mut reader = FrameReader::new();
    assert!(matches!(reader.end_of_stream(), ReadOutcome::Closed));
    let bytes = encode_frame(b"payload");
    let (outcome, taken) = read_from(&bytes, usize::MAX, false);
    assert_eq!(message_of(outcome), b"payload".to_vec());
    let (outcome, _) = read_from(&bytes[taken..], usize::MAX, true);
    assert!(matches!(outcome, ReadOutcome::Closed));
}
