use sta_relay::codec::FrameError;
use sta_relay::codec::MAX_FRAME;
use sta_relay::codec::decode;
use sta_relay::codec::encode;
use sta_relay::codec::header_incomplete;

#[test]
fn round_trip_text() {
    let command = b"TEXT".to_vec();
    let payload = b"hello".to_vec();
    let bytes = encode(&command, &payload).unwrap();
    assert_eq!(bytes, b"TEXT 5\nhello".to_vec());
    let (msg, used) = decode(&bytes).unwrap();
    assert_eq!(msg.command, command);
    assert_eq!(msg.payload, payload);
    assert_eq!(used, bytes.len());
}

#[test]
fn round_trip_empty_payload() {
    let command = b"PING".to_vec();
    let payload = Vec::new();
    let bytes = encode(&command, &payload).unwrap();
    assert_eq!(bytes, b"PING 0\n".to_vec());
    let (msg, used) = decode(&bytes).unwrap();
    assert_eq!(msg.command, command);
    assert_eq!(msg.payload, payload);
    assert_eq!(used, 7);
}

#[test]
fn round_trip_binary_payload() {
    let command = b"IMAGE".to_vec();
    let payload = vec![0u8, 255, 10, 32, 13, 7];
    let bytes = encode(&command, &payload).unwrap();
    let (msg, used) = decode(&bytes).unwrap();
    assert_eq!(msg.command, command);
    assert_eq!(msg.payload, payload);
    assert_eq!(used, bytes.len());
}

#[test]
fn unknown_command_passes_the_framing_layer() {
    let command = b"NOPE".to_vec();
    let payload = b"x".to_vec();
    let bytes = encode(&command, &payload).unwrap();
    let (msg, _) = decode(&bytes).unwrap();
    assert_eq!(msg.command, b"NOPE".to_vec());
}

#[test]
fn encode_rejects_empty_command() {
    let r = encode(&Vec::new(), &b"x".to_vec());
    assert!(matches!(r, Err(FrameError::InvalidCommand)));
}

#[test]
fn encode_rejects_whitespace_in_command() {
    assert!(matches!(
        encode(&b"A B".to_vec(), &b"x".to_vec()),
        Err(FrameError::InvalidCommand)
    ));
    assert!(matches!(
        encode(&b"A\nB".to_vec(), &b"x".to_vec()),
        Err(FrameError::InvalidCommand)
    ));
    assert!(matches!(
        encode(&b"A\tB".to_vec(), &b"x".to_vec()),
        Err(FrameError::InvalidCommand)
    ));
}

#[test]
fn encode_rejects_non_ascii_command() {
    let r = encode(&vec![0xC3u8, 0xA9], &Vec::new());
    assert!(matches!(r, Err(FrameError::InvalidCommand)));
}

#[test]
fn encode_rejects_oversize_command() {
    let command = vec![65u8; 65];
    let r = encode(&command, &Vec::new());
    assert!(matches!(r, Err(FrameError::FrameTooLarge)));
}

#[test]
fn encode_rejects_oversize_payload() {
    let payload = vec![0u8; MAX_FRAME + 1];
    let r = encode(&b"FILE".to_vec(), &payload);
    assert!(matches!(r, Err(FrameError::FrameTooLarge)));
}

#[test]
fn encode_accepts_payload_at_the_cap() {
    let payload = vec![7u8; MAX_FRAME];
    let bytes = encode(&b"FILE".to_vec(), &payload).unwrap();
    let (msg, used) = decode(&bytes).unwrap();
    assert_eq!(msg.payload.len(), MAX_FRAME);
    assert_eq!(used, bytes.len());
}

#[test]
fn decode_rejects_missing_newline() {
    let r = decode(&b"TEXT 5".to_vec());
    assert!(matches!(r, Err(FrameError::MalformedHeader)));
}

#[test]
fn decode_rejects_overlong_header() {
    let mut bytes = vec![65u8; 100];
    bytes.push(b'\n');
    let r = decode(&bytes);
    assert!(matches!(r, Err(FrameError::MalformedHeader)));
}

#[test]
fn decode_rejects_missing_space() {
    let r = decode(&b"TEXT5\nhello".to_vec());
    assert!(matches!(r, Err(FrameError::MalformedHeader)));
}

#[test]
fn decode_rejects_empty_length() {
    let r = decode(&b"TEXT \nhello".to_vec());
    assert!(matches!(r, Err(FrameError::MalformedHeader)));
}

#[test]
fn decode_rejects_leading_plus() {
    let r = decode(&b"TEXT +5\nhello".to_vec());
    assert!(matches!(r, Err(FrameError::MalformedHeader)));
}

#[test]
fn decode_rejects_non_digit_length() {
    let r = decode(&b"TEXT 5x\nhello".to_vec());
    assert!(matches!(r, Err(FrameError::MalformedHeader)));
}

#[test]
fn decode_rejects_length_over_cap() {
    let r = decode(&b"TEXT 16777217\n".to_vec());
    assert!(matches!(r, Err(FrameError::FrameTooLarge)));
    let r = decode(&b"TEXT 99999999999999999999\n".to_vec());
    assert!(matches!(r, Err(FrameError::FrameTooLarge)));
}

#[test]
fn decode_rejects_short_payload() {
    let r = decode(&b"TEXT 5\nhi".to_vec());
    assert!(matches!(r, Err(FrameError::TruncatedPayload)));
}

#[test]
fn header_incomplete_tells_short_from_broken() {
    // Still waiting for the newline: the header may yet arrive.
    assert!(header_incomplete(&b"TEXT 5".to_vec()));
    assert!(header_incomplete(&Vec::new()));
    // A newline arrived, or the cap is passed: the verdict is final.
    assert!(!header_incomplete(&b"TEXT 5\n".to_vec()));
    assert!(!header_incomplete(&vec![65u8; 100]));
}

#[test]
fn decode_consumes_exactly_one_frame() {
    let first = encode(&b"TEXT".to_vec(), &b"one two".to_vec()).unwrap();
    let second = encode(&b"FILE".to_vec(), &b"notes.txt body".to_vec()).unwrap();
    let mut stream = first.clone();
    stream.extend_from_slice(&second);
    let (m1, used1) = decode(&stream).unwrap();
    assert_eq!(m1.command, b"TEXT".to_vec());
    assert_eq!(m1.payload, b"one two".to_vec());
    assert_eq!(used1, first.len());
    let rest = stream[used1..].to_vec();
    let (m2, used2) = decode(&rest).unwrap();
    assert_eq!(m2.command, b"FILE".to_vec());
    assert_eq!(m2.payload, b"notes.txt body".to_vec());
    assert_eq!(used2, rest.len());
}

#[test]
fn frame_isolation_survives_any_chunking() {
    let first = encode(&b"TEXT".to_vec(), &b"hello".to_vec()).unwrap();
    let second = encode(&b"IMAGE".to_vec(), &b"cat.png pixels".to_vec()).unwrap();
    let mut stream = first.clone();
    stream.extend_from_slice(&second);
    for chunk in [1usize, 2, 3, 5, 7, stream.len()] {
        // The transport hands the bytes over in arbitrary chunks; the decoder
        // only ever sees the accumulated buffer.
        let mut buffer: Vec<u8> = Vec::new();
        for piece in stream.chunks(chunk) {
            buffer.extend_from_slice(piece);
        }
        let (m1, used1) = decode(&buffer).unwrap();
        assert_eq!(m1.command, b"TEXT".to_vec());
        assert_eq!(m1.payload, b"hello".to_vec());
        assert_eq!(used1, first.len());
        let rest = buffer[used1..].to_vec();
        let (m2, used2) = decode(&rest).unwrap();
        assert_eq!(m2.command, b"IMAGE".to_vec());
        assert_eq!(m2.payload, b"cat.png pixels".to_vec());
        assert_eq!(used2, rest.len());
    }
}
