use sta_relay::client::ClientAction;
use sta_relay::client::ClientError;
use sta_relay::client::Command;
use sta_relay::client::client_frame;
use sta_relay::client::command_kind;
use sta_relay::client::dir_plan;
use sta_relay::client::dispatch;
use sta_relay::client::parse_input;
use sta_relay::client::strip_to_second_space;
use sta_relay::client::trim_bytes;
use sta_relay::client::wire_token;
use sta_relay::codec::decode;
use sta_relay::registry::Registry;
use sta_relay::session::SessionAction;
use sta_relay::session::SessionEvent;
use sta_relay::session::SessionState;
use sta_relay::session::ServerError;
use sta_relay::session::session_outcome;
use sta_relay::session::session_step;

#[test]
fn text_message_reaches_the_peer() {
    // A client types `.text hello`; the frame `TEXT 5\nhello` goes out, the
    // server decodes and broadcasts it, and peer B prints `hello`.
    let line = b".text hello".to_vec();
    let (kind, payload) = parse_input(&line);
    assert_eq!(kind, Command::Text);
    assert_eq!(payload, b"hello".to_vec());
    let frame = client_frame(kind, &payload).unwrap();
    assert_eq!(frame, b"TEXT 5\nhello".to_vec());

    // Server side: decode one frame, then broadcast to everyone but A.
    let (msg, used) = decode(&frame).unwrap();
    assert_eq!(used, frame.len());
    assert_eq!(msg.command, b"TEXT".to_vec());
    assert_eq!(msg.payload, b"hello".to_vec());
    let mut reg = Registry::new();
    let a: u64 = 10;
    let b: u64 = 20;
    reg.register(a).unwrap();
    reg.register(b).unwrap();
    let (state, action) = session_step(SessionState::Connected, SessionEvent::Frame(msg));
    assert_eq!(state, SessionState::Connected);
    let forwarded = match action {
        SessionAction::Broadcast(m) => m,
        SessionAction::Disconnect(_) => panic!("a decoded frame must be broadcast"),
    };
    assert_eq!(reg.broadcast_targets(a), vec![b]);

    // Peer B decodes the forwarded frame and prints the payload.
    let (at_b, _) = decode(&frame).unwrap();
    assert_eq!(at_b.command, forwarded.command);
    match dispatch(at_b) {
        ClientAction::PrintLine(p) => assert_eq!(p, b"hello".to_vec()),
        _ => panic!("a TEXT message is printed"),
    }
}

#[test]
fn file_message_is_staged_under_files() {
    // `.file notes.txt some content` travels as a FILE frame; the receiver
    // stages the payload under `files`, and an existing non-writable `files`
    // directory is reported as NotWritable, not a crash.
    let line = b".file notes.txt some content".to_vec();
    let (kind, payload) = parse_input(&line);
    assert_eq!(kind, Command::File);
    assert_eq!(payload, b"notes.txt some content".to_vec());
    let frame = client_frame(kind, &payload).unwrap();
    assert_eq!(frame, b"FILE 22\nnotes.txt some content".to_vec());

    let (msg, _) = decode(&frame).unwrap();
    let (dir, staged) = match dispatch(msg) {
        ClientAction::Stage { dir, payload } => (dir, payload),
        _ => panic!("a FILE message is staged"),
    };
    assert_eq!(dir, b"files".to_vec());
    assert_eq!(staged, b"notes.txt some content".to_vec());

    let plan = dir_plan("files".to_string(), true, false);
    match plan {
        Err(ClientError::NotWritable(name)) => assert_eq!(name, "files"),
        _ => panic!("an existing non-writable directory is NotWritable"),
    }
}

#[test]
fn image_message_is_staged_under_images() {
    let line = b".image cat.png pixels".to_vec();
    let (kind, payload) = parse_input(&line);
    assert_eq!(kind, Command::Image);
    assert_eq!(payload, b"cat.png pixels".to_vec());
    let frame = client_frame(kind, &payload).unwrap();
    let (msg, _) = decode(&frame).unwrap();
    match dispatch(msg) {
        ClientAction::Stage { dir, payload } => {
            assert_eq!(dir, b"images".to_vec());
            assert_eq!(payload, b"cat.png pixels".to_vec());
        }
        _ => panic!("an IMAGE message is staged"),
    }
}

#[test]
fn unknown_command_is_reported_and_survived() {
    let frame = b"NOPE 2\nxy".to_vec();
    let (msg, _) = decode(&frame).unwrap();
    assert!(matches!(dispatch(msg), ClientAction::ReportUnknown));
}

#[test]
fn plain_line_is_sent_as_text() {
    let (kind, payload) = parse_input(&b"  hello there \n".to_vec());
    assert_eq!(kind, Command::Text);
    assert_eq!(payload, b"hello there".to_vec());
}

#[test]
fn dot_command_without_argument_is_plain_text() {
    let (kind, payload) = parse_input(&b".file".to_vec());
    assert_eq!(kind, Command::Text);
    assert_eq!(payload, b".file".to_vec());
}

#[test]
fn trim_removes_surrounding_whitespace_only() {
    assert_eq!(trim_bytes(&b"\t a b \r\n".to_vec()), b"a b".to_vec());
    assert_eq!(trim_bytes(&b"".to_vec()), Vec::<u8>::new());
    assert_eq!(trim_bytes(&b" \t ".to_vec()), Vec::<u8>::new());
}

#[test]
fn wire_tokens_round_trip_through_classification() {
    assert_eq!(command_kind(&wire_token(Command::Text)), Command::Text);
    assert_eq!(command_kind(&wire_token(Command::Image)), Command::Image);
    assert_eq!(command_kind(&wire_token(Command::File)), Command::File);
    assert_eq!(command_kind(&b"text".to_vec()), Command::Unknown);
}

#[test]
fn dir_plan_covers_all_outcomes() {
    assert!(matches!(dir_plan("d".to_string(), false, false), Ok(())));
    match dir_plan("d".to_string(), true, true) {
        Err(ClientError::AlreadyExists(name)) => assert_eq!(name, "d"),
        _ => panic!("an existing writable directory already exists"),
    }
}

#[test]
fn strip_to_second_space_cases() {
    assert_eq!(
        strip_to_second_space(&b"notes.txt some content here".to_vec()),
        b"content here".to_vec()
    );
    assert_eq!(strip_to_second_space(&b"one two".to_vec()), b"one two".to_vec());
    assert_eq!(strip_to_second_space(&b"plain".to_vec()), b"plain".to_vec());
    assert_eq!(strip_to_second_space(&b"".to_vec()), Vec::<u8>::new());
    assert_eq!(strip_to_second_space(&b"a b ".to_vec()), Vec::<u8>::new());
}

#[test]
fn session_ends_cleanly_on_eof() {
    let (state, action) = session_step(SessionState::Connected, SessionEvent::Eof);
    assert_eq!(state, SessionState::Disconnected);
    assert!(matches!(action, SessionAction::Disconnect(true)));
    assert_eq!(session_outcome(true), Ok(()));
}

#[test]
fn session_ends_with_failure_on_broken_reads() {
    let (state, action) = session_step(SessionState::Connected, SessionEvent::Failed);
    assert_eq!(state, SessionState::Disconnected);
    assert!(matches!(action, SessionAction::Disconnect(false)));
    assert_eq!(session_outcome(false), Err(ServerError::Io));
}
