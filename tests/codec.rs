use nats_aflowt::connection::Event;
use nats_aflowt::reader::{route, ReaderStep};
use nats_aflowt::drain::{DrainState, SubscriptionDrain};
use nats_aflowt::message::Message;
use nats_aflowt::parse::{classify_error, decode, split_at_spaces, parse_decimal, Decoder, Inbound, Parsed};
use nats_aflowt::queue::Recv;
use nats_aflowt::registry::Registry;

fn frame(p: Parsed) -> (Inbound, usize) {
    match p {
        Parsed::Frame(f, n) => (f, n),
        other => panic!("expected a frame, got {:?}", other),
    }
}

#[test]
fn decodes_control_frames() {
    assert!(matches!(frame(decode(b"PING\r\n")), (Inbound::Ping, 6)));
    assert!(matches!(frame(decode(b"PONG\r\nPING\r\n")), (Inbound::Pong, 6)));
    assert!(matches!(frame(decode(b"+OK\r\n")), (Inbound::Okay, 5)));
    match frame(decode(b"-ERR 'Slow Consumer'\r\n")) {
        (Inbound::ServerErr(r), 22) => assert_eq!(r, b"'Slow Consumer'".to_vec()),
        other => panic!("unexpected {:?}", other),
    }
    match frame(decode(b"INFO {\"max_payload\":1048576}\r\n")) {
        (Inbound::Info(j), n) => {
            assert_eq!(j, b"{\"max_payload\":1048576}".to_vec());
            assert_eq!(n, 30);
        }
        other => panic!("unexpected {:?}", other),
    }
}

#[test]
fn decodes_msg_frames() {
    match frame(decode(b"MSG foo 7 3\r\nbar\r\nPING\r\n")) {
        (Inbound::Msg { subject, sid, reply, payload }, n) => {
            assert_eq!(subject, b"foo".to_vec());
            assert_eq!(sid, 7);
            assert_eq!(reply, None);
            assert_eq!(payload, b"bar".to_vec());
            assert_eq!(n, 18);
        }
        other => panic!("unexpected {:?}", other),
    }
    match frame(decode(b"MSG a.b 12 _INBOX.x 4\r\n\r\n\r\n\r\n")) {
        (Inbound::Msg { subject, sid, reply, payload }, n) => {
            assert_eq!(subject, b"a.b".to_vec());
            assert_eq!(sid, 12);
            assert_eq!(reply, Some(b"_INBOX.x".to_vec()));
            assert_eq!(payload, b"\r\n\r\n".to_vec());
            assert_eq!(n, 29);
        }
        other => panic!("unexpected {:?}", other),
    }
    match frame(decode(b"MSG e 1 0\r\n\r\n")) {
        (Inbound::Msg { payload, .. }, 13) => assert!(payload.is_empty()),
        other => panic!("unexpected {:?}", other),
    }
}

#[test]
fn incomplete_and_invalid_input() {
    assert!(matches!(decode(b""), Parsed::Incomplete));
    assert!(matches!(decode(b"PIN"), Parsed::Incomplete));
    assert!(matches!(decode(b"PING\r"), Parsed::Incomplete));
    assert!(matches!(decode(b"MSG foo 1 5\r\nhel"), Parsed::Incomplete));
    assert!(matches!(decode(b"MSG foo 1 5\r\nhello\r"), Parsed::Incomplete));
    assert!(matches!(decode(b"MSG foo 1 5\r\nhelloXY"), Parsed::Invalid));
    assert!(matches!(decode(b"MSG foo x 5\r\nhello\r\n"), Parsed::Invalid));
    assert!(matches!(decode(b"MSG foo 1\r\n"), Parsed::Invalid));
    assert!(matches!(decode(b"MSG  foo 1 2\r\nab\r\n"), Parsed::Invalid));
    assert!(matches!(decode(b"HELLO\r\n"), Parsed::Invalid));
    assert!(matches!(decode(b"MSG foo 1 1234567890123456789\r\n"), Parsed::Invalid));
}

#[test]
fn decoder_resumes_across_partial_reads() {
    let wire = b"MSG foo 1 12\r\nhello\r\nworld\r\nPING\r\nMSG foo 1 2\r\nhi\r\n";
    let mut d = Decoder::new();
    let mut payloads: Vec<Vec<u8>> = Vec::new();
    let mut pings = 0;
    for chunk in wire.chunks(3) {
        d.feed(chunk);
        loop {
            match d.next_frame() {
                Parsed::Frame(Inbound::Msg { payload, .. }, _) => payloads.push(payload),
                Parsed::Frame(Inbound::Ping, _) => pings += 1,
                Parsed::Frame(other, _) => panic!("unexpected {:?}", other),
                Parsed::Incomplete => break,
                Parsed::Invalid => panic!("invalid"),
            }
        }
    }
    assert_eq!(payloads, vec![b"hello\r\nworld".to_vec(), b"hi".to_vec()]);
    assert_eq!(pings, 1);
    assert_eq!(d.buffered(), 0);
}

#[test]
fn decoder_keeps_buffer_on_invalid() {
    let mut d = Decoder::new();
    d.feed(b"BOGUS\r\n");
    assert!(matches!(d.next_frame(), Parsed::Invalid));
    assert_eq!(d.buffered(), 7);
}

#[test]
fn splits_and_numbers() {
    assert_eq!(
        split_at_spaces(b"a bc  d"),
        vec![b"a".to_vec(), b"bc".to_vec(), Vec::new(), b"d".to_vec()]
    );
    assert_eq!(split_at_spaces(b""), vec![Vec::<u8>::new()]);
    assert_eq!(parse_decimal(b"0"), Some(0));
    assert_eq!(parse_decimal(b"1048576"), Some(1048576));
    assert_eq!(parse_decimal(b"999999999999999999"), Some(999999999999999999));
    assert_eq!(parse_decimal(b"1000000000000000000"), None);
    assert_eq!(parse_decimal(b""), None);
    assert_eq!(parse_decimal(b"12a"), None);
}

#[test]
fn classifies_server_errors() {
    assert!(classify_error(b"'Authorization Violation'"));
    assert!(classify_error(b"Authorization Violation"));
    assert!(classify_error(b"'Authentication Timeout'"));
    assert!(classify_error(b"'Maximum Payload Violation'"));
    assert!(classify_error(b"'Secure Connection - TLS Required'"));
    assert!(!classify_error(b"'Slow Consumer'"));
    assert!(!classify_error(b"'Permissions Violation for Publish to foo'"));
    assert!(!classify_error(b"'"));
    assert!(!classify_error(b""));
}

#[test]
fn drain_waits_for_pong() {
    let mut reg = Registry::new();
    let sid = reg.register(b"test.drain".to_vec(), None);
    let mut d = SubscriptionDrain::new(sid);
    assert!(!d.on_pong(&mut reg));
    assert!(reg.dispatch(sid, Message::new(b"test.drain".to_vec(), None, b"before".to_vec())));
    assert!(d.begin());
    assert!(!d.begin());
    assert_eq!(d.state, DrainState::AwaitingPong);
    assert!(reg.dispatch(sid, Message::new(b"test.drain".to_vec(), None, b"in flight".to_vec())));
    assert!(d.on_pong(&mut reg));
    assert_eq!(d.state, DrainState::Drained);
    assert!(!reg.dispatch(sid, Message::new(b"test.drain".to_vec(), None, b"after".to_vec())));
    assert!(!d.on_pong(&mut reg));
    let mut got = Vec::new();
    while let Recv::Item(m) = reg.next(sid) {
        got.push(m.data);
    }
    assert_eq!(got, vec![b"before".to_vec(), b"in flight".to_vec()]);
    assert!(matches!(reg.next(sid), Recv::Closed));
}

#[test]
fn routes_frames() {
    let (f, _) = frame(decode(b"MSG foo 9 r 2\r\nhi\r\n"));
    match route(f) {
        ReaderStep::Deliver { sid, message } => {
            assert_eq!(sid, 9);
            assert_eq!(message.subject, b"foo".to_vec());
            assert_eq!(message.reply, Some(b"r".to_vec()));
            assert_eq!(message.data, b"hi".to_vec());
        }
        other => panic!("unexpected {:?}", other),
    }
    assert!(matches!(route(Inbound::Ping), ReaderStep::SendPong));
    assert!(matches!(route(Inbound::Pong), ReaderStep::Lifecycle(Event::Pong)));
    assert!(matches!(route(Inbound::Okay), ReaderStep::Ignore));
    assert!(matches!(
        route(Inbound::ServerErr(b"'Authorization Violation'".to_vec())),
        ReaderStep::Lifecycle(Event::ServerError { fatal: true })
    ));
    assert!(matches!(
        route(Inbound::ServerErr(b"'Slow Consumer'".to_vec())),
        ReaderStep::Lifecycle(Event::ServerError { fatal: false })
    ));
    assert!(matches!(route(Inbound::Info(b"{}".to_vec())), ReaderStep::ServerInfo(d) if d == b"{}".to_vec()));
}
