use nats_aflowt::connection::{backoff_millis, Action, Event, Lifecycle, Phase};
use nats_aflowt::flush::PongWaiters;
use nats_aflowt::message::Message;
use nats_aflowt::outbox::{Outbox, Submit};
use nats_aflowt::proto::{
    encode_connect, encode_ping, encode_pong, encode_pub, encode_sub, encode_unsub, push_decimal,
};
use nats_aflowt::queue::{Recv, SubscriptionReceiver};
use nats_aflowt::registry::Registry;
use nats_aflowt::request::{PendingRequest, RequestError, RequestStatus};

fn msg(subject: &str, data: &str) -> Message {
    Message::new(subject.as_bytes().to_vec(), None, data.as_bytes().to_vec())
}

fn payload(r: Recv<Message>) -> Vec<u8> {
    match r {
        Recv::Item(m) => m.data,
        other => panic!("expected a message, got {:?}", other),
    }
}

#[test]
fn queue_is_fifo() {
    let mut q: SubscriptionReceiver<u32> = SubscriptionReceiver::new();
    for i in 0..5u32 {
        assert!(q.push(i));
    }
    for i in 0..5u32 {
        assert_eq!(q.try_recv(), Some(i));
    }
    assert_eq!(q.try_recv(), None);
    assert!(matches!(q.poll(), Recv::Empty));
}

#[test]
fn queue_closed_keeps_items_then_ends() {
    let mut q: SubscriptionReceiver<u32> = SubscriptionReceiver::new();
    q.push(1);
    q.push(2);
    q.close();
    assert!(!q.push(3));
    assert!(matches!(q.poll(), Recv::Item(1)));
    assert!(matches!(q.poll(), Recv::Item(2)));
    assert!(matches!(q.poll(), Recv::Closed));
    assert_eq!(q.try_recv(), None);
}

#[test]
fn queue_discard_all() {
    let mut q: SubscriptionReceiver<u32> = SubscriptionReceiver::new();
    q.push(7);
    q.push(8);
    assert_eq!(q.discard_all(), 2);
    assert_eq!(q.len(), 0);
    assert!(!q.is_closed());
}

#[test]
fn publish_order_is_delivery_order() {
    let mut reg = Registry::new();
    let sid = reg.register(b"S".to_vec(), None);
    for i in 0..20u8 {
        assert!(reg.dispatch(sid, Message::new(b"S".to_vec(), None, vec![i])));
    }
    for i in 0..20u8 {
        assert_eq!(payload(reg.next(sid)), vec![i]);
    }
    assert!(matches!(reg.next(sid), Recv::Empty));
}

#[test]
fn dispatch_after_unregister_is_noop() {
    let mut reg = Registry::new();
    let sid = reg.register(b"a".to_vec(), None);
    assert!(reg.dispatch(sid, msg("a", "1")));
    assert!(reg.unregister(sid));
    assert!(!reg.dispatch(sid, msg("a", "2")));
    assert!(!reg.unregister(sid));
    assert_eq!(payload(reg.next(sid)), b"1".to_vec());
    assert!(matches!(reg.next(sid), Recv::Closed));
    assert!(matches!(reg.next(sid), Recv::Closed));
    assert_eq!(reg.live_count(), 0);
}

#[test]
fn unknown_sid_reads_closed() {
    let mut reg = Registry::new();
    assert!(!reg.dispatch(42, msg("x", "y")));
    assert!(matches!(reg.next(42), Recv::Closed));
}

#[test]
fn sids_are_never_reused() {
    let mut reg = Registry::new();
    let a = reg.register(b"a".to_vec(), None);
    reg.unregister(a);
    let _ = reg.next(a);
    let b = reg.register(b"a".to_vec(), None);
    assert_eq!(a, 1);
    assert_eq!(b, 2);
    assert!(reg.can_register());
}

#[test]
fn subscribe_publish_twice_then_close() {
    let mut reg = Registry::new();
    let sid = reg.register(b"foo".to_vec(), None);
    reg.dispatch(sid, msg("foo", "bar"));
    reg.dispatch(sid, msg("foo", "bar"));
    assert_eq!(payload(reg.next(sid)), b"bar".to_vec());
    assert_eq!(payload(reg.next(sid)), b"bar".to_vec());
    assert!(matches!(reg.next(sid), Recv::Empty));
    reg.unregister(sid);
    assert!(matches!(reg.next(sid), Recv::Closed));
}

#[test]
fn queue_group_members_split_work() {
    let mut reg = Registry::new();
    let a = reg.register(b"work".to_vec(), Some(b"q".to_vec()));
    let b = reg.register(b"work".to_vec(), Some(b"q".to_vec()));
    // The server picks one member of the group for each message.
    for i in 0..10u8 {
        let target = if i % 3 == 0 { a } else { b };
        reg.dispatch(target, Message::new(b"work".to_vec(), None, vec![i]));
    }
    let mut seen: Vec<u8> = Vec::new();
    for sid in [a, b] {
        while let Recv::Item(m) = reg.next(sid) {
            seen.push(m.data[0]);
        }
    }
    assert_eq!(seen.len(), 10);
    seen.sort();
    seen.dedup();
    assert_eq!(seen.len(), 10);
}

#[test]
fn live_subs_lists_open_subscriptions() {
    let mut reg = Registry::new();
    let a = reg.register(b"a".to_vec(), None);
    let b = reg.register(b"b".to_vec(), Some(b"g".to_vec()));
    let c = reg.register(b"c".to_vec(), None);
    reg.unregister(b);
    let live = reg.live_subs();
    assert_eq!(live.len(), 2);
    assert_eq!(live[0].sid, a);
    assert_eq!(live[0].subject, b"a".to_vec());
    assert_eq!(live[1].sid, c);
    assert_eq!(reg.live_count(), 2);
}

#[test]
fn request_timeout_restores_live_count() {
    let mut reg = Registry::new();
    reg.register(b"other".to_vec(), None);
    let before = reg.live_count();
    let mut p = PendingRequest::start(&mut reg, b"_INBOX.1".to_vec());
    assert_eq!(reg.live_count(), before + 1);
    assert!(matches!(p.check(&mut reg, false), RequestStatus::Waiting));
    assert!(matches!(
        p.check(&mut reg, true),
        RequestStatus::Done(Err(RequestError::TimedOut))
    ));
    assert_eq!(reg.live_count(), before);
    assert!(matches!(p.check(&mut reg, true), RequestStatus::AlreadyDone));
}

#[test]
fn request_first_reply_wins() {
    let mut reg = Registry::new();
    let mut p = PendingRequest::start(&mut reg, b"_INBOX.2".to_vec());
    let sid = p.sid();
    reg.dispatch(sid, msg("_INBOX.2", "one"));
    reg.dispatch(sid, msg("_INBOX.2", "two"));
    match p.check(&mut reg, false) {
        RequestStatus::Done(Ok(m)) => assert_eq!(m.data, b"one".to_vec()),
        other => panic!("unexpected {:?}", other),
    }
    assert!(p.is_done());
    assert!(matches!(p.check(&mut reg, false), RequestStatus::AlreadyDone));
    assert!(!reg.dispatch(sid, msg("_INBOX.2", "three")));
    assert_eq!(reg.live_count(), 0);
}

#[test]
fn request_closed_inbox() {
    let mut reg = Registry::new();
    let mut p = PendingRequest::start(&mut reg, b"_INBOX.3".to_vec());
    reg.unregister(p.sid());
    assert!(matches!(
        p.check(&mut reg, false),
        RequestStatus::Done(Err(RequestError::Closed))
    ));
}

#[test]
fn reconnect_notifies_once_and_replays() {
    let mut s = Lifecycle::new(5, 2);
    assert_eq!(s.step(Event::ConnectRequested), vec![Action::OpenTransport]);
    assert_eq!(s.step(Event::HandshakeOk), vec![]);
    assert_eq!(s.phase, Phase::Connected);
    let mut acts = Vec::new();
    acts.extend(s.step(Event::TransportFailed));
    acts.extend(s.step(Event::HandshakeFailed { fatal: false }));
    acts.extend(s.step(Event::HandshakeFailed { fatal: false }));
    acts.extend(s.step(Event::HandshakeOk));
    assert_eq!(s.phase, Phase::Connected);
    let count = |a: Action| acts.iter().filter(|x| **x == a).count();
    assert_eq!(count(Action::NotifyDisconnected), 1);
    assert_eq!(count(Action::Replay), 1);
    assert_eq!(count(Action::NotifyReconnected), 1);
    assert!(acts.contains(&Action::Backoff { attempt: 2 }));
}

#[test]
fn reconnect_gives_up_at_ceiling() {
    let mut s = Lifecycle::new(2, 2);
    s.step(Event::ConnectRequested);
    s.step(Event::HandshakeOk);
    s.step(Event::TransportFailed);
    assert_eq!(
        s.step(Event::HandshakeFailed { fatal: false }),
        vec![Action::Backoff { attempt: 1 }, Action::OpenTransport]
    );
    assert_eq!(
        s.step(Event::HandshakeFailed { fatal: false }),
        vec![Action::Shutdown, Action::NotifyClosed]
    );
    assert_eq!(s.phase, Phase::Closed);
    assert_eq!(s.step(Event::HandshakeOk), vec![]);
}

#[test]
fn fatal_handshake_closes_at_once() {
    let mut s = Lifecycle::new(10, 2);
    s.step(Event::ConnectRequested);
    assert_eq!(
        s.step(Event::HandshakeFailed { fatal: true }),
        vec![Action::Shutdown, Action::NotifyClosed]
    );
    assert_eq!(s.phase, Phase::Closed);
}

#[test]
fn missed_pongs_trigger_reconnect() {
    let mut s = Lifecycle::new(10, 2);
    s.step(Event::ConnectRequested);
    s.step(Event::HandshakeOk);
    assert_eq!(s.step(Event::PingTimer), vec![Action::SendPing]);
    assert_eq!(s.step(Event::Pong), vec![]);
    assert_eq!(s.step(Event::PingTimer), vec![Action::SendPing]);
    assert_eq!(s.step(Event::PingTimer), vec![Action::SendPing]);
    assert_eq!(
        s.step(Event::PingTimer),
        vec![Action::NotifyDisconnected, Action::OpenTransport]
    );
    assert_eq!(s.phase, Phase::Reconnecting);
}

#[test]
fn drain_then_close() {
    let mut s = Lifecycle::new(10, 2);
    s.step(Event::ConnectRequested);
    s.step(Event::HandshakeOk);
    assert_eq!(s.step(Event::DrainRequested), vec![Action::DrainSubscriptions]);
    assert_eq!(s.phase, Phase::Draining);
    assert_eq!(
        s.step(Event::DrainComplete),
        vec![Action::Shutdown, Action::NotifyClosed]
    );
    assert_eq!(s.phase, Phase::Closed);
}

#[test]
fn recoverable_server_error_keeps_connection() {
    let mut s = Lifecycle::new(10, 2);
    s.step(Event::ConnectRequested);
    s.step(Event::HandshakeOk);
    assert_eq!(s.step(Event::ServerError { fatal: false }), vec![]);
    assert_eq!(s.phase, Phase::Connected);
    assert_eq!(
        s.step(Event::ServerError { fatal: true }),
        vec![Action::Shutdown, Action::NotifyClosed]
    );
}

#[test]
fn encodes_frames() {
    assert_eq!(encode_pub(b"foo", &None, b"bar"), b"PUB foo 3\r\nbar\r\n".to_vec());
    assert_eq!(
        encode_pub(b"foo", &Some(b"inbox".to_vec()), b"hello world"),
        b"PUB foo inbox 11\r\nhello world\r\n".to_vec()
    );
    assert_eq!(encode_pub(b"e", &None, b""), b"PUB e 0\r\n\r\n".to_vec());
    assert_eq!(encode_sub(b"foo", &None, 1), b"SUB foo 1\r\n".to_vec());
    assert_eq!(encode_sub(b"work", &Some(b"q".to_vec()), 907), b"SUB work q 907\r\n".to_vec());
    assert_eq!(encode_unsub(12, None), b"UNSUB 12\r\n".to_vec());
    assert_eq!(encode_unsub(12, Some(5)), b"UNSUB 12 5\r\n".to_vec());
    assert_eq!(encode_ping(), b"PING\r\n".to_vec());
    assert_eq!(encode_pong(), b"PONG\r\n".to_vec());
    assert_eq!(encode_connect(b"{}"), b"CONNECT {}\r\n".to_vec());
}

#[test]
fn decimal_digits() {
    let mut out = b"x".to_vec();
    push_decimal(&mut out, 0);
    push_decimal(&mut out, 10);
    push_decimal(&mut out, u64::MAX);
    assert_eq!(out, b"x01018446744073709551615".to_vec());
}

#[test]
fn outbox_buffers_while_reconnecting() {
    let mut o = Outbox::new(2);
    assert!(matches!(o.submit(Phase::Connected, b"A".to_vec()), Submit::Send(f) if f == b"A".to_vec()));
    assert!(matches!(o.submit(Phase::Reconnecting, b"B".to_vec()), Submit::Buffered));
    assert!(matches!(o.submit(Phase::Reconnecting, b"C".to_vec()), Submit::Buffered));
    assert!(matches!(o.submit(Phase::Reconnecting, b"D".to_vec()), Submit::Rejected));
    assert!(matches!(o.submit(Phase::Closed, b"E".to_vec()), Submit::Rejected));
    assert_eq!(o.len(), 2);

    let mut reg = Registry::new();
    reg.register(b"a".to_vec(), None);
    let b = reg.register(b"b".to_vec(), Some(b"g".to_vec()));
    reg.register(b"c".to_vec(), None);
    reg.unregister(b);
    let frames = o.replay(&reg);
    assert_eq!(
        frames,
        vec![
            b"SUB a 1\r\n".to_vec(),
            b"SUB c 3\r\n".to_vec(),
            b"B".to_vec(),
            b"C".to_vec()
        ]
    );
    assert_eq!(o.len(), 0);
}

#[test]
fn pongs_release_flushes_in_order() {
    let mut w = PongWaiters::new();
    assert_eq!(w.pong_received(), None);
    w.ping_sent(None);
    w.ping_sent(Some(1));
    w.ping_sent(Some(2));
    assert_eq!(w.len(), 3);
    assert_eq!(w.pong_received(), None);
    assert_eq!(w.pong_received(), Some(1));
    assert_eq!(w.pong_received(), Some(2));
    assert_eq!(w.pong_received(), None);
    assert_eq!(w.len(), 0);
}

#[test]
fn backoff_doubles_up_to_cap() {
    assert_eq!(backoff_millis(0, 100, 5000), 100);
    assert_eq!(backoff_millis(1, 100, 5000), 100);
    assert_eq!(backoff_millis(2, 100, 5000), 200);
    assert_eq!(backoff_millis(3, 100, 5000), 400);
    assert_eq!(backoff_millis(6, 100, 5000), 3200);
    assert_eq!(backoff_millis(7, 100, 5000), 5000);
    assert_eq!(backoff_millis(1000, 100, 5000), 5000);
    assert_eq!(backoff_millis(5, 0, 5000), 0);
    assert_eq!(backoff_millis(3, 9000, 5000), 5000);
    assert_eq!(backoff_millis(200, u64::MAX / 2, u64::MAX), u64::MAX);
}
