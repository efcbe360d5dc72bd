use ping_core::handler::HandlerEndpoint;
use ping_core::handler::HandlerPhase;
use ping_core::handler::PingActor;
use ping_core::handler::SubmitError;
use ping_core::mailbox::Mailbox;
use ping_core::mailbox::MailboxError;
use ping_core::msg::Ping;
use ping_core::wire::WsAction;
use ping_core::wire::WsFrame;
use ping_core::wire::ws_step;

fn ping(msg: &[u8], sequence: u64) -> Ping {
    Ping { message: msg.to_vec(), sequence }
}

#[test]
fn handle_echoes_sequence_and_prefixes_message() {
    let mut actor = PingActor::new();
    let rep = actor.handle(ping(b"hi", 42));
    assert_eq!(rep.0.sequence, 42);
    assert_eq!(rep.0.total_pings, 1);
    assert_eq!(rep.0.message, b"Pong! Responding to: hi".to_vec());
    assert_eq!(actor.ping_count, 1);
}

#[test]
fn totals_count_every_accepted_request_once() {
    let mut actor = PingActor::new();
    let mut totals = Vec::new();
    for i in 1..=10u64 {
        let rep = actor.handle(ping(b"x", i));
        assert_eq!(rep.0.sequence, i);
        totals.push(rep.0.total_pings);
    }
    let expected: Vec<u64> = (1..=10).collect();
    assert_eq!(totals, expected);
}

#[test]
fn endpoint_accepts_only_while_running() {
    let mut e = HandlerEndpoint::spawn();
    assert_eq!(e.phase, HandlerPhase::Starting);
    match e.submit(ping(b"early", 1)) {
        Err(SubmitError::HandlerGone) => {}
        _ => panic!("a starting endpoint must refuse submissions"),
    }
    e.start();
    let rep = e.submit(ping(b"ok", 2)).expect("a running endpoint must accept");
    assert_eq!(rep.0.sequence, 2);
    assert_eq!(rep.0.total_pings, 1);
    e.begin_drain();
    match e.submit(ping(b"late", 3)) {
        Err(SubmitError::HandlerGone) => {}
        _ => panic!("a draining endpoint must refuse submissions"),
    }
    e.finish_drain();
    assert_eq!(e.phase, HandlerPhase::Stopped);
    assert_eq!(e.actor.ping_count, 1);
}

#[test]
fn mailbox_overflows_at_capacity() {
    let mut mb = Mailbox::new(2);
    assert!(mb.enqueue(ping(b"a", 1)).is_ok());
    assert!(mb.enqueue(ping(b"b", 2)).is_ok());
    match mb.enqueue(ping(b"c", 3)) {
        Err(MailboxError::Overloaded) => {}
        _ => panic!("a full mailbox must refuse"),
    }
}

#[test]
fn mailbox_drains_in_arrival_order() {
    let mut mb = Mailbox::new(8);
    for i in 1..=5u64 {
        mb.enqueue(ping(b"q", i)).unwrap();
    }
    let mut actor = PingActor::new();
    let replies = mb.drain(&mut actor);
    assert_eq!(replies.len(), 5);
    for (k, rep) in replies.iter().enumerate() {
        assert_eq!(rep.0.sequence, (k + 1) as u64);
        assert_eq!(rep.0.total_pings, (k + 1) as u64);
    }
    assert_eq!(actor.ping_count, 5);
    assert!(mb.dequeue().is_none());
}

#[test]
fn two_connections_share_one_counter() {
    // Two WebSocket connections, five requests each: every connection sees
    // its own sequences echoed, and the totals across both connections are
    // exactly 1..=10.
    let mut actor = PingActor::new();
    let mut totals = Vec::new();
    for round in 1..=5u64 {
        for conn in 0..2u64 {
            let req = ping(if conn == 0 { b"left" } else { b"right" }, round);
            let frame = WsFrame::Text(ping_core::codec::encode_ping(&req));
            match ws_step(&mut actor, &frame) {
                WsAction::Reply(out) => {
                    let pong = ping_core::codec::parse_pong(&out).expect("reply must parse");
                    assert_eq!(pong.sequence, round);
                    totals.push(pong.total_pings);
                }
                _ => panic!("a well-formed frame must be answered"),
            }
        }
    }
    let mut sorted = totals.clone();
    sorted.sort();
    let expected: Vec<u64> = (1..=10).collect();
    assert_eq!(sorted, expected);
}

#[test]
fn malformed_text_frame_is_skipped_not_fatal() {
    let mut actor = PingActor::new();
    let bad = WsFrame::Text(b"definitely { not json".to_vec());
    match ws_step(&mut actor, &bad) {
        WsAction::Ignore => {}
        _ => panic!("a malformed frame must be skipped"),
    }
    assert_eq!(actor.ping_count, 0);
    // The connection is still usable afterwards.
    let good = WsFrame::Text(b"{\"message\":\"hi\",\"sequence\":42}".to_vec());
    match ws_step(&mut actor, &good) {
        WsAction::Reply(out) => {
            assert_eq!(
                out,
                br#"{"message":"Pong! Responding to: hi","sequence":42,"total_pings":1}"#.to_vec()
            );
        }
        _ => panic!("the connection must still answer"),
    }
}

#[test]
fn binary_frames_ignored_close_stops() {
    let mut actor = PingActor::new();
    match ws_step(&mut actor, &WsFrame::Binary(b"\x00\x01".to_vec())) {
        WsAction::Ignore => {}
        _ => panic!("binary frames are ignored"),
    }
    match ws_step(&mut actor, &WsFrame::Close) {
        WsAction::Stop => {}
        _ => panic!("a close frame stops the connection"),
    }
    assert_eq!(actor.ping_count, 0);
}

#[test]
fn session_replies_in_request_order_until_close() {
    let mut actor = PingActor::new();
    let frames = vec![
        WsFrame::Text(b"{\"message\":\"a\",\"sequence\":1}".to_vec()),
        WsFrame::Text(b"garbage".to_vec()),
        WsFrame::Binary(b"\x00".to_vec()),
        WsFrame::Text(b"{\"message\":\"b\",\"sequence\":2}".to_vec()),
        WsFrame::Close,
        WsFrame::Text(b"{\"message\":\"after\",\"sequence\":3}".to_vec()),
    ];
    let replies = ping_core::wire::ws_run(&mut actor, &frames);
    assert_eq!(replies.len(), 2);
    assert_eq!(
        replies[0],
        br#"{"message":"Pong! Responding to: a","sequence":1,"total_pings":1}"#.to_vec()
    );
    assert_eq!(
        replies[1],
        br#"{"message":"Pong! Responding to: b","sequence":2,"total_pings":2}"#.to_vec()
    );
    // nothing after the close frame was read
    assert_eq!(actor.ping_count, 2);
}
