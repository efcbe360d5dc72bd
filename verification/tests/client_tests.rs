use ping_core::client::ClientAction;
use ping_core::client::ClientEvent;
use ping_core::client::ClientPhase;
use ping_core::client::WasmPingClient;
use ping_core::client::client_step;
use ping_core::handler::HandlerEndpoint;

#[test]
fn empty_lookup_is_retried() {
    let mut phase = ClientPhase::AwaitLookup;
    for _ in 0..3 {
        match client_step(&mut phase, ClientEvent::LookupEmpty) {
            ClientAction::RetryLookup => {}
            _ => panic!("an empty lookup is retried"),
        }
        assert_eq!(phase, ClientPhase::AwaitLookup);
    }
}

#[test]
fn resolved_lookup_starts_round_one() {
    let mut phase = ClientPhase::AwaitLookup;
    match client_step(&mut phase, ClientEvent::LookupFound) {
        ClientAction::SendPing(p) => {
            assert_eq!(p.sequence, 1);
            assert_eq!(p.message, b"Hello from CLI client #1".to_vec());
        }
        _ => panic!("a resolved lookup starts pinging"),
    }
    assert_eq!(phase, ClientPhase::Pinging(1));
}

#[test]
fn full_run_issues_ten_numbered_requests() {
    // The whole client run against a live handler endpoint: sequences
    // 1..=10 in order, totals 1..=10 in order, each message text as the
    // round prescribes.
    let mut endpoint = HandlerEndpoint::spawn();
    endpoint.start();
    let mut phase = ClientPhase::AwaitLookup;
    let mut action = client_step(&mut phase, ClientEvent::LookupFound);
    let mut seen = 0u64;
    loop {
        match action {
            ClientAction::SendPing(p) => {
                seen += 1;
                assert_eq!(p.sequence, seen);
                let expected = format!("Hello from CLI client #{}", seen).into_bytes();
                assert_eq!(p.message, expected);
                let rep = endpoint.submit(p).expect("running endpoint answers");
                assert_eq!(rep.0.sequence, seen);
                assert_eq!(rep.0.total_pings, seen);
                action = client_step(&mut phase, ClientEvent::ReplyReceived);
            }
            ClientAction::Finish => break,
            ClientAction::RetryLookup => panic!("no lookup happens mid-run"),
        }
    }
    assert_eq!(seen, 10);
    assert_eq!(phase, ClientPhase::Done);
    assert_eq!(endpoint.actor.ping_count, 10);
}

#[test]
fn failed_rounds_still_advance_the_run() {
    let mut phase = ClientPhase::Pinging(9);
    match client_step(&mut phase, ClientEvent::ReplyFailed) {
        ClientAction::SendPing(p) => {
            assert_eq!(p.sequence, 10);
        }
        _ => panic!("a failed round still advances"),
    }
    match client_step(&mut phase, ClientEvent::ReplyFailed) {
        ClientAction::Finish => {}
        _ => panic!("the run ends after the last round"),
    }
    assert_eq!(phase, ClientPhase::Done);
}

#[test]
fn wasm_client_numbers_its_requests() {
    let mut c = WasmPingClient::new();
    let p1 = c.send_ping();
    assert_eq!(p1.sequence, 1);
    assert_eq!(p1.message, b"Hello from Wasm #1".to_vec());
    let p2 = c.send_ping();
    assert_eq!(p2.sequence, 2);
    assert_eq!(p2.message, b"Hello from Wasm #2".to_vec());
    assert_eq!(c.ping_count, 2);
}
