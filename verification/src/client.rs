//! Client-side request logic.
//!
//! The native command-line client dials a server, resolves the handler by
//! name (retrying until gossip delivers it), then issues a fixed run of
//! numbered requests.  The loop that waits, sleeps and talks to the network
//! lives outside the library; `client_step` makes every decision, so the
//! sequence of requests and their texts are pinned here.  The browser
//! client's counterpart decides each frame it sends the same way.
use vstd::prelude::*;

use crate::codec::dec_rep;
use crate::codec::u64_to_dec;
use crate::msg::Ping;

verus! {

/// How many requests the command-line client issues per run.
pub const CLI_PING_ROUNDS: u64 = 10;

/// The request text of the command-line client's round `i`:
/// `"Hello from CLI client #"` followed by `i` in decimal.
pub open spec fn cli_text(i: u64) -> Seq<u8> {
    seq![
        0x48u8, 0x65u8, 0x6cu8, 0x6cu8, 0x6fu8, 0x20u8, 0x66u8, 0x72u8, 0x6fu8, 0x6du8, 0x20u8,
        0x43u8, 0x4cu8, 0x49u8, 0x20u8, 0x63u8, 0x6cu8, 0x69u8, 0x65u8, 0x6eu8, 0x74u8, 0x20u8,
        0x23u8,
    ] + dec_rep(i as nat)
}

/// The request text of the browser (WebAssembly) client's round `i`:
/// `"Hello from Wasm #"` followed by `i` in decimal.
pub open spec fn wasm_text(i: u64) -> Seq<u8> {
    seq![
        0x48u8, 0x65u8, 0x6cu8, 0x6cu8, 0x6fu8, 0x20u8, 0x66u8, 0x72u8, 0x6fu8, 0x6du8, 0x20u8,
        0x57u8, 0x61u8, 0x73u8, 0x6du8, 0x20u8, 0x23u8,
    ] + dec_rep(i as nat)
}

/// Builds the command-line client's request text for round `i`.
pub fn cli_ping_message(i: u64) -> (v: Vec<u8>)
    ensures
        v@ == cli_text(i),
{
    let mut v: Vec<u8> = Vec::new();
    v.push(0x48);
    v.push(0x65);
    v.push(0x6c);
    v.push(0x6c);
    v.push(0x6f);
    v.push(0x20);
    v.push(0x66);
    v.push(0x72);
    v.push(0x6f);
    v.push(0x6d);
    v.push(0x20);
    v.push(0x43);
    v.push(0x4c);
    v.push(0x49);
    v.push(0x20);
    v.push(0x63);
    v.push(0x6c);
    v.push(0x69);
    v.push(0x65);
    v.push(0x6e);
    v.push(0x74);
    v.push(0x20);
    v.push(0x23);
    let d = u64_to_dec(i);
    v.extend_from_slice(d.as_slice());
    proof {
        assert(v@ =~= cli_text(i));
    }
    v
}

/// Builds the browser client's request text for round `i`.
pub fn wasm_ping_message(i: u64) -> (v: Vec<u8>)
    ensures
        v@ == wasm_text(i),
{
    let mut v: Vec<u8> = Vec::new();
    v.push(0x48);
    v.push(0x65);
    v.push(0x6c);
    v.push(0x6c);
    v.push(0x6f);
    v.push(0x20);
    v.push(0x66);
    v.push(0x72);
    v.push(0x6f);
    v.push(0x6d);
    v.push(0x20);
    v.push(0x57);
    v.push(0x61);
    v.push(0x73);
    v.push(0x6d);
    v.push(0x20);
    v.push(0x23);
    let d = u64_to_dec(i);
    v.extend_from_slice(d.as_slice());
    proof {
        assert(v@ =~= wasm_text(i));
    }
    v
}

/// Where the command-line client stands in its run.
#[derive(PartialEq, Eq, Structural, Clone, Copy, Debug)]
pub enum ClientPhase {
    /// Dialed; the name has not resolved yet.
    AwaitLookup,
    /// Request `i` is in flight (1-based).
    Pinging(u64),
    /// All rounds answered or failed; the run is over.
    Done,
}

/// What the outside loop observed since the last step.
#[derive(PartialEq, Eq, Structural, Clone, Copy, Debug)]
pub enum ClientEvent {
    /// The name lookup returned nothing.
    LookupEmpty,
    /// The name lookup resolved to a handle.
    LookupFound,
    /// The in-flight request was answered.
    ReplyReceived,
    /// The in-flight request failed or timed out.
    ReplyFailed,
}

/// What the outside loop must do next.
pub enum ClientAction {
    /// Wait briefly, then look the name up again.
    RetryLookup,
    /// Send this request and await its reply.
    SendPing(Ping),
    /// Report the run's timings and stop.
    Finish,
}

/// One decision of the command-line client's loop.  An empty lookup is
/// retried (the client never gives up on propagation delay); a resolved
/// lookup starts round 1; each answered or failed round starts the next,
/// until round `CLI_PING_ROUNDS` ends the run.  Request `i` carries
/// sequence number `i` and the round's canonical text.
pub fn client_step(phase: &mut ClientPhase, event: ClientEvent) -> (a: ClientAction)
    requires
        *old(phase) is AwaitLookup ==> (event == ClientEvent::LookupEmpty || event
            == ClientEvent::LookupFound),
        *old(phase) matches ClientPhase::Pinging(i) ==> 1 <= i <= CLI_PING_ROUNDS && (event
            == ClientEvent::ReplyReceived || event == ClientEvent::ReplyFailed),
    ensures
        match *old(phase) {
            ClientPhase::AwaitLookup => {
                if event == ClientEvent::LookupFound {
                    &&& *final(phase) == ClientPhase::Pinging(1)
                    &&& a matches ClientAction::SendPing(p) && p@.sequence == 1 && p@.message
                        == cli_text(1)
                } else {
                    &&& *final(phase) == ClientPhase::AwaitLookup
                    &&& a is RetryLookup
                }
            },
            ClientPhase::Pinging(i) => {
                if i < CLI_PING_ROUNDS {
                    &&& *final(phase) == ClientPhase::Pinging((i + 1) as u64)
                    &&& a matches ClientAction::SendPing(p) && p@.sequence == i + 1 && p@.message
                        == cli_text((i + 1) as u64)
                } else {
                    &&& *final(phase) == ClientPhase::Done
                    &&& a is Finish
                }
            },
            ClientPhase::Done => *final(phase) == ClientPhase::Done && a is Finish,
        },
{
    match *phase {
        ClientPhase::AwaitLookup => {
            if matches!(event, ClientEvent::LookupFound) {
                *phase = ClientPhase::Pinging(1);
                let message = cli_ping_message(1);
                ClientAction::SendPing(Ping { message, sequence: 1 })
            } else {
                ClientAction::RetryLookup
            }
        },
        ClientPhase::Pinging(i) => {
            if i < CLI_PING_ROUNDS {
                let next = i + 1;
                *phase = ClientPhase::Pinging(next);
                let message = cli_ping_message(next);
                ClientAction::SendPing(Ping { message, sequence: next })
            } else {
                *phase = ClientPhase::Done;
                ClientAction::Finish
            }
        },
        ClientPhase::Done => ClientAction::Finish,
    }
}

/// The browser client's decision core: it numbers its requests itself.
/// The WebSocket that carries them lives outside the library.
pub struct WasmPingClient {
    pub ping_count: u64,
}

impl WasmPingClient {
    /// A fresh browser client: nothing sent yet.
    pub fn new() -> (c: WasmPingClient)
        ensures
            c.ping_count == 0,
    {
        WasmPingClient { ping_count: 0 }
    }

    /// Decides the next request to send: bumps the client's own counter and
    /// builds the frame text for it.  The caller puts it on the wire.
    pub fn send_ping(&mut self) -> (p: Ping)
        requires
            old(self).ping_count < u64::MAX,
        ensures
            final(self).ping_count == old(self).ping_count + 1,
            p@.sequence == final(self).ping_count,
            p@.message == wasm_text(final(self).ping_count),
    {
        self.ping_count = self.ping_count + 1;
        let message = wasm_ping_message(self.ping_count);
        Ping { message, sequence: self.ping_count }
    }
}

} // verus!
