//! The two record types exchanged over every transport.
//!
//! `message` text is carried as UTF-8 bytes so the codec and the handler can
//! state exact contracts over byte sequences.
use vstd::prelude::*;

verus! {

/// Mathematical value of a `Ping`.
pub struct PingV {
    pub message: Seq<u8>,
    pub sequence: u64,
}

/// Mathematical value of a `Pong`.
pub struct PongV {
    pub message: Seq<u8>,
    pub sequence: u64,
    pub total_pings: u64,
}

/// Ping request: free-form text plus a caller-chosen sequence number.
/// The sequence number is opaque to the server.
pub struct Ping {
    pub message: Vec<u8>,
    pub sequence: u64,
}

/// Pong reply: echoes the request text and sequence number, and reports the
/// number of requests the handler has processed up to and including this one.
pub struct Pong {
    pub message: Vec<u8>,
    pub sequence: u64,
    pub total_pings: u64,
}

impl View for Ping {
    type V = PingV;

    open spec fn view(&self) -> PingV {
        PingV { message: self.message@, sequence: self.sequence }
    }
}

impl View for Pong {
    type V = PongV;

    open spec fn view(&self) -> PongV {
        PongV { message: self.message@, sequence: self.sequence, total_pings: self.total_pings }
    }
}

/// Reply wrapper returned by the handler, one per accepted request.
pub struct PongReply(pub Pong);

/// The fixed text that every reply prepends to the request text:
/// `"Pong! Responding to: "` as UTF-8 bytes.
pub open spec fn pong_prefix() -> Seq<u8> {
    seq![
        0x50u8, 0x6fu8, 0x6eu8, 0x67u8, 0x21u8, 0x20u8, 0x52u8, 0x65u8, 0x73u8, 0x70u8, 0x6fu8,
        0x6eu8, 0x64u8, 0x69u8, 0x6eu8, 0x67u8, 0x20u8, 0x74u8, 0x6fu8, 0x3au8, 0x20u8,
    ]
}

/// Reply text for a request text: the fixed prefix followed by the request
/// text itself.
pub open spec fn pong_text(m: Seq<u8>) -> Seq<u8> {
    pong_prefix() + m
}

/// Builds the reply text for a request text.
pub fn make_pong_text(m: &Vec<u8>) -> (r: Vec<u8>)
    ensures
        r@ == pong_text(m@),
{
    let mut r: Vec<u8> = Vec::new();
    r.push(0x50u8);
    r.push(0x6fu8);
    r.push(0x6eu8);
    r.push(0x67u8);
    r.push(0x21u8);
    r.push(0x20u8);
    r.push(0x52u8);
    r.push(0x65u8);
    r.push(0x73u8);
    r.push(0x70u8);
    r.push(0x6fu8);
    r.push(0x6eu8);
    r.push(0x64u8);
    r.push(0x69u8);
    r.push(0x6eu8);
    r.push(0x67u8);
    r.push(0x20u8);
    r.push(0x74u8);
    r.push(0x6fu8);
    r.push(0x3au8);
    r.push(0x20u8);
    assert(r@ =~= pong_prefix());
    r.extend_from_slice(m.as_slice());
    assert(r@ =~= pong_text(m@));
    r
}

} // verus!
