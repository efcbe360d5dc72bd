//! The stateful request handler and its lifecycle.
//!
//! One handler instance exists per server process.  Its whole state is a
//! monotonic counter of processed requests; every accepted request increments
//! the counter exactly once and the reply reports the value after that
//! increment.
use vstd::prelude::*;

use crate::msg::Ping;
use crate::msg::PongReply;
use crate::msg::Pong;
use crate::msg::PongV;
use crate::msg::make_pong_text;
use crate::msg::pong_text;

verus! {

/// The transport-agnostic handler: owns the counter of processed requests.
pub struct PingActor {
    pub ping_count: u64,
}

/// The reply owed to a request `m` when the counter stands at `total` after
/// the increment for `m`.
pub open spec fn reply_for(m: crate::msg::PingV, total: u64) -> PongV {
    PongV { message: pong_text(m.message), sequence: m.sequence, total_pings: total }
}

impl PingActor {
    /// A fresh handler: no request processed yet.
    pub fn new() -> (a: PingActor)
        ensures
            a.ping_count == 0,
    {
        PingActor { ping_count: 0 }
    }

    /// Processes one request: increments the counter by exactly one, echoes
    /// the sequence number, prefixes the request text, and reports the new
    /// counter value.
    pub fn handle(&mut self, msg: Ping) -> (r: PongReply)
        requires
            old(self).ping_count < u64::MAX,
        ensures
            final(self).ping_count == old(self).ping_count + 1,
            r.0@ == reply_for(msg@, final(self).ping_count),
    {
        self.ping_count = self.ping_count + 1;
        let message = make_pong_text(&msg.message);
        PongReply(Pong { message, sequence: msg.sequence, total_pings: self.ping_count })
    }
}

/// Lifecycle of a handler endpoint.  Only `Running` accepts submissions;
/// `Draining` completes in-flight work and then stops.
#[derive(PartialEq, Eq, Structural, Clone, Copy, Debug)]
pub enum HandlerPhase {
    Starting,
    Running,
    Draining,
    Stopped,
}

/// Why a submission was not accepted.
#[derive(PartialEq, Eq, Structural, Clone, Copy, Debug)]
pub enum SubmitError {
    /// The endpoint is not in the `Running` phase (shutting down or stopped).
    HandlerGone,
}

/// A handler endpoint: the handler plus its lifecycle phase.
pub struct HandlerEndpoint {
    pub phase: HandlerPhase,
    pub actor: PingActor,
}

impl HandlerEndpoint {
    /// A freshly spawned endpoint: counter at zero, not yet accepting work.
    pub fn spawn() -> (e: HandlerEndpoint)
        ensures
            e.phase == HandlerPhase::Starting,
            e.actor.ping_count == 0,
    {
        HandlerEndpoint { phase: HandlerPhase::Starting, actor: PingActor::new() }
    }

    /// `Starting -> Running`: the endpoint begins accepting submissions.
    pub fn start(&mut self)
        requires
            old(self).phase == HandlerPhase::Starting,
        ensures
            final(self).phase == HandlerPhase::Running,
            final(self).actor == old(self).actor,
    {
        self.phase = HandlerPhase::Running;
    }

    /// `Running -> Draining`: no new submissions; in-flight work completes.
    pub fn begin_drain(&mut self)
        requires
            old(self).phase == HandlerPhase::Running,
        ensures
            final(self).phase == HandlerPhase::Draining,
            final(self).actor == old(self).actor,
    {
        self.phase = HandlerPhase::Draining;
    }

    /// `Draining -> Stopped`: in-flight work is done; the endpoint is gone.
    pub fn finish_drain(&mut self)
        requires
            old(self).phase == HandlerPhase::Draining,
        ensures
            final(self).phase == HandlerPhase::Stopped,
            final(self).actor == old(self).actor,
    {
        self.phase = HandlerPhase::Stopped;
    }

    /// Submits one request.  Succeeds exactly when the endpoint is `Running`;
    /// then the counter increments once and the reply echoes the request.
    /// In any other phase the request is refused with `HandlerGone` and
    /// nothing changes.
    pub fn submit(&mut self, msg: Ping) -> (r: Result<PongReply, SubmitError>)
        requires
            old(self).actor.ping_count < u64::MAX,
        ensures
            old(self).phase == HandlerPhase::Running <==> r is Ok,
            final(self).phase == old(self).phase,
            match r {
                Ok(rep) => {
                    &&& final(self).actor.ping_count == old(self).actor.ping_count + 1
                    &&& rep.0@ == reply_for(msg@, final(self).actor.ping_count)
                },
                Err(e) => e == SubmitError::HandlerGone && final(self).actor == old(
                    self,
                ).actor,
            },
    {
        match self.phase {
            HandlerPhase::Running => Ok(self.actor.handle(msg)),
            _ => Err(SubmitError::HandlerGone),
        }
    }
}

} // verus!
