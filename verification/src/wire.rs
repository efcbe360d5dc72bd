//! The transport shim: wire frames in, wire frames out.
//!
//! A WebSocket connection hands each incoming frame to `ws_step`, which
//! decodes, runs the handler, and says what to put back on the wire.  A
//! malformed text frame is skipped — the connection stays open — and only a
//! close frame ends the connection.
use vstd::prelude::*;

use crate::codec::encode_pong;
use crate::codec::parse_ping;
use crate::codec::parse_ping_frame;
use crate::codec::pong_json;
use crate::handler::PingActor;
use crate::handler::reply_for;

verus! {

/// Mathematical value of an incoming frame.
pub enum WsFrameV {
    Text(Seq<u8>),
    Binary(Seq<u8>),
    Close,
}

/// An incoming WebSocket frame, as the listener hands it over.
pub enum WsFrame {
    /// A text frame: candidate JSON request.
    Text(Vec<u8>),
    /// A binary frame: ignored by this protocol.
    Binary(Vec<u8>),
    /// The peer closed the connection.
    Close,
}

impl View for WsFrame {
    type V = WsFrameV;

    open spec fn view(&self) -> WsFrameV {
        match self {
            WsFrame::Text(t) => WsFrameV::Text(t@),
            WsFrame::Binary(b) => WsFrameV::Binary(b@),
            WsFrame::Close => WsFrameV::Close,
        }
    }
}

/// What the connection should do next.
pub enum WsAction {
    /// Send this text frame back.
    Reply(Vec<u8>),
    /// Send nothing and keep the connection open.
    Ignore,
    /// Stop reading: the connection is done.
    Stop,
}

/// Handles one frame of a WebSocket connection against the shared handler.
/// A well-formed text frame is answered by the encoded reply and bumps the
/// counter once; a malformed text frame changes nothing and is skipped
/// rather than closing the connection; a binary frame is ignored; a close
/// frame stops the connection.  The handler is touched in no other case.
pub fn ws_step(actor: &mut PingActor, frame: &WsFrame) -> (a: WsAction)
    requires
        old(actor).ping_count < u64::MAX,
    ensures
        match frame {
            WsFrame::Text(t) => match parse_ping_frame(t@) {
                Some(pv) => {
                    &&& final(actor).ping_count == old(actor).ping_count + 1
                    &&& a matches WsAction::Reply(out) && out@ == pong_json(
                        reply_for(pv, final(actor).ping_count),
                    )
                },
                None => *final(actor) == *old(actor) && a is Ignore,
            },
            WsFrame::Binary(_) => *final(actor) == *old(actor) && a is Ignore,
            WsFrame::Close => *final(actor) == *old(actor) && a is Stop,
        },
{
    match frame {
        WsFrame::Text(t) => match parse_ping(t) {
            Some(ping) => {
                let rep = actor.handle(ping);
                WsAction::Reply(encode_pong(&rep.0))
            },
            None => WsAction::Ignore,
        },
        WsFrame::Binary(_) => WsAction::Ignore,
        WsFrame::Close => WsAction::Stop,
    }
}

/// The text frames a connection sends back for a row of incoming frames,
/// when the counter stands at `c` as the connection starts: one reply per
/// well-formed text frame, in request order, counting on; reading stops at
/// the first close frame.
pub open spec fn session_replies(frames: Seq<WsFrameV>, c: u64) -> Seq<Seq<u8>>
    decreases frames.len(),
{
    if frames.len() == 0 {
        Seq::empty()
    } else {
        match frames[0] {
            WsFrameV::Close => Seq::empty(),
            WsFrameV::Binary(_) => session_replies(frames.drop_first(), c),
            WsFrameV::Text(t) => match parse_ping_frame(t) {
                Some(pv) => seq![pong_json(reply_for(pv, (c + 1) as u64))] + session_replies(
                    frames.drop_first(),
                    (c + 1) as u64,
                ),
                None => session_replies(frames.drop_first(), c),
            },
        }
    }
}

/// The views of a row of reply frames.
pub open spec fn reply_views(replies: Seq<Vec<u8>>) -> Seq<Seq<u8>> {
    Seq::new(replies.len(), |i: int| replies[i]@)
}

/// Runs one whole connection: frames are handled in order until the first
/// close frame, and the reply frames come back in request order, one per
/// well-formed text frame, exactly as `session_replies` prescribes.
pub fn ws_run(actor: &mut PingActor, frames: &Vec<WsFrame>) -> (replies: Vec<Vec<u8>>)
    requires
        old(actor).ping_count + frames@.len() <= u64::MAX,
    ensures
        reply_views(replies@) == session_replies(frames@.map_values(|f: WsFrame| f@), old(actor).ping_count),
        final(actor).ping_count <= old(actor).ping_count + frames@.len(),
{
    let ghost fv = frames@.map_values(|f: WsFrame| f@);
    let ghost c0 = actor.ping_count;
    let mut replies: Vec<Vec<u8>> = Vec::new();
    let mut i: usize = 0;
    proof {
        assert(fv.skip(0) =~= fv);
        assert(reply_views(replies@) =~= Seq::<Seq<u8>>::empty());
    }
    while i < frames.len()
        invariant
            i <= frames.len(),
            fv == frames@.map_values(|f: WsFrame| f@),
            fv.len() == frames@.len(),
            c0 == old(actor).ping_count,
            c0 + frames@.len() <= u64::MAX,
            replies@.len() <= i,
            actor.ping_count == c0 + replies@.len(),
            session_replies(fv, c0) == reply_views(replies@) + session_replies(
                fv.skip(i as int),
                actor.ping_count,
            ),
        decreases frames.len() - i,
    {
        let ghost rest = fv.skip(i as int);
        proof {
            assert(rest[0] == fv[i as int]);
            assert(fv[i as int] == frames@[i as int]@);
            assert(rest.drop_first() =~= fv.skip(i as int + 1));
        }
        let frame = &frames[i];
        let stop = matches!(frame, WsFrame::Close);
        if stop {
            proof {
                assert(session_replies(rest, actor.ping_count) =~= Seq::<Seq<u8>>::empty());
                assert(reply_views(replies@) + Seq::<Seq<u8>>::empty() =~= reply_views(replies@));
            }
            return replies;
        }
        let ghost pre = replies@;
        let ghost cpre = actor.ping_count;
        match ws_step(actor, frame) {
            WsAction::Reply(out) => {
                replies.push(out);
                proof {
                    assert(reply_views(replies@) =~= reply_views(pre) + seq![out@]);
                    assert(reply_views(pre) + (seq![out@] + session_replies(
                        fv.skip(i as int + 1),
                        actor.ping_count,
                    )) =~= reply_views(replies@) + session_replies(
                        fv.skip(i as int + 1),
                        actor.ping_count,
                    ));
                }
            },
            WsAction::Ignore => {
            },
            WsAction::Stop => {
            },
        }
        i = i + 1;
    }
    proof {
        assert(fv.skip(frames@.len() as int) =~= Seq::<WsFrameV>::empty());
        assert(reply_views(replies@) + Seq::<Seq<u8>>::empty() =~= reply_views(replies@));
    }
    replies
}

} // verus!
