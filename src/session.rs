use vstd::prelude::*;
use crate::bytes::bytes_eq;
use crate::irc::{
    IrcLine, cmd_error, cmd_nick_in_use, cmd_ping, cmd_welcome, encode_join, encode_pong, join_line,
    pong_line,
};

verus! {

/// Where the control connection stands: waiting for registration to be
/// accepted, registered and in the channel, or refused or lost.
#[derive(Debug, Clone, Copy, PartialEq, Eq, Structural)]
pub enum SessionPhase {
    Registering,
    Ready,
    Failed,
}

/// What the session does with one received line: its next phase, a line to
/// send back, and whether the line goes on to the coordinator.
pub struct SessionStep {
    pub phase: SessionPhase,
    pub reply: Option<Vec<u8>>,
    pub forward: bool,
}

pub open spec fn session_next(phase: SessionPhase, line: (Seq<u8>, Seq<u8>, Seq<u8>), channel: Seq<u8>) -> (
    SessionPhase,
    Option<Seq<u8>>,
    bool,
) {
    let command = line.1;
    if command == cmd_ping() {
        (phase, Some(pong_line(line.2)), false)
    } else {
        match phase {
            SessionPhase::Registering => if command == cmd_welcome() {
                (SessionPhase::Ready, Some(join_line(channel)), false)
            } else if command == cmd_nick_in_use() || command == cmd_error() {
                (SessionPhase::Failed, None, false)
            } else {
                (SessionPhase::Registering, None, false)
            },
            SessionPhase::Ready => if command == cmd_error() {
                (SessionPhase::Failed, None, false)
            } else {
                (SessionPhase::Ready, None, true)
            },
            SessionPhase::Failed => (SessionPhase::Failed, None, false),
        }
    }
}

pub open spec fn step_view(s: SessionStep) -> (SessionPhase, Option<Seq<u8>>, bool) {
    (
        s.phase,
        match s.reply {
            Some(v) => Some(v@),
            None => None,
        },
        s.forward,
    )
}

/// Handles one line of the control connection: answers PING, completes
/// registration by joining `channel`, and hands every other line of a
/// registered session on.
pub fn session_step(phase: SessionPhase, line: &IrcLine, channel: &[u8]) -> (r: SessionStep)
    ensures
        step_view(r) == session_next(phase, (line.prefix@, line.command@, line.args@), channel@),
{
    let ping: Vec<u8> = vec![80u8, 73u8, 78u8, 71u8];
    let welcome: Vec<u8> = vec![48u8, 48u8, 49u8];
    let in_use: Vec<u8> = vec![52u8, 51u8, 51u8];
    let error: Vec<u8> = vec![69u8, 82u8, 82u8, 79u8, 82u8];
    assert(ping@ =~= cmd_ping());
    assert(welcome@ =~= cmd_welcome());
    assert(in_use@ =~= cmd_nick_in_use());
    assert(error@ =~= cmd_error());
    let c = line.command.as_slice();
    if bytes_eq(c, ping.as_slice()) {
        return SessionStep { phase, reply: Some(encode_pong(line.args.as_slice())), forward: false };
    }
    let is_error = bytes_eq(c, error.as_slice());
    match phase {
        SessionPhase::Registering => {
            if bytes_eq(c, welcome.as_slice()) {
                SessionStep { phase: SessionPhase::Ready, reply: Some(encode_join(channel)), forward: false }
            } else if bytes_eq(c, in_use.as_slice()) || is_error {
                SessionStep { phase: SessionPhase::Failed, reply: None, forward: false }
            } else {
                SessionStep { phase: SessionPhase::Registering, reply: None, forward: false }
            }
        },
        SessionPhase::Ready => {
            if is_error {
                SessionStep { phase: SessionPhase::Failed, reply: None, forward: false }
            } else {
                SessionStep { phase: SessionPhase::Ready, reply: None, forward: true }
            }
        },
        SessionPhase::Failed => SessionStep { phase: SessionPhase::Failed, reply: None, forward: false },
    }
}

} // verus!
