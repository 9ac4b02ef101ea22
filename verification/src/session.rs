//! The per-connection session state machine.
//!
//! A session advances `AwaitingHandshake -> AwaitingLogin -> Active ->
//! Terminated`.  This module holds the decisions: validating the
//! handshake, judging a login attempt against the credential registry, and
//! interpreting an inbound message from an active player as a world
//! command.  Reading and writing the socket, and running the multiplexing
//! loop, are the caller's concern.

use vstd::prelude::*;

use crate::login::{find_user, LoginManager};
use crate::proto::MudMessage;
use crate::world::WorldCommand;

verus! {

/// The four magic bytes a client must send before anything else.
pub open spec fn magic_bytes() -> Seq<u8> {
    seq![0x4du8, 0x55u8, 0x44u8, 0x31u8]
}

/// Whether the four bytes read from a new connection are the protocol's
/// magic value.  A mismatch is fatal to the connection: it cheaply rejects
/// traffic that does not speak this protocol.
pub fn check_magic_number(buf: &[u8; 4]) -> (r: bool)
    ensures
        r == (buf@ == magic_bytes()),
{
    let ok = buf[0] == 0x4d && buf[1] == 0x55 && buf[2] == 0x44 && buf[3] == 0x31;
    proof {
        if ok {
            assert(buf@ =~= magic_bytes());
        }
    }
    ok
}

/// What the session owes the client after a login attempt.
#[derive(Debug, PartialEq, Eq, Structural)]
pub enum LoginReply {
    /// Send `LoginSuccess`, then register the player.
    SendSuccess,
    /// Send `LoginFail`, then close the connection.
    SendFail,
    /// Close the connection without a reply: the client broke protocol.
    SendNothing,
}

/// What an inbound message from an active player means for the session
/// loop.
#[derive(Debug, PartialEq, Eq, Structural)]
pub enum PlayerMessageResult {
    /// Keep the session running.
    Continue,
    /// The client asked to leave: end the loop cleanly.
    Disconnect,
}

/// The states of a connection session.
#[derive(Debug, PartialEq)]
pub enum SessionState {
    /// Nothing read yet; the magic bytes must come first.
    AwaitingHandshake,
    /// Handshake passed; exactly one `Login` message must follow.
    AwaitingLogin,
    /// Logged in as `username`; the multiplexing loop runs.
    Active { username: String },
    /// The connection is closed or about to be.
    Terminated,
}

impl SessionState {
    /// The state of a fresh connection.
    pub fn initial() -> (r: Self)
        ensures
            r == SessionState::AwaitingHandshake,
    {
        SessionState::AwaitingHandshake
    }

    /// Judge the handshake bytes: the magic value admits the client to the
    /// login step, anything else terminates the session.
    pub fn on_handshake(self, buf: &[u8; 4]) -> (r: Self)
        requires
            self == SessionState::AwaitingHandshake,
        ensures
            r == if buf@ == magic_bytes() {
                SessionState::AwaitingLogin
            } else {
                SessionState::Terminated
            },
    {
        if check_magic_number(buf) {
            SessionState::AwaitingLogin
        } else {
            SessionState::Terminated
        }
    }

    /// Judge the first message after the handshake against the credential
    /// registry.
    ///
    /// A `Login` whose credentials verify activates the session under that
    /// username, owing the client `LoginSuccess`.  A `Login` that does not
    /// verify terminates it, owing `LoginFail`.  Any other message variant
    /// terminates it with no reply at all.
    pub fn on_login(self, logins: &LoginManager, msg: &MudMessage) -> (r: (Self, LoginReply))
        requires
            self == SessionState::AwaitingLogin,
        ensures
            match msg {
                MudMessage::Login { username, password } => {
                    if find_user(logins.users.deep_view(), username@, password@) is Some {
                        &&& r.0 matches SessionState::Active { username: u } && u@ == username@
                        &&& r.1 == LoginReply::SendSuccess
                    } else {
                        r.0 == SessionState::Terminated && r.1 == LoginReply::SendFail
                    }
                },
                _ => r.0 == SessionState::Terminated && r.1 == LoginReply::SendNothing,
            },
    {
        match msg {
            MudMessage::Login { username, password } => {
                match logins.verify_user(username.as_str(), password.as_str()) {
                    Some(_) => (
                        SessionState::Active { username: username.clone() },
                        LoginReply::SendSuccess,
                    ),
                    None => (SessionState::Terminated, LoginReply::SendFail),
                }
            },
            _ => (SessionState::Terminated, LoginReply::SendNothing),
        }
    }
}

/// Interpret one inbound message from an active player.
///
/// `TryExit` becomes a `MovePlayer` command and `PlayerSpeak` a `Speak`
/// command, both under the session's authenticated username — the username
/// field a client puts on an inbound `PlayerSpeak` is ignored.
/// `Disconnect` ends the loop; `Ping` and every other variant are dropped
/// without terminating the session.
pub fn player_message(message: MudMessage, username: &str) -> (r: (
    PlayerMessageResult,
    Option<WorldCommand>,
))
    ensures
        match message {
            MudMessage::Disconnect => r.0 == PlayerMessageResult::Disconnect && r.1 is None,
            MudMessage::TryExit { direction } => {
                &&& r.0 == PlayerMessageResult::Continue
                &&& r.1 matches Some(WorldCommand::MovePlayer { username: u, direction: d })
                &&& ({
                    let u = r.1->Some_0->MovePlayer_username;
                    let d = r.1->Some_0->MovePlayer_direction;
                    u@ == username@ && d@ == direction@
                })
            },
            MudMessage::PlayerSpeak { username: _ignored, message: text } => {
                &&& r.0 == PlayerMessageResult::Continue
                &&& r.1 matches Some(WorldCommand::Speak { username: u, message: m })
                &&& ({
                    let u = r.1->Some_0->Speak_username;
                    let m = r.1->Some_0->Speak_message;
                    u@ == username@ && m@ == text@
                })
            },
            _ => r.0 == PlayerMessageResult::Continue && r.1 is None,
        },
{
    match message {
        MudMessage::Disconnect => (PlayerMessageResult::Disconnect, None),
        MudMessage::TryExit { direction } => (
            PlayerMessageResult::Continue,
            Some(WorldCommand::MovePlayer { username: username.to_owned(), direction }),
        ),
        MudMessage::PlayerSpeak { username: _ignored, message: text } => (
            PlayerMessageResult::Continue,
            Some(WorldCommand::Speak { username: username.to_owned(), message: text }),
        ),
        _ => (PlayerMessageResult::Continue, None),
    }
}

} // verus!
