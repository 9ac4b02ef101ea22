//! The protocol message envelope: the closed set of message variants
//! exchanged between client and server.

use vstd::prelude::*;

use crate::rooms::{Room, RoomView};

verus! {

/// One protocol message.  Room snapshots inside `EnterRoom` are copies,
/// never live references into shared state.
#[derive(Debug, PartialEq)]
pub enum MudMessage {
    /// Client credentials, sent once after the handshake.
    Login { username: String, password: String },
    /// Server reply: the credentials were accepted.
    LoginSuccess,
    /// Server reply: the credentials were rejected.
    LoginFail,
    /// Server push: the player stands in `room`, with the other occupants'
    /// usernames listed.
    EnterRoom { room: Room, other_players: Vec<String> },
    /// Client request: leave the current room through the named exit.
    TryExit { direction: String },
    /// Client request: close the session.
    Disconnect,
    /// Keep-alive probe.
    Ping,
    /// Server push: another player entered the room.
    PlayerEnteredRoom { username: String },
    /// Server push: another player left the room through the named exit.
    PlayerLeftRoom { username: String, direction: String },
    /// Chat: a player speaks to everyone in the same room.  On the inbound
    /// direction the `username` field is ignored; the server overwrites it
    /// with the session's authenticated username.
    PlayerSpeak { username: String, message: String },
}

/// Mathematical model of a [`MudMessage`].
pub enum MessageView {
    Login { username: Seq<char>, password: Seq<char> },
    LoginSuccess,
    LoginFail,
    EnterRoom { room: RoomView, other_players: Seq<Seq<char>> },
    TryExit { direction: Seq<char> },
    Disconnect,
    Ping,
    PlayerEnteredRoom { username: Seq<char> },
    PlayerLeftRoom { username: Seq<char>, direction: Seq<char> },
    PlayerSpeak { username: Seq<char>, message: Seq<char> },
}

impl View for MudMessage {
    type V = MessageView;

    open spec fn view(&self) -> MessageView {
        match self {
            MudMessage::Login { username, password } => MessageView::Login {
                username: username@,
                password: password@,
            },
            MudMessage::LoginSuccess => MessageView::LoginSuccess,
            MudMessage::LoginFail => MessageView::LoginFail,
            MudMessage::EnterRoom { room, other_players } => MessageView::EnterRoom {
                room: room@,
                other_players: other_players.deep_view(),
            },
            MudMessage::TryExit { direction } => MessageView::TryExit { direction: direction@ },
            MudMessage::Disconnect => MessageView::Disconnect,
            MudMessage::Ping => MessageView::Ping,
            MudMessage::PlayerEnteredRoom { username } => MessageView::PlayerEnteredRoom {
                username: username@,
            },
            MudMessage::PlayerLeftRoom { username, direction } => MessageView::PlayerLeftRoom {
                username: username@,
                direction: direction@,
            },
            MudMessage::PlayerSpeak { username, message } => MessageView::PlayerSpeak {
                username: username@,
                message: message@,
            },
        }
    }
}

impl DeepView for MudMessage {
    type V = MessageView;

    open spec fn deep_view(&self) -> MessageView {
        self.view()
    }
}

/// Copy a list of usernames, preserving its model.
pub fn copy_names(names: &Vec<String>) -> (r: Vec<String>)
    ensures
        r.deep_view() == names.deep_view(),
{
    let mut out: Vec<String> = Vec::new();
    let mut i: usize = 0;
    while i < names.len()
        invariant
            i <= names.len(),
            out.deep_view() =~= names.deep_view().take(i as int),
        decreases names.len() - i,
    {
        proof {
            assert(out.deep_view().len() == i);
            assert(out@.len() == i);
        }
        let ghost prev = out.deep_view();
        out.push(names[i].clone());
        proof {
            assert forall|j: int| 0 <= j < i + 1 implies out.deep_view()[j]
                == names.deep_view().take(i + 1)[j] by {
                if j < i {
                    assert(out.deep_view()[j] == prev[j]);
                } else {
                    assert(out.deep_view()[j] == names@[i as int]@);
                }
            }
            assert(out.deep_view() =~= names.deep_view().take(i + 1));
        }
        i = i + 1;
    }
    proof {
        assert(names.deep_view().take(names@.len() as int) =~= names.deep_view());
    }
    out
}

impl MudMessage {
    /// An independent copy of this message with the same model, used when
    /// one event is delivered to several players.
    pub fn duplicate(&self) -> (r: MudMessage)
        ensures
            r@ == self@,
    {
        match self {
            MudMessage::Login { username, password } => MudMessage::Login {
                username: username.clone(),
                password: password.clone(),
            },
            MudMessage::LoginSuccess => MudMessage::LoginSuccess,
            MudMessage::LoginFail => MudMessage::LoginFail,
            MudMessage::EnterRoom { room, other_players } => MudMessage::EnterRoom {
                room: room.snapshot(),
                other_players: copy_names(other_players),
            },
            MudMessage::TryExit { direction } => MudMessage::TryExit {
                direction: direction.clone(),
            },
            MudMessage::Disconnect => MudMessage::Disconnect,
            MudMessage::Ping => MudMessage::Ping,
            MudMessage::PlayerEnteredRoom { username } => MudMessage::PlayerEnteredRoom {
                username: username.clone(),
            },
            MudMessage::PlayerLeftRoom { username, direction } => MudMessage::PlayerLeftRoom {
                username: username.clone(),
                direction: direction.clone(),
            },
            MudMessage::PlayerSpeak { username, message } => MudMessage::PlayerSpeak {
                username: username.clone(),
                message: message.clone(),
            },
        }
    }
}

} // verus!
