use mud_core::login::LoginManager;
use mud_core::proto::MudMessage;
use mud_core::session::{
    check_magic_number, player_message, LoginReply, PlayerMessageResult, SessionState,
};
use mud_core::world::WorldCommand;

#[test]
fn handshake_accepts_the_magic_bytes() {
    assert!(check_magic_number(&[0x4d, 0x55, 0x44, 0x31]));
    let state = SessionState::initial().on_handshake(&[0x4d, 0x55, 0x44, 0x31]);
    assert_eq!(state, SessionState::AwaitingLogin);
}

#[test]
fn handshake_rejects_anything_else() {
    assert!(!check_magic_number(&[0x4d, 0x55, 0x44, 0x00]));
    assert!(!check_magic_number(b"HTTP"));
    let state = SessionState::initial().on_handshake(b"GET ");
    assert_eq!(state, SessionState::Terminated);
}

fn registry() -> LoginManager {
    let mut logins = LoginManager::new();
    logins.add_user("alice", "secret");
    logins
}

#[test]
fn good_credentials_activate_the_session() {
    let logins = registry();
    let msg = MudMessage::Login { username: "alice".to_string(), password: "secret".to_string() };
    let (state, reply) = SessionState::AwaitingLogin.on_login(&logins, &msg);
    assert_eq!(state, SessionState::Active { username: "alice".to_string() });
    assert_eq!(reply, LoginReply::SendSuccess);
}

#[test]
fn bad_credentials_terminate_with_login_fail() {
    let logins = registry();
    let msg = MudMessage::Login { username: "alice".to_string(), password: "wrong".to_string() };
    let (state, reply) = SessionState::AwaitingLogin.on_login(&logins, &msg);
    assert_eq!(state, SessionState::Terminated);
    assert_eq!(reply, LoginReply::SendFail);
}

#[test]
fn non_login_message_terminates_without_reply() {
    let logins = registry();
    let (state, reply) = SessionState::AwaitingLogin.on_login(&logins, &MudMessage::Ping);
    assert_eq!(state, SessionState::Terminated);
    assert_eq!(reply, LoginReply::SendNothing);
}

#[test]
fn try_exit_becomes_a_move_command() {
    let msg = MudMessage::TryExit { direction: "north".to_string() };
    let (result, command) = player_message(msg, "alice");
    assert_eq!(result, PlayerMessageResult::Continue);
    assert_eq!(
        command,
        Some(WorldCommand::MovePlayer {
            username: "alice".to_string(),
            direction: "north".to_string(),
        })
    );
}

#[test]
fn inbound_speech_uses_the_authenticated_username() {
    // The username a client writes on an inbound PlayerSpeak is ignored.
    let msg = MudMessage::PlayerSpeak {
        username: "mallory".to_string(),
        message: "hi".to_string(),
    };
    let (result, command) = player_message(msg, "alice");
    assert_eq!(result, PlayerMessageResult::Continue);
    assert_eq!(
        command,
        Some(WorldCommand::Speak { username: "alice".to_string(), message: "hi".to_string() })
    );
}

#[test]
fn disconnect_ends_the_loop() {
    let (result, command) = player_message(MudMessage::Disconnect, "alice");
    assert_eq!(result, PlayerMessageResult::Disconnect);
    assert_eq!(command, None);
}

#[test]
fn ping_and_stray_variants_are_dropped_quietly() {
    let (result, command) = player_message(MudMessage::Ping, "alice");
    assert_eq!(result, PlayerMessageResult::Continue);
    assert_eq!(command, None);
    let stray = MudMessage::PlayerEnteredRoom { username: "bob".to_string() };
    let (result, command) = player_message(stray, "alice");
    assert_eq!(result, PlayerMessageResult::Continue);
    assert_eq!(command, None);
}
