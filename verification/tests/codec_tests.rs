use mud_core::codec::ProtocolError;
use mud_core::frame::{frame_len, read_message, send_message};
use mud_core::proto::MudMessage;
use mud_core::rooms::{Exit, Room};

fn sample_room() -> Room {
    Room {
        name: "start".to_string(),
        description: "A dusty chamber.".to_string(),
        exits: vec![
            Exit { direction: "north".to_string(), room_name: "hall".to_string() },
            Exit { direction: "east".to_string(), room_name: "cave".to_string() },
        ],
        start: true,
    }
}

fn round_trip(m: MudMessage) {
    let bytes = m.to_bytes().expect("encodable message");
    let back = MudMessage::from_bytes(&bytes).expect("own encoding must decode");
    assert_eq!(back, m);
}

#[test]
fn round_trip_login() {
    round_trip(MudMessage::Login { username: "alice".to_string(), password: "pw".to_string() });
}

#[test]
fn round_trip_login_success() {
    round_trip(MudMessage::LoginSuccess);
}

#[test]
fn round_trip_login_fail() {
    round_trip(MudMessage::LoginFail);
}

#[test]
fn round_trip_enter_room() {
    round_trip(MudMessage::EnterRoom {
        room: sample_room(),
        other_players: vec!["bob".to_string(), "carol".to_string()],
    });
}

#[test]
fn round_trip_try_exit() {
    round_trip(MudMessage::TryExit { direction: "north".to_string() });
}

#[test]
fn round_trip_disconnect() {
    round_trip(MudMessage::Disconnect);
}

#[test]
fn round_trip_ping() {
    round_trip(MudMessage::Ping);
}

#[test]
fn round_trip_player_entered_room() {
    round_trip(MudMessage::PlayerEnteredRoom { username: "bob".to_string() });
}

#[test]
fn round_trip_player_left_room() {
    round_trip(MudMessage::PlayerLeftRoom {
        username: "bob".to_string(),
        direction: "east".to_string(),
    });
}

#[test]
fn round_trip_player_speak() {
    round_trip(MudMessage::PlayerSpeak {
        username: "bob".to_string(),
        message: "hello there".to_string(),
    });
}

#[test]
fn round_trip_non_ascii_strings() {
    round_trip(MudMessage::PlayerSpeak {
        username: "ren\u{e9}e".to_string(),
        message: "sn\u{f6}\u{2603} \u{1f600}".to_string(),
    });
    round_trip(MudMessage::Login { username: String::new(), password: String::new() });
}

#[test]
fn unknown_tag_is_malformed() {
    assert_eq!(MudMessage::from_bytes(&[42u8]), Err(ProtocolError::Malformed));
    assert_eq!(MudMessage::from_bytes(&[]), Err(ProtocolError::Malformed));
}

#[test]
fn truncated_payload_is_malformed() {
    let bytes = MudMessage::Login { username: "alice".to_string(), password: "pw".to_string() }
        .to_bytes()
        .unwrap();
    let cut = &bytes[..bytes.len() - 1];
    assert_eq!(MudMessage::from_bytes(cut), Err(ProtocolError::Malformed));
}

#[test]
fn trailing_byte_is_malformed() {
    let mut bytes = MudMessage::Ping.to_bytes().unwrap();
    bytes.push(0);
    assert_eq!(MudMessage::from_bytes(&bytes), Err(ProtocolError::Malformed));
}

#[test]
fn invalid_utf8_is_malformed() {
    // TryExit whose one-byte string is not valid UTF-8.
    let bytes = vec![4u8, 0, 0, 0, 1, 0xff];
    assert_eq!(MudMessage::from_bytes(&bytes), Err(ProtocolError::Malformed));
}

#[test]
fn exact_wire_layout_of_enter_room() {
    // Tag 3; empty name, empty description, zero exits, start flag, zero
    // other players.
    let bytes = vec![3u8, 0, 0, 0, 0, 0, 0, 0, 0, 0, 0, 0, 0, 1, 0, 0, 0, 0];
    let m = MudMessage::from_bytes(&bytes).expect("minimal EnterRoom");
    match m {
        MudMessage::EnterRoom { room, other_players } => {
            assert_eq!(room.name, "");
            assert_eq!(room.description, "");
            assert!(room.exits.is_empty());
            assert!(room.start);
            assert!(other_players.is_empty());
        }
        other => panic!("decoded the wrong variant: {other:?}"),
    }
    // A boolean byte other than 0 or 1 does not parse.
    let mut bad = bytes.clone();
    bad[13] = 2;
    assert_eq!(MudMessage::from_bytes(&bad), Err(ProtocolError::Malformed));
}

#[test]
fn frame_round_trip() {
    let m = MudMessage::PlayerSpeak { username: "a".to_string(), message: "hi".to_string() };
    let frame = send_message(&m).expect("small message frames");
    let declared = frame_len(&[frame[0], frame[1], frame[2], frame[3]]).expect("under the cap");
    assert_eq!(declared, frame.len() - 4);
    assert_eq!(read_message(&frame).expect("own frame must decode"), m);
}

#[test]
fn frame_len_reads_big_endian() {
    // 0x0000270F = 9999.
    assert_eq!(frame_len(&[0, 0, 0x27, 0x0f]), Ok(9999));
    assert_eq!(frame_len(&[0, 0, 0, 0]), Ok(0));
}

#[test]
fn payload_of_9999_bytes_is_accepted() {
    // Tag + empty username prefix + message prefix = 9 bytes of overhead,
    // so 9990 ASCII characters give a payload of exactly 9,999 bytes.
    let m = MudMessage::PlayerSpeak { username: String::new(), message: "a".repeat(9990) };
    let payload = m.to_bytes().expect("9,999 bytes is under the cap");
    assert_eq!(payload.len(), 9999);
    let frame = send_message(&m).expect("still under the cap");
    assert_eq!(read_message(&frame).expect("frames under the cap decode"), m);
}

#[test]
fn payload_of_10001_bytes_is_rejected() {
    let m = MudMessage::PlayerSpeak { username: String::new(), message: "a".repeat(9992) };
    assert_eq!(m.to_bytes(), Err(ProtocolError::FrameTooLarge));
    assert_eq!(send_message(&m), Err(ProtocolError::FrameTooLarge));
}

#[test]
fn payload_of_10000_bytes_is_accepted() {
    let m = MudMessage::PlayerSpeak { username: String::new(), message: "a".repeat(9991) };
    let payload = m.to_bytes().expect("exactly at the cap");
    assert_eq!(payload.len(), 10000);
}

#[test]
fn declared_length_of_10001_closes_before_any_payload() {
    // The header alone is refused: a reader never has to buffer or parse
    // the 10,001 declared bytes, so no message is ever processed.
    let header = [0u8, 0, 0x27, 0x11];
    assert_eq!(frame_len(&header), Err(ProtocolError::FrameTooLarge));
    // Even a reader holding the whole oversized frame refuses it up front.
    let mut frame = vec![0u8, 0, 0x27, 0x11];
    frame.extend(std::iter::repeat(6u8).take(10001));
    assert_eq!(read_message(&frame), Err(ProtocolError::FrameTooLarge));
}

#[test]
fn frame_with_wrong_length_field_is_malformed() {
    let m = MudMessage::Ping;
    let mut frame = send_message(&m).unwrap();
    frame[3] = frame[3].wrapping_add(1);
    assert_eq!(read_message(&frame), Err(ProtocolError::Malformed));
}
