use mud_core::occupancy::WorldState;
use mud_core::proto::MudMessage;
use mud_core::rooms::{Exit, Room, RoomError, RoomLibrary};
use mud_core::world::{Delivery, WorldError, WorldManager};

fn room(name: &str, start: bool, exits: &[(&str, &str)]) -> Room {
    Room {
        name: name.to_string(),
        description: format!("The {name} room."),
        exits: exits
            .iter()
            .map(|(direction, target)| Exit {
                direction: direction.to_string(),
                room_name: target.to_string(),
            })
            .collect(),
        start,
    }
}

/// A small world: "start" (flagged start) <-> "hall", plus a separate
/// "cave" reachable from "hall".
fn world() -> WorldManager {
    let rooms = vec![
        room("start", true, &[("north", "hall")]),
        room("hall", false, &[("south", "start"), ("down", "cave")]),
        room("cave", false, &[("up", "hall")]),
    ];
    let library = match RoomLibrary::new(rooms) {
        Ok(library) => library,
        Err(_) => panic!("the test world validates"),
    };
    match WorldManager::new(library) {
        Ok(world) => world,
        Err(_) => panic!("the test world has a starting room"),
    }
}

fn usernames(w: &WorldManager) -> Vec<String> {
    w.players.iter().map(|p| p.username.clone()).collect()
}

fn room_of(w: &WorldManager, username: &str) -> String {
    w.players
        .iter()
        .find(|p| p.username == username)
        .map(|p| p.room.clone())
        .expect("player should be registered")
}

#[test]
fn library_rejects_duplicate_room_names() {
    let rooms = vec![room("start", true, &[]), room("start", false, &[])];
    assert!(matches!(RoomLibrary::new(rooms), Err(RoomError::LoadFailed)));
}

#[test]
fn library_rejects_dangling_exit() {
    let rooms = vec![room("start", true, &[("north", "nowhere")])];
    match RoomLibrary::new(rooms) {
        Err(RoomError::InvalidExit(name)) => assert_eq!(name, "nowhere"),
        _ => panic!("a dangling exit must be rejected as InvalidExit"),
    }
}

#[test]
fn room_error_messages() {
    assert_eq!(RoomError::NotFound.message(), "Room not found");
    assert_eq!(RoomError::LoadFailed.message(), "Failed to load rooms");
    assert_eq!(
        RoomError::InvalidExit("cellar".to_string()).message(),
        "Invalid exit in room: cellar"
    );
}

#[test]
fn world_without_starting_room_fails_to_initialize() {
    let rooms = vec![room("hall", false, &[])];
    let library = match RoomLibrary::new(rooms) {
        Ok(library) => library,
        Err(_) => panic!("the room set validates"),
    };
    assert!(matches!(WorldManager::new(library), Err(WorldError::NoStartingRoom)));
}

#[test]
fn find_starting_room_returns_a_start_room() {
    let w = world();
    for _ in 0..8 {
        assert_eq!(w.find_starting_room(), "start");
    }
}

#[test]
fn spawn_sends_own_snapshot_before_peer_notices() {
    let mut w = world();
    let events_a = w.spawn_player("alice", "start");
    assert_eq!(events_a.len(), 1);
    assert_eq!(events_a[0].to, "alice");
    match &events_a[0].message {
        MudMessage::EnterRoom { room, other_players } => {
            assert_eq!(room.name, "start");
            assert!(other_players.is_empty());
        }
        other => panic!("expected EnterRoom first, got {other:?}"),
    }

    let events_b = w.spawn_player("bob", "start");
    assert_eq!(events_b.len(), 2);
    // The new player's own EnterRoom comes first...
    assert_eq!(events_b[0].to, "bob");
    match &events_b[0].message {
        MudMessage::EnterRoom { room, other_players } => {
            assert_eq!(room.name, "start");
            assert_eq!(other_players, &vec!["alice".to_string()]);
        }
        other => panic!("expected EnterRoom first, got {other:?}"),
    }
    // ...then the arrival notice to the prior occupant, never to bob.
    assert_eq!(
        events_b[1],
        Delivery {
            to: "alice".to_string(),
            message: MudMessage::PlayerEnteredRoom { username: "bob".to_string() },
        }
    );
}

#[test]
fn spawn_into_missing_room_is_silent_noop() {
    let mut w = world();
    let events = w.spawn_player("alice", "attic");
    assert!(events.is_empty());
    assert!(usernames(&w).is_empty());
}

#[test]
fn registry_never_holds_a_username_twice() {
    let mut w = world();
    w.spawn_player("alice", "start");
    let second = w.spawn_player("alice", "hall");
    assert!(second.is_empty());
    w.spawn_player("bob", "start");
    w.move_player("alice", "north");
    w.spawn_player("bob", "cave");
    w.despawn_player("bob");
    w.spawn_player("bob", "hall");
    let mut names = usernames(&w);
    names.sort();
    let mut deduped = names.clone();
    deduped.dedup();
    assert_eq!(names, deduped);
    assert_eq!(names, vec!["alice".to_string(), "bob".to_string()]);
}

#[test]
fn despawn_of_absent_username_is_a_silent_noop() {
    let mut w = world();
    w.spawn_player("alice", "start");
    let before = usernames(&w);
    w.despawn_player("ghost");
    assert_eq!(usernames(&w), before);
    assert_eq!(room_of(&w, "alice"), "start");
}

#[test]
fn move_through_missing_exit_changes_nothing() {
    let mut w = world();
    w.spawn_player("alice", "start");
    w.spawn_player("bob", "start");
    let events = w.move_player("alice", "up");
    assert!(events.is_empty());
    assert_eq!(room_of(&w, "alice"), "start");
}

#[test]
fn move_of_unknown_player_changes_nothing() {
    let mut w = world();
    w.spawn_player("alice", "start");
    let events = w.move_player("ghost", "north");
    assert!(events.is_empty());
    assert_eq!(usernames(&w), vec!["alice".to_string()]);
}

#[test]
fn move_notifies_leave_then_snapshot_then_arrival() {
    let mut w = world();
    w.spawn_player("alice", "start");
    w.spawn_player("bob", "start");
    w.spawn_player("carol", "hall");

    let events = w.move_player("alice", "north");
    assert_eq!(room_of(&w, "alice"), "hall");
    assert_eq!(events.len(), 3);
    assert_eq!(
        events[0],
        Delivery {
            to: "bob".to_string(),
            message: MudMessage::PlayerLeftRoom {
                username: "alice".to_string(),
                direction: "north".to_string(),
            },
        }
    );
    assert_eq!(events[1].to, "alice");
    match &events[1].message {
        MudMessage::EnterRoom { room, other_players } => {
            assert_eq!(room.name, "hall");
            assert_eq!(other_players, &vec!["carol".to_string()]);
        }
        other => panic!("expected EnterRoom second, got {other:?}"),
    }
    assert_eq!(
        events[2],
        Delivery {
            to: "carol".to_string(),
            message: MudMessage::PlayerEnteredRoom { username: "alice".to_string() },
        }
    );
    // Nobody is ever told of their own arrival.
    for event in &events {
        if let MudMessage::PlayerEnteredRoom { username } = &event.message {
            assert_ne!(&event.to, username);
        }
    }
}

#[test]
fn bystander_sees_one_arrival_only_after_joining() {
    // Both players spawn into "start"; alice moves north to "hall".
    let mut w = world();
    w.spawn_player("alice", "start");
    w.spawn_player("bob", "start");
    let events = w.move_player("alice", "north");
    // Bob, still in "start", hears of the departure and of nothing else:
    // no PlayerLeftRoom for a room he is not in, and no arrival notice.
    let to_bob: Vec<&Delivery> = events.iter().filter(|d| d.to == "bob").collect();
    assert_eq!(to_bob.len(), 1);
    assert!(matches!(
        to_bob[0].message,
        MudMessage::PlayerLeftRoom { .. }
    ));
    // Only once bob follows into "hall" does anyone get an arrival notice
    // about him — and he himself never does.
    let events = w.move_player("bob", "north");
    let arrivals: Vec<&Delivery> = events
        .iter()
        .filter(|d| matches!(d.message, MudMessage::PlayerEnteredRoom { .. }))
        .collect();
    assert_eq!(arrivals.len(), 1);
    assert_eq!(arrivals[0].to, "alice");
    assert_eq!(
        arrivals[0].message,
        MudMessage::PlayerEnteredRoom { username: "bob".to_string() }
    );
}

#[test]
fn speech_reaches_exactly_the_speakers_room() {
    let mut w = world();
    w.spawn_player("alice", "start");
    w.spawn_player("bob", "start");
    w.spawn_player("carol", "hall");

    let events = w.player_speak("alice", "hi");
    let expected = MudMessage::PlayerSpeak {
        username: "alice".to_string(),
        message: "hi".to_string(),
    };
    assert_eq!(events.len(), 2);
    assert_eq!(events[0], Delivery { to: "alice".to_string(), message: expected.duplicate() });
    assert_eq!(events[1].to, "bob");
    assert_eq!(events[1].message, expected);
    assert!(events.iter().all(|d| d.to != "carol"));
}

#[test]
fn speech_of_unknown_player_goes_nowhere() {
    let w = world();
    assert!(w.player_speak("ghost", "hi").is_empty());
}

#[test]
fn occupancy_add_and_get() {
    let mut state = WorldState::new();
    assert!(state.get_occupants("start").is_empty());
    state.add_user_to_room("alice", "start");
    state.add_user_to_room("bob", "start");
    state.add_user_to_room("carol", "hall");
    assert_eq!(
        state.get_occupants("start"),
        vec!["alice".to_string(), "bob".to_string()]
    );
    assert_eq!(state.get_occupants("hall"), vec!["carol".to_string()]);
}

#[test]
fn occupancy_remove_user_clears_every_room() {
    let mut state = WorldState::new();
    state.add_user_to_room("alice", "start");
    state.add_user_to_room("alice", "hall");
    state.add_user_to_room("bob", "start");
    state.remove_user("alice");
    assert_eq!(state.get_occupants("start"), vec!["bob".to_string()]);
    assert!(state.get_occupants("hall").is_empty());
}

#[test]
fn occupancy_remove_user_from_one_room_only() {
    let mut state = WorldState::new();
    state.add_user_to_room("alice", "start");
    state.add_user_to_room("alice", "hall");
    state.remove_user_from_room("alice", "start");
    assert!(state.get_occupants("start").is_empty());
    assert_eq!(state.get_occupants("hall"), vec!["alice".to_string()]);
}

#[test]
fn library_lookup_by_name() {
    let rooms = vec![room("start", true, &[("north", "hall")]), room("hall", false, &[])];
    let library = match RoomLibrary::new(rooms) {
        Ok(library) => library,
        Err(_) => panic!("the room set validates"),
    };
    assert_eq!(library.len(), 2);
    assert!(library.contains("hall"));
    assert!(!library.contains("cave"));
    let hall = library.get("hall").expect("hall exists");
    assert_eq!(hall.name, "hall");
    assert!(library.get("cave").is_none());
    assert_eq!(library.starting_room_names(), vec!["start".to_string()]);
}
