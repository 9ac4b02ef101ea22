//! The world actor's state and its transitions.
//!
//! One task owns a [`WorldManager`] and applies commands to it one at a
//! time; this module holds that state and the pure transition logic.  Each
//! mutating method returns the deliveries the command causes: pairs of a
//! recipient username and a message, in the order they are to be sent.
//! The caller owns the per-player outbound mailboxes and performs the
//! sends; a failed delivery to one player must be skipped, never allowed
//! to abort the rest.

use vstd::prelude::*;

use crate::proto::{copy_names, MessageView, MudMessage};
use crate::rooms::{find_room, has_room, lemma_find_room_spec, lemma_start_names_sound, start_names,
    ExitView, RoomLibrary, RoomView};
use crate::text::str_eq;

verus! {

/// A player connected to the world: the unique username and the current
/// room's name.
#[derive(Debug, PartialEq)]
pub struct Player {
    pub username: String,
    pub room: String,
}

/// Mathematical model of a [`Player`].
pub struct PlayerView {
    pub username: Seq<char>,
    pub room: Seq<char>,
}

impl View for Player {
    type V = PlayerView;

    open spec fn view(&self) -> PlayerView {
        PlayerView { username: self.username@, room: self.room@ }
    }
}

impl DeepView for Player {
    type V = PlayerView;

    open spec fn deep_view(&self) -> PlayerView {
        self.view()
    }
}

/// One event to deliver: the recipient's username and the message.
#[derive(Debug, PartialEq)]
pub struct Delivery {
    pub to: String,
    pub message: MudMessage,
}

/// Mathematical model of a [`Delivery`].
pub struct DeliveryView {
    pub to: Seq<char>,
    pub message: MessageView,
}

impl View for Delivery {
    type V = DeliveryView;

    open spec fn view(&self) -> DeliveryView {
        DeliveryView { to: self.to@, message: self.message@ }
    }
}

impl DeepView for Delivery {
    type V = DeliveryView;

    open spec fn deep_view(&self) -> DeliveryView {
        self.view()
    }
}

/// The closed set of requests a session can put in the world actor's
/// mailbox.
#[derive(Debug, PartialEq)]
pub enum WorldCommand {
    /// Ask for a starting room's name.
    FindStartingRoom,
    /// Register a player in a room.
    SpawnPlayer { username: String, room: String },
    /// Remove a player; a no-op when the username is absent.
    DespawnPlayer { username: String },
    /// Move a player through an exit of their current room.
    MovePlayer { username: String, direction: String },
    /// Say something to everyone in the speaker's room.
    Speak { username: String, message: String },
}

// ------------------------------------------------------------------
// Registry model
// ------------------------------------------------------------------
/// True when some player bears `username`.
pub open spec fn has_player(ps: Seq<PlayerView>, username: Seq<char>) -> bool {
    exists|i: int| 0 <= i < ps.len() && ps[i].username == username
}

/// The first player bearing `username`, if any.
pub open spec fn find_player(ps: Seq<PlayerView>, username: Seq<char>) -> Option<PlayerView>
    decreases ps.len(),
{
    if ps.len() == 0 {
        None
    } else if ps[0].username == username {
        Some(ps[0])
    } else {
        find_player(ps.drop_first(), username)
    }
}

/// When the first `j` players do not bear `username` but the `j`-th does,
/// `find_player` returns the `j`-th player.
pub proof fn lemma_find_player_first_index(ps: Seq<PlayerView>, username: Seq<char>, j: int)
    requires
        0 <= j < ps.len(),
        ps[j].username == username,
        forall|b: int| 0 <= b < j ==> ps[b].username != username,
    ensures
        find_player(ps, username) == Some(ps[j]),
    decreases j,
{
    if j > 0 {
        assert forall|b: int| 0 <= b < j - 1 implies ps.drop_first()[b].username != username by {
            assert(ps.drop_first()[b] == ps[b + 1]);
        }
        assert(ps.drop_first()[j - 1] == ps[j]);
        lemma_find_player_first_index(ps.drop_first(), username, j - 1);
    }
}

/// When no player bears `username`, `find_player` fails.
pub proof fn lemma_find_player_none(ps: Seq<PlayerView>, username: Seq<char>)
    requires
        forall|b: int| 0 <= b < ps.len() ==> ps[b].username != username,
    ensures
        find_player(ps, username) is None,
        !has_player(ps, username),
    decreases ps.len(),
{
    if ps.len() > 0 {
        assert forall|b: int|
            0 <= b < ps.drop_first().len() implies ps.drop_first()[b].username != username by {
            assert(ps.drop_first()[b] == ps[b + 1]);
        }
        lemma_find_player_none(ps.drop_first(), username);
    }
}

/// Usernames of the players standing in `room`, in registry order.
pub open spec fn occupant_names(ps: Seq<PlayerView>, room: Seq<char>) -> Seq<Seq<char>>
    decreases ps.len(),
{
    if ps.len() == 0 {
        Seq::empty()
    } else {
        let rest = occupant_names(ps.drop_first(), room);
        if ps[0].room == room {
            seq![ps[0].username] + rest
        } else {
            rest
        }
    }
}

/// Usernames of the players standing in `room`, except `exclude`.
pub open spec fn occupant_names_except(
    ps: Seq<PlayerView>,
    room: Seq<char>,
    exclude: Seq<char>,
) -> Seq<Seq<char>>
    decreases ps.len(),
{
    if ps.len() == 0 {
        Seq::empty()
    } else {
        let rest = occupant_names_except(ps.drop_first(), room, exclude);
        if ps[0].room == room && ps[0].username != exclude {
            seq![ps[0].username] + rest
        } else {
            rest
        }
    }
}

/// Appending a player extends `occupant_names` of exactly their room.
pub proof fn lemma_occupant_names_snoc(ps: Seq<PlayerView>, p: PlayerView, room: Seq<char>)
    ensures
        occupant_names(ps.push(p), room) == if p.room == room {
            occupant_names(ps, room).push(p.username)
        } else {
            occupant_names(ps, room)
        },
    decreases ps.len(),
{
    let pushed = ps.push(p);
    if ps.len() == 0 {
        assert(pushed[0] == p);
        assert(pushed.drop_first() =~= Seq::<PlayerView>::empty());
        assert(ps =~= Seq::<PlayerView>::empty());
        assert(occupant_names(Seq::<PlayerView>::empty(), room) == Seq::<Seq<char>>::empty());
        if p.room == room {
            assert(seq![p.username] + Seq::<Seq<char>>::empty() =~= Seq::<Seq<
                char,
            >>::empty().push(p.username));
        }
    } else {
        assert(pushed[0] == ps[0]);
        assert(pushed.drop_first() =~= ps.drop_first().push(p));
        lemma_occupant_names_snoc(ps.drop_first(), p, room);
        if p.room == room && ps[0].room == room {
            assert(seq![ps[0].username] + occupant_names(ps.drop_first(), room).push(p.username)
                =~= (seq![ps[0].username] + occupant_names(ps.drop_first(), room)).push(
                p.username,
            ));
        }
    }
}

/// Appending a player extends `occupant_names_except` of exactly their
/// room, unless they are the excluded one.
pub proof fn lemma_occupant_names_except_snoc(
    ps: Seq<PlayerView>,
    p: PlayerView,
    room: Seq<char>,
    exclude: Seq<char>,
)
    ensures
        occupant_names_except(ps.push(p), room, exclude) == if p.room == room && p.username
            != exclude {
            occupant_names_except(ps, room, exclude).push(p.username)
        } else {
            occupant_names_except(ps, room, exclude)
        },
    decreases ps.len(),
{
    let pushed = ps.push(p);
    if ps.len() == 0 {
        assert(pushed[0] == p);
        assert(pushed.drop_first() =~= Seq::<PlayerView>::empty());
        assert(ps =~= Seq::<PlayerView>::empty());
        assert(occupant_names_except(Seq::<PlayerView>::empty(), room, exclude) == Seq::<Seq<
            char,
        >>::empty());
        if p.room == room && p.username != exclude {
            assert(seq![p.username] + Seq::<Seq<char>>::empty() =~= Seq::<Seq<
                char,
            >>::empty().push(p.username));
        }
    } else {
        assert(pushed[0] == ps[0]);
        assert(pushed.drop_first() =~= ps.drop_first().push(p));
        lemma_occupant_names_except_snoc(ps.drop_first(), p, room, exclude);
        if p.room == room && p.username != exclude && ps[0].room == room && ps[0].username
            != exclude {
            assert(seq![ps[0].username] + occupant_names_except(
                ps.drop_first(),
                room,
                exclude,
            ).push(p.username) =~= (seq![ps[0].username] + occupant_names_except(
                ps.drop_first(),
                room,
                exclude,
            )).push(p.username));
        }
    }
}

/// An absent username never appears among a room's occupants.
pub proof fn lemma_occupant_names_absent(ps: Seq<PlayerView>, room: Seq<char>, u: Seq<char>)
    requires
        forall|b: int| 0 <= b < ps.len() ==> ps[b].username != u,
    ensures
        forall|k: int| 0 <= k < occupant_names(ps, room).len() ==> occupant_names(ps, room)[k] != u,
    decreases ps.len(),
{
    if ps.len() > 0 {
        assert forall|b: int| 0 <= b < ps.drop_first().len() implies ps.drop_first()[b].username
            != u by {
            assert(ps.drop_first()[b] == ps[b + 1]);
        }
        lemma_occupant_names_absent(ps.drop_first(), room, u);
        if ps[0].room == room {
            let names = occupant_names(ps, room);
            assert forall|k: int| 0 <= k < names.len() implies names[k] != u by {
                if k > 0 {
                    assert(names[k] == occupant_names(ps.drop_first(), room)[k - 1]);
                }
            }
        }
    }
}

/// The excluded username never appears in `occupant_names_except`.
pub proof fn lemma_occupant_names_except_absent(ps: Seq<PlayerView>, room: Seq<char>, u: Seq<char>)
    ensures
        forall|k: int|
            0 <= k < occupant_names_except(ps, room, u).len() ==> occupant_names_except(
                ps,
                room,
                u,
            )[k] != u,
    decreases ps.len(),
{
    if ps.len() > 0 {
        lemma_occupant_names_except_absent(ps.drop_first(), room, u);
        if ps[0].room == room && ps[0].username != u {
            let names = occupant_names_except(ps, room, u);
            assert forall|k: int| 0 <= k < names.len() implies names[k] != u by {
                if k > 0 {
                    assert(names[k] == occupant_names_except(ps.drop_first(), room, u)[k - 1]);
                }
            }
        }
    }
}

/// The registry with player `username` moved to `room`.
pub open spec fn move_to(ps: Seq<PlayerView>, username: Seq<char>, room: Seq<char>) -> Seq<
    PlayerView,
> {
    Seq::new(
        ps.len(),
        |i: int|
            if ps[i].username == username {
                PlayerView { username: ps[i].username, room }
            } else {
                ps[i]
            },
    )
}

/// The registry without the players bearing `username`.
pub open spec fn remove_player(ps: Seq<PlayerView>, username: Seq<char>) -> Seq<PlayerView>
    decreases ps.len(),
{
    if ps.len() == 0 {
        Seq::empty()
    } else {
        let rest = remove_player(ps.drop_first(), username);
        if ps[0].username == username {
            rest
        } else {
            seq![ps[0]] + rest
        }
    }
}

/// Appending a player to the input of `remove_player` appends them to the
/// output exactly when their username differs.
pub proof fn lemma_remove_player_snoc(ps: Seq<PlayerView>, p: PlayerView, username: Seq<char>)
    ensures
        remove_player(ps.push(p), username) == if p.username == username {
            remove_player(ps, username)
        } else {
            remove_player(ps, username).push(p)
        },
    decreases ps.len(),
{
    let pushed = ps.push(p);
    if ps.len() == 0 {
        assert(pushed[0] == p);
        assert(pushed.drop_first() =~= Seq::<PlayerView>::empty());
        assert(ps =~= Seq::<PlayerView>::empty());
        assert(remove_player(Seq::<PlayerView>::empty(), username) == Seq::<PlayerView>::empty());
        if p.username != username {
            assert(seq![p] + Seq::<PlayerView>::empty() =~= Seq::<PlayerView>::empty().push(p));
        }
    } else {
        assert(pushed[0] == ps[0]);
        assert(pushed.drop_first() =~= ps.drop_first().push(p));
        lemma_remove_player_snoc(ps.drop_first(), p, username);
        if p.username != username && ps[0].username != username {
            assert(seq![ps[0]] + remove_player(ps.drop_first(), username).push(p) =~= (seq![ps[0]]
                + remove_player(ps.drop_first(), username)).push(p));
        }
    }
}

/// Every survivor of `remove_player` is one of the original players, and
/// none of them bears the removed username.
pub proof fn lemma_remove_player_membership(ps: Seq<PlayerView>, username: Seq<char>)
    ensures
        forall|k: int|
            0 <= k < remove_player(ps, username).len() ==> ps.contains(
                #[trigger] remove_player(ps, username)[k],
            ) && remove_player(ps, username)[k].username != username,
    decreases ps.len(),
{
    if ps.len() > 0 {
        lemma_remove_player_membership(ps.drop_first(), username);
        let out = remove_player(ps, username);
        let rest = remove_player(ps.drop_first(), username);
        assert forall|k: int| 0 <= k < out.len() implies ps.contains(#[trigger] out[k])
            && out[k].username != username by {
            if ps[0].username == username {
                assert(out[k] == rest[k]);
                assert(ps.drop_first().contains(rest[k]));
                let m = choose|m: int|
                    0 <= m < ps.drop_first().len() && ps.drop_first()[m] == rest[k];
                assert(ps[m + 1] == rest[k]);
            } else {
                if k == 0 {
                    assert(out[0] == ps[0]);
                } else {
                    assert(out[k] == rest[k - 1]);
                    assert(ps.drop_first().contains(rest[k - 1]));
                    let m = choose|m: int|
                        0 <= m < ps.drop_first().len() && ps.drop_first()[m] == rest[k - 1];
                    assert(ps[m + 1] == rest[k - 1]);
                }
            }
        }
    }
}

/// Removing an absent username changes nothing.
pub proof fn lemma_remove_player_absent(ps: Seq<PlayerView>, username: Seq<char>)
    requires
        !has_player(ps, username),
    ensures
        remove_player(ps, username) == ps,
    decreases ps.len(),
{
    if ps.len() > 0 {
        assert(ps[0].username != username);
        if has_player(ps.drop_first(), username) {
            let i = choose|i: int|
                0 <= i < ps.drop_first().len() && ps.drop_first()[i].username == username;
            assert(ps[i + 1].username == username);
        }
        lemma_remove_player_absent(ps.drop_first(), username);
        assert(remove_player(ps, username) =~= ps);
    }
}

// ------------------------------------------------------------------
// Deliveries
// ------------------------------------------------------------------
/// One copy of `m` addressed to each of `names`, in order.
pub open spec fn notices(names: Seq<Seq<char>>, m: MessageView) -> Seq<DeliveryView> {
    Seq::new(names.len(), |i: int| DeliveryView { to: names[i], message: m })
}

/// No delivery tells a player that they themselves entered a room.
pub open spec fn no_self_entered_notice(evs: Seq<DeliveryView>) -> bool {
    forall|k: int|
        0 <= k < evs.len() ==> ((#[trigger] evs[k]).message matches MessageView::PlayerEnteredRoom {
            username,
        } ==> evs[k].to != username)
}

/// The deliveries a successful spawn causes: the new player's own room
/// snapshot first, then one arrival notice to each prior occupant.
pub open spec fn spawn_deliveries(
    ps: Seq<PlayerView>,
    room: RoomView,
    username: Seq<char>,
) -> Seq<DeliveryView> {
    seq![
        DeliveryView {
            to: username,
            message: MessageView::EnterRoom {
                room,
                other_players: occupant_names_except(ps, room.name, username),
            },
        },
    ] + notices(
        occupant_names(ps, room.name),
        MessageView::PlayerEnteredRoom { username },
    )
}

/// The deliveries a successful move causes: departure notices to the old
/// room's other occupants, then the mover's snapshot of the destination,
/// then arrival notices to the destination's other occupants.
pub open spec fn move_deliveries(
    ps: Seq<PlayerView>,
    moved: Seq<PlayerView>,
    from: Seq<char>,
    dest: RoomView,
    username: Seq<char>,
    direction: Seq<char>,
) -> Seq<DeliveryView> {
    notices(
        occupant_names_except(ps, from, username),
        MessageView::PlayerLeftRoom { username, direction },
    ) + seq![
        DeliveryView {
            to: username,
            message: MessageView::EnterRoom {
                room: dest,
                other_players: occupant_names_except(moved, dest.name, username),
            },
        },
    ] + notices(
        occupant_names_except(moved, dest.name, username),
        MessageView::PlayerEnteredRoom { username },
    )
}

/// The deliveries speech causes: one copy to every occupant of the
/// speaker's room, the speaker included.
pub open spec fn speak_deliveries(
    ps: Seq<PlayerView>,
    room: Seq<char>,
    username: Seq<char>,
    message: Seq<char>,
) -> Seq<DeliveryView> {
    notices(occupant_names(ps, room), MessageView::PlayerSpeak { username, message })
}

// ------------------------------------------------------------------
// The world manager
// ------------------------------------------------------------------
/// No two players share a username.
pub open spec fn unique_usernames(ps: Seq<PlayerView>) -> bool {
    forall|i: int, j: int| 0 <= i < j < ps.len() ==> ps[i].username != ps[j].username
}

/// Every player stands in a room that exists.
pub open spec fn rooms_exist(ps: Seq<PlayerView>, rooms: Seq<RoomView>) -> bool {
    forall|i: int| 0 <= i < ps.len() ==> has_room(rooms, (#[trigger] ps[i]).room)
}

/// An error fatal to world startup.
#[derive(Debug, PartialEq)]
pub enum WorldError {
    /// No room is flagged as a starting room: there is no valid world.
    NoStartingRoom,
}

/// The authoritative world state: the immutable room graph, the starting
/// room names, and the player registry.  One task owns it; all mutation is
/// serialized through that owner.
pub struct WorldManager {
    pub rooms: RoomLibrary,
    pub starting_rooms: Vec<String>,
    pub players: Vec<Player>,
}

impl WorldManager {
    /// Well-formedness: a valid room graph, the recorded starting rooms
    /// being exactly the start-flagged ones and nonempty, usernames unique,
    /// and every player in an existing room.
    pub open spec fn wf(&self) -> bool {
        &&& self.rooms.wf()
        &&& self.starting_rooms.deep_view() == start_names(self.rooms@)
        &&& self.starting_rooms@.len() > 0
        &&& unique_usernames(self.players.deep_view())
        &&& rooms_exist(self.players.deep_view(), self.rooms@)
    }

    /// Build the world over a validated room graph.  Fails exactly when no
    /// room is flagged as a starting room.
    pub fn new(rooms: RoomLibrary) -> (r: Result<WorldManager, WorldError>)
        requires
            rooms.wf(),
        ensures
            match r {
                Ok(w) => w.wf() && w.rooms@ == rooms@ && w.players.deep_view() == Seq::<
                    PlayerView,
                >::empty(),
                Err(WorldError::NoStartingRoom) => start_names(rooms@).len() == 0,
            },
    {
        let starting_rooms = rooms.starting_room_names();
        if starting_rooms.is_empty() {
            return Err(WorldError::NoStartingRoom);
        }
        let players: Vec<Player> = Vec::new();
        let w = WorldManager { rooms, starting_rooms, players };
        proof {
            assert(w.players.deep_view() =~= Seq::<PlayerView>::empty());
            assert(w.starting_rooms@.len() == w.starting_rooms.deep_view().len());
        }
        Ok(w)
    }

    /// Pick a starting room, uniformly at random among the start-flagged
    /// rooms.
    pub fn find_starting_room(&self) -> (r: String)
        requires
            self.wf(),
        ensures
            self.starting_rooms.deep_view().contains(r@),
            exists|i: int|
                0 <= i < self.rooms@.len() && (#[trigger] self.rooms@[i]).start
                    && self.rooms@[i].name == r@,
    {
        proof {
            assert(self.starting_rooms@.len() == self.starting_rooms.deep_view().len());
        }
        let idx = random_below(self.starting_rooms.len());
        let name = self.starting_rooms[idx].clone();
        proof {
            assert(self.starting_rooms.deep_view()[idx as int] == name@);
            lemma_start_names_sound(self.rooms@, idx as int);
        }
        name
    }

    /// Remove `username` from the registry.  Idempotent: removing an
    /// absent username is a no-op, never an error, and despawning sends no
    /// notification to anyone.
    pub fn despawn_player(&mut self, username: &str)
        requires
            old(self).wf(),
        ensures
            final(self).wf(),
            final(self).rooms == old(self).rooms,
            final(self).starting_rooms == old(self).starting_rooms,
            final(self).players.deep_view() == remove_player(
                old(self).players.deep_view(),
                username@,
            ),
            !has_player(old(self).players.deep_view(), username@) ==> final(self).players.deep_view()
                == old(self).players.deep_view(),
    {
        let ghost ps = self.players.deep_view();
        let mut kept: Vec<Player> = Vec::new();
        let mut i: usize = 0;
        while i < self.players.len()
            invariant
                i <= self.players.len(),
                ps == self.players.deep_view(),
                kept.deep_view() =~= remove_player(ps.take(i as int), username@),
            decreases self.players.len() - i,
        {
            proof {
                assert(kept.deep_view().len() == kept@.len());
                lemma_remove_player_snoc(ps.take(i as int), ps[i as int], username@);
                assert(ps.take(i + 1) =~= ps.take(i as int).push(ps[i as int]));
            }
            let ghost prevkept = kept.deep_view();
            let ghost prevv = kept@;
            let p = &self.players[i];
            if !str_eq(p.username.as_str(), username) {
                kept.push(Player { username: p.username.clone(), room: p.room.clone() });
                proof {
                    assert forall|j: int| 0 <= j < kept.deep_view().len() implies kept.deep_view()[j]
                        == prevkept.push(ps[i as int])[j] by {
                        if j < prevkept.len() {
                            assert(kept@[j] == prevv[j]);
                        } else {
                            assert(kept@[j]@ == ps[i as int]);
                        }
                    }
                    assert(kept.deep_view() =~= prevkept.push(ps[i as int]));
                }
            } else {
                proof {
                    assert(ps[i as int].username == username@);
                }
            }
            i = i + 1;
        }
        proof {
            assert(ps.take(ps.len() as int) =~= ps);
        }
        self.players = kept;
        proof {
            lemma_remove_player_membership(ps, username@);
            let out = remove_player(ps, username@);
            assert forall|a: int, b: int|
                0 <= a < b < out.len() implies out[a].username != out[b].username by {
                let ma = choose|m: int| 0 <= m < ps.len() && ps[m] == out[a];
                let mb = choose|m: int| 0 <= m < ps.len() && ps[m] == out[b];
                lemma_remove_player_distinct(ps, username@, a, b);
            }
            assert forall|a: int| 0 <= a < out.len() implies has_room(
                self.rooms@,
                (#[trigger] out[a]).room,
            ) by {
                assert(ps.contains(out[a]));
                let m = choose|m: int| 0 <= m < ps.len() && ps[m] == out[a];
                assert(has_room(self.rooms@, ps[m].room));
            }
            if !has_player(ps, username@) {
                lemma_remove_player_absent(ps, username@);
            }
        }
    }
}

/// Distinct positions of `remove_player`'s output come from distinct
/// positions of its input, so uniqueness of usernames is preserved.
pub proof fn lemma_remove_player_distinct(ps: Seq<PlayerView>, username: Seq<char>, a: int, b: int)
    requires
        unique_usernames(ps),
        0 <= a < b < remove_player(ps, username).len(),
    ensures
        remove_player(ps, username)[a].username != remove_player(ps, username)[b].username,
    decreases ps.len(),
{
    let out = remove_player(ps, username);
    let rest = remove_player(ps.drop_first(), username);
    assert(ps.len() > 0);
    assert forall|i: int, j: int|
        0 <= i < j < ps.drop_first().len() implies ps.drop_first()[i].username
        != ps.drop_first()[j].username by {
        assert(ps.drop_first()[i] == ps[i + 1]);
        assert(ps.drop_first()[j] == ps[j + 1]);
    }
    if ps[0].username == username {
        lemma_remove_player_distinct(ps.drop_first(), username, a, b);
        assert(out[a] == rest[a]);
        assert(out[b] == rest[b]);
    } else {
        assert(out[0] == ps[0]);
        if a == 0 {
            lemma_remove_player_membership(ps.drop_first(), username);
            assert(out[b] == rest[b - 1]);
            assert(ps.drop_first().contains(rest[b - 1]));
            let m = choose|m: int| 0 <= m < ps.drop_first().len() && ps.drop_first()[m] == rest[b
                - 1];
            assert(ps[m + 1] == rest[b - 1]);
        } else {
            lemma_remove_player_distinct(ps.drop_first(), username, a - 1, b - 1);
            assert(out[a] == rest[a - 1]);
            assert(out[b] == rest[b - 1]);
        }
    }
}

/// The target room name of the first exit labelled `direction`, if any.
pub open spec fn find_exit(exits: Seq<ExitView>, direction: Seq<char>) -> Option<Seq<char>>
    decreases exits.len(),
{
    if exits.len() == 0 {
        None
    } else if exits[0].direction == direction {
        Some(exits[0].room_name)
    } else {
        find_exit(exits.drop_first(), direction)
    }
}

/// When the first `k` exits are not labelled `direction` but the `k`-th
/// is, `find_exit` returns the `k`-th target.
pub proof fn lemma_find_exit_first_index(exits: Seq<ExitView>, direction: Seq<char>, k: int)
    requires
        0 <= k < exits.len(),
        exits[k].direction == direction,
        forall|b: int| 0 <= b < k ==> exits[b].direction != direction,
    ensures
        find_exit(exits, direction) == Some(exits[k].room_name),
    decreases k,
{
    if k > 0 {
        assert forall|b: int| 0 <= b < k - 1 implies exits.drop_first()[b].direction
            != direction by {
            assert(exits.drop_first()[b] == exits[b + 1]);
        }
        assert(exits.drop_first()[k - 1] == exits[k]);
        lemma_find_exit_first_index(exits.drop_first(), direction, k - 1);
    }
}

/// When no exit is labelled `direction`, `find_exit` fails.
pub proof fn lemma_find_exit_none(exits: Seq<ExitView>, direction: Seq<char>)
    requires
        forall|b: int| 0 <= b < exits.len() ==> exits[b].direction != direction,
    ensures
        find_exit(exits, direction) is None,
    decreases exits.len(),
{
    if exits.len() > 0 {
        assert forall|b: int| 0 <= b < exits.drop_first().len() implies exits.drop_first()[
            b
        ].direction != direction by {
            assert(exits.drop_first()[b] == exits[b + 1]);
        }
        lemma_find_exit_none(exits.drop_first(), direction);
    }
}

/// Index of the first player bearing `username`.
fn find_player_index(players: &Vec<Player>, username: &str) -> (r: Option<usize>)
    ensures
        match r {
            Some(i) => i < players@.len() && players.deep_view()[i as int].username == username@
                && forall|b: int| 0 <= b < i ==> players.deep_view()[b].username != username@,
            None => forall|b: int|
                0 <= b < players.deep_view().len() ==> players.deep_view()[b].username != username@,
        },
{
    let mut j: usize = 0;
    while j < players.len()
        invariant
            j <= players.len(),
            forall|b: int| 0 <= b < j ==> players.deep_view()[b].username != username@,
        decreases players.len() - j,
    {
        if str_eq(players[j].username.as_str(), username) {
            proof {
                assert(players.deep_view()[j as int].username == username@);
            }
            return Some(j);
        }
        j = j + 1;
    }
    None
}

/// The usernames of the players standing in `room`, in registry order.
fn collect_occupants(players: &Vec<Player>, room: &str) -> (r: Vec<String>)
    ensures
        r.deep_view() == occupant_names(players.deep_view(), room@),
{
    let ghost ps = players.deep_view();
    let mut out: Vec<String> = Vec::new();
    let mut i: usize = 0;
    while i < players.len()
        invariant
            i <= players.len(),
            ps == players.deep_view(),
            out.deep_view() =~= occupant_names(ps.take(i as int), room@),
        decreases players.len() - i,
    {
        proof {
            assert(out.deep_view().len() == out@.len());
            lemma_occupant_names_snoc(ps.take(i as int), ps[i as int], room@);
            assert(ps.take(i + 1) =~= ps.take(i as int).push(ps[i as int]));
        }
        let ghost prevout = out.deep_view();
        let p = &players[i];
        if str_eq(p.room.as_str(), room) {
            out.push(p.username.clone());
            proof {
                assert forall|j: int| 0 <= j < out.deep_view().len() implies out.deep_view()[j]
                    == prevout.push(p.username@)[j] by {
                    if j < prevout.len() {
                        assert(out.deep_view()[j] == prevout[j]);
                    } else {
                        assert(out.deep_view()[j] == p.username@);
                    }
                }
                assert(out.deep_view() =~= prevout.push(ps[i as int].username));
            }
        } else {
            proof {
                assert(ps[i as int].room != room@);
            }
        }
        i = i + 1;
    }
    proof {
        assert(ps.take(ps.len() as int) =~= ps);
    }
    out
}

/// The usernames of the players standing in `room` other than `exclude`,
/// in registry order.
fn collect_occupants_except(players: &Vec<Player>, room: &str, exclude: &str) -> (r: Vec<String>)
    ensures
        r.deep_view() == occupant_names_except(players.deep_view(), room@, exclude@),
{
    let ghost ps = players.deep_view();
    let mut out: Vec<String> = Vec::new();
    let mut i: usize = 0;
    while i < players.len()
        invariant
            i <= players.len(),
            ps == players.deep_view(),
            out.deep_view() =~= occupant_names_except(ps.take(i as int), room@, exclude@),
        decreases players.len() - i,
    {
        proof {
            assert(out.deep_view().len() == out@.len());
            lemma_occupant_names_except_snoc(ps.take(i as int), ps[i as int], room@, exclude@);
            assert(ps.take(i + 1) =~= ps.take(i as int).push(ps[i as int]));
        }
        let ghost prevout = out.deep_view();
        let p = &players[i];
        if str_eq(p.room.as_str(), room) && !str_eq(p.username.as_str(), exclude) {
            out.push(p.username.clone());
            proof {
                assert forall|j: int| 0 <= j < out.deep_view().len() implies out.deep_view()[j]
                    == prevout.push(p.username@)[j] by {
                    if j < prevout.len() {
                        assert(out.deep_view()[j] == prevout[j]);
                    } else {
                        assert(out.deep_view()[j] == p.username@);
                    }
                }
                assert(out.deep_view() =~= prevout.push(ps[i as int].username));
            }
        } else {
            proof {
                assert(!(ps[i as int].room == room@ && ps[i as int].username != exclude@));
            }
        }
        i = i + 1;
    }
    proof {
        assert(ps.take(ps.len() as int) =~= ps);
    }
    out
}

/// Append one copy of `message` addressed to each of `names`.
fn push_notices(events: &mut Vec<Delivery>, names: &Vec<String>, message: &MudMessage)
    ensures
        final(events).deep_view() == old(events).deep_view() + notices(
            names.deep_view(),
            message@,
        ),
{
    let ghost base = old(events).deep_view();
    let ghost nv = names.deep_view();
    let mut i: usize = 0;
    while i < names.len()
        invariant
            i <= names.len(),
            nv == names.deep_view(),
            events.deep_view() =~= base + notices(nv.take(i as int), message@),
        decreases names.len() - i,
    {
        proof {
            assert(events.deep_view().len() == events@.len());
        }
        let ghost prevev = events.deep_view();
        events.push(Delivery { to: names[i].clone(), message: message.duplicate() });
        proof {
            assert forall|j: int| 0 <= j < events.deep_view().len() implies events.deep_view()[j]
                == prevev.push(DeliveryView { to: nv[i as int], message: message@ })[j] by {
                if j < prevev.len() {
                    assert(events.deep_view()[j] == prevev[j]);
                } else {
                    assert(events.deep_view()[j] == events@[j]@);
                }
            }
            assert(events.deep_view() =~= prevev.push(
                DeliveryView { to: nv[i as int], message: message@ },
            ));
            assert(base + notices(nv.take(i + 1), message@) =~= (base + notices(
                nv.take(i as int),
                message@,
            )).push(DeliveryView { to: nv[i as int], message: message@ }));
        }
        i = i + 1;
    }
    proof {
        assert(nv.take(nv.len() as int) =~= nv);
    }
}

impl WorldManager {
    /// Register `username` in `room` and report the deliveries this
    /// causes.
    ///
    /// A no-op, with no deliveries, when the room does not exist or the
    /// username is already registered (the registry never holds a username
    /// twice).  Otherwise the player is appended to the registry, their own
    /// room snapshot is delivered first, and one arrival notice goes to
    /// each player already in the room — never to the new player
    /// themselves.
    pub fn spawn_player(&mut self, username: &str, room: &str) -> (events: Vec<Delivery>)
        requires
            old(self).wf(),
        ensures
            final(self).wf(),
            final(self).rooms == old(self).rooms,
            final(self).starting_rooms == old(self).starting_rooms,
            ({
                let ps = old(self).players.deep_view();
                let rooms = old(self).rooms@;
                if !has_room(rooms, room@) || has_player(ps, username@) {
                    final(self).players == old(self).players && events.deep_view() == Seq::<
                        DeliveryView,
                    >::empty()
                } else {
                    final(self).players.deep_view() == ps.push(
                        PlayerView { username: username@, room: room@ },
                    ) && events.deep_view() == spawn_deliveries(
                        ps,
                        find_room(rooms, room@).unwrap(),
                        username@,
                    )
                }
            }),
            no_self_entered_notice(events.deep_view()),
    {
        let ghost ps = self.players.deep_view();
        if let Some(_) = find_player_index(&self.players, username) {
            let events: Vec<Delivery> = Vec::new();
            proof {
                assert(has_player(ps, username@));
                assert(events.deep_view() =~= Seq::<DeliveryView>::empty());
            }
            return events;
        }
        proof {
            lemma_find_player_none(ps, username@);
        }
        let room_ref = match self.rooms.get(room) {
            None => {
                let events: Vec<Delivery> = Vec::new();
                proof {
                    assert(events.deep_view() =~= Seq::<DeliveryView>::empty());
                }
                return events;
            },
            Some(r) => r,
        };
        proof {
            lemma_find_room_spec(self.rooms@, room@);
        }
        let ghost rv = find_room(self.rooms@, room@).unwrap();
        let snapshot = room_ref.snapshot();
        let others = collect_occupants_except(&self.players, room, username);
        let arrivals = collect_occupants(&self.players, room);
        let mut events: Vec<Delivery> = Vec::new();
        events.push(
            Delivery {
                to: username.to_owned(),
                message: MudMessage::EnterRoom { room: snapshot, other_players: others },
            },
        );
        let ghost enter = DeliveryView {
            to: username@,
            message: MessageView::EnterRoom {
                room: rv,
                other_players: occupant_names_except(ps, rv.name, username@),
            },
        };
        proof {
            assert(events@.len() == 1);
            assert(events.deep_view().len() == 1);
            assert(rv.name == room@);
            assert(events.deep_view()[0] == enter);
            assert(events.deep_view() =~= seq![enter]);
        }
        let notice = MudMessage::PlayerEnteredRoom { username: username.to_owned() };
        push_notices(&mut events, &arrivals, &notice);
        proof {
            assert(events.deep_view() =~= spawn_deliveries(ps, rv, username@));
        }
        proof {
            assert(self.players.deep_view().len() == self.players@.len());
        }
        let ghost prevps = self.players.deep_view();
        self.players.push(Player { username: username.to_owned(), room: room.to_owned() });
        proof {
            let newp = PlayerView { username: username@, room: room@ };
            assert forall|j: int| 0 <= j < self.players.deep_view().len() implies self
                .players
                .deep_view()[j] == prevps.push(newp)[j] by {
                if j < prevps.len() {
                    assert(self.players.deep_view()[j] == prevps[j]);
                } else {
                    assert(self.players.deep_view()[j] == self.players@[j]@);
                }
            }
            assert(self.players.deep_view() =~= prevps.push(newp));
            // Well-formedness of the extended registry.
            let cur = self.players.deep_view();
            assert forall|a: int, b: int| 0 <= a < b < cur.len() implies cur[a].username
                != cur[b].username by {
                if b < prevps.len() {
                } else {
                    assert(cur[b] == newp);
                    assert(prevps[a].username != username@);
                }
            }
            assert forall|a: int| 0 <= a < cur.len() implies has_room(
                self.rooms@,
                (#[trigger] cur[a]).room,
            ) by {
                if a < prevps.len() {
                    assert(has_room(self.rooms@, prevps[a].room));
                } else {
                    assert(cur[a].room == room@);
                }
            }
            // The new player never receives an arrival notice about
            // themselves.
            let evs = events.deep_view();
            lemma_occupant_names_absent(ps, room@, username@);
            assert forall|k: int| 0 <= k < evs.len() implies ((#[trigger] evs[k]).message
                matches MessageView::PlayerEnteredRoom { username: u } ==> evs[k].to != u) by {
                if k > 0 {
                    assert(evs[k] == notices(
                        occupant_names(ps, rv.name),
                        MessageView::PlayerEnteredRoom { username: username@ },
                    )[k - 1]);
                    assert(evs[k].to == occupant_names(ps, rv.name)[k - 1]);
                }
            }
        }
        events
    }

    /// Move `username` through the exit labelled `direction`.
    ///
    /// A no-op, with no deliveries, when the username is unknown or the
    /// current room has no such exit: the player's room is unchanged and no
    /// peer is notified.  Otherwise the old room's other occupants get a
    /// departure notice, the player moves and receives the destination
    /// snapshot, and the destination's other occupants get an arrival
    /// notice — never the mover themselves.
    pub fn move_player(&mut self, username: &str, direction: &str) -> (events: Vec<Delivery>)
        requires
            old(self).wf(),
        ensures
            final(self).wf(),
            final(self).rooms == old(self).rooms,
            final(self).starting_rooms == old(self).starting_rooms,
            ({
                let ps = old(self).players.deep_view();
                let rooms = old(self).rooms@;
                match find_player(ps, username@) {
                    None => final(self).players == old(self).players && events.deep_view() == Seq::<
                        DeliveryView,
                    >::empty(),
                    Some(p) => match find_exit(find_room(rooms, p.room).unwrap().exits, direction@) {
                        None => final(self).players == old(self).players && events.deep_view()
                            == Seq::<DeliveryView>::empty(),
                        Some(target) => final(self).players.deep_view() == move_to(
                            ps,
                            username@,
                            target,
                        ) && events.deep_view() == move_deliveries(
                            ps,
                            move_to(ps, username@, target),
                            p.room,
                            find_room(rooms, target).unwrap(),
                            username@,
                            direction@,
                        ),
                    },
                }
            }),
            no_self_entered_notice(events.deep_view()),
    {
        let ghost ps = self.players.deep_view();
        let idx = match find_player_index(&self.players, username) {
            None => {
                let events: Vec<Delivery> = Vec::new();
                proof {
                    lemma_find_player_none(ps, username@);
                    assert(events.deep_view() =~= Seq::<DeliveryView>::empty());
                }
                return events;
            },
            Some(i) => i,
        };
        proof {
            lemma_find_player_first_index(ps, username@, idx as int);
        }
        let from_room = self.players[idx].room.clone();
        let cur_ref = match self.rooms.get(from_room.as_str()) {
            None => {
                // Unreachable: a registered player's room always exists.
                let events: Vec<Delivery> = Vec::new();
                proof {
                    assert(has_room(self.rooms@, ps[idx as int].room));
                    assert(false);
                }
                return events;
            },
            Some(r) => r,
        };
        proof {
            lemma_find_room_spec(self.rooms@, from_room@);
        }
        let ghost cur = find_room(self.rooms@, from_room@).unwrap();
        // Find the exit labelled `direction`.
        let mut k: usize = 0;
        let mut found = false;
        while k < cur_ref.exits.len() && !found
            invariant
                k <= cur_ref.exits.len(),
                cur_ref@ == cur,
                cur_ref@.exits.len() == cur_ref.exits@.len(),
                !found ==> forall|b: int| 0 <= b < k ==> cur.exits[b].direction != direction@,
                found ==> k < cur.exits.len() && cur.exits[k as int].direction == direction@
                    && forall|b: int| 0 <= b < k ==> cur.exits[b].direction != direction@,
            decreases cur_ref.exits.len() - k, (if found {
                0int
            } else {
                1int
            }),
        {
            if str_eq(cur_ref.exits[k].direction.as_str(), direction) {
                found = true;
                proof {
                    assert(cur.exits[k as int].direction == direction@);
                }
            } else {
                k = k + 1;
            }
        }
        if !found {
            let events: Vec<Delivery> = Vec::new();
            proof {
                lemma_find_exit_none(cur.exits, direction@);
                assert(events.deep_view() =~= Seq::<DeliveryView>::empty());
            }
            return events;
        }
        let target = cur_ref.exits[k].room_name.clone();
        proof {
            lemma_find_exit_first_index(cur.exits, direction@, k as int);
            assert(find_exit(cur.exits, direction@) == Some(target@));
            // The destination exists: exits of an existing room resolve.
            let m = choose|m: int| 0 <= m < self.rooms@.len() && self.rooms@[m] == cur;
            assert(has_room(self.rooms@, self.rooms@[m].exits[k as int].room_name));
        }
        let dest_ref = match self.rooms.get(target.as_str()) {
            None => {
                // Unreachable: the graph is validated, every exit resolves.
                let events: Vec<Delivery> = Vec::new();
                proof {
                    assert(false);
                }
                return events;
            },
            Some(r) => r,
        };
        proof {
            lemma_find_room_spec(self.rooms@, target@);
        }
        let ghost dest = find_room(self.rooms@, target@).unwrap();
        let dest_snapshot = dest_ref.snapshot();
        // Departure notices to the old room's other occupants.
        let leavers = collect_occupants_except(&self.players, from_room.as_str(), username);
        let mut events: Vec<Delivery> = Vec::new();
        let leave_notice = MudMessage::PlayerLeftRoom {
            username: username.to_owned(),
            direction: direction.to_owned(),
        };
        push_notices(&mut events, &leavers, &leave_notice);
        let ghost leave_part = notices(
            occupant_names_except(ps, cur.name, username@),
            MessageView::PlayerLeftRoom { username: username@, direction: direction@ },
        );
        proof {
            assert(cur.name == from_room@);
            assert(events.deep_view() =~= leave_part);
        }
        // Move the player.
        let ghost moved = move_to(ps, username@, target@);
        let mut updated: Vec<Player> = Vec::new();
        let mut i: usize = 0;
        while i < self.players.len()
            invariant
                i <= self.players.len(),
                ps == self.players.deep_view(),
                moved == move_to(ps, username@, target@),
                updated@.len() == i,
                forall|j: int| 0 <= j < i ==> updated.deep_view()[j] == moved[j],
            decreases self.players.len() - i,
        {
            proof {
                assert(updated.deep_view().len() == updated@.len());
            }
            let ghost prevup = updated.deep_view();
            let p = &self.players[i];
            if str_eq(p.username.as_str(), username) {
                updated.push(Player { username: p.username.clone(), room: target.clone() });
            } else {
                updated.push(Player { username: p.username.clone(), room: p.room.clone() });
            }
            proof {
                assert forall|j: int| 0 <= j < i + 1 implies updated.deep_view()[j] == moved[j] by {
                    if j < i {
                        assert(updated.deep_view()[j] == prevup[j]);
                    } else {
                        assert(updated.deep_view()[j] == updated@[j]@);
                    }
                }
            }
            i = i + 1;
        }
        self.players = updated;
        proof {
            assert(self.players.deep_view() =~= moved);
        }
        // The mover's snapshot of the destination, then arrival notices.
        let others = collect_occupants_except(&self.players, target.as_str(), username);
        let others_copy = copy_names(&others);
        proof {
            assert(events.deep_view().len() == events@.len());
            assert(dest.name == target@);
        }
        let ghost prevev = events.deep_view();
        events.push(
            Delivery {
                to: username.to_owned(),
                message: MudMessage::EnterRoom { room: dest_snapshot, other_players: others },
            },
        );
        let ghost enter = DeliveryView {
            to: username@,
            message: MessageView::EnterRoom {
                room: dest,
                other_players: occupant_names_except(moved, dest.name, username@),
            },
        };
        proof {
            assert forall|j: int| 0 <= j < events.deep_view().len() implies events.deep_view()[j]
                == prevev.push(enter)[j] by {
                if j < prevev.len() {
                    assert(events.deep_view()[j] == prevev[j]);
                } else {
                    assert(events.deep_view()[j] == events@[j]@);
                }
            }
            assert(events.deep_view() =~= prevev.push(enter));
        }
        let enter_notice = MudMessage::PlayerEnteredRoom { username: username.to_owned() };
        push_notices(&mut events, &others_copy, &enter_notice);
        proof {
            let arrive_part = notices(
                occupant_names_except(moved, dest.name, username@),
                MessageView::PlayerEnteredRoom { username: username@ },
            );
            assert(events.deep_view() =~= (leave_part + seq![enter]) + arrive_part);
            assert((leave_part + seq![enter]) + arrive_part =~= move_deliveries(
                ps,
                moved,
                cur.name,
                dest,
                username@,
                direction@,
            ));
            // Well-formedness of the moved registry.
            let cur_ps = self.players.deep_view();
            assert forall|a: int, b: int| 0 <= a < b < cur_ps.len() implies cur_ps[a].username
                != cur_ps[b].username by {
                assert(cur_ps[a].username == ps[a].username);
                assert(cur_ps[b].username == ps[b].username);
            }
            assert forall|a: int| 0 <= a < cur_ps.len() implies has_room(
                self.rooms@,
                (#[trigger] cur_ps[a]).room,
            ) by {
                if ps[a].username == username@ {
                    assert(cur_ps[a].room == target@);
                    assert(has_room(self.rooms@, target@));
                } else {
                    assert(cur_ps[a].room == ps[a].room);
                    assert(has_room(self.rooms@, ps[a].room));
                }
            }
            // Nobody is told of their own arrival.
            let evs = events.deep_view();
            lemma_occupant_names_except_absent(moved, dest.name, username@);
            assert forall|kk: int| 0 <= kk < evs.len() implies ((#[trigger] evs[kk]).message
                matches MessageView::PlayerEnteredRoom { username: u } ==> evs[kk].to != u) by {
                if kk < leave_part.len() {
                    assert(evs[kk] == leave_part[kk]);
                } else if kk == leave_part.len() {
                    assert(evs[kk] == enter);
                } else {
                    let arrive_part = notices(
                        occupant_names_except(moved, dest.name, username@),
                        MessageView::PlayerEnteredRoom { username: username@ },
                    );
                    assert(evs[kk] == arrive_part[kk - leave_part.len() - 1]);
                    assert(evs[kk].to == occupant_names_except(moved, dest.name, username@)[kk
                        - leave_part.len() - 1]);
                }
            }
        }
        events
    }

    /// Say `message` to everyone in the speaker's room, the speaker
    /// included.  A no-op, with no deliveries, when the username is
    /// unknown.  The state never changes.
    pub fn player_speak(&self, username: &str, message: &str) -> (events: Vec<Delivery>)
        requires
            self.wf(),
        ensures
            match find_player(self.players.deep_view(), username@) {
                None => events.deep_view() == Seq::<DeliveryView>::empty(),
                Some(p) => events.deep_view() == speak_deliveries(
                    self.players.deep_view(),
                    p.room,
                    username@,
                    message@,
                ),
            },
    {
        let ghost ps = self.players.deep_view();
        let idx = match find_player_index(&self.players, username) {
            None => {
                let events: Vec<Delivery> = Vec::new();
                proof {
                    lemma_find_player_none(ps, username@);
                    assert(events.deep_view() =~= Seq::<DeliveryView>::empty());
                }
                return events;
            },
            Some(i) => i,
        };
        proof {
            lemma_find_player_first_index(ps, username@, idx as int);
        }
        let room = self.players[idx].room.clone();
        let names = collect_occupants(&self.players, room.as_str());
        let mut events: Vec<Delivery> = Vec::new();
        let speech = MudMessage::PlayerSpeak {
            username: username.to_owned(),
            message: message.to_owned(),
        };
        push_notices(&mut events, &names, &speech);
        proof {
            assert(events.deep_view() =~= speak_deliveries(ps, ps[idx as int].room, username@,
            message@));
        }
        events
    }
}

/// The registry of a well-formed world holds at most one entry per
/// username; this lemma spells that clause of `wf` out.
pub proof fn lemma_registry_unique(w: &WorldManager)
    requires
        w.wf(),
    ensures
        forall|i: int, j: int|
            0 <= i < j < w.players.deep_view().len() ==> w.players.deep_view()[i].username
                != w.players.deep_view()[j].username,
{
}

/// Relies on `rand::random_range` over `0..n`: a uniformly random index
/// below `n`; the range is nonempty, so the call returns.
#[verifier::external_body]
fn random_below(n: usize) -> (r: usize)
    requires
        n > 0,
    ensures
        r < n,
{
    rand::random_range(0..n)
}

} // verus!
