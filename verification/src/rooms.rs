//! The room graph: rooms, exits, and the validated library of rooms.
//!
//! A room is identified by its unique name.  Every exit of every room must
//! lead to a room that exists in the library; the constructor checks both
//! properties, so that the world actor can rely on them.

use vstd::prelude::*;
use vstd::string::StringExecFns;

use crate::text::str_eq;

verus! {

/// An exit out of a room: a direction label and the target room's name.
#[derive(Debug, PartialEq)]
pub struct Exit {
    pub direction: String,
    pub room_name: String,
}

/// Mathematical model of an [`Exit`].
pub struct ExitView {
    pub direction: Seq<char>,
    pub room_name: Seq<char>,
}

impl View for Exit {
    type V = ExitView;

    open spec fn view(&self) -> ExitView {
        ExitView { direction: self.direction@, room_name: self.room_name@ }
    }
}

impl DeepView for Exit {
    type V = ExitView;

    open spec fn deep_view(&self) -> ExitView {
        self.view()
    }
}

/// A room of the world: name, description, exits, and whether players may
/// start here.
#[derive(Debug, PartialEq)]
pub struct Room {
    pub name: String,
    pub description: String,
    pub exits: Vec<Exit>,
    pub start: bool,
}

/// Mathematical model of a [`Room`].
pub struct RoomView {
    pub name: Seq<char>,
    pub description: Seq<char>,
    pub exits: Seq<ExitView>,
    pub start: bool,
}

impl View for Room {
    type V = RoomView;

    open spec fn view(&self) -> RoomView {
        RoomView {
            name: self.name@,
            description: self.description@,
            exits: self.exits.deep_view(),
            start: self.start,
        }
    }
}

impl DeepView for Room {
    type V = RoomView;

    open spec fn deep_view(&self) -> RoomView {
        self.view()
    }
}

impl Room {
    /// An independent copy of this room, handed out to clients so that they
    /// never hold a live reference into shared state.
    pub fn snapshot(&self) -> (r: Room)
        ensures
            r@ == self@,
    {
        let mut exits: Vec<Exit> = Vec::new();
        let mut i: usize = 0;
        while i < self.exits.len()
            invariant
                i <= self.exits.len(),
                exits.deep_view() =~= self.exits.deep_view().take(i as int),
            decreases self.exits.len() - i,
        {
            proof {
                assert(exits.deep_view().len() == i);
                assert(exits@.len() == i);
            }
            let ghost prev = exits.deep_view();
            let e = &self.exits[i];
            let copy = Exit { direction: e.direction.clone(), room_name: e.room_name.clone() };
            proof {
                assert(copy@ == self.exits.deep_view()[i as int]);
            }
            exits.push(copy);
            proof {
                assert forall|j: int| 0 <= j < i + 1 implies exits.deep_view()[j]
                    == self.exits.deep_view().take(i + 1)[j] by {
                    if j < i {
                        assert(exits.deep_view()[j] == prev[j]);
                    } else {
                        assert(exits.deep_view()[j] == copy@);
                    }
                }
                assert(exits.deep_view() =~= self.exits.deep_view().take(i + 1));
            }
            i = i + 1;
        }
        proof {
            assert(exits.deep_view() =~= self.exits.deep_view());
        }
        Room {
            name: self.name.clone(),
            description: self.description.clone(),
            exits,
            start: self.start,
        }
    }
}

/// Errors of the room library.
#[derive(Debug, PartialEq)]
pub enum RoomError {
    /// A requested room does not exist.
    NotFound,
    /// The set of rooms could not be loaded or is not well formed.
    LoadFailed,
    /// A room has an exit whose target room does not exist; carries the
    /// missing target's name.
    InvalidExit(String),
}

impl RoomError {
    /// A human-readable description of the error.
    pub fn message(&self) -> (r: String)
        ensures
            r@ == match self {
                RoomError::NotFound => "Room not found"@,
                RoomError::LoadFailed => "Failed to load rooms"@,
                RoomError::InvalidExit(name) => "Invalid exit in room: "@ + name@,
            },
    {
        match self {
            RoomError::NotFound => "Room not found".to_owned(),
            RoomError::LoadFailed => "Failed to load rooms".to_owned(),
            RoomError::InvalidExit(name) => "Invalid exit in room: ".to_owned().concat(
                name.as_str(),
            ),
        }
    }
}

/// True when `rooms` holds a room named `name`.
pub open spec fn has_room(rooms: Seq<RoomView>, name: Seq<char>) -> bool {
    exists|i: int| 0 <= i < rooms.len() && rooms[i].name == name
}

/// The first room named `name`, if any.
pub open spec fn find_room(rooms: Seq<RoomView>, name: Seq<char>) -> Option<RoomView>
    decreases rooms.len(),
{
    if rooms.len() == 0 {
        None
    } else if rooms[0].name == name {
        Some(rooms[0])
    } else {
        find_room(rooms.drop_first(), name)
    }
}

/// `find_room` succeeds exactly when `has_room` holds, and returns an
/// element of the sequence bearing the requested name.
pub proof fn lemma_find_room_spec(rooms: Seq<RoomView>, name: Seq<char>)
    ensures
        find_room(rooms, name) is Some <==> has_room(rooms, name),
        match find_room(rooms, name) {
            Some(r) => r.name == name && exists|i: int| 0 <= i < rooms.len() && rooms[i] == r,
            None => true,
        },
    decreases rooms.len(),
{
    if rooms.len() > 0 {
        if rooms[0].name == name {
        } else {
            lemma_find_room_spec(rooms.drop_first(), name);
            assert forall|i: int| 0 <= i < rooms.drop_first().len() implies rooms.drop_first()[i]
                == rooms[i + 1] by {}
            if has_room(rooms, name) {
                let i = choose|i: int| 0 <= i < rooms.len() && rooms[i].name == name;
                assert(rooms.drop_first()[i - 1].name == name);
            }
        }
    }
}

/// Every room's name is distinct from every other room's.
pub open spec fn unique_room_names(rooms: Seq<RoomView>) -> bool {
    forall|i: int, j: int| 0 <= i < j < rooms.len() ==> rooms[i].name != rooms[j].name
}

/// Every exit of every room targets a room that exists.
pub open spec fn exits_resolve(rooms: Seq<RoomView>) -> bool {
    forall|i: int, k: int|
        0 <= i < rooms.len() && 0 <= k < rooms[i].exits.len() ==> has_room(
            rooms,
            #[trigger] rooms[i].exits[k].room_name,
        )
}

/// The immutable collection of rooms, validated once at startup and then
/// only read.
pub struct RoomLibrary {
    pub rooms: Vec<Room>,
}

impl View for RoomLibrary {
    type V = Seq<RoomView>;

    open spec fn view(&self) -> Seq<RoomView> {
        self.rooms.deep_view()
    }
}

impl RoomLibrary {
    /// Well-formedness: unique room names, and every exit target exists.
    pub open spec fn wf(&self) -> bool {
        unique_room_names(self@) && exits_resolve(self@)
    }

    /// Validate a set of rooms and build the library.
    ///
    /// Fails with `LoadFailed` when two rooms share a name, and with
    /// `InvalidExit` (carrying the missing target) when some exit targets a
    /// room that does not exist.
    pub fn new(rooms: Vec<Room>) -> (r: Result<RoomLibrary, RoomError>)
        ensures
            match r {
                Ok(lib) => lib@ == rooms.deep_view() && lib.wf(),
                Err(RoomError::LoadFailed) => !unique_room_names(rooms.deep_view()),
                Err(RoomError::InvalidExit(name)) => unique_room_names(rooms.deep_view())
                    && !exits_resolve(rooms.deep_view()) && exists|i: int, k: int|
                    0 <= i < rooms.deep_view().len() && 0 <= k < rooms.deep_view()[i].exits.len()
                        && rooms.deep_view()[i].exits[k].room_name == name@ && !has_room(
                        rooms.deep_view(),
                        name@,
                    ),
                Err(RoomError::NotFound) => false,
            },
    {
        let ghost rv = rooms.deep_view();
        // Check name uniqueness.
        let mut i: usize = 0;
        while i < rooms.len()
            invariant
                rv == rooms.deep_view(),
                i <= rooms.len(),
                forall|a: int, b: int| 0 <= a < b < i ==> rv[a].name != rv[b].name,
                forall|a: int, b: int|
                    0 <= a < i && a < b < rv.len() ==> rv[a].name != rv[b].name,
            decreases rooms.len() - i,
        {
            let mut j: usize = i + 1;
            while j < rooms.len()
                invariant
                    rv == rooms.deep_view(),
                    i < j <= rooms.len(),
                    forall|b: int| i < b < j ==> rv[i as int].name != rv[b].name,
                decreases rooms.len() - j,
            {
                if str_eq(rooms[i].name.as_str(), rooms[j].name.as_str()) {
                    proof {
                        assert(rv[i as int].name == rv[j as int].name);
                        assert(!unique_room_names(rv));
                    }
                    return Err(RoomError::LoadFailed);
                }
                j = j + 1;
            }
            i = i + 1;
        }
        // Check that every exit resolves.
        let mut i: usize = 0;
        while i < rooms.len()
            invariant
                rv == rooms.deep_view(),
                unique_room_names(rv),
                i <= rooms.len(),
                forall|a: int, k: int|
                    0 <= a < i && 0 <= k < rv[a].exits.len() ==> has_room(
                        rv,
                        #[trigger] rv[a].exits[k].room_name,
                    ),
            decreases rooms.len() - i,
        {
            let mut k: usize = 0;
            while k < rooms[i].exits.len()
                invariant
                    rv == rooms.deep_view(),
                    unique_room_names(rv),
                    i < rooms.len(),
                    k <= rv[i as int].exits.len(),
                    rv[i as int].exits.len() == rooms[i as int].exits.len(),
                    forall|kk: int|
                        0 <= kk < k ==> has_room(rv, #[trigger] rv[i as int].exits[kk].room_name),
                decreases rooms[i as int].exits.len() - k,
            {
                let target = &rooms[i].exits[k].room_name;
                let mut found = false;
                let mut j: usize = 0;
                while j < rooms.len() && !found
                    invariant
                        rv == rooms.deep_view(),
                        unique_room_names(rv),
                        i < rooms.len(),
                        k < rooms[i as int].exits.len(),
                        j <= rooms.len(),
                        target@ == rv[i as int].exits[k as int].room_name,
                        found ==> has_room(rv, target@),
                        !found ==> forall|b: int| 0 <= b < j ==> rv[b].name != target@,
                    decreases rooms.len() - j, (if found { 0int } else { 1int }),
                {
                    if str_eq(rooms[j].name.as_str(), target.as_str()) {
                        found = true;
                        proof {
                            assert(rv[j as int].name == target@);
                        }
                    } else {
                        j = j + 1;
                    }
                }
                if !found {
                    proof {
                        assert(!has_room(rv, rv[i as int].exits[k as int].room_name));
                        assert(!exits_resolve(rv));
                    }
                    return Err(RoomError::InvalidExit(target.clone()));
                }
                k = k + 1;
            }
            i = i + 1;
        }
        Ok(RoomLibrary { rooms })
    }

    /// The number of rooms.
    pub fn len(&self) -> (r: usize)
        ensures
            r == self@.len(),
    {
        self.rooms.len()
    }

    /// Whether a room with the given name exists.
    pub fn contains(&self, name: &str) -> (r: bool)
        ensures
            r == has_room(self@, name@),
    {
        let mut j: usize = 0;
        while j < self.rooms.len()
            invariant
                j <= self.rooms.len(),
                forall|b: int| 0 <= b < j ==> self@[b].name != name@,
            decreases self.rooms.len() - j,
        {
            if str_eq(self.rooms[j].name.as_str(), name) {
                proof {
                    assert(self@[j as int].name == name@);
                }
                return true;
            }
            j = j + 1;
        }
        false
    }

    /// Look a room up by name; returns the first (and under `wf` the only)
    /// room of that name.
    pub fn get(&self, name: &str) -> (r: Option<&Room>)
        ensures
            match r {
                Some(room) => find_room(self@, name@) == Some(room@),
                None => !has_room(self@, name@),
            },
    {
        let mut j: usize = 0;
        while j < self.rooms.len()
            invariant
                j <= self.rooms.len(),
                forall|b: int| 0 <= b < j ==> self@[b].name != name@,
            decreases self.rooms.len() - j,
        {
            if str_eq(self.rooms[j].name.as_str(), name) {
                proof {
                    assert(self@[j as int].name == name@);
                    lemma_find_room_first_index(self@, name@, j as int);
                }
                return Some(&self.rooms[j]);
            }
            j = j + 1;
        }
        None
    }

    /// The names of the rooms flagged as starting rooms, in library order.
    pub fn starting_room_names(&self) -> (r: Vec<String>)
        ensures
            r.deep_view() == start_names(self@),
    {
        let mut out: Vec<String> = Vec::new();
        let mut i: usize = 0;
        while i < self.rooms.len()
            invariant
                i <= self.rooms.len(),
                out.deep_view() =~= start_names(self@.take(i as int)),
            decreases self.rooms.len() - i,
        {
            proof {
                lemma_start_names_snoc(self@.take(i as int), self@[i as int]);
                assert(self@.take(i + 1) =~= self@.take(i as int).push(self@[i as int]));
            }
            if self.rooms[i].start {
                out.push(self.rooms[i].name.clone());
            }
            i = i + 1;
        }
        proof {
            assert(self@.take(self@.len() as int) =~= self@);
        }
        out
    }
}

/// The names of the start-flagged rooms, in order.
pub open spec fn start_names(rooms: Seq<RoomView>) -> Seq<Seq<char>>
    decreases rooms.len(),
{
    if rooms.len() == 0 {
        Seq::empty()
    } else {
        let rest = start_names(rooms.drop_first());
        if rooms[0].start {
            seq![rooms[0].name] + rest
        } else {
            rest
        }
    }
}

/// Appending a room extends `start_names` by that room's name exactly when
/// it is a starting room.
pub proof fn lemma_start_names_snoc(rooms: Seq<RoomView>, room: RoomView)
    ensures
        start_names(rooms.push(room)) == if room.start {
            start_names(rooms).push(room.name)
        } else {
            start_names(rooms)
        },
    decreases rooms.len(),
{
    let pushed = rooms.push(room);
    if rooms.len() == 0 {
        assert(pushed.len() == 1 && pushed[0] == room);
        assert(pushed.drop_first() =~= Seq::<RoomView>::empty());
        assert(rooms =~= Seq::<RoomView>::empty());
        assert(start_names(Seq::<RoomView>::empty()) == Seq::<Seq<char>>::empty());
        if room.start {
            assert(start_names(pushed) == seq![room.name] + Seq::<Seq<char>>::empty());
            assert(seq![room.name] + Seq::<Seq<char>>::empty() =~= Seq::<Seq<
                char,
            >>::empty().push(room.name));
        }
    } else {
        assert(pushed[0] == rooms[0]);
        assert(pushed.drop_first() =~= rooms.drop_first().push(room));
        lemma_start_names_snoc(rooms.drop_first(), room);
        if room.start && rooms[0].start {
            assert(seq![rooms[0].name] + start_names(rooms.drop_first()).push(room.name) =~= (
            seq![rooms[0].name] + start_names(rooms.drop_first())).push(room.name));
        }
    }
}

/// Every name listed by `start_names` belongs to a start-flagged room of the
/// sequence.
pub proof fn lemma_start_names_sound(rooms: Seq<RoomView>, n: int)
    requires
        0 <= n < start_names(rooms).len(),
    ensures
        exists|i: int|
            0 <= i < rooms.len() && rooms[i].start && rooms[i].name == start_names(rooms)[n],
    decreases rooms.len(),
{
    if rooms.len() > 0 {
        if rooms[0].start {
            if n == 0 {
                assert(rooms[0].start && rooms[0].name == start_names(rooms)[0]);
            } else {
                lemma_start_names_sound(rooms.drop_first(), n - 1);
                let i = choose|i: int|
                    0 <= i < rooms.drop_first().len() && rooms.drop_first()[i].start
                        && rooms.drop_first()[i].name == start_names(rooms.drop_first())[n - 1];
                assert(rooms[i + 1].start && rooms[i + 1].name == start_names(rooms)[n]);
            }
        } else {
            lemma_start_names_sound(rooms.drop_first(), n);
            let i = choose|i: int|
                0 <= i < rooms.drop_first().len() && rooms.drop_first()[i].start
                    && rooms.drop_first()[i].name == start_names(rooms.drop_first())[n];
            assert(rooms[i + 1].start && rooms[i + 1].name == start_names(rooms)[n]);
        }
    }
}

/// When the first `j` rooms do not bear `name` but the `j`-th does,
/// `find_room` returns the `j`-th room.
pub proof fn lemma_find_room_first_index(rooms: Seq<RoomView>, name: Seq<char>, j: int)
    requires
        0 <= j < rooms.len(),
        rooms[j].name == name,
        forall|b: int| 0 <= b < j ==> rooms[b].name != name,
    ensures
        find_room(rooms, name) == Some(rooms[j]),
    decreases j,
{
    if j == 0 {
    } else {
        assert forall|b: int| 0 <= b < j - 1 implies rooms.drop_first()[b].name != name by {
            assert(rooms.drop_first()[b] == rooms[b + 1]);
        }
        assert(rooms.drop_first()[j - 1] == rooms[j]);
        lemma_find_room_first_index(rooms.drop_first(), name, j - 1);
    }
}

} // verus!
