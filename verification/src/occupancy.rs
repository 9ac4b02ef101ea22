//! Room occupancy: which usernames stand in which room.
//!
//! The state is modelled as, for every room name, the sequence of
//! usernames present there, in arrival order.  All mutation goes through
//! the methods; the representation is private.

use vstd::prelude::*;

use crate::text::str_eq;

verus! {

/// One occupancy record: a username standing in a room.
struct Occupant {
    room: String,
    user: String,
}

/// Usernames of the pairs whose room is `room`, in order.
pub open spec fn users_in(ps: Seq<(Seq<char>, Seq<char>)>, room: Seq<char>) -> Seq<Seq<char>>
    decreases ps.len(),
{
    if ps.len() == 0 {
        Seq::empty()
    } else {
        let rest = users_in(ps.drop_first(), room);
        if ps[0].0 == room {
            seq![ps[0].1] + rest
        } else {
            rest
        }
    }
}

/// Appending a pair extends `users_in` of exactly that pair's room.
pub proof fn lemma_users_in_snoc(
    ps: Seq<(Seq<char>, Seq<char>)>,
    p: (Seq<char>, Seq<char>),
    room: Seq<char>,
)
    ensures
        users_in(ps.push(p), room) == if p.0 == room {
            users_in(ps, room).push(p.1)
        } else {
            users_in(ps, room)
        },
    decreases ps.len(),
{
    let pushed = ps.push(p);
    if ps.len() == 0 {
        assert(pushed[0] == p);
        assert(pushed.drop_first() =~= Seq::<(Seq<char>, Seq<char>)>::empty());
        assert(users_in(Seq::<(Seq<char>, Seq<char>)>::empty(), room) == Seq::<Seq<char>>::empty());
        assert(ps =~= Seq::<(Seq<char>, Seq<char>)>::empty());
        if p.0 == room {
            assert(seq![p.1] + Seq::<Seq<char>>::empty() =~= Seq::<Seq<char>>::empty().push(p.1));
        }
    } else {
        assert(pushed[0] == ps[0]);
        assert(pushed.drop_first() =~= ps.drop_first().push(p));
        lemma_users_in_snoc(ps.drop_first(), p, room);
        if p.0 == room && ps[0].0 == room {
            assert(seq![ps[0].1] + users_in(ps.drop_first(), room).push(p.1) =~= (seq![ps[0].1]
                + users_in(ps.drop_first(), room)).push(p.1));
        }
    }
}

/// `names` with every occurrence of `u` removed.
pub open spec fn drop_name(names: Seq<Seq<char>>, u: Seq<char>) -> Seq<Seq<char>>
    decreases names.len(),
{
    if names.len() == 0 {
        Seq::empty()
    } else {
        let rest = drop_name(names.drop_first(), u);
        if names[0] == u {
            rest
        } else {
            seq![names[0]] + rest
        }
    }
}

/// The pairs whose username is not `u`.
pub open spec fn drop_user(ps: Seq<(Seq<char>, Seq<char>)>, u: Seq<char>) -> Seq<
    (Seq<char>, Seq<char>),
>
    decreases ps.len(),
{
    if ps.len() == 0 {
        Seq::empty()
    } else {
        let rest = drop_user(ps.drop_first(), u);
        if ps[0].1 == u {
            rest
        } else {
            seq![ps[0]] + rest
        }
    }
}

/// The pairs except those putting username `u` in room `room`.
pub open spec fn drop_user_in_room(
    ps: Seq<(Seq<char>, Seq<char>)>,
    room: Seq<char>,
    u: Seq<char>,
) -> Seq<(Seq<char>, Seq<char>)>
    decreases ps.len(),
{
    if ps.len() == 0 {
        Seq::empty()
    } else {
        let rest = drop_user_in_room(ps.drop_first(), room, u);
        if ps[0].0 == room && ps[0].1 == u {
            rest
        } else {
            seq![ps[0]] + rest
        }
    }
}

/// Removing a user commutes with projecting a room's occupants.
pub proof fn lemma_users_in_drop_user(ps: Seq<(Seq<char>, Seq<char>)>, u: Seq<char>, room: Seq<
    char,
>)
    ensures
        users_in(drop_user(ps, u), room) == drop_name(users_in(ps, room), u),
    decreases ps.len(),
{
    if ps.len() > 0 {
        lemma_users_in_drop_user(ps.drop_first(), u, room);
        let rest = drop_user(ps.drop_first(), u);
        if ps[0].1 == u {
            if ps[0].0 == room {
                assert(users_in(ps, room) == seq![ps[0].1] + users_in(ps.drop_first(), room));
                assert((seq![ps[0].1] + users_in(ps.drop_first(), room)).drop_first() =~= users_in(
                    ps.drop_first(),
                    room,
                ));
                assert((seq![ps[0].1] + users_in(ps.drop_first(), room))[0] == u);
            }
        } else {
            assert(drop_user(ps, u) == seq![ps[0]] + rest);
            assert((seq![ps[0]] + rest)[0] == ps[0]);
            assert((seq![ps[0]] + rest).drop_first() =~= rest);
            if ps[0].0 == room {
                assert((seq![ps[0].1] + users_in(ps.drop_first(), room))[0] == ps[0].1);
                assert((seq![ps[0].1] + users_in(ps.drop_first(), room)).drop_first() =~= users_in(
                    ps.drop_first(),
                    room,
                ));
                assert(users_in(drop_user(ps, u), room) =~= seq![ps[0].1] + users_in(
                    drop_user(ps.drop_first(), u),
                    room,
                ));
            }
        }
    }
}

/// Removing a user from one room empties their occurrences there and
/// leaves every other room's occupants unchanged.
pub proof fn lemma_users_in_drop_user_in_room(
    ps: Seq<(Seq<char>, Seq<char>)>,
    room: Seq<char>,
    u: Seq<char>,
    q: Seq<char>,
)
    ensures
        users_in(drop_user_in_room(ps, room, u), q) == if q == room {
            drop_name(users_in(ps, q), u)
        } else {
            users_in(ps, q)
        },
    decreases ps.len(),
{
    if ps.len() > 0 {
        lemma_users_in_drop_user_in_room(ps.drop_first(), room, u, q);
        let rest = drop_user_in_room(ps.drop_first(), room, u);
        if ps[0].0 == room && ps[0].1 == u {
            if ps[0].0 == q {
                assert((seq![ps[0].1] + users_in(ps.drop_first(), q))[0] == u);
                assert((seq![ps[0].1] + users_in(ps.drop_first(), q)).drop_first() =~= users_in(
                    ps.drop_first(),
                    q,
                ));
            }
        } else {
            assert(drop_user_in_room(ps, room, u) == seq![ps[0]] + rest);
            assert((seq![ps[0]] + rest)[0] == ps[0]);
            assert((seq![ps[0]] + rest).drop_first() =~= rest);
            if ps[0].0 == q {
                assert((seq![ps[0].1] + users_in(ps.drop_first(), q))[0] == ps[0].1);
                assert((seq![ps[0].1] + users_in(ps.drop_first(), q)).drop_first() =~= users_in(
                    ps.drop_first(),
                    q,
                ));
                assert(users_in(drop_user_in_room(ps, room, u), q) =~= seq![ps[0].1] + users_in(
                    rest,
                    q,
                ));
            }
        }
    }
}

/// The shared occupancy registry: for every room, who stands in it.
pub struct WorldState {
    occupants: Vec<Occupant>,
}

impl WorldState {
    /// The occupancy pairs, in insertion order.
    pub closed spec fn pairs(&self) -> Seq<(Seq<char>, Seq<char>)> {
        Seq::new(self.occupants@.len(), |i: int| (self.occupants@[i].room@, self.occupants@[i].user@))
    }

    /// The usernames standing in `room`, in arrival order.
    pub open spec fn occupants_view(&self, room: Seq<char>) -> Seq<Seq<char>> {
        users_in(self.pairs(), room)
    }

    /// An empty registry: every room is empty.
    pub fn new() -> (r: Self)
        ensures
            r.pairs() == Seq::<(Seq<char>, Seq<char>)>::empty(),
            forall|room: Seq<char>| r.occupants_view(room) == Seq::<Seq<char>>::empty(),
    {
        let occupants: Vec<Occupant> = Vec::new();
        let r = WorldState { occupants };
        proof {
            assert(r.pairs() =~= Seq::<(Seq<char>, Seq<char>)>::empty());
        }
        r
    }

    /// Put `username` into `room_name`, after anyone already there.  Other
    /// rooms are untouched.
    pub fn add_user_to_room(&mut self, username: &str, room_name: &str)
        ensures
            final(self).occupants_view(room_name@) == old(self).occupants_view(
                room_name@,
            ).push(username@),
            forall|room: Seq<char>|
                room != room_name@ ==> final(self).occupants_view(room) == old(self).occupants_view(
                    room,
                ),
    {
        let ghost prev = self.pairs();
        self.occupants.push(Occupant { room: room_name.to_owned(), user: username.to_owned() });
        proof {
            assert forall|j: int| 0 <= j < self.pairs().len() implies self.pairs()[j] == prev.push(
                (room_name@, username@),
            )[j] by {
                if j < prev.len() {
                    assert(self.occupants@[j] == old(self).occupants@[j]);
                }
            }
            assert(self.pairs() =~= prev.push((room_name@, username@)));
            assert forall|room: Seq<char>| #[trigger]
                users_in(self.pairs(), room) == if room == room_name@ {
                    users_in(prev, room).push(username@)
                } else {
                    users_in(prev, room)
                } by {
                lemma_users_in_snoc(prev, (room_name@, username@), room);
            }
        }
    }

    /// The usernames standing in `room_name`, in arrival order.
    pub fn get_occupants(&self, room_name: &str) -> (r: Vec<String>)
        ensures
            r.deep_view() == self.occupants_view(room_name@),
    {
        let mut out: Vec<String> = Vec::new();
        let mut i: usize = 0;
        while i < self.occupants.len()
            invariant
                i <= self.occupants.len(),
                out.deep_view() =~= users_in(self.pairs().take(i as int), room_name@),
            decreases self.occupants.len() - i,
        {
            proof {
                assert(out.deep_view().len() == out@.len());
                lemma_users_in_snoc(
                    self.pairs().take(i as int),
                    self.pairs()[i as int],
                    room_name@,
                );
                assert(self.pairs().take(i + 1) =~= self.pairs().take(i as int).push(
                    self.pairs()[i as int],
                ));
            }
            let ghost prevout = out.deep_view();
            let e = &self.occupants[i];
            if str_eq(e.room.as_str(), room_name) {
                out.push(e.user.clone());
                proof {
                    assert forall|j: int| 0 <= j < out.deep_view().len() implies out.deep_view()[j]
                        == prevout.push(e.user@)[j] by {
                        if j < prevout.len() {
                            assert(out.deep_view()[j] == prevout[j]);
                        } else {
                            assert(out.deep_view()[j] == e.user@);
                        }
                    }
                    assert(out.deep_view() =~= prevout.push(e.user@));
                    assert(self.pairs()[i as int].0 == room_name@);
                }
            } else {
                proof {
                    assert(self.pairs()[i as int].0 != room_name@);
                }
            }
            i = i + 1;
        }
        proof {
            assert(self.pairs().take(self.pairs().len() as int) =~= self.pairs());
        }
        out
    }

    /// Remove every occurrence of `username`, from every room.
    pub fn remove_user(&mut self, username: &str)
        ensures
            forall|room: Seq<char>|
                final(self).occupants_view(room) == drop_name(
                    old(self).occupants_view(room),
                    username@,
                ),
    {
        let ghost prev = self.pairs();
        let mut kept: Vec<Occupant> = Vec::new();
        let mut i: usize = 0;
        while i < self.occupants.len()
            invariant
                i <= self.occupants.len(),
                prev == self.pairs(),
                Seq::new(kept@.len(), |q: int| (kept@[q].room@, kept@[q].user@)) =~= drop_user(
                    prev.take(i as int),
                    username@,
                ),
            decreases self.occupants.len() - i,
        {
            proof {
                lemma_drop_user_snoc(prev.take(i as int), prev[i as int], username@);
                assert(prev.take(i + 1) =~= prev.take(i as int).push(prev[i as int]));
            }
            let ghost prevkept = Seq::new(kept@.len(), |q: int| (kept@[q].room@, kept@[q].user@));
            let ghost prevv = kept@;
            let e = &self.occupants[i];
            if !str_eq(e.user.as_str(), username) {
                kept.push(Occupant { room: e.room.clone(), user: e.user.clone() });
                proof {
                    let cur = Seq::new(kept@.len(), |q: int| (kept@[q].room@, kept@[q].user@));
                    assert forall|j: int| 0 <= j < cur.len() implies cur[j] == prevkept.push(
                        prev[i as int],
                    )[j] by {
                        if j < prevkept.len() {
                            assert(kept@[j] == prevv[j]);
                        }
                    }
                    assert(cur =~= prevkept.push(prev[i as int]));
                }
            } else {
                proof {
                    assert(prev[i as int].1 == username@);
                }
            }
            i = i + 1;
        }
        proof {
            assert(prev.take(prev.len() as int) =~= prev);
        }
        self.occupants = kept;
        proof {
            assert forall|room: Seq<char>| #[trigger] users_in(self.pairs(), room) == drop_name(
                users_in(prev, room),
                username@,
            ) by {
                lemma_users_in_drop_user(prev, username@, room);
            }
        }
    }

    /// Remove every occurrence of `username` from `room_name` alone.
    pub fn remove_user_from_room(&mut self, username: &str, room_name: &str)
        ensures
            final(self).occupants_view(room_name@) == drop_name(
                old(self).occupants_view(room_name@),
                username@,
            ),
            forall|room: Seq<char>|
                room != room_name@ ==> final(self).occupants_view(room) == old(self).occupants_view(
                    room,
                ),
    {
        let ghost prev = self.pairs();
        let mut kept: Vec<Occupant> = Vec::new();
        let mut i: usize = 0;
        while i < self.occupants.len()
            invariant
                i <= self.occupants.len(),
                prev == self.pairs(),
                Seq::new(kept@.len(), |q: int| (kept@[q].room@, kept@[q].user@))
                    =~= drop_user_in_room(prev.take(i as int), room_name@, username@),
            decreases self.occupants.len() - i,
        {
            proof {
                lemma_drop_user_in_room_snoc(
                    prev.take(i as int),
                    prev[i as int],
                    room_name@,
                    username@,
                );
                assert(prev.take(i + 1) =~= prev.take(i as int).push(prev[i as int]));
            }
            let ghost prevkept = Seq::new(kept@.len(), |q: int| (kept@[q].room@, kept@[q].user@));
            let ghost prevv = kept@;
            let e = &self.occupants[i];
            if str_eq(e.room.as_str(), room_name) && str_eq(e.user.as_str(), username) {
                proof {
                    assert(prev[i as int].0 == room_name@ && prev[i as int].1 == username@);
                }
            } else {
                kept.push(Occupant { room: e.room.clone(), user: e.user.clone() });
                proof {
                    let cur = Seq::new(kept@.len(), |q: int| (kept@[q].room@, kept@[q].user@));
                    assert forall|j: int| 0 <= j < cur.len() implies cur[j] == prevkept.push(
                        prev[i as int],
                    )[j] by {
                        if j < prevkept.len() {
                            assert(kept@[j] == prevv[j]);
                        }
                    }
                    assert(cur =~= prevkept.push(prev[i as int]));
                    assert(!(prev[i as int].0 == room_name@ && prev[i as int].1 == username@));
                }
            }
            i = i + 1;
        }
        proof {
            assert(prev.take(prev.len() as int) =~= prev);
        }
        self.occupants = kept;
        proof {
            assert forall|room: Seq<char>| #[trigger] users_in(self.pairs(), room) == if room
                == room_name@ {
                drop_name(users_in(prev, room), username@)
            } else {
                users_in(prev, room)
            } by {
                lemma_users_in_drop_user_in_room(prev, room_name@, username@, room);
            }
        }
    }
}

/// Appending a pair to the input of `drop_user` appends it to the output
/// exactly when its username differs.
pub proof fn lemma_drop_user_snoc(
    ps: Seq<(Seq<char>, Seq<char>)>,
    p: (Seq<char>, Seq<char>),
    u: Seq<char>,
)
    ensures
        drop_user(ps.push(p), u) == if p.1 == u {
            drop_user(ps, u)
        } else {
            drop_user(ps, u).push(p)
        },
    decreases ps.len(),
{
    let pushed = ps.push(p);
    if ps.len() == 0 {
        assert(pushed[0] == p);
        assert(pushed.drop_first() =~= Seq::<(Seq<char>, Seq<char>)>::empty());
        assert(ps =~= Seq::<(Seq<char>, Seq<char>)>::empty());
        assert(drop_user(Seq::<(Seq<char>, Seq<char>)>::empty(), u) == Seq::<
            (Seq<char>, Seq<char>),
        >::empty());
        if p.1 != u {
            assert(seq![p] + Seq::<(Seq<char>, Seq<char>)>::empty() =~= Seq::<
                (Seq<char>, Seq<char>),
            >::empty().push(p));
        }
    } else {
        assert(pushed[0] == ps[0]);
        assert(pushed.drop_first() =~= ps.drop_first().push(p));
        lemma_drop_user_snoc(ps.drop_first(), p, u);
        if p.1 != u && ps[0].1 != u {
            assert(seq![ps[0]] + drop_user(ps.drop_first(), u).push(p) =~= (seq![ps[0]]
                + drop_user(ps.drop_first(), u)).push(p));
        }
    }
}

/// Appending a pair to the input of `drop_user_in_room` appends it to the
/// output exactly when it is not the dropped combination.
pub proof fn lemma_drop_user_in_room_snoc(
    ps: Seq<(Seq<char>, Seq<char>)>,
    p: (Seq<char>, Seq<char>),
    room: Seq<char>,
    u: Seq<char>,
)
    ensures
        drop_user_in_room(ps.push(p), room, u) == if p.0 == room && p.1 == u {
            drop_user_in_room(ps, room, u)
        } else {
            drop_user_in_room(ps, room, u).push(p)
        },
    decreases ps.len(),
{
    let pushed = ps.push(p);
    if ps.len() == 0 {
        assert(pushed[0] == p);
        assert(pushed.drop_first() =~= Seq::<(Seq<char>, Seq<char>)>::empty());
        assert(ps =~= Seq::<(Seq<char>, Seq<char>)>::empty());
        assert(drop_user_in_room(Seq::<(Seq<char>, Seq<char>)>::empty(), room, u) == Seq::<
            (Seq<char>, Seq<char>),
        >::empty());
        if !(p.0 == room && p.1 == u) {
            assert(seq![p] + Seq::<(Seq<char>, Seq<char>)>::empty() =~= Seq::<
                (Seq<char>, Seq<char>),
            >::empty().push(p));
        }
    } else {
        assert(pushed[0] == ps[0]);
        assert(pushed.drop_first() =~= ps.drop_first().push(p));
        lemma_drop_user_in_room_snoc(ps.drop_first(), p, room, u);
        if !(p.0 == room && p.1 == u) && !(ps[0].0 == room && ps[0].1 == u) {
            assert(seq![ps[0]] + drop_user_in_room(ps.drop_first(), room, u).push(p) =~= (
            seq![ps[0]] + drop_user_in_room(ps.drop_first(), room, u)).push(p));
        }
    }
}

} // verus!
