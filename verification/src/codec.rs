//! The wire codec: a deterministic binary serialization of the protocol
//! messages.
//!
//! Layout: one tag byte selects the variant, followed by the variant's
//! fields in order.  A string is a big-endian `u32` byte count followed by
//! its UTF-8 bytes; a list is a big-endian `u32` element count followed by
//! the elements; a boolean is a single `0` or `1` byte.  A payload larger
//! than [`MAX_PAYLOAD`] bytes is never produced and never accepted.

use vstd::prelude::*;
use vstd::slice::{slice_subrange, slice_to_vec};
use vstd::string::StringSliceAdditionalSpecFns;
use vstd::utf8::{decode_utf8, encode_utf8, encode_utf8_decode_utf8, encode_utf8_valid_utf8,
    valid_utf8};

use crate::proto::{MessageView, MudMessage};
use crate::rooms::{Exit, ExitView, Room, RoomView};

verus! {

/// The hard cap on a frame's payload, in bytes.  A peer declaring a larger
/// frame is cut off before any payload is read.
pub const MAX_PAYLOAD: usize = 10000;

/// Errors of the wire protocol.  Every one of them is fatal to the
/// connection that produced it, never to the server.
#[derive(Debug, PartialEq, Eq, Structural)]
pub enum ProtocolError {
    /// A frame's payload would exceed [`MAX_PAYLOAD`] bytes.
    FrameTooLarge,
    /// The bytes do not parse as any known message variant.
    Malformed,
}

// ------------------------------------------------------------------
// Big-endian u32
// ------------------------------------------------------------------
/// The four big-endian bytes of `x`.
pub open spec fn be32(x: u32) -> Seq<u8> {
    seq![
        ((x >> 24) & 0xff) as u8,
        ((x >> 16) & 0xff) as u8,
        ((x >> 8) & 0xff) as u8,
        (x & 0xff) as u8,
    ]
}

/// The `u32` read big-endian from four bytes.
pub open spec fn de32(s: Seq<u8>) -> u32
    recommends
        s.len() == 4,
{
    ((s[0] as u32) << 24) | ((s[1] as u32) << 16) | ((s[2] as u32) << 8) | (s[3] as u32)
}

/// Reading back the four big-endian bytes of `x` yields `x`.
pub proof fn lemma_de32_be32(x: u32)
    ensures
        be32(x).len() == 4,
        de32(be32(x)) == x,
{
    assert({
        &&& (x >> 24) & 0xff < 256
        &&& (x >> 16) & 0xff < 256
        &&& (x >> 8) & 0xff < 256
        &&& x & 0xff < 256
    }) by (bit_vector);
    assert(x == (((x >> 24) & 0xff) << 24) | (((x >> 16) & 0xff) << 16) | (((x >> 8) & 0xff) << 8)
        | (x & 0xff)) by (bit_vector);
}

// ------------------------------------------------------------------
// Specification of the encoding
// ------------------------------------------------------------------
/// A string: byte count, then UTF-8 bytes.
pub open spec fn enc_str(s: Seq<char>) -> Seq<u8> {
    be32(encode_utf8(s).len() as u32) + encode_utf8(s)
}

/// A boolean: one byte, `1` for true.
pub open spec fn enc_bool(b: bool) -> Seq<u8> {
    if b {
        seq![1u8]
    } else {
        seq![0u8]
    }
}

/// An exit: direction, then target room name.
pub open spec fn enc_exit(e: ExitView) -> Seq<u8> {
    enc_str(e.direction) + enc_str(e.room_name)
}

/// The elements of an exit list, in order.
pub open spec fn enc_exit_list(es: Seq<ExitView>) -> Seq<u8>
    decreases es.len(),
{
    if es.len() == 0 {
        Seq::empty()
    } else {
        enc_exit(es[0]) + enc_exit_list(es.drop_first())
    }
}

/// An exit list: element count, then the elements.
pub open spec fn enc_exits(es: Seq<ExitView>) -> Seq<u8> {
    be32(es.len() as u32) + enc_exit_list(es)
}

/// The elements of a name list, in order.
pub open spec fn enc_name_list(ns: Seq<Seq<char>>) -> Seq<u8>
    decreases ns.len(),
{
    if ns.len() == 0 {
        Seq::empty()
    } else {
        enc_str(ns[0]) + enc_name_list(ns.drop_first())
    }
}

/// A name list: element count, then the names.
pub open spec fn enc_names(ns: Seq<Seq<char>>) -> Seq<u8> {
    be32(ns.len() as u32) + enc_name_list(ns)
}

/// A room: name, description, exits, start flag.
pub open spec fn enc_room(r: RoomView) -> Seq<u8> {
    enc_str(r.name) + enc_str(r.description) + enc_exits(r.exits) + enc_bool(r.start)
}

/// The payload encoding a message: a tag byte, then the variant's fields.
pub open spec fn spec_encode(m: MessageView) -> Seq<u8> {
    match m {
        MessageView::Login { username, password } => seq![0u8] + enc_str(username) + enc_str(
            password,
        ),
        MessageView::LoginSuccess => seq![1u8],
        MessageView::LoginFail => seq![2u8],
        MessageView::EnterRoom { room, other_players } => seq![3u8] + enc_room(room) + enc_names(
            other_players,
        ),
        MessageView::TryExit { direction } => seq![4u8] + enc_str(direction),
        MessageView::Disconnect => seq![5u8],
        MessageView::Ping => seq![6u8],
        MessageView::PlayerEnteredRoom { username } => seq![7u8] + enc_str(username),
        MessageView::PlayerLeftRoom { username, direction } => seq![8u8] + enc_str(username)
            + enc_str(direction),
        MessageView::PlayerSpeak { username, message } => seq![9u8] + enc_str(username) + enc_str(
            message,
        ),
    }
}

/// A message can be put on the wire exactly when its payload fits the cap.
pub open spec fn encodable(m: MessageView) -> bool {
    spec_encode(m).len() <= MAX_PAYLOAD
}

// ------------------------------------------------------------------
// Specification of the parser
// ------------------------------------------------------------------
/// Parse a big-endian `u32` at `i`.
pub open spec fn p_u32(b: Seq<u8>, i: int) -> Option<(u32, int)> {
    if 0 <= i && i + 4 <= b.len() {
        Some((de32(b.subrange(i, i + 4)), i + 4))
    } else {
        None
    }
}

/// Parse a length-prefixed UTF-8 string at `i`.
pub open spec fn p_str(b: Seq<u8>, i: int) -> Option<(Seq<char>, int)> {
    match p_u32(b, i) {
        Some((n, j)) => if j + n <= b.len() && valid_utf8(b.subrange(j, j + n)) {
            Some((decode_utf8(b.subrange(j, j + n)), j + n))
        } else {
            None
        },
        None => None,
    }
}

/// Parse a boolean byte at `i`.
pub open spec fn p_bool(b: Seq<u8>, i: int) -> Option<(bool, int)> {
    if 0 <= i && i + 1 <= b.len() && (b[i] == 0 || b[i] == 1) {
        Some((b[i] == 1, i + 1))
    } else {
        None
    }
}

/// Parse an exit at `i`.
pub open spec fn p_exit(b: Seq<u8>, i: int) -> Option<(ExitView, int)> {
    match p_str(b, i) {
        Some((direction, j)) => match p_str(b, j) {
            Some((room_name, k)) => Some((ExitView { direction, room_name }, k)),
            None => None,
        },
        None => None,
    }
}

/// Parse exactly `n` exits starting at `i`.
pub open spec fn p_exit_list(b: Seq<u8>, i: int, n: nat) -> Option<(Seq<ExitView>, int)>
    decreases n,
{
    if n == 0 {
        Some((Seq::empty(), i))
    } else {
        match p_exit(b, i) {
            Some((e, j)) => match p_exit_list(b, j, (n - 1) as nat) {
                Some((es, k)) => Some((seq![e] + es, k)),
                None => None,
            },
            None => None,
        }
    }
}

/// Parse a counted exit list at `i`.
pub open spec fn p_exits(b: Seq<u8>, i: int) -> Option<(Seq<ExitView>, int)> {
    match p_u32(b, i) {
        Some((n, j)) => p_exit_list(b, j, n as nat),
        None => None,
    }
}

/// Parse exactly `n` names starting at `i`.
pub open spec fn p_name_list(b: Seq<u8>, i: int, n: nat) -> Option<(Seq<Seq<char>>, int)>
    decreases n,
{
    if n == 0 {
        Some((Seq::empty(), i))
    } else {
        match p_str(b, i) {
            Some((s, j)) => match p_name_list(b, j, (n - 1) as nat) {
                Some((ns, k)) => Some((seq![s] + ns, k)),
                None => None,
            },
            None => None,
        }
    }
}

/// Parse a counted name list at `i`.
pub open spec fn p_names(b: Seq<u8>, i: int) -> Option<(Seq<Seq<char>>, int)> {
    match p_u32(b, i) {
        Some((n, j)) => p_name_list(b, j, n as nat),
        None => None,
    }
}

/// Parse a room at `i`.
pub open spec fn p_room(b: Seq<u8>, i: int) -> Option<(RoomView, int)> {
    match p_str(b, i) {
        Some((name, j1)) => match p_str(b, j1) {
            Some((description, j2)) => match p_exits(b, j2) {
                Some((exits, j3)) => match p_bool(b, j3) {
                    Some((start, j4)) => Some((RoomView { name, description, exits, start }, j4)),
                    None => None,
                },
                None => None,
            },
            None => None,
        },
        None => None,
    }
}

/// Decode a whole payload: the tag byte selects the variant, the fields
/// follow, and every byte must be consumed.
pub open spec fn spec_decode(b: Seq<u8>) -> Option<MessageView> {
    if b.len() < 1 {
        None
    } else {
        let tag = b[0];
        if tag == 0 {
            match p_str(b, 1) {
                Some((username, i)) => match p_str(b, i) {
                    Some((password, j)) => if j == b.len() {
                        Some(MessageView::Login { username, password })
                    } else {
                        None
                    },
                    None => None,
                },
                None => None,
            }
        } else if tag == 1 {
            if b.len() == 1 {
                Some(MessageView::LoginSuccess)
            } else {
                None
            }
        } else if tag == 2 {
            if b.len() == 1 {
                Some(MessageView::LoginFail)
            } else {
                None
            }
        } else if tag == 3 {
            match p_room(b, 1) {
                Some((room, i)) => match p_names(b, i) {
                    Some((other_players, j)) => if j == b.len() {
                        Some(MessageView::EnterRoom { room, other_players })
                    } else {
                        None
                    },
                    None => None,
                },
                None => None,
            }
        } else if tag == 4 {
            match p_str(b, 1) {
                Some((direction, i)) => if i == b.len() {
                    Some(MessageView::TryExit { direction })
                } else {
                    None
                },
                None => None,
            }
        } else if tag == 5 {
            if b.len() == 1 {
                Some(MessageView::Disconnect)
            } else {
                None
            }
        } else if tag == 6 {
            if b.len() == 1 {
                Some(MessageView::Ping)
            } else {
                None
            }
        } else if tag == 7 {
            match p_str(b, 1) {
                Some((username, i)) => if i == b.len() {
                    Some(MessageView::PlayerEnteredRoom { username })
                } else {
                    None
                },
                None => None,
            }
        } else if tag == 8 {
            match p_str(b, 1) {
                Some((username, i)) => match p_str(b, i) {
                    Some((direction, j)) => if j == b.len() {
                        Some(MessageView::PlayerLeftRoom { username, direction })
                    } else {
                        None
                    },
                    None => None,
                },
                None => None,
            }
        } else if tag == 9 {
            match p_str(b, 1) {
                Some((username, i)) => match p_str(b, i) {
                    Some((message, j)) => if j == b.len() {
                        Some(MessageView::PlayerSpeak { username, message })
                    } else {
                        None
                    },
                    None => None,
                },
                None => None,
            }
        } else {
            None
        }
    }
}

// ------------------------------------------------------------------
// Size bounds
// ------------------------------------------------------------------
/// A string whose byte-count prefix fits in a `u32`.
pub open spec fn str_fits(s: Seq<char>) -> bool {
    encode_utf8(s).len() <= 0xffffffff
}

/// An exit both of whose strings fit.
pub open spec fn exit_fits(e: ExitView) -> bool {
    str_fits(e.direction) && str_fits(e.room_name)
}

/// An exit list takes at least eight bytes per element, and at least as
/// many bytes as any one of its elements.
pub proof fn lemma_enc_exit_list_len(es: Seq<ExitView>)
    ensures
        enc_exit_list(es).len() >= 8 * es.len(),
        forall|k: int|
            0 <= k < es.len() ==> enc_exit_list(es).len() >= enc_exit(#[trigger] es[k]).len(),
    decreases es.len(),
{
    if es.len() > 0 {
        lemma_enc_exit_list_len(es.drop_first());
        assert forall|k: int|
            0 <= k < es.len() implies enc_exit_list(es).len() >= enc_exit(
            #[trigger] es[k],
        ).len() by {
            if k > 0 {
                assert(es.drop_first()[k - 1] == es[k]);
            }
        }
    }
}

/// A name list takes at least four bytes per element, and at least as many
/// bytes as any one of its names' encodings.
pub proof fn lemma_enc_name_list_len(ns: Seq<Seq<char>>)
    ensures
        enc_name_list(ns).len() >= 4 * ns.len(),
        forall|k: int|
            0 <= k < ns.len() ==> enc_name_list(ns).len() >= enc_str(#[trigger] ns[k]).len(),
    decreases ns.len(),
{
    if ns.len() > 0 {
        lemma_enc_name_list_len(ns.drop_first());
        assert forall|k: int|
            0 <= k < ns.len() implies enc_name_list(ns).len() >= enc_str(#[trigger] ns[k]).len() by {
            if k > 0 {
                assert(ns.drop_first()[k - 1] == ns[k]);
            }
        }
    }
}

// ------------------------------------------------------------------
// Inversion: parsing an encoding yields the encoded value
// ------------------------------------------------------------------
/// Splitting a subrange equality over a concatenation.
pub proof fn lemma_split(b: Seq<u8>, i: int, x: Seq<u8>, y: Seq<u8>)
    requires
        0 <= i,
        i + x.len() + y.len() <= b.len(),
        b.subrange(i, i + x.len() + y.len()) == x + y,
    ensures
        b.subrange(i, i + x.len()) == x,
        b.subrange(i + x.len(), i + x.len() + y.len()) == y,
{
    let xl = x.len() as int;
    let yl = y.len() as int;
    assert forall|k: int| 0 <= k < xl implies b.subrange(i, i + xl)[k] == x[k] by {
        assert(b.subrange(i, i + xl + yl)[k] == (x + y)[k]);
    }
    assert(b.subrange(i, i + xl) =~= x);
    assert forall|k: int| 0 <= k < yl implies b.subrange(i + xl, i + xl + yl)[k] == y[k] by {
        assert(b.subrange(i, i + xl + yl)[xl + k] == (x + y)[xl + k]);
    }
    assert(b.subrange(i + xl, i + xl + yl) =~= y);
}

/// Parsing four bytes that encode `x` yields `x`.
pub proof fn lemma_p_u32_inv(b: Seq<u8>, i: int, x: u32)
    requires
        0 <= i,
        i + 4 <= b.len(),
        b.subrange(i, i + 4) == be32(x),
    ensures
        p_u32(b, i) == Some((x, i + 4)),
{
    lemma_de32_be32(x);
}

/// Parsing the encoding of a string yields the string.
pub proof fn lemma_p_str_inv(b: Seq<u8>, i: int, s: Seq<char>)
    requires
        str_fits(s),
        0 <= i,
        i + enc_str(s).len() <= b.len(),
        b.subrange(i, i + enc_str(s).len()) == enc_str(s),
    ensures
        p_str(b, i) == Some((s, i + enc_str(s).len())),
{
    let e = encode_utf8(s);
    let n = e.len() as u32;
    lemma_split(b, i, be32(n), e);
    lemma_p_u32_inv(b, i, n);
    encode_utf8_valid_utf8(s);
    encode_utf8_decode_utf8(s);
    assert(b.subrange(i + 4, i + 4 + e.len()) == e);
}

/// Parsing the encoding of a boolean yields the boolean.
pub proof fn lemma_p_bool_inv(b: Seq<u8>, i: int, v: bool)
    requires
        0 <= i,
        i + 1 <= b.len(),
        b.subrange(i, i + 1) == enc_bool(v),
    ensures
        p_bool(b, i) == Some((v, i + 1)),
{
    assert(b[i] == b.subrange(i, i + 1)[0]);
}

/// Parsing the encoding of an exit yields the exit.
pub proof fn lemma_p_exit_inv(b: Seq<u8>, i: int, e: ExitView)
    requires
        exit_fits(e),
        0 <= i,
        i + enc_exit(e).len() <= b.len(),
        b.subrange(i, i + enc_exit(e).len()) == enc_exit(e),
    ensures
        p_exit(b, i) == Some((e, i + enc_exit(e).len())),
{
    lemma_split(b, i, enc_str(e.direction), enc_str(e.room_name));
    lemma_p_str_inv(b, i, e.direction);
    lemma_p_str_inv(b, i + enc_str(e.direction).len(), e.room_name);
}

/// Parsing the encoding of an exit list, with its length as the count,
/// yields the list.
pub proof fn lemma_p_exit_list_inv(b: Seq<u8>, i: int, es: Seq<ExitView>)
    requires
        forall|k: int| 0 <= k < es.len() ==> exit_fits(#[trigger] es[k]),
        0 <= i,
        i + enc_exit_list(es).len() <= b.len(),
        b.subrange(i, i + enc_exit_list(es).len()) == enc_exit_list(es),
    ensures
        p_exit_list(b, i, es.len() as nat) == Some((es, i + enc_exit_list(es).len())),
    decreases es.len(),
{
    if es.len() == 0 {
        assert(es =~= Seq::<ExitView>::empty());
    } else {
        let head = es[0];
        let tail = es.drop_first();
        lemma_split(b, i, enc_exit(head), enc_exit_list(tail));
        lemma_p_exit_inv(b, i, head);
        assert forall|k: int| 0 <= k < tail.len() implies exit_fits(#[trigger] tail[k]) by {
            assert(tail[k] == es[k + 1]);
        }
        lemma_p_exit_list_inv(b, i + enc_exit(head).len(), tail);
        assert(seq![head] + tail =~= es);
    }
}

/// Parsing the encoding of a counted exit list yields the list.
pub proof fn lemma_p_exits_inv(b: Seq<u8>, i: int, es: Seq<ExitView>)
    requires
        es.len() <= 0xffffffff,
        forall|k: int| 0 <= k < es.len() ==> exit_fits(#[trigger] es[k]),
        0 <= i,
        i + enc_exits(es).len() <= b.len(),
        b.subrange(i, i + enc_exits(es).len()) == enc_exits(es),
    ensures
        p_exits(b, i) == Some((es, i + enc_exits(es).len())),
{
    let n = es.len() as u32;
    lemma_split(b, i, be32(n), enc_exit_list(es));
    lemma_p_u32_inv(b, i, n);
    lemma_p_exit_list_inv(b, i + 4, es);
}

/// Parsing the encoding of a name list, with its length as the count,
/// yields the list.
pub proof fn lemma_p_name_list_inv(b: Seq<u8>, i: int, ns: Seq<Seq<char>>)
    requires
        forall|k: int| 0 <= k < ns.len() ==> str_fits(#[trigger] ns[k]),
        0 <= i,
        i + enc_name_list(ns).len() <= b.len(),
        b.subrange(i, i + enc_name_list(ns).len()) == enc_name_list(ns),
    ensures
        p_name_list(b, i, ns.len() as nat) == Some((ns, i + enc_name_list(ns).len())),
    decreases ns.len(),
{
    if ns.len() == 0 {
        assert(ns =~= Seq::<Seq<char>>::empty());
    } else {
        let head = ns[0];
        let tail = ns.drop_first();
        lemma_split(b, i, enc_str(head), enc_name_list(tail));
        lemma_p_str_inv(b, i, head);
        assert forall|k: int| 0 <= k < tail.len() implies str_fits(#[trigger] tail[k]) by {
            assert(tail[k] == ns[k + 1]);
        }
        lemma_p_name_list_inv(b, i + enc_str(head).len(), tail);
        assert(seq![head] + tail =~= ns);
    }
}

/// Parsing the encoding of a counted name list yields the list.
pub proof fn lemma_p_names_inv(b: Seq<u8>, i: int, ns: Seq<Seq<char>>)
    requires
        ns.len() <= 0xffffffff,
        forall|k: int| 0 <= k < ns.len() ==> str_fits(#[trigger] ns[k]),
        0 <= i,
        i + enc_names(ns).len() <= b.len(),
        b.subrange(i, i + enc_names(ns).len()) == enc_names(ns),
    ensures
        p_names(b, i) == Some((ns, i + enc_names(ns).len())),
{
    let n = ns.len() as u32;
    lemma_split(b, i, be32(n), enc_name_list(ns));
    lemma_p_u32_inv(b, i, n);
    lemma_p_name_list_inv(b, i + 4, ns);
}

/// A room all of whose components fit their length prefixes.
pub open spec fn room_fits(r: RoomView) -> bool {
    &&& str_fits(r.name)
    &&& str_fits(r.description)
    &&& r.exits.len() <= 0xffffffff
    &&& forall|k: int| 0 <= k < r.exits.len() ==> exit_fits(#[trigger] r.exits[k])
}

/// Parsing the encoding of a room yields the room.
pub proof fn lemma_p_room_inv(b: Seq<u8>, i: int, r: RoomView)
    requires
        room_fits(r),
        0 <= i,
        i + enc_room(r).len() <= b.len(),
        b.subrange(i, i + enc_room(r).len()) == enc_room(r),
    ensures
        p_room(b, i) == Some((r, i + enc_room(r).len())),
{
    let s1 = enc_str(r.name);
    let s2 = enc_str(r.description);
    let s3 = enc_exits(r.exits);
    let s4 = enc_bool(r.start);
    assert(enc_room(r) =~= s1 + (s2 + (s3 + s4)));
    lemma_split(b, i, s1, s2 + (s3 + s4));
    let i1 = i + s1.len();
    assert((s2 + (s3 + s4)).len() == s2.len() + s3.len() + s4.len());
    lemma_split(b, i1, s2, s3 + s4);
    let i2 = i1 + s2.len();
    lemma_split(b, i2, s3, s4);
    let i3 = i2 + s3.len();
    lemma_p_str_inv(b, i, r.name);
    lemma_p_str_inv(b, i1, r.description);
    lemma_p_exits_inv(b, i2, r.exits);
    lemma_p_bool_inv(b, i3, r.start);
}

/// Every component of a message that fits a frame also fits its length
/// prefix.
pub proof fn lemma_encodable_bounds(m: MessageView)
    requires
        encodable(m),
    ensures
        match m {
            MessageView::Login { username, password } => str_fits(username) && str_fits(password),
            MessageView::LoginSuccess => true,
            MessageView::LoginFail => true,
            MessageView::EnterRoom { room, other_players } => room_fits(room)
                && other_players.len() <= 0xffffffff && forall|k: int|
                0 <= k < other_players.len() ==> str_fits(#[trigger] other_players[k]),
            MessageView::TryExit { direction } => str_fits(direction),
            MessageView::Disconnect => true,
            MessageView::Ping => true,
            MessageView::PlayerEnteredRoom { username } => str_fits(username),
            MessageView::PlayerLeftRoom { username, direction } => str_fits(username) && str_fits(
                direction,
            ),
            MessageView::PlayerSpeak { username, message } => str_fits(username) && str_fits(
                message,
            ),
        },
{
    match m {
        MessageView::EnterRoom { room, other_players } => {
            lemma_enc_exit_list_len(room.exits);
            lemma_enc_name_list_len(other_players);
            assert forall|k: int|
                0 <= k < room.exits.len() implies exit_fits(#[trigger] room.exits[k]) by {
                assert(enc_exit_list(room.exits).len() >= enc_exit(room.exits[k]).len());
            }
            assert forall|k: int|
                0 <= k < other_players.len() implies str_fits(#[trigger] other_players[k]) by {
                assert(enc_name_list(other_players).len() >= enc_str(other_players[k]).len());
            }
        },
        _ => {},
    }
}

/// Appending one exit extends the element encoding by that exit's encoding.
pub proof fn lemma_enc_exit_list_snoc(es: Seq<ExitView>, e: ExitView)
    ensures
        enc_exit_list(es.push(e)) == enc_exit_list(es) + enc_exit(e),
    decreases es.len(),
{
    let pushed = es.push(e);
    if es.len() == 0 {
        assert(pushed[0] == e);
        assert(pushed.drop_first() =~= Seq::<ExitView>::empty());
        assert(enc_exit_list(Seq::<ExitView>::empty()) == Seq::<u8>::empty());
        assert(es =~= Seq::<ExitView>::empty());
        assert(enc_exit(e) + Seq::<u8>::empty() =~= Seq::<u8>::empty() + enc_exit(e));
        assert(enc_exit_list(pushed) =~= enc_exit_list(es) + enc_exit(e));
    } else {
        assert(pushed[0] == es[0]);
        assert(pushed.drop_first() =~= es.drop_first().push(e));
        lemma_enc_exit_list_snoc(es.drop_first(), e);
        assert(enc_exit(es[0]) + (enc_exit_list(es.drop_first()) + enc_exit(e)) =~= (enc_exit(
            es[0],
        ) + enc_exit_list(es.drop_first())) + enc_exit(e));
        assert(enc_exit_list(pushed) =~= enc_exit_list(es) + enc_exit(e));
    }
}

/// Appending one name extends the element encoding by that name's encoding.
pub proof fn lemma_enc_name_list_snoc(ns: Seq<Seq<char>>, s: Seq<char>)
    ensures
        enc_name_list(ns.push(s)) == enc_name_list(ns) + enc_str(s),
    decreases ns.len(),
{
    let pushed = ns.push(s);
    if ns.len() == 0 {
        assert(pushed[0] == s);
        assert(pushed.drop_first() =~= Seq::<Seq<char>>::empty());
        assert(enc_name_list(Seq::<Seq<char>>::empty()) == Seq::<u8>::empty());
        assert(ns =~= Seq::<Seq<char>>::empty());
        assert(enc_str(s) + Seq::<u8>::empty() =~= Seq::<u8>::empty() + enc_str(s));
        assert(enc_name_list(pushed) =~= enc_name_list(ns) + enc_str(s));
    } else {
        assert(pushed[0] == ns[0]);
        assert(pushed.drop_first() =~= ns.drop_first().push(s));
        lemma_enc_name_list_snoc(ns.drop_first(), s);
        assert(enc_str(ns[0]) + (enc_name_list(ns.drop_first()) + enc_str(s)) =~= (enc_str(ns[0])
            + enc_name_list(ns.drop_first())) + enc_str(s));
        assert(enc_name_list(pushed) =~= enc_name_list(ns) + enc_str(s));
    }
}

// ------------------------------------------------------------------
// Executable encoder
// ------------------------------------------------------------------
/// Append the four big-endian bytes of `x`.
pub(crate) fn push_u32(out: &mut Vec<u8>, x: u32)
    ensures
        final(out)@ == old(out)@ + be32(x),
{
    proof {
        assert({
            &&& (x >> 24) & 0xff < 256
            &&& (x >> 16) & 0xff < 256
            &&& (x >> 8) & 0xff < 256
            &&& x & 0xff < 256
        }) by (bit_vector);
    }
    out.push(((x >> 24) & 0xff) as u8);
    out.push(((x >> 16) & 0xff) as u8);
    out.push(((x >> 8) & 0xff) as u8);
    out.push((x & 0xff) as u8);
    proof {
        assert(out@ =~= old(out)@ + be32(x));
    }
}

/// Append the encoding of a string; fails only when the string's UTF-8 form
/// cannot carry a `u32` byte count.
fn push_str(out: &mut Vec<u8>, s: &str) -> (ok: bool)
    ensures
        ok ==> final(out)@ == old(out)@ + enc_str(s@) && encode_utf8(s@).len() <= 0xffffffff,
        !ok ==> encode_utf8(s@).len() > 0xffffffff,
{
    let bs = s.as_bytes();
    if bs.len() as u64 > 0xffffffffu64 {
        return false;
    }
    let n = bs.len() as u32;
    push_u32(out, n);
    let ghost mid = out@;
    let mut k: usize = 0;
    while k < bs.len()
        invariant
            k <= bs.len(),
            bs@ == encode_utf8(s@),
            out@ == mid + bs@.take(k as int),
        decreases bs.len() - k,
    {
        out.push(bs[k]);
        proof {
            assert(out@ =~= mid + bs@.take(k + 1));
        }
        k = k + 1;
    }
    proof {
        assert(bs@.take(bs@.len() as int) =~= bs@);
        assert(out@ =~= old(out)@ + enc_str(s@));
    }
    true
}

/// Append the boolean byte.
fn push_bool(out: &mut Vec<u8>, v: bool)
    ensures
        final(out)@ == old(out)@ + enc_bool(v),
{
    out.push(if v {
        1u8
    } else {
        0u8
    });
    proof {
        assert(out@ =~= old(out)@ + enc_bool(v));
    }
}

/// Append the encoding of a counted exit list; fails only when the list
/// cannot fit any frame.
fn push_exits(out: &mut Vec<u8>, exits: &Vec<Exit>) -> (ok: bool)
    ensures
        ok ==> final(out)@ == old(out)@ + enc_exits(exits.deep_view()),
        !ok ==> enc_exits(exits.deep_view()).len() > MAX_PAYLOAD,
{
    let ghost dv = exits.deep_view();
    if exits.len() as u64 > 0xffffffffu64 {
        proof {
            lemma_enc_exit_list_len(dv);
        }
        return false;
    }
    let n = exits.len() as u32;
    push_u32(out, n);
    let ghost mid = out@;
    let mut i: usize = 0;
    while i < exits.len()
        invariant
            i <= exits.len(),
            dv == exits.deep_view(),
            n as int == dv.len(),
            out@ == mid + enc_exit_list(dv.take(i as int)),
        decreases exits.len() - i,
    {
        proof {
            lemma_enc_exit_list_snoc(dv.take(i as int), dv[i as int]);
            assert(dv.take(i + 1) =~= dv.take(i as int).push(dv[i as int]));
        }
        let e = &exits[i];
        if !push_str(out, e.direction.as_str()) {
            proof {
                lemma_enc_exit_list_len(dv);
                assert(enc_exit_list(dv).len() >= enc_exit(dv[i as int]).len());
            }
            return false;
        }
        if !push_str(out, e.room_name.as_str()) {
            proof {
                lemma_enc_exit_list_len(dv);
                assert(enc_exit_list(dv).len() >= enc_exit(dv[i as int]).len());
            }
            return false;
        }
        proof {
            assert(out@ =~= mid + enc_exit_list(dv.take(i + 1)));
        }
        i = i + 1;
    }
    proof {
        assert(dv.take(dv.len() as int) =~= dv);
        assert(out@ =~= old(out)@ + enc_exits(dv));
    }
    true
}

/// Append the encoding of a counted name list; fails only when the list
/// cannot fit any frame.
fn push_names(out: &mut Vec<u8>, names: &Vec<String>) -> (ok: bool)
    ensures
        ok ==> final(out)@ == old(out)@ + enc_names(names.deep_view()),
        !ok ==> enc_names(names.deep_view()).len() > MAX_PAYLOAD,
{
    let ghost dv = names.deep_view();
    if names.len() as u64 > 0xffffffffu64 {
        proof {
            lemma_enc_name_list_len(dv);
        }
        return false;
    }
    let n = names.len() as u32;
    push_u32(out, n);
    let ghost mid = out@;
    let mut i: usize = 0;
    while i < names.len()
        invariant
            i <= names.len(),
            dv == names.deep_view(),
            n as int == dv.len(),
            out@ == mid + enc_name_list(dv.take(i as int)),
        decreases names.len() - i,
    {
        proof {
            lemma_enc_name_list_snoc(dv.take(i as int), dv[i as int]);
            assert(dv.take(i + 1) =~= dv.take(i as int).push(dv[i as int]));
        }
        if !push_str(out, names[i].as_str()) {
            proof {
                lemma_enc_name_list_len(dv);
                assert(enc_name_list(dv).len() >= enc_str(dv[i as int]).len());
            }
            return false;
        }
        proof {
            assert(out@ =~= mid + enc_name_list(dv.take(i + 1)));
        }
        i = i + 1;
    }
    proof {
        assert(dv.take(dv.len() as int) =~= dv);
        assert(out@ =~= old(out)@ + enc_names(dv));
    }
    true
}

/// Append the encoding of a room; fails only when the room cannot fit any
/// frame.
fn push_room(out: &mut Vec<u8>, room: &Room) -> (ok: bool)
    ensures
        ok ==> final(out)@ == old(out)@ + enc_room(room@),
        !ok ==> enc_room(room@).len() > MAX_PAYLOAD,
{
    if !push_str(out, room.name.as_str()) {
        return false;
    }
    if !push_str(out, room.description.as_str()) {
        return false;
    }
    if !push_exits(out, &room.exits) {
        return false;
    }
    push_bool(out, room.start);
    proof {
        assert(out@ =~= old(out)@ + enc_room(room@));
    }
    true
}

impl MudMessage {
    /// Serialize this message into a payload.
    ///
    /// Returns the payload bytes exactly when they fit the frame cap of
    /// [`MAX_PAYLOAD`] bytes, and `FrameTooLarge` otherwise.
    pub fn to_bytes(&self) -> (r: Result<Vec<u8>, ProtocolError>)
        ensures
            match r {
                Ok(v) => v@ == spec_encode(self@) && encodable(self@),
                Err(e) => e == ProtocolError::FrameTooLarge && !encodable(self@),
            },
    {
        let mut out: Vec<u8> = Vec::new();
        match self {
            MudMessage::Login { username, password } => {
                out.push(0u8);
                if !push_str(&mut out, username.as_str()) {
                    return Err(ProtocolError::FrameTooLarge);
                }
                if !push_str(&mut out, password.as_str()) {
                    return Err(ProtocolError::FrameTooLarge);
                }
                proof {
                    assert(out@ =~= spec_encode(self@));
                }
            },
            MudMessage::LoginSuccess => {
                out.push(1u8);
                proof {
                    assert(out@ =~= spec_encode(self@));
                }
            },
            MudMessage::LoginFail => {
                out.push(2u8);
                proof {
                    assert(out@ =~= spec_encode(self@));
                }
            },
            MudMessage::EnterRoom { room, other_players } => {
                out.push(3u8);
                if !push_room(&mut out, room) {
                    return Err(ProtocolError::FrameTooLarge);
                }
                if !push_names(&mut out, other_players) {
                    return Err(ProtocolError::FrameTooLarge);
                }
                proof {
                    assert(out@ =~= spec_encode(self@));
                }
            },
            MudMessage::TryExit { direction } => {
                out.push(4u8);
                if !push_str(&mut out, direction.as_str()) {
                    return Err(ProtocolError::FrameTooLarge);
                }
                proof {
                    assert(out@ =~= spec_encode(self@));
                }
            },
            MudMessage::Disconnect => {
                out.push(5u8);
                proof {
                    assert(out@ =~= spec_encode(self@));
                }
            },
            MudMessage::Ping => {
                out.push(6u8);
                proof {
                    assert(out@ =~= spec_encode(self@));
                }
            },
            MudMessage::PlayerEnteredRoom { username } => {
                out.push(7u8);
                if !push_str(&mut out, username.as_str()) {
                    return Err(ProtocolError::FrameTooLarge);
                }
                proof {
                    assert(out@ =~= spec_encode(self@));
                }
            },
            MudMessage::PlayerLeftRoom { username, direction } => {
                out.push(8u8);
                if !push_str(&mut out, username.as_str()) {
                    return Err(ProtocolError::FrameTooLarge);
                }
                if !push_str(&mut out, direction.as_str()) {
                    return Err(ProtocolError::FrameTooLarge);
                }
                proof {
                    assert(out@ =~= spec_encode(self@));
                }
            },
            MudMessage::PlayerSpeak { username, message } => {
                out.push(9u8);
                if !push_str(&mut out, username.as_str()) {
                    return Err(ProtocolError::FrameTooLarge);
                }
                if !push_str(&mut out, message.as_str()) {
                    return Err(ProtocolError::FrameTooLarge);
                }
                proof {
                    assert(out@ =~= spec_encode(self@));
                }
            },
        }
        if out.len() > MAX_PAYLOAD {
            return Err(ProtocolError::FrameTooLarge);
        }
        Ok(out)
    }
}

// ------------------------------------------------------------------
// Executable parser
// ------------------------------------------------------------------
/// Relies on `String::from_utf8`: it returns the string whose UTF-8
/// encoding is the given bytes exactly when the bytes are valid UTF-8, and
/// fails otherwise, in the sense of vstd's UTF-8 model.
#[verifier::external_body]
fn bytes_to_string(v: Vec<u8>) -> (r: Option<String>)
    ensures
        match r {
            Some(s) => valid_utf8(v@) && s@ == decode_utf8(v@),
            None => !valid_utf8(v@),
        },
{
    match String::from_utf8(v) {
        Ok(s) => Some(s),
        Err(_) => None,
    }
}

/// Read a big-endian `u32` at `i`.
fn parse_u32(b: &[u8], i: usize) -> (r: Option<(u32, usize)>)
    ensures
        match r {
            Some((x, j)) => p_u32(b@, i as int) == Some((x, j as int)),
            None => p_u32(b@, i as int) is None,
        },
{
    if b.len() < 4 || i > b.len() - 4 {
        return None;
    }
    let x = ((b[i] as u32) << 24) | ((b[i + 1] as u32) << 16) | ((b[i + 2] as u32) << 8) | (b[i
        + 3] as u32);
    proof {
        let sub = b@.subrange(i as int, i as int + 4);
        assert(sub[0] == b@[i as int]);
        assert(sub[1] == b@[i as int + 1]);
        assert(sub[2] == b@[i as int + 2]);
        assert(sub[3] == b@[i as int + 3]);
    }
    Some((x, i + 4))
}

/// Read a length-prefixed string at `i`.
fn parse_str(b: &[u8], i: usize) -> (r: Option<(String, usize)>)
    ensures
        match r {
            Some((s, j)) => p_str(b@, i as int) == Some((s@, j as int)),
            None => p_str(b@, i as int) is None,
        },
{
    match parse_u32(b, i) {
        None => None,
        Some((n, j)) => {
            let nn = n as usize;
            if nn > b.len() - j {
                return None;
            }
            let sub = slice_subrange(b, j, j + nn);
            let v = slice_to_vec(sub);
            match bytes_to_string(v) {
                None => None,
                Some(s) => Some((s, j + nn)),
            }
        },
    }
}

/// Read a boolean byte at `i`.
fn parse_bool(b: &[u8], i: usize) -> (r: Option<(bool, usize)>)
    ensures
        match r {
            Some((v, j)) => p_bool(b@, i as int) == Some((v, j as int)),
            None => p_bool(b@, i as int) is None,
        },
{
    if i >= b.len() {
        return None;
    }
    let c = b[i];
    if c == 0 {
        Some((false, i + 1))
    } else if c == 1 {
        Some((true, i + 1))
    } else {
        None
    }
}

/// Read an exit at `i`.
fn parse_exit(b: &[u8], i: usize) -> (r: Option<(Exit, usize)>)
    ensures
        match r {
            Some((e, j)) => p_exit(b@, i as int) == Some((e@, j as int)),
            None => p_exit(b@, i as int) is None,
        },
{
    match parse_str(b, i) {
        None => None,
        Some((direction, j)) => match parse_str(b, j) {
            None => None,
            Some((room_name, k)) => Some((Exit { direction, room_name }, k)),
        },
    }
}

/// Read exactly `n` exits starting at `i`.
fn parse_exit_list(b: &[u8], i: usize, n: u32) -> (r: Option<(Vec<Exit>, usize)>)
    ensures
        match r {
            Some((es, j)) => p_exit_list(b@, i as int, n as nat) == Some((es.deep_view(), j as int)),
            None => p_exit_list(b@, i as int, n as nat) is None,
        },
    decreases n,
{
    if n == 0 {
        let es: Vec<Exit> = Vec::new();
        proof {
            assert(es.deep_view() =~= Seq::<ExitView>::empty());
        }
        Some((es, i))
    } else {
        match parse_exit(b, i) {
            None => None,
            Some((e, j)) => match parse_exit_list(b, j, n - 1) {
                None => None,
                Some((mut es, k)) => {
                    let ghost tail = es.deep_view();
                    let ghost prev = es@;
                    es.insert(0, e);
                    proof {
                        assert forall|q: int| 0 <= q < es.deep_view().len() implies es.deep_view()[q]
                            == (seq![e@] + tail)[q] by {
                            if q == 0 {
                                assert(es@[0] == e);
                            } else {
                                assert(es@[q] == prev[q - 1]);
                                assert(tail[q - 1] == prev[q - 1].deep_view());
                            }
                        }
                        assert(es.deep_view() =~= seq![e@] + tail);
                    }
                    Some((es, k))
                },
            },
        }
    }
}

/// Read a counted exit list at `i`.
fn parse_exits(b: &[u8], i: usize) -> (r: Option<(Vec<Exit>, usize)>)
    ensures
        match r {
            Some((es, j)) => p_exits(b@, i as int) == Some((es.deep_view(), j as int)),
            None => p_exits(b@, i as int) is None,
        },
{
    match parse_u32(b, i) {
        None => None,
        Some((n, j)) => parse_exit_list(b, j, n),
    }
}

/// Read exactly `n` names starting at `i`.
fn parse_name_list(b: &[u8], i: usize, n: u32) -> (r: Option<(Vec<String>, usize)>)
    ensures
        match r {
            Some((ns, j)) => p_name_list(b@, i as int, n as nat) == Some(
                (ns.deep_view(), j as int),
            ),
            None => p_name_list(b@, i as int, n as nat) is None,
        },
    decreases n,
{
    if n == 0 {
        let ns: Vec<String> = Vec::new();
        proof {
            assert(ns.deep_view() =~= Seq::<Seq<char>>::empty());
        }
        Some((ns, i))
    } else {
        match parse_str(b, i) {
            None => None,
            Some((s, j)) => match parse_name_list(b, j, n - 1) {
                None => None,
                Some((mut ns, k)) => {
                    let ghost tail = ns.deep_view();
                    let ghost prev = ns@;
                    ns.insert(0, s);
                    proof {
                        assert forall|q: int| 0 <= q < ns.deep_view().len() implies ns.deep_view()[q]
                            == (seq![s@] + tail)[q] by {
                            if q == 0 {
                                assert(ns@[0] == s);
                            } else {
                                assert(ns@[q] == prev[q - 1]);
                                assert(tail[q - 1] == prev[q - 1].deep_view());
                            }
                        }
                        assert(ns.deep_view() =~= seq![s@] + tail);
                    }
                    Some((ns, k))
                },
            },
        }
    }
}

/// Read a counted name list at `i`.
fn parse_names(b: &[u8], i: usize) -> (r: Option<(Vec<String>, usize)>)
    ensures
        match r {
            Some((ns, j)) => p_names(b@, i as int) == Some((ns.deep_view(), j as int)),
            None => p_names(b@, i as int) is None,
        },
{
    match parse_u32(b, i) {
        None => None,
        Some((n, j)) => parse_name_list(b, j, n),
    }
}

/// Read a room at `i`.
fn parse_room(b: &[u8], i: usize) -> (r: Option<(Room, usize)>)
    ensures
        match r {
            Some((room, j)) => p_room(b@, i as int) == Some((room@, j as int)),
            None => p_room(b@, i as int) is None,
        },
{
    match parse_str(b, i) {
        None => None,
        Some((name, j1)) => match parse_str(b, j1) {
            None => None,
            Some((description, j2)) => match parse_exits(b, j2) {
                None => None,
                Some((exits, j3)) => match parse_bool(b, j3) {
                    None => None,
                    Some((start, j4)) => Some((Room { name, description, exits, start }, j4)),
                },
            },
        },
    }
}

impl MudMessage {
    /// Deserialize a payload.
    ///
    /// Succeeds exactly on the payloads that [`spec_decode`] accepts, and
    /// returns `Malformed` on every other byte sequence.
    pub fn from_bytes(bytes: &[u8]) -> (r: Result<MudMessage, ProtocolError>)
        ensures
            match r {
                Ok(m) => spec_decode(bytes@) == Some(m@),
                Err(e) => e == ProtocolError::Malformed && spec_decode(bytes@) is None,
            },
    {
        if bytes.len() < 1 {
            return Err(ProtocolError::Malformed);
        }
        let tag = bytes[0];
        if tag == 0 {
            if let Some((username, i)) = parse_str(bytes, 1) {
                if let Some((password, j)) = parse_str(bytes, i) {
                    if j == bytes.len() {
                        return Ok(MudMessage::Login { username, password });
                    }
                }
            }
            Err(ProtocolError::Malformed)
        } else if tag == 1 {
            if bytes.len() == 1 {
                Ok(MudMessage::LoginSuccess)
            } else {
                Err(ProtocolError::Malformed)
            }
        } else if tag == 2 {
            if bytes.len() == 1 {
                Ok(MudMessage::LoginFail)
            } else {
                Err(ProtocolError::Malformed)
            }
        } else if tag == 3 {
            if let Some((room, i)) = parse_room(bytes, 1) {
                if let Some((other_players, j)) = parse_names(bytes, i) {
                    if j == bytes.len() {
                        return Ok(MudMessage::EnterRoom { room, other_players });
                    }
                }
            }
            Err(ProtocolError::Malformed)
        } else if tag == 4 {
            if let Some((direction, i)) = parse_str(bytes, 1) {
                if i == bytes.len() {
                    return Ok(MudMessage::TryExit { direction });
                }
            }
            Err(ProtocolError::Malformed)
        } else if tag == 5 {
            if bytes.len() == 1 {
                Ok(MudMessage::Disconnect)
            } else {
                Err(ProtocolError::Malformed)
            }
        } else if tag == 6 {
            if bytes.len() == 1 {
                Ok(MudMessage::Ping)
            } else {
                Err(ProtocolError::Malformed)
            }
        } else if tag == 7 {
            if let Some((username, i)) = parse_str(bytes, 1) {
                if i == bytes.len() {
                    return Ok(MudMessage::PlayerEnteredRoom { username });
                }
            }
            Err(ProtocolError::Malformed)
        } else if tag == 8 {
            if let Some((username, i)) = parse_str(bytes, 1) {
                if let Some((direction, j)) = parse_str(bytes, i) {
                    if j == bytes.len() {
                        return Ok(MudMessage::PlayerLeftRoom { username, direction });
                    }
                }
            }
            Err(ProtocolError::Malformed)
        } else if tag == 9 {
            if let Some((username, i)) = parse_str(bytes, 1) {
                if let Some((message, j)) = parse_str(bytes, i) {
                    if j == bytes.len() {
                        return Ok(MudMessage::PlayerSpeak { username, message });
                    }
                }
            }
            Err(ProtocolError::Malformed)
        } else {
            Err(ProtocolError::Malformed)
        }
    }
}

/// Round trip: decoding the encoding of any message that fits in a frame
/// yields that message back.
#[verifier::rlimit(100)]
pub proof fn lemma_round_trip(m: MessageView)
    requires
        encodable(m),
    ensures
        spec_decode(spec_encode(m)) == Some(m),
{
    lemma_encodable_bounds(m);
    let b = spec_encode(m);
    assert(b.subrange(0, b.len() as int) =~= b);
    match m {
        MessageView::Login { username, password } => {
            assert(b =~= seq![0u8] + (enc_str(username) + enc_str(password)));
            lemma_split(b, 0, seq![0u8], enc_str(username) + enc_str(password));
            lemma_split(b, 1, enc_str(username), enc_str(password));
            lemma_p_str_inv(b, 1, username);
            lemma_p_str_inv(b, 1 + enc_str(username).len() as int, password);
            assert(b[0] == 0);
        },
        MessageView::LoginSuccess => {
            assert(b[0] == 1);
        },
        MessageView::LoginFail => {
            assert(b[0] == 2);
        },
        MessageView::EnterRoom { room, other_players } => {
            assert(b =~= seq![3u8] + (enc_room(room) + enc_names(other_players)));
            lemma_split(b, 0, seq![3u8], enc_room(room) + enc_names(other_players));
            lemma_split(b, 1, enc_room(room), enc_names(other_players));
            lemma_p_room_inv(b, 1, room);
            lemma_p_names_inv(b, 1 + enc_room(room).len() as int, other_players);
            assert(b[0] == 3);
        },
        MessageView::TryExit { direction } => {
            assert(b =~= seq![4u8] + enc_str(direction));
            lemma_split(b, 0, seq![4u8], enc_str(direction));
            lemma_p_str_inv(b, 1, direction);
            assert(b[0] == 4);
        },
        MessageView::Disconnect => {
            assert(b[0] == 5);
        },
        MessageView::Ping => {
            assert(b[0] == 6);
        },
        MessageView::PlayerEnteredRoom { username } => {
            assert(b =~= seq![7u8] + enc_str(username));
            lemma_split(b, 0, seq![7u8], enc_str(username));
            lemma_p_str_inv(b, 1, username);
            assert(b[0] == 7);
        },
        MessageView::PlayerLeftRoom { username, direction } => {
            assert(b =~= seq![8u8] + (enc_str(username) + enc_str(direction)));
            lemma_split(b, 0, seq![8u8], enc_str(username) + enc_str(direction));
            lemma_split(b, 1, enc_str(username), enc_str(direction));
            lemma_p_str_inv(b, 1, username);
            lemma_p_str_inv(b, 1 + enc_str(username).len() as int, direction);
            assert(b[0] == 8);
        },
        MessageView::PlayerSpeak { username, message } => {
            assert(b =~= seq![9u8] + (enc_str(username) + enc_str(message)));
            lemma_split(b, 0, seq![9u8], enc_str(username) + enc_str(message));
            lemma_split(b, 1, enc_str(username), enc_str(message));
            lemma_p_str_inv(b, 1, username);
            lemma_p_str_inv(b, 1 + enc_str(username).len() as int, message);
            assert(b[0] == 9);
        },
    }
}

} // verus!
