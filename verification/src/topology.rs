//! Room topology: the graph of connections between rooms.

use vstd::prelude::*;
use vstd::utf8::encode_utf8;

verus! {

/// The byte order of strings: `a` sorts before or equal to `b` when `a` is a
/// prefix of `b`, or when at the first differing position `a` has the
/// smaller byte.
pub open spec fn bytes_le(a: Seq<u8>, b: Seq<u8>) -> bool {
    ||| (a.len() <= b.len() && forall|j: int| 0 <= j < a.len() ==> a[j] == b[j])
    ||| exists|i: int|
        #![trigger a[i], b[i]]
        0 <= i < a.len() && i < b.len() && a[i] < b[i] && (forall|j: int|
            0 <= j < i ==> a[j] == b[j])
}

/// The order of room names: the byte order of their UTF-8 encodings.
pub open spec fn name_le(a: Seq<char>, b: Seq<char>) -> bool {
    bytes_le(encode_utf8(a), encode_utf8(b))
}

/// The separator between the two room names in a connection key.
pub open spec fn key_separator() -> Seq<char> {
    seq!['→']
}

/// The canonical key of the connection between rooms `a` and `b`: the
/// smaller name, the separator, then the larger name.
pub open spec fn spec_connection_key(a: Seq<char>, b: Seq<char>) -> Seq<char> {
    if name_le(a, b) {
        a + key_separator() + b
    } else {
        b + key_separator() + a
    }
}

/// Compares two strings in byte order.
fn str_le(a: &str, b: &str) -> (r: bool)
    ensures
        r == name_le(a@, b@),
{
    let x = a.as_bytes();
    let y = b.as_bytes();
    let mut i: usize = 0;
    while i < x.len() && i < y.len()
        invariant
            x@ == encode_utf8(a@),
            y@ == encode_utf8(b@),
            i <= x@.len(),
            i <= y@.len(),
            forall|j: int| 0 <= j < i ==> x@[j] == y@[j],
        decreases x@.len() - i,
    {
        if x[i] < y[i] {
            assert(bytes_le(x@, y@)) by {
                assert(x@[i as int] < y@[i as int]);
            }
            return true;
        }
        if x[i] > y[i] {
            assert(!bytes_le(x@, y@)) by {
                if exists|k: int|
                    #![trigger x@[k], y@[k]]
                    0 <= k < x@.len() && k < y@.len() && x@[k] < y@[k] && (forall|j: int|
                        0 <= j < k ==> x@[j] == y@[j]) {
                    let k = choose|k: int|
                        #![trigger x@[k], y@[k]]
                        0 <= k < x@.len() && k < y@.len() && x@[k] < y@[k] && (forall|j: int|
                            0 <= j < k ==> x@[j] == y@[j]);
                    if k < i {
                    } else if k > i {
                        assert(x@[i as int] == y@[i as int]);
                    }
                }
                if x@.len() <= y@.len() && forall|j: int| 0 <= j < x@.len() ==> x@[j] == y@[j] {
                    assert(x@[i as int] == y@[i as int]);
                }
            }
            return false;
        }
        i = i + 1;
    }
    if i == x.len() {
        true
    } else {
        assert(!bytes_le(x@, y@)) by {
            if exists|k: int|
                #![trigger x@[k], y@[k]]
                0 <= k < x@.len() && k < y@.len() && x@[k] < y@[k] && (forall|j: int|
                    0 <= j < k ==> x@[j] == y@[j]) {
                let k = choose|k: int|
                    #![trigger x@[k], y@[k]]
                    0 <= k < x@.len() && k < y@.len() && x@[k] < y@[k] && (forall|j: int|
                        0 <= j < k ==> x@[j] == y@[j]);
                assert(x@[k] == y@[k]);
            }
        }
        false
    }
}


/// The byte order is total.
proof fn lemma_bytes_le_total_from(a: Seq<u8>, b: Seq<u8>, i: int)
    requires
        0 <= i <= a.len(),
        i <= b.len(),
        forall|j: int| 0 <= j < i ==> a[j] == b[j],
    ensures
        bytes_le(a, b) || bytes_le(b, a),
    decreases a.len() - i,
{
    if i == a.len() {
        assert(a.len() <= b.len() && forall|j: int| 0 <= j < a.len() ==> a[j] == b[j]);
    } else if i == b.len() {
        assert(b.len() <= a.len() && forall|j: int| 0 <= j < b.len() ==> b[j] == a[j]);
    } else if a[i] < b[i] {
        assert(a[i] < b[i] && forall|j: int| 0 <= j < i ==> a[j] == b[j]);
    } else if b[i] < a[i] {
        assert(b[i] < a[i] && forall|j: int| 0 <= j < i ==> b[j] == a[j]);
    } else {
        lemma_bytes_le_total_from(a, b, i + 1);
    }
}

/// Two byte strings that sort before or equal to each other are equal.
proof fn lemma_bytes_le_antisymmetric(a: Seq<u8>, b: Seq<u8>)
    requires
        bytes_le(a, b),
        bytes_le(b, a),
    ensures
        a == b,
{
    let a_prefix = a.len() <= b.len() && forall|j: int| 0 <= j < a.len() ==> a[j] == b[j];
    let b_prefix = b.len() <= a.len() && forall|j: int| 0 <= j < b.len() ==> b[j] == a[j];
    if a_prefix && b_prefix {
        assert(a =~= b);
    } else if a_prefix {
        let i = choose|i: int|
            #![trigger b[i], a[i]]
            0 <= i < b.len() && i < a.len() && b[i] < a[i] && (forall|j: int|
                0 <= j < i ==> b[j] == a[j]);
        assert(a[i] == b[i]);
    } else if b_prefix {
        let i = choose|i: int|
            #![trigger a[i], b[i]]
            0 <= i < a.len() && i < b.len() && a[i] < b[i] && (forall|j: int|
                0 <= j < i ==> a[j] == b[j]);
        assert(b[i] == a[i]);
    } else {
        let i = choose|i: int|
            #![trigger a[i], b[i]]
            0 <= i < a.len() && i < b.len() && a[i] < b[i] && (forall|j: int|
                0 <= j < i ==> a[j] == b[j]);
        let k = choose|k: int|
            #![trigger b[k], a[k]]
            0 <= k < b.len() && k < a.len() && b[k] < a[k] && (forall|j: int|
                0 <= j < k ==> b[j] == a[j]);
        if i < k {
            assert(b[i] == a[i]);
        } else if k < i {
            assert(a[k] == b[k]);
        }
    }
}

/// Any two room names are ordered one way or the other, and names ordered
/// both ways are the same name.
pub proof fn lemma_name_order(a: Seq<char>, b: Seq<char>)
    ensures
        name_le(a, b) || name_le(b, a),
        name_le(a, b) && name_le(b, a) ==> a == b,
{
    lemma_bytes_le_total_from(encode_utf8(a), encode_utf8(b), 0);
    if name_le(a, b) && name_le(b, a) {
        lemma_bytes_le_antisymmetric(encode_utf8(a), encode_utf8(b));
        vstd::utf8::encode_utf8_decode_utf8(a);
        vstd::utf8::encode_utf8_decode_utf8(b);
    }
}

/// A connection has one key whichever way round its rooms are named.
pub proof fn lemma_connection_key_symmetric(a: Seq<char>, b: Seq<char>)
    ensures
        spec_connection_key(a, b) == spec_connection_key(b, a),
{
    lemma_name_order(a, b);
}

/// Type of connection between two rooms.
#[derive(Debug, Clone, Copy, PartialEq, Eq, Structural)]
pub enum ConnectionType {
    /// A standard door: agents can walk through in both directions.
    Door,
    /// A warp: instantaneous teleportation, usable in both directions.
    Warp,
    /// A one-way passage: usable only from its source to its destination.
    OneWay,
}

/// A connection between two rooms.
#[derive(Debug)]
pub struct Door {
    /// Source room name.
    pub from: String,
    /// Destination room name.
    pub to: String,
    /// Connection type.
    pub connection_type: ConnectionType,
    /// Whether this connection is open.
    pub open: bool,
}

/// What a door is: its two rooms, its type and whether it is open.
pub struct DoorView {
    pub from: Seq<char>,
    pub to: Seq<char>,
    pub connection_type: ConnectionType,
    pub open: bool,
}

impl View for Door {
    type V = DoorView;

    open spec fn view(&self) -> DoorView {
        DoorView {
            from: self.from@,
            to: self.to@,
            connection_type: self.connection_type,
            open: self.open,
        }
    }
}

impl Clone for Door {
    fn clone(&self) -> (r: Self)
        ensures
            r == *self,
    {
        Door {
            from: self.from.clone(),
            to: self.to.clone(),
            connection_type: self.connection_type,
            open: self.open,
        }
    }
}

/// Whether an agent may pass through door `d` from room `a` to room `b`: the
/// door is open, and it joins `a` to `b`, in either direction unless it is a
/// one-way passage.
pub open spec fn door_allows(d: DoorView, a: Seq<char>, b: Seq<char>) -> bool {
    &&& d.open
    &&& match d.connection_type {
        ConnectionType::OneWay => d.from == a && d.to == b,
        _ => (d.from == a && d.to == b) || (d.from == b && d.to == a),
    }
}

/// Whether two strings hold the same text.
pub(crate) fn same_text(a: &String, b: &str) -> (r: bool)
    ensures
        r == (a@ == b@),
{
    let owned = b.to_owned();
    *a == owned
}

impl Door {
    /// Create a new open door from `from` to `to`.
    pub fn new(from: &str, to: &str, ct: ConnectionType) -> (d: Door)
        ensures
            d@ == (DoorView { from: from@, to: to@, connection_type: ct, open: true }),
    {
        Door { from: from.to_owned(), to: to.to_owned(), connection_type: ct, open: true }
    }

    /// Check if an agent can traverse from `from_room` to `to_room`.
    pub fn can_traverse(&self, from_room: &str, to_room: &str) -> (r: bool)
        ensures
            r == door_allows(self@, from_room@, to_room@),
    {
        if !self.open {
            return false;
        }
        let forward = same_text(&self.from, from_room) && same_text(&self.to, to_room);
        match self.connection_type {
            ConnectionType::OneWay => forward,
            _ => forward || (same_text(&self.from, to_room) && same_text(&self.to, from_room)),
        }
    }
}

/// Creates the canonical key for a connection between two rooms.
pub fn connection_key(a: &str, b: &str) -> (key: String)
    ensures
        key@ == spec_connection_key(a@, b@),
{
    let (first, second) = if str_le(a, b) {
        (a, b)
    } else {
        (b, a)
    };
    let mut key = first.to_owned();
    key.append("→");
    key.append(second);
    proof {
        reveal_strlit("→");
        assert("→"@ =~= key_separator());
    }
    key
}


/// Errors from topology operations.
#[derive(Debug)]
pub enum TopologyError {
    /// A room named in the request is not in the topology.
    RoomNotFound(String),
    /// The two rooms are already connected.
    AlreadyConnected(String, String),
    /// There is no connection between the two rooms.
    ConnectionNotFound(String, String),
    /// The connection between the two rooms is closed.
    ConnectionClosed(String, String),
    /// The connection would create a cycle.
    CircularConnection,
}

impl Clone for TopologyError {
    fn clone(&self) -> (r: Self)
        ensures
            r == *self,
    {
        match self {
            TopologyError::RoomNotFound(a) => TopologyError::RoomNotFound(a.clone()),
            TopologyError::AlreadyConnected(a, b) => TopologyError::AlreadyConnected(a.clone(), b.clone()),
            TopologyError::ConnectionNotFound(a, b) => TopologyError::ConnectionNotFound(
                a.clone(),
                b.clone(),
            ),
            TopologyError::ConnectionClosed(a, b) => TopologyError::ConnectionClosed(a.clone(), b.clone()),
            TopologyError::CircularConnection => TopologyError::CircularConnection,
        }
    }
}

/// A warp connection (instantaneous teleportation).
pub type Warp = Door;

/// The key under which a door is filed.
pub open spec fn door_key(d: DoorView) -> Seq<char> {
    spec_connection_key(d.from, d.to)
}

/// What a topology is: its rooms in the order they were added, and its
/// connections in the order they were made.
pub struct TopologyView {
    pub rooms: Seq<Seq<char>>,
    pub doors: Seq<DoorView>,
}

impl TopologyView {
    /// Whether `name` is one of the rooms.
    pub open spec fn has_room(self, name: Seq<char>) -> bool {
        self.rooms.contains(name)
    }

    /// Whether some connection is filed under `key`.
    pub open spec fn has_key(self, key: Seq<char>) -> bool {
        exists|i: int| 0 <= i < self.doors.len() && door_key(#[trigger] self.doors[i]) == key
    }

    /// Whether rooms `a` and `b` are connected (in either direction, open or closed).
    pub open spec fn connected(self, a: Seq<char>, b: Seq<char>) -> bool {
        self.has_key(spec_connection_key(a, b))
    }

    /// The position of the connection filed under `key`.
    pub open spec fn key_index(self, key: Seq<char>) -> int {
        choose|i: int| 0 <= i < self.doors.len() && door_key(#[trigger] self.doors[i]) == key
    }

    /// The position of the connection between `a` and `b`.
    pub open spec fn connection_index(self, a: Seq<char>, b: Seq<char>) -> int {
        self.key_index(spec_connection_key(a, b))
    }

    /// Whether door `d` leaves `room`: it starts there, or it ends there and
    /// is not a one-way passage.
    pub open spec fn leaves(d: DoorView, room: Seq<char>) -> bool {
        d.from == room || (d.connection_type != ConnectionType::OneWay && d.to == room)
    }

    /// The room at the other side of `d`, seen from `room`.
    pub open spec fn other_side(d: DoorView, room: Seq<char>) -> Option<Seq<char>> {
        if d.from == room {
            Some(d.to)
        } else if d.connection_type != ConnectionType::OneWay && d.to == room {
            Some(d.from)
        } else {
            None
        }
    }

    /// The connections that leave `room`, in order.
    pub open spec fn doors_from(self, room: Seq<char>) -> Seq<DoorView> {
        self.doors.filter(|d: DoorView| TopologyView::leaves(d, room))
    }

    /// The rooms adjacent to `room`, one per connection that leaves it, in order.
    pub open spec fn neighbor_names(self, room: Seq<char>) -> Seq<Seq<char>> {
        self.doors.filter_map(|d: DoorView| TopologyView::other_side(d, room))
    }

    /// Whether some connection leads from `a` to `b`.
    pub open spec fn adjacent(self, a: Seq<char>, b: Seq<char>) -> bool {
        exists|i: int|
            0 <= i < self.doors.len() && TopologyView::other_side(#[trigger] self.doors[i], a)
                == Some(b)
    }

    /// Whether some open connection lets an agent pass from `a` to `b`.
    pub open spec fn passable(self, a: Seq<char>, b: Seq<char>) -> bool {
        exists|i: int| 0 <= i < self.doors.len() && door_allows(#[trigger] self.doors[i], a, b)
    }

    /// Whether some connection, open or closed, leads from `a` to `b` in a
    /// direction it can be passed.
    pub open spec fn leads(self, a: Seq<char>, b: Seq<char>) -> bool {
        exists|i: int|
            0 <= i < self.doors.len() && door_allows(
                DoorView { open: true, ..#[trigger] self.doors[i] },
                a,
                b,
            )
    }

    /// The rooms that an open connection leads to from `room`, one per such
    /// connection, in order.
    pub open spec fn open_neighbor_names(self, room: Seq<char>) -> Seq<Seq<char>> {
        self.doors.filter_map(
            |d: DoorView|
                if d.open {
                    TopologyView::other_side(d, room)
                } else {
                    None
                },
        )
    }

    /// Step `i` of `p` follows a connection.
    pub open spec fn step(self, p: Seq<Seq<char>>, i: int) -> bool {
        self.adjacent(p[i], p[i + 1])
    }

    /// `p` is a walk: a non-empty sequence of rooms, each adjacent to the next.
    pub open spec fn is_walk(self, p: Seq<Seq<char>>) -> bool {
        &&& p.len() >= 1
        &&& forall|i: int| 0 <= i < p.len() - 1 ==> #[trigger] self.step(p, i)
    }

    /// `p` is a walk from `a` to `b`.
    pub open spec fn walk_between(self, p: Seq<Seq<char>>, a: Seq<char>, b: Seq<char>) -> bool {
        &&& self.is_walk(p)
        &&& p[0] == a
        &&& p.last() == b
    }

    /// `b` can be reached from `a` in at most `n` steps.
    pub open spec fn reachable_within(self, a: Seq<char>, b: Seq<char>, n: int) -> bool {
        exists|p: Seq<Seq<char>>| #[trigger] self.walk_between(p, a, b) && p.len() <= n + 1
    }

    /// `b` can be reached from `a`.
    pub open spec fn reachable(self, a: Seq<char>, b: Seq<char>) -> bool {
        exists|p: Seq<Seq<char>>| #[trigger] self.walk_between(p, a, b)
    }

    /// The topology is well formed: room names are distinct, connection keys
    /// are distinct, and every connection joins two rooms of the topology.
    pub open spec fn well_formed(self) -> bool {
        &&& self.rooms.no_duplicates()
        &&& forall|i: int, j: int|
            0 <= i < self.doors.len() && 0 <= j < self.doors.len() && i != j ==> door_key(
                #[trigger] self.doors[i],
            ) != door_key(#[trigger] self.doors[j])
        &&& forall|i: int|
            0 <= i < self.doors.len() ==> self.rooms.contains(#[trigger] self.doors[i].from)
                && self.rooms.contains(self.doors[i].to)
    }
}

/// Room topology: the graph of room connections.
#[derive(Debug)]
pub struct Topology {
    /// All room names.
    rooms: Vec<String>,
    /// Connections, each filed under its canonical key.
    connections: Vec<(String, Door)>,
}

impl View for Topology {
    type V = TopologyView;

    closed spec fn view(&self) -> TopologyView {
        TopologyView {
            rooms: self.rooms@.map_values(|r: String| r@),
            doors: self.connections@.map_values(|e: (String, Door)| e.1@),
        }
    }
}

impl Topology {
    /// The stored keys are the canonical keys of their doors, and the view is well formed.
    pub closed spec fn wf(&self) -> bool {
        &&& self@.well_formed()
        &&& forall|i: int|
            0 <= i < self.connections@.len() ==> (#[trigger] self.connections@[i]).0@ == door_key(
                self.connections@[i].1@,
            )
    }

    /// Create an empty topology.
    pub fn new() -> (t: Topology)
        ensures
            t.wf(),
            t@.rooms == Seq::<Seq<char>>::empty(),
            t@.doors == Seq::<DoorView>::empty(),
    {
        let t = Topology { rooms: Vec::new(), connections: Vec::new() };
        assert(t@.rooms =~= Seq::<Seq<char>>::empty());
        assert(t@.doors =~= Seq::<DoorView>::empty());
        t
    }

    /// The position of room `name`, if it is present.
    fn find_room(&self, name: &str) -> (r: Option<usize>)
        ensures
            match r {
                Some(i) => i < self@.rooms.len() && self@.rooms[i as int] == name@,
                None => !self@.rooms.contains(name@),
            },
    {
        let mut i: usize = 0;
        while i < self.rooms.len()
            invariant
                i <= self.rooms@.len(),
                forall|j: int| 0 <= j < i ==> self.rooms@[j]@ != name@,
            decreases self.rooms@.len() - i,
        {
            if same_text(&self.rooms[i], name) {
                return Some(i);
            }
            i = i + 1;
        }
        assert(!self@.rooms.contains(name@)) by {
            if self@.rooms.contains(name@) {
                let k = choose|k: int| 0 <= k < self@.rooms.len() && self@.rooms[k] == name@;
                assert(self.rooms@[k]@ == name@);
            }
        }
        None
    }

    /// The position of the connection filed under `key`, if there is one.
    fn find_key(&self, key: &String) -> (r: Option<usize>)
        requires
            self.wf(),
        ensures
            match r {
                Some(i) => i < self@.doors.len() && door_key(self@.doors[i as int]) == key@
                    && i == self@.key_index(key@),
                None => !self@.has_key(key@),
            },
    {
        let mut i: usize = 0;
        while i < self.connections.len()
            invariant
                self.wf(),
                i <= self.connections@.len(),
                forall|j: int| 0 <= j < i ==> self.connections@[j].0@ != key@,
            decreases self.connections@.len() - i,
        {
            if self.connections[i].0 == *key {
                assert(door_key(self@.doors[i as int]) == key@);
                return Some(i);
            }
            i = i + 1;
        }
        assert(!self@.has_key(key@)) by {
            if self@.has_key(key@) {
                let k = choose|k: int|
                    0 <= k < self@.doors.len() && door_key(#[trigger] self@.doors[k]) == key@;
                assert(self.connections@[k].0@ == key@);
            }
        }
        None
    }

    /// Check if a room exists.
    pub fn has_room(&self, name: &str) -> (r: bool)
        ensures
            r == self@.has_room(name@),
    {
        self.find_room(name).is_some()
    }

    /// Add a room to the topology; a room that is already there is not added again.
    pub fn add_room(&mut self, name: &str)
        requires
            old(self).wf(),
        ensures
            final(self).wf(),
            final(self)@.doors == old(self)@.doors,
            final(self)@.rooms == if old(self)@.has_room(name@) {
                old(self)@.rooms
            } else {
                old(self)@.rooms.push(name@)
            },
    {
        if self.find_room(name).is_none() {
            self.rooms.push(name.to_owned());
            proof {
                let v = self@;
                let o = old(self)@;
                assert(v.rooms =~= o.rooms.push(name@));
                assert(v.doors =~= o.doors);
                assert forall|i: int| 0 <= i < v.doors.len() implies v.rooms.contains(
                    #[trigger] v.doors[i].from,
                ) && v.rooms.contains(v.doors[i].to) by {
                    assert(o.rooms.contains(o.doors[i].from));
                    assert(o.rooms.contains(o.doors[i].to));
                    let a = choose|a: int| 0 <= a < o.rooms.len() && o.rooms[a] == o.doors[i].from;
                    let b = choose|b: int| 0 <= b < o.rooms.len() && o.rooms[b] == o.doors[i].to;
                    assert(v.rooms[a] == v.doors[i].from);
                    assert(v.rooms[b] == v.doors[i].to);
                }
            }
        }
    }

    /// Number of rooms.
    pub fn room_count(&self) -> (n: usize)
        ensures
            n == self@.rooms.len(),
    {
        self.rooms.len()
    }

    /// Number of connections.
    pub fn connection_count(&self) -> (n: usize)
        ensures
            n == self@.doors.len(),
    {
        self.connections.len()
    }

    /// All room names.
    pub fn rooms(&self) -> (r: &[String])
        ensures
            r@.map_values(|s: String| s@) == self@.rooms,
    {
        self.rooms.as_slice()
    }

    /// Check if two rooms are connected.
    pub fn are_connected(&self, a: &str, b: &str) -> (r: bool)
        requires
            self.wf(),
        ensures
            r == self@.connected(a@, b@),
    {
        let key = connection_key(a, b);
        self.find_key(&key).is_some()
    }
}

impl Topology {
    /// Connect two rooms. Both rooms must exist and must not already be connected.
    pub fn connect(&mut self, from: &str, to: &str, ct: ConnectionType) -> (r: Result<(), TopologyError>)
        requires
            old(self).wf(),
        ensures
            final(self).wf(),
            final(self)@.rooms == old(self)@.rooms,
            !old(self)@.has_room(from@) ==> (r matches Err(TopologyError::RoomNotFound(n)) && n@
                == from@),
            old(self)@.has_room(from@) && !old(self)@.has_room(to@) ==> (r matches Err(
                TopologyError::RoomNotFound(n),
            ) && n@ == to@),
            old(self)@.has_room(from@) && old(self)@.has_room(to@) && old(self)@.connected(
                from@,
                to@,
            ) ==> (r matches Err(TopologyError::AlreadyConnected(a, b)) && a@ == from@ && b@
                == to@),
            r is Ok <==> (old(self)@.has_room(from@) && old(self)@.has_room(to@) && !old(self)@.connected(from@, to@)),
            r is Ok ==> final(self)@.doors == old(self)@.doors.push(
                DoorView { from: from@, to: to@, connection_type: ct, open: true },
            ),
            r is Err ==> final(self)@ == old(self)@,
    {
        if self.find_room(from).is_none() {
            return Err(TopologyError::RoomNotFound(from.to_owned()));
        }
        if self.find_room(to).is_none() {
            return Err(TopologyError::RoomNotFound(to.to_owned()));
        }
        let key = connection_key(from, to);
        if self.find_key(&key).is_some() {
            return Err(TopologyError::AlreadyConnected(from.to_owned(), to.to_owned()));
        }
        let door = Door::new(from, to, ct);
        self.connections.push((key, door));
        proof {
            let v = self@;
            let o = old(self)@;
            let nd = DoorView { from: from@, to: to@, connection_type: ct, open: true };
            assert(v.rooms =~= o.rooms);
            assert(v.doors =~= o.doors.push(nd));
            assert forall|i: int, j: int|
                0 <= i < v.doors.len() && 0 <= j < v.doors.len() && i != j implies door_key(
                #[trigger] v.doors[i],
            ) != door_key(#[trigger] v.doors[j]) by {
                if i == o.doors.len() {
                    assert(door_key(o.doors[j]) != spec_connection_key(from@, to@));
                } else if j == o.doors.len() {
                    assert(door_key(o.doors[i]) != spec_connection_key(from@, to@));
                } else {
                    assert(v.doors[i] == o.doors[i]);
                    assert(v.doors[j] == o.doors[j]);
                }
            }
            assert forall|i: int| 0 <= i < v.doors.len() implies v.rooms.contains(
                #[trigger] v.doors[i].from,
            ) && v.rooms.contains(v.doors[i].to) by {
                if i < o.doors.len() {
                    assert(v.doors[i] == o.doors[i]);
                }
            }
        }
        Ok(())
    }

    /// Disconnect two rooms.
    pub fn disconnect(&mut self, from: &str, to: &str) -> (r: Result<(), TopologyError>)
        requires
            old(self).wf(),
        ensures
            final(self).wf(),
            final(self)@.rooms == old(self)@.rooms,
            r is Ok <==> old(self)@.connected(from@, to@),
            r is Ok ==> final(self)@.doors == old(self)@.doors.remove(
                old(self)@.connection_index(from@, to@),
            ),
            r is Err ==> (r matches Err(TopologyError::ConnectionNotFound(a, b)) && a@ == from@
                && b@ == to@),
            r is Err ==> final(self)@ == old(self)@,
    {
        let key = connection_key(from, to);
        match self.find_key(&key) {
            None => Err(TopologyError::ConnectionNotFound(from.to_owned(), to.to_owned())),
            Some(i) => {
                self.connections.remove(i);
                proof {
                    let v = self@;
                    let o = old(self)@;
                    assert(v.rooms =~= o.rooms);
                    assert(v.doors =~= o.doors.remove(i as int));
                    assert forall|a: int, b: int|
                        0 <= a < v.doors.len() && 0 <= b < v.doors.len() && a != b implies door_key(
                        #[trigger] v.doors[a],
                    ) != door_key(#[trigger] v.doors[b]) by {
                        let a0 = if a < i { a } else { a + 1 };
                        let b0 = if b < i { b } else { b + 1 };
                        assert(v.doors[a] == o.doors[a0]);
                        assert(v.doors[b] == o.doors[b0]);
                    }
                    assert forall|a: int| 0 <= a < v.doors.len() implies v.rooms.contains(
                        #[trigger] v.doors[a].from,
                    ) && v.rooms.contains(v.doors[a].to) by {
                        let a0 = if a < i { a } else { a + 1 };
                        assert(v.doors[a] == o.doors[a0]);
                    }
                    assert forall|a: int| 0 <= a < self.connections@.len() implies (
                    #[trigger] self.connections@[a]).0@ == door_key(self.connections@[a].1@) by {
                        let a0 = if a < i { a } else { a + 1 };
                        assert(self.connections@[a] == old(self).connections@[a0]);
                    }
                }
                Ok(())
            },
        }
    }

    /// Set whether the connection between `a` and `b` is open.
    fn set_open(&mut self, a: &str, b: &str, open: bool) -> (r: Result<(), TopologyError>)
        requires
            old(self).wf(),
        ensures
            final(self).wf(),
            final(self)@.rooms == old(self)@.rooms,
            r is Ok <==> old(self)@.connected(a@, b@),
            r is Ok ==> final(self)@.doors == old(self)@.doors.update(
                old(self)@.connection_index(a@, b@),
                DoorView { open: open, ..old(self)@.doors[old(self)@.connection_index(a@, b@)] },
            ),
            r is Err ==> (r matches Err(TopologyError::ConnectionNotFound(x, y)) && x@ == a@
                && y@ == b@),
            r is Err ==> final(self)@ == old(self)@,
    {
        let key = connection_key(a, b);
        match self.find_key(&key) {
            None => Err(TopologyError::ConnectionNotFound(a.to_owned(), b.to_owned())),
            Some(i) => {
                let (k, d) = self.connections.remove(i);
                let door = Door { open: open, ..d };
                self.connections.insert(i, (k, door));
                proof {
                    let v = self@;
                    let o = old(self)@;
                    assert(self.connections@ =~= old(self).connections@.update(i as int, (k, door)));
                    assert(v.rooms =~= o.rooms);
                    assert(v.doors =~= o.doors.update(
                        i as int,
                        DoorView { open: open, ..o.doors[i as int] },
                    ));
                    assert forall|x: int, y: int|
                        0 <= x < v.doors.len() && 0 <= y < v.doors.len() && x != y implies door_key(
                        #[trigger] v.doors[x],
                    ) != door_key(#[trigger] v.doors[y]) by {
                        assert(door_key(v.doors[x]) == door_key(o.doors[x]));
                        assert(door_key(v.doors[y]) == door_key(o.doors[y]));
                    }
                    assert forall|x: int| 0 <= x < v.doors.len() implies v.rooms.contains(
                        #[trigger] v.doors[x].from,
                    ) && v.rooms.contains(v.doors[x].to) by {
                        assert(v.doors[x].from == o.doors[x].from);
                        assert(v.doors[x].to == o.doors[x].to);
                    }
                }
                Ok(())
            },
        }
    }

    /// Open a connection.
    pub fn open_connection(&mut self, a: &str, b: &str) -> (r: Result<(), TopologyError>)
        requires
            old(self).wf(),
        ensures
            final(self).wf(),
            final(self)@.rooms == old(self)@.rooms,
            r is Ok <==> old(self)@.connected(a@, b@),
            r is Ok ==> final(self)@.doors == old(self)@.doors.update(
                old(self)@.connection_index(a@, b@),
                DoorView { open: true, ..old(self)@.doors[old(self)@.connection_index(a@, b@)] },
            ),
            r is Err ==> (r matches Err(TopologyError::ConnectionNotFound(x, y)) && x@ == a@
                && y@ == b@),
            r is Err ==> final(self)@ == old(self)@,
    {
        self.set_open(a, b, true)
    }

    /// Close a connection. The rooms stay connected; the connection can no
    /// longer be traversed until it is opened again.
    pub fn close_connection(&mut self, a: &str, b: &str) -> (r: Result<(), TopologyError>)
        requires
            old(self).wf(),
        ensures
            final(self).wf(),
            final(self)@.rooms == old(self)@.rooms,
            r is Ok <==> old(self)@.connected(a@, b@),
            r is Ok ==> final(self)@.doors == old(self)@.doors.update(
                old(self)@.connection_index(a@, b@),
                DoorView { open: false, ..old(self)@.doors[old(self)@.connection_index(a@, b@)] },
            ),
            r is Err ==> (r matches Err(TopologyError::ConnectionNotFound(x, y)) && x@ == a@
                && y@ == b@),
            r is Err ==> final(self)@ == old(self)@,
    {
        self.set_open(a, b, false)
    }
}

impl Topology {
    /// Remove a room and all its connections.
    pub fn remove_room(&mut self, name: &str)
        requires
            old(self).wf(),
        ensures
            final(self).wf(),
            final(self)@.rooms == old(self)@.rooms.filter(|r: Seq<char>| r != name@),
            final(self)@.doors == old(self)@.doors.filter(
                |d: DoorView| d.from != name@ && d.to != name@,
            ),
            !final(self)@.has_room(name@),
            forall|i: int|
                0 <= i < final(self)@.doors.len() ==> (#[trigger] final(self)@.doors[i]).from != name@
                    && final(self)@.doors[i].to != name@,
    {
        let ghost o = self@;
        let ghost room_kept = |r: Seq<char>| r != name@;
        let ghost door_kept = |d: DoorView| d.from != name@ && d.to != name@;
        let mut rooms: Vec<String> = Vec::new();
        let mut i: usize = 0;
        while i < self.rooms.len()
            invariant
                self@ == o,
                self.wf(),
                i <= self.rooms@.len(),
                room_kept == (|r: Seq<char>| r != name@),
                rooms@.map_values(|r: String| r@) == o.rooms.take(i as int).filter(room_kept),
                forall|k: int|
                    0 <= k < rooms@.len() ==> exists|j: int|
                        0 <= j < i && #[trigger] o.rooms[j] == (#[trigger] rooms@[k])@,
                forall|k: int| 0 <= k < rooms@.len() ==> (#[trigger] rooms@[k])@ != name@,
                rooms@.map_values(|r: String| r@).no_duplicates(),
            decreases self.rooms@.len() - i,
        {
            let ghost before = rooms@;
            let keep = !same_text(&self.rooms[i], name);
            if keep {
                let r = self.rooms[i].clone();
                proof {
                    assert forall|k: int| 0 <= k < before.len() implies before[k]@ != r@ by {
                        let j = choose|j: int| 0 <= j < i && #[trigger] o.rooms[j] == before[k]@;
                        assert(o.rooms[i as int] == r@);
                    }
                }
                rooms.push(r);
            }
            proof {
                reveal_with_fuel(Seq::filter, 1);
                assert(o.rooms.take(i + 1).drop_last() =~= o.rooms.take(i as int));
                assert(o.rooms.take(i + 1).last() == self.rooms@[i as int]@);
                if keep {
                    assert(rooms@.map_values(|r: String| r@) =~= before.map_values(
                        |r: String| r@,
                    ).push(self.rooms@[i as int]@));
                    assert forall|k: int| 0 <= k < rooms@.len() implies exists|j: int|
                        0 <= j < i + 1 && #[trigger] o.rooms[j] == (#[trigger] rooms@[k])@ by {
                        if k == before.len() {
                            assert(o.rooms[i as int] == rooms@[k]@);
                        } else {
                            assert(rooms@[k] == before[k]);
                        }
                    }
                    let m = rooms@.map_values(|r: String| r@);
                    assert forall|x: int, y: int|
                        0 <= x < m.len() && 0 <= y < m.len() && x != y implies m[x] != m[y] by {
                        if x == before.len() {
                            assert(before[y]@ != rooms@[x]@);
                        } else if y == before.len() {
                            assert(before[x]@ != rooms@[y]@);
                        } else {
                            assert(m[x] == before.map_values(|r: String| r@)[x]);
                            assert(m[y] == before.map_values(|r: String| r@)[y]);
                        }
                    }
                } else {
                    assert(rooms@ == before);
                }
            }
            i = i + 1;
        }
        proof {
            assert(o.rooms.take(i as int) =~= o.rooms);
        }
        let mut conns: Vec<(String, Door)> = Vec::new();
        let mut i: usize = 0;
        while i < self.connections.len()
            invariant
                self@ == o,
                self.wf(),
                i <= self.connections@.len(),
                door_kept == (|d: DoorView| d.from != name@ && d.to != name@),
                conns@.map_values(|e: (String, Door)| e.1@) == o.doors.take(i as int).filter(
                    door_kept,
                ),
                forall|k: int|
                    0 <= k < conns@.len() ==> exists|j: int|
                        0 <= j < i && #[trigger] self.connections@[j] == #[trigger] conns@[k],
                forall|k: int|
                    0 <= k < conns@.len() ==> (#[trigger] conns@[k]).1@.from != name@
                        && conns@[k].1@.to != name@,
                forall|x: int, y: int|
                    0 <= x < conns@.len() && 0 <= y < conns@.len() && x != y ==> (
                    #[trigger] conns@[x]).0@ != (#[trigger] conns@[y]).0@,
            decreases self.connections@.len() - i,
        {
            let ghost before = conns@;
            let keep = !same_text(&self.connections[i].1.from, name) && !same_text(
                &self.connections[i].1.to,
                name,
            );
            if keep {
                let e = (self.connections[i].0.clone(), self.connections[i].1.clone());
                proof {
                    assert(e == self.connections@[i as int]);
                    assert forall|k: int| 0 <= k < before.len() implies before[k].0@ != e.0@ by {
                        let j = choose|j: int|
                            0 <= j < i && #[trigger] self.connections@[j] == before[k];
                        assert(door_key(o.doors[j]) != door_key(o.doors[i as int]));
                    }
                }
                conns.push(e);
            }
            proof {
                reveal_with_fuel(Seq::filter, 1);
                assert(o.doors.take(i + 1).drop_last() =~= o.doors.take(i as int));
                assert(o.doors.take(i + 1).last() == self.connections@[i as int].1@);
                if keep {
                    assert(conns@.map_values(|e: (String, Door)| e.1@) =~= before.map_values(
                        |e: (String, Door)| e.1@,
                    ).push(self.connections@[i as int].1@));
                    assert forall|k: int| 0 <= k < conns@.len() implies exists|j: int|
                        0 <= j < i + 1 && #[trigger] self.connections@[j] == #[trigger] conns@[k] by {
                        if k == before.len() {
                            assert(self.connections@[i as int] == conns@[k]);
                        } else {
                            assert(conns@[k] == before[k]);
                        }
                    }
                } else {
                    assert(conns@ == before);
                }
            }
            i = i + 1;
        }
        proof {
            assert(o.doors.take(i as int) =~= o.doors);
        }
        self.rooms = rooms;
        self.connections = conns;
        proof {
            let v = self@;
            assert forall|x: int| 0 <= x < self.connections@.len() implies (
            #[trigger] self.connections@[x]).0@ == door_key(self.connections@[x].1@) by {
                let j = choose|j: int|
                    0 <= j < old(self).connections@.len() && #[trigger] old(self).connections@[j] == self.connections@[x];
            }
            assert forall|x: int, y: int|
                0 <= x < v.doors.len() && 0 <= y < v.doors.len() && x != y implies door_key(
                #[trigger] v.doors[x],
            ) != door_key(#[trigger] v.doors[y]) by {
                assert(self.connections@[x].0@ != self.connections@[y].0@);
            }
            assert forall|x: int| 0 <= x < v.doors.len() implies v.rooms.contains(
                #[trigger] v.doors[x].from,
            ) && v.rooms.contains(v.doors[x].to) by {
                let j = choose|j: int|
                    0 <= j < old(self).connections@.len() && #[trigger] old(self).connections@[j] == self.connections@[x];
                assert(o.doors[j] == v.doors[x]);
                let a = choose|a: int| 0 <= a < o.rooms.len() && o.rooms[a] == o.doors[j].from;
                let b = choose|b: int| 0 <= b < o.rooms.len() && o.rooms[b] == o.doors[j].to;
                o.rooms.lemma_filter_contains(room_kept, a);
                o.rooms.lemma_filter_contains(room_kept, b);
            }
            assert(!v.has_room(name@)) by {
                if v.has_room(name@) {
                    let k = choose|k: int| 0 <= k < v.rooms.len() && v.rooms[k] == name@;
                    o.rooms.lemma_filter_pred(room_kept, k);
                }
            }
            assert forall|x: int| 0 <= x < v.doors.len() implies (#[trigger] v.doors[x]).from != name@
                && v.doors[x].to != name@ by {
                o.doors.lemma_filter_pred(door_kept, x);
            }
        }
    }

    /// Get all connections that leave a room: those that start there, and
    /// those that end there unless they are one-way.
    pub fn connections_from(&self, room: &str) -> (r: Vec<&Door>)
        ensures
            r@.map_values(|d: &Door| d@) == self@.doors_from(room@),
    {
        let ghost pred = |d: DoorView| TopologyView::leaves(d, room@);
        let mut out: Vec<&Door> = Vec::new();
        let mut i: usize = 0;
        while i < self.connections.len()
            invariant
                i <= self.connections@.len(),
                pred == (|d: DoorView| TopologyView::leaves(d, room@)),
                out@.map_values(|d: &Door| d@) == self@.doors.take(i as int).filter(pred),
            decreases self.connections@.len() - i,
        {
            let ghost before = out@;
            let d = &self.connections[i].1;
            let leaves = same_text(&d.from, room) || (!(d.connection_type == ConnectionType::OneWay)
                && same_text(&d.to, room));
            if leaves {
                out.push(d);
            }
            proof {
                reveal_with_fuel(Seq::filter, 1);
                assert(self@.doors.take(i + 1).drop_last() =~= self@.doors.take(i as int));
                assert(self@.doors.take(i + 1).last() == d@);
                if leaves {
                    assert(out@.map_values(|d: &Door| d@) =~= before.map_values(|d: &Door| d@).push(
                        d@,
                    ));
                } else {
                    assert(out@ == before);
                }
            }
            i = i + 1;
        }
        proof {
            assert(self@.doors.take(i as int) =~= self@.doors);
        }
        out
    }

    /// Whether some connection leads from `a` to `b`, and whether some open
    /// connection does.
    pub(crate) fn passage(&self, a: &str, b: &str) -> (r: (bool, bool))
        ensures
            r.0 == self@.leads(a@, b@),
            r.1 == self@.passable(a@, b@),
    {
        let mut leads = false;
        let mut passable = false;
        let mut i: usize = 0;
        while i < self.connections.len()
            invariant
                i <= self.connections@.len(),
                leads == exists|j: int|
                    0 <= j < i && door_allows(DoorView { open: true, ..#[trigger] self@.doors[j] }, a@, b@),
                passable == exists|j: int| 0 <= j < i && door_allows(#[trigger] self@.doors[j], a@, b@),
            decreases self.connections@.len() - i,
        {
            let d = &self.connections[i].1;
            let forward = same_text(&d.from, a) && same_text(&d.to, b);
            let way = match d.connection_type {
                ConnectionType::OneWay => forward,
                _ => forward || (same_text(&d.from, b) && same_text(&d.to, a)),
            };
            proof {
                assert(self@.doors[i as int] == d@);
                assert(way == door_allows(DoorView { open: true, ..self@.doors[i as int] }, a@, b@));
            }
            if way {
                leads = true;
                if d.open {
                    passable = true;
                }
            }
            i = i + 1;
        }
        (leads, passable)
    }

    /// The rooms that an open connection leads to from `room`, one per such
    /// connection.
    pub(crate) fn open_neighbors(&self, room: &str) -> (r: Vec<&str>)
        ensures
            r@.map_values(|s: &str| s@) == self@.open_neighbor_names(room@),
    {
        let ghost f = |d: DoorView|
            if d.open {
                TopologyView::other_side(d, room@)
            } else {
                None
            };
        let mut out: Vec<&str> = Vec::new();
        let mut i: usize = 0;
        while i < self.connections.len()
            invariant
                i <= self.connections@.len(),
                f == (|d: DoorView|
                    if d.open {
                        TopologyView::other_side(d, room@)
                    } else {
                        None
                    }),
                out@.map_values(|s: &str| s@) == self@.doors.take(i as int).filter_map(f),
            decreases self.connections@.len() - i,
        {
            let ghost before = out@;
            let d = &self.connections[i].1;
            proof {
                assert(self@.doors.take(i + 1).drop_last() =~= self@.doors.take(i as int));
                assert(self@.doors.take(i + 1).last() == d@);
            }
            if d.open {
                if same_text(&d.from, room) {
                    out.push(d.to.as_str());
                    assert(out@.map_values(|s: &str| s@) =~= before.map_values(|s: &str| s@)
                        + seq![d@.to]);
                } else if !(d.connection_type == ConnectionType::OneWay) && same_text(&d.to, room) {
                    out.push(d.from.as_str());
                    assert(out@.map_values(|s: &str| s@) =~= before.map_values(|s: &str| s@)
                        + seq![d@.from]);
                }
            }
            i = i + 1;
        }
        proof {
            assert(self@.doors.take(i as int) =~= self@.doors);
        }
        out
    }

    /// Get rooms adjacent to the given room, one per connection that leaves it.
    pub fn neighbors(&self, room: &str) -> (r: Vec<&str>)
        ensures
            r@.map_values(|s: &str| s@) == self@.neighbor_names(room@),
    {
        let ghost f = |d: DoorView| TopologyView::other_side(d, room@);
        let mut out: Vec<&str> = Vec::new();
        let mut i: usize = 0;
        while i < self.connections.len()
            invariant
                i <= self.connections@.len(),
                f == (|d: DoorView| TopologyView::other_side(d, room@)),
                out@.map_values(|s: &str| s@) == self@.doors.take(i as int).filter_map(f),
            decreases self.connections@.len() - i,
        {
            let ghost before = out@;
            let d = &self.connections[i].1;
            proof {
                assert(self@.doors.take(i + 1).drop_last() =~= self@.doors.take(i as int));
                assert(self@.doors.take(i + 1).last() == d@);
            }
            if same_text(&d.from, room) {
                out.push(d.to.as_str());
                assert(out@.map_values(|s: &str| s@) =~= before.map_values(|s: &str| s@) + seq![
                    d@.to,
                ]);
            } else if !(d.connection_type == ConnectionType::OneWay) && same_text(&d.to, room) {
                out.push(d.from.as_str());
                assert(out@.map_values(|s: &str| s@) =~= before.map_values(|s: &str| s@) + seq![
                    d@.from,
                ]);
            }
            i = i + 1;
        }
        proof {
            assert(self@.doors.take(i as int) =~= self@.doors);
        }
        out
    }
}

/// The texts of a sequence of strings.
pub open spec fn names(s: Seq<String>) -> Seq<Seq<char>> {
    s.map_values(|x: String| x@)
}

impl Topology {
    /// A topology that keeps its invariant has a well-formed view.
    pub proof fn lemma_view_well_formed(&self)
        requires
            self.wf(),
        ensures
            self@.well_formed(),
    {
    }
}

/// Connectedness does not depend on the order in which the two rooms are named.
pub proof fn lemma_connected_symmetric(t: TopologyView, a: Seq<char>, b: Seq<char>)
    ensures
        t.connected(a, b) == t.connected(b, a),
{
    lemma_connection_key_symmetric(a, b);
}

/// Once a connection between `a` and `b` has been made, the two rooms are
/// connected, whichever way round they are named.
pub proof fn lemma_connect_then_connected(
    t: TopologyView,
    a: Seq<char>,
    b: Seq<char>,
    ct: ConnectionType,
)
    ensures
        ({
            let after = TopologyView {
                doors: t.doors.push(DoorView { from: a, to: b, connection_type: ct, open: true }),
                ..t
            };
            after.connected(a, b) && after.connected(b, a)
        }),
{
    let after = TopologyView {
        doors: t.doors.push(DoorView { from: a, to: b, connection_type: ct, open: true }),
        ..t
    };
    assert(door_key(after.doors[t.doors.len() as int]) == spec_connection_key(a, b));
    lemma_connected_symmetric(after, a, b);
}

/// Disconnecting two connected rooms of a well-formed topology leaves them
/// unconnected.
pub proof fn lemma_disconnect_then_unconnected(t: TopologyView, a: Seq<char>, b: Seq<char>)
    requires
        t.well_formed(),
        t.connected(a, b),
    ensures
        ({
            let after = TopologyView { doors: t.doors.remove(t.connection_index(a, b)), ..t };
            !after.connected(a, b) && !after.connected(b, a)
        }),
{
    let k = t.connection_index(a, b);
    let after = TopologyView { doors: t.doors.remove(k), ..t };
    if after.connected(a, b) {
        let i = choose|i: int|
            0 <= i < after.doors.len() && door_key(#[trigger] after.doors[i]) == spec_connection_key(
                a,
                b,
            );
        let i0 = if i < k { i } else { i + 1 };
        assert(after.doors[i] == t.doors[i0]);
        assert(door_key(t.doors[i0]) != door_key(t.doors[k]));
    }
    lemma_connected_symmetric(after, a, b);
}

/// Opening or closing a connection changes no connectedness: the rooms of
/// every pair stay connected or unconnected as they were.
pub proof fn lemma_open_flag_keeps_connections(t: TopologyView, k: int, open: bool, a: Seq<char>, b: Seq<char>)
    requires
        0 <= k < t.doors.len(),
    ensures
        (TopologyView { doors: t.doors.update(k, DoorView { open: open, ..t.doors[k] }), ..t }).connected(
            a,
            b,
        ) == t.connected(a, b),
{
    let after = TopologyView { doors: t.doors.update(k, DoorView { open: open, ..t.doors[k] }), ..t };
    if t.connected(a, b) {
        let i = choose|i: int|
            0 <= i < t.doors.len() && door_key(#[trigger] t.doors[i]) == spec_connection_key(a, b);
        assert(door_key(after.doors[i]) == door_key(t.doors[i]));
    }
    if after.connected(a, b) {
        let i = choose|i: int|
            0 <= i < after.doors.len() && door_key(#[trigger] after.doors[i]) == spec_connection_key(
                a,
                b,
            );
        assert(door_key(after.doors[i]) == door_key(t.doors[i]));
    }
}

/// Disconnecting two rooms just connected undoes the connection: the
/// topology's connections are as they were before.
pub proof fn lemma_disconnect_undoes_connect(
    t: TopologyView,
    a: Seq<char>,
    b: Seq<char>,
    ct: ConnectionType,
)
    requires
        t.well_formed(),
        t.has_room(a),
        t.has_room(b),
        !t.connected(a, b),
    ensures
        ({
            let after = TopologyView {
                doors: t.doors.push(DoorView { from: a, to: b, connection_type: ct, open: true }),
                ..t
            };
            &&& after.well_formed()
            &&& after.connected(a, b)
            &&& after.doors.remove(after.connection_index(a, b)) == t.doors
        }),
{
    let nd = DoorView { from: a, to: b, connection_type: ct, open: true };
    let after = TopologyView { doors: t.doors.push(nd), ..t };
    let last = t.doors.len() as int;
    assert(door_key(after.doors[last]) == spec_connection_key(a, b));
    assert forall|i: int, j: int|
        0 <= i < after.doors.len() && 0 <= j < after.doors.len() && i != j implies door_key(
        #[trigger] after.doors[i],
    ) != door_key(#[trigger] after.doors[j]) by {
        if i == last {
            assert(door_key(t.doors[j]) != spec_connection_key(a, b));
        } else if j == last {
            assert(door_key(t.doors[i]) != spec_connection_key(a, b));
        } else {
            assert(after.doors[i] == t.doors[i]);
            assert(after.doors[j] == t.doors[j]);
        }
    }
    assert forall|i: int| 0 <= i < after.doors.len() implies after.rooms.contains(
        #[trigger] after.doors[i].from,
    ) && after.rooms.contains(after.doors[i].to) by {
        if i < last {
            assert(after.doors[i] == t.doors[i]);
        }
    }
    let k = after.connection_index(a, b);
    if k != last {
        assert(door_key(after.doors[k]) != door_key(after.doors[last]));
    }
    assert(after.doors.remove(last) =~= t.doors);
}

/// Opening a connection that was just closed restores it when it was open
/// before, and closing one just opened restores it when it was closed.
pub proof fn lemma_open_undoes_close(t: TopologyView, k: int, open: bool)
    requires
        0 <= k < t.doors.len(),
        t.doors[k].open == open,
    ensures
        ({
            let flipped = t.doors.update(k, DoorView { open: !open, ..t.doors[k] });
            flipped.update(k, DoorView { open: open, ..flipped[k] }) == t.doors
        }),
{
    let flipped = t.doors.update(k, DoorView { open: !open, ..t.doors[k] });
    assert(flipped.update(k, DoorView { open: open, ..flipped[k] }) =~= t.doors);
}

/// The rooms listed as neighbours of `a` are exactly those that some
/// connection, open or closed, would let an agent pass to from `a`: doors and
/// warps lead both ways, one-way passages only forwards.
pub proof fn lemma_neighbor_names(t: TopologyView, a: Seq<char>, b: Seq<char>)
    ensures
        t.neighbor_names(a).contains(b) <==> t.leads(a, b),
    decreases t.doors.len(),
{
    let f = |d: DoorView| TopologyView::other_side(d, a);
    let g = |d: DoorView| DoorView { open: true, ..d };
    if t.doors.len() == 0 {
        assert(t.neighbor_names(a) =~= Seq::<Seq<char>>::empty());
    } else {
        let h = TopologyView { rooms: t.rooms, doors: t.doors.drop_last() };
        lemma_neighbor_names(h, a, b);
        let last = t.doors.last();
        assert(t.neighbor_names(a) == match f(last) {
            Some(s) => h.neighbor_names(a) + seq![s],
            None => h.neighbor_names(a),
        });
        assert(forall|d: DoorView| #[trigger] f(d) == Some(b) <==> door_allows(g(d), a, b));
        if t.leads(a, b) {
            let i = choose|i: int|
                0 <= i < t.doors.len() && door_allows(
                    DoorView { open: true, ..#[trigger] t.doors[i] },
                    a,
                    b,
                );
            if i < t.doors.len() - 1 {
                assert(h.doors[i] == t.doors[i]);
                assert(h.leads(a, b));
                let k = choose|k: int|
                    0 <= k < h.neighbor_names(a).len() && h.neighbor_names(a)[k] == b;
                assert(t.neighbor_names(a)[k] == b);
            } else {
                assert(f(last) == Some(b));
                assert(t.neighbor_names(a).last() == b);
            }
        }
        if t.neighbor_names(a).contains(b) {
            let k = choose|k: int| 0 <= k < t.neighbor_names(a).len() && t.neighbor_names(a)[k] == b;
            if k < h.neighbor_names(a).len() {
                assert(h.neighbor_names(a)[k] == b);
                assert(h.neighbor_names(a).contains(b));
                let i = choose|i: int|
                    0 <= i < h.doors.len() && door_allows(
                        DoorView { open: true, ..#[trigger] h.doors[i] },
                        a,
                        b,
                    );
                assert(t.doors[i] == h.doors[i]);
            } else {
                assert(f(t.doors[t.doors.len() - 1]) == Some(b));
                assert(door_allows(g(t.doors[t.doors.len() - 1]), a, b));
            }
        }
    }
}

/// The connections listed as leaving a room are exactly the connections of
/// the topology that start there, together with those that end there and are
/// not one-way: doors and warps are listed from both of their rooms. Put
/// otherwise, a connection is listed from a room exactly when, were it open,
/// it would let an agent pass from that room to the room at its other end.
pub proof fn lemma_connections_leaving(t: TopologyView, room: Seq<char>, d: DoorView)
    ensures
        t.doors_from(room).contains(d) <==> (t.doors.contains(d) && (d.from == room || (d.to
            == room && d.connection_type != ConnectionType::OneWay))),
        t.doors_from(room).contains(d) <==> (t.doors.contains(d) && door_allows(
            DoorView { open: true, ..d },
            room,
            if d.from == room {
                d.to
            } else {
                d.from
            },
        )),
{
    let pred = |x: DoorView| TopologyView::leaves(x, room);
    assert(t.doors_from(room) == t.doors.filter(pred));
    if t.doors_from(room).contains(d) {
        t.doors.lemma_filter_contains_rev(pred, d);
        let i = choose|i: int| 0 <= i < t.doors.filter(pred).len() && t.doors.filter(pred)[i] == d;
        t.doors.lemma_filter_pred(pred, i);
    }
    if t.doors.contains(d) && (d.from == room || (d.to == room && d.connection_type
        != ConnectionType::OneWay)) {
        let i = choose|i: int| 0 <= i < t.doors.len() && t.doors[i] == d;
        t.doors.lemma_filter_contains(pred, i);
    }
}

/// A room that an open connection leads to from `a` is one of the rooms of
/// a well-formed topology, and some connection leads there.
pub proof fn lemma_passable_room(t: TopologyView, a: Seq<char>, b: Seq<char>)
    requires
        t.well_formed(),
        t.passable(a, b),
    ensures
        t.has_room(b),
        t.leads(a, b),
{
    let i = choose|i: int| 0 <= i < t.doors.len() && door_allows(#[trigger] t.doors[i], a, b);
    assert(t.rooms.contains(t.doors[i].from));
    assert(t.rooms.contains(t.doors[i].to));
    assert(DoorView { open: true, ..t.doors[i] } == t.doors[i]);
}

/// The rooms listed as open neighbours of `a` are exactly those an open
/// connection lets an agent pass to from `a`.
pub proof fn lemma_open_neighbor_names(t: TopologyView, a: Seq<char>, b: Seq<char>)
    ensures
        t.open_neighbor_names(a).contains(b) <==> t.passable(a, b),
    decreases t.doors.len(),
{
    let f = |d: DoorView|
        if d.open {
            TopologyView::other_side(d, a)
        } else {
            None
        };
    if t.doors.len() == 0 {
        assert(t.open_neighbor_names(a) =~= Seq::<Seq<char>>::empty());
    } else {
        let h = TopologyView { rooms: t.rooms, doors: t.doors.drop_last() };
        lemma_open_neighbor_names(h, a, b);
        let last = t.doors.last();
        assert(t.open_neighbor_names(a) == match f(last) {
            Some(s) => h.open_neighbor_names(a) + seq![s],
            None => h.open_neighbor_names(a),
        });
        assert(forall|d: DoorView| (f(d) == Some(b)) == door_allows(d, a, b));
        if t.passable(a, b) {
            let i = choose|i: int| 0 <= i < t.doors.len() && door_allows(#[trigger] t.doors[i], a, b);
            if i < t.doors.len() - 1 {
                assert(h.doors[i] == t.doors[i]);
                assert(h.passable(a, b));
                let k = choose|k: int|
                    0 <= k < h.open_neighbor_names(a).len() && h.open_neighbor_names(a)[k] == b;
                assert(t.open_neighbor_names(a)[k] == b);
            } else {
                assert(t.open_neighbor_names(a).last() == b);
            }
        }
        if t.open_neighbor_names(a).contains(b) {
            let k = choose|k: int|
                0 <= k < t.open_neighbor_names(a).len() && t.open_neighbor_names(a)[k] == b;
            if k < h.open_neighbor_names(a).len() {
                assert(h.open_neighbor_names(a)[k] == b);
                assert(h.open_neighbor_names(a).contains(b));
                let i = choose|i: int| 0 <= i < h.doors.len() && door_allows(#[trigger] h.doors[i], a, b);
                assert(t.doors[i] == h.doors[i]);
            } else {
                assert(f(t.doors[t.doors.len() - 1]) == Some(b));
            }
        }
    }
}

/// Doors and warps can be passed in both directions; a one-way passage only
/// from its source to its destination; a closed connection in neither.
pub proof fn lemma_traversal_directions(d: DoorView, a: Seq<char>, b: Seq<char>)
    ensures
        d.connection_type != ConnectionType::OneWay ==> door_allows(d, a, b) == door_allows(d, b, a),
        d.connection_type == ConnectionType::OneWay && d.from != d.to ==> !(door_allows(d, a, b)
            && door_allows(d, b, a)),
        !d.open ==> !door_allows(d, a, b),
        d.open ==> door_allows(d, d.from, d.to),
{
}

impl Clone for Topology {
    fn clone(&self) -> (r: Self)
        ensures
            r@ == self@,
            r.wf() == self.wf(),
    {
        let mut rooms: Vec<String> = Vec::new();
        let mut i: usize = 0;
        while i < self.rooms.len()
            invariant
                i <= self.rooms@.len(),
                rooms@ == self.rooms@.take(i as int),
            decreases self.rooms@.len() - i,
        {
            rooms.push(self.rooms[i].clone());
            assert(rooms@ =~= self.rooms@.take(i + 1));
            i = i + 1;
        }
        let mut connections: Vec<(String, Door)> = Vec::new();
        let mut j: usize = 0;
        while j < self.connections.len()
            invariant
                j <= self.connections@.len(),
                connections@ == self.connections@.take(j as int),
            decreases self.connections@.len() - j,
        {
            connections.push((self.connections[j].0.clone(), self.connections[j].1.clone()));
            assert(connections@ =~= self.connections@.take(j + 1));
            j = j + 1;
        }
        assert(rooms@ =~= self.rooms@);
        assert(connections@ =~= self.connections@);
        Topology { rooms, connections }
    }
}

impl Default for Topology {
    fn default() -> (t: Topology)
        ensures
            t.wf(),
            t@.rooms == Seq::<Seq<char>>::empty(),
            t@.doors == Seq::<DoorView>::empty(),
    {
        Topology::new()
    }
}

} // verus!
