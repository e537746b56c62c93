//! Sessions: agents admitted into rooms, moved between them and expelled.

use vstd::prelude::*;

use crate::agent::{AgentView, RoomAgent};
use crate::room::{Room, RoomState, RoomView};
use crate::topology::{
    same_text, ConnectionType, DoorView, Topology, TopologyError, TopologyView,
};

verus! {

/// Errors from session operations.
#[derive(Debug)]
pub enum SessionError {
    /// No agent of that name is in the session.
    AgentNotFound(String),
    /// No room of that name is in the session.
    RoomNotFound(String),
    /// The agent is already in a room.
    AgentAlreadyInRoom(String),
    /// The agent is not in any room.
    AgentNotInRoom(String),
    /// The two rooms are not connected.
    NotConnected(String, String),
    /// The connection between the two rooms is closed.
    ConnectionClosed(String, String),
    /// The room is closed.
    RoomClosed(String),
    /// The agent's energy does not cover the cost of the move.
    InsufficientEnergy,
    /// The topology refused the request.
    Topology(TopologyError),
}

impl Clone for SessionError {
    fn clone(&self) -> (r: Self)
        ensures
            r == *self,
    {
        match self {
            SessionError::AgentNotFound(a) => SessionError::AgentNotFound(a.clone()),
            SessionError::RoomNotFound(a) => SessionError::RoomNotFound(a.clone()),
            SessionError::AgentAlreadyInRoom(a) => SessionError::AgentAlreadyInRoom(a.clone()),
            SessionError::AgentNotInRoom(a) => SessionError::AgentNotInRoom(a.clone()),
            SessionError::NotConnected(a, b) => SessionError::NotConnected(a.clone(), b.clone()),
            SessionError::ConnectionClosed(a, b) => SessionError::ConnectionClosed(a.clone(), b.clone()),
            SessionError::RoomClosed(a) => SessionError::RoomClosed(a.clone()),
            SessionError::InsufficientEnergy => SessionError::InsufficientEnergy,
            SessionError::Topology(e) => SessionError::Topology(e.clone()),
        }
    }
}

impl From<TopologyError> for SessionError {
    fn from(e: TopologyError) -> (r: SessionError)
        ensures
            r == SessionError::Topology(e),
    {
        SessionError::Topology(e)
    }
}

impl vstd::std_specs::convert::FromSpecImpl<TopologyError> for SessionError {
    open spec fn obeys_from_spec() -> bool {
        true
    }

    open spec fn from_spec(v: TopologyError) -> SessionError {
        SessionError::Topology(v)
    }
}

/// Whether one of `rooms` is named `n`.
pub open spec fn rooms_have(rooms: Seq<RoomView>, n: Seq<char>) -> bool {
    exists|i: int| 0 <= i < rooms.len() && (#[trigger] rooms[i]).name == n
}

/// The position of the room named `n` in `rooms`.
pub open spec fn room_pos(rooms: Seq<RoomView>, n: Seq<char>) -> int {
    choose|i: int| 0 <= i < rooms.len() && (#[trigger] rooms[i]).name == n
}

/// The position of the agent named `n` in `agents`.
pub open spec fn agent_pos(agents: Seq<AgentView>, n: Seq<char>) -> int {
    choose|i: int| 0 <= i < agents.len() && (#[trigger] agents[i]).name == n
}

/// `rooms` after the agent named `n` has left the room named `room`, if there is one.
pub open spec fn leave_room(rooms: Seq<RoomView>, room: Seq<char>, n: Seq<char>) -> Seq<RoomView> {
    if rooms_have(rooms, room) {
        rooms.update(room_pos(rooms, room), rooms[room_pos(rooms, room)].leave(n))
    } else {
        rooms
    }
}

/// `rooms` after agent `a` has tried to enter the room named `room`, if there is one.
pub open spec fn enter_room(rooms: Seq<RoomView>, room: Seq<char>, a: AgentView) -> Seq<RoomView> {
    if rooms_have(rooms, room) {
        rooms.update(room_pos(rooms, room), rooms[room_pos(rooms, room)].enter(a))
    } else {
        rooms
    }
}

/// Agent `a`, in no room if it was in room `name`.
pub open spec fn evicted(a: AgentView, name: Seq<char>) -> AgentView {
    if a.current_room == Some(name) {
        AgentView { current_room: None, ..a }
    } else {
        a
    }
}

/// `agents` after room `name` has been emptied: those that were in it are in no room.
pub open spec fn evict_all(agents: Seq<AgentView>, name: Seq<char>) -> Seq<AgentView> {
    agents.map_values(|a: AgentView| evicted(a, name))
}

/// A new open room named `n`, with no agents and no tags.
pub open spec fn fresh_room(n: Seq<char>) -> RoomView {
    RoomView { name: n, state: RoomState::Open, agents: Seq::empty(), tags: Seq::empty() }
}

/// What a session is: its topology, its rooms, and the agents it knows.
pub struct SessionView {
    pub topology: TopologyView,
    pub rooms: Seq<RoomView>,
    pub agents: Seq<AgentView>,
}

impl SessionView {
    /// Whether the session has a room named `n`.
    pub open spec fn has_room(self, n: Seq<char>) -> bool {
        rooms_have(self.rooms, n)
    }

    /// The position of the room named `n`.
    pub open spec fn room_index(self, n: Seq<char>) -> int {
        room_pos(self.rooms, n)
    }

    /// Whether the session knows an agent named `n` and records it in a room.
    pub open spec fn placed(self, n: Seq<char>) -> bool {
        self.has_agent(n) && self.agent(n).current_room is Some
    }

    /// Whether the session knows an agent named `n`.
    pub open spec fn has_agent(self, n: Seq<char>) -> bool {
        exists|i: int| 0 <= i < self.agents.len() && (#[trigger] self.agents[i]).name == n
    }

    /// The position of the agent named `n`.
    pub open spec fn agent_index(self, n: Seq<char>) -> int {
        agent_pos(self.agents, n)
    }

    /// The agents after `a` has been recorded: it replaces the agent of the
    /// same name, or is appended.
    pub open spec fn record(self, a: AgentView) -> Seq<AgentView> {
        if self.has_agent(a.name) {
            self.agents.update(self.agent_index(a.name), a)
        } else {
            self.agents.push(a)
        }
    }

    /// The agent named `n`.
    pub open spec fn agent(self, n: Seq<char>) -> AgentView {
        self.agents[self.agent_index(n)]
    }

    /// The agent named `n`, now in room `to`.
    pub open spec fn relocated(self, n: Seq<char>, to: Seq<char>) -> AgentView {
        AgentView { current_room: Some(to), ..self.agent(n) }
    }

    /// The session after the agent named `n` has left its current room on
    /// its way elsewhere.
    pub open spec fn departed(self, n: Seq<char>) -> SessionView {
        SessionView {
            rooms: leave_room(self.rooms, self.agent(n).current_room.unwrap(), n),
            ..self
        }
    }

    /// The session after the agent named `n` has moved from its current room
    /// to room `to`: it left the old room, it is recorded in `to`, and it
    /// entered `to` if that room admits it.
    pub open spec fn moved(self, n: Seq<char>, to: Seq<char>) -> SessionView {
        SessionView {
            topology: self.topology,
            rooms: enter_room(self.departed(n).rooms, to, self.relocated(n, to)),
            agents: self.agents.update(self.agent_index(n), self.relocated(n, to)),
        }
    }

    /// The session after agent `a` has been brought into its room.
    pub open spec fn admitted(self, a: AgentView) -> SessionView {
        SessionView {
            topology: self.topology,
            rooms: enter_room(self.rooms, a.current_room.unwrap(), a),
            agents: self.record(a),
        }
    }

    /// The session after the agent named `n` has been expelled: it is
    /// forgotten, and it leaves the room it is recorded in.
    pub open spec fn expelled(self, n: Seq<char>) -> SessionView {
        SessionView {
            topology: self.topology,
            rooms: match self.agent(n).current_room {
                Some(rn) => leave_room(self.rooms, rn, n),
                None => self.rooms,
            },
            agents: self.agents.remove(self.agent_index(n)),
        }
    }

    /// Every agent that a room holds is recorded as being in that room.
    pub open spec fn rooms_hold_their_agents(self) -> bool {
        forall|i: int, n: Seq<char>|
            0 <= i < self.rooms.len() && #[trigger] self.rooms[i].has_agent(n) ==> self.has_agent(n)
                && self.agent(n).current_room == Some(self.rooms[i].name)
    }

    /// Every agent recorded as being in a room is held by that room.
    pub open spec fn agents_in_their_rooms(self) -> bool {
        forall|n: Seq<char>|
            #[trigger] self.has_agent(n) && self.agent(n).current_room is Some ==> self.has_room(
                self.agent(n).current_room.unwrap(),
            ) && self.rooms[self.room_index(self.agent(n).current_room.unwrap())].has_agent(n)
    }

    /// Every agent a room holds is the session's record of that agent.
    pub open spec fn rooms_hold_records(self) -> bool {
        forall|i: int, j: int|
            0 <= i < self.rooms.len() && 0 <= j < self.rooms[i].agents.len()
                ==> #[trigger] self.rooms[i].agents[j] == self.agent(self.rooms[i].agents[j].name)
    }

    /// The session has a room of each name exactly when its topology does.
    pub open spec fn rooms_match_topology(self) -> bool {
        forall|n: Seq<char>|
            #![trigger self.topology.has_room(n)]
            #![trigger self.has_room(n)]
            self.topology.has_room(n) == self.has_room(n)
    }

    /// The session is well formed: names are distinct, a room holds an agent
    /// exactly when that agent's current room is that room, what it holds is
    /// the session's record of the agent, and the rooms are those of the
    /// topology.
    pub open spec fn well_formed(self) -> bool {
        &&& self.distinct()
        &&& self.rooms_hold_their_agents()
        &&& self.agents_in_their_rooms()
        &&& self.rooms_hold_records()
        &&& self.rooms_match_topology()
    }

    /// Room names are distinct, each room is well formed, and agent names are distinct.
    pub open spec fn distinct(self) -> bool {
        &&& forall|i: int, j: int|
            0 <= i < self.rooms.len() && 0 <= j < self.rooms.len() && i != j
                ==> (#[trigger] self.rooms[i]).name != (#[trigger] self.rooms[j]).name
        &&& forall|i: int| 0 <= i < self.rooms.len() ==> (#[trigger] self.rooms[i]).well_formed()
        &&& forall|i: int, j: int|
            0 <= i < self.agents.len() && 0 <= j < self.agents.len() && i != j
                ==> (#[trigger] self.agents[i]).name != (#[trigger] self.agents[j]).name
    }
}

/// Session managing agents across a topology of rooms.
pub struct Session {
    /// Room topology.
    pub topology: Topology,
    /// Rooms, one per name.
    pub rooms: Vec<Room>,
    /// All known agents, whether in rooms or not, one per name.
    pub agents: Vec<RoomAgent>,
}

impl View for Session {
    type V = SessionView;

    open spec fn view(&self) -> SessionView {
        SessionView {
            topology: self.topology@,
            rooms: self.rooms@.map_values(|r: Room| r@),
            agents: self.agents@.map_values(|a: RoomAgent| a@),
        }
    }
}

impl Session {
    /// The topology keeps its invariant and the view is well formed.
    pub open spec fn wf(&self) -> bool {
        &&& self.topology.wf()
        &&& self@.well_formed()
    }

    /// The position of the room named `name`, if present.
    fn find_room(&self, name: &str) -> (r: Option<usize>)
        requires
            self@.distinct(),
        ensures
            match r {
                Some(i) => self@.has_room(name@) && i == self@.room_index(name@) && i
                    < self.rooms@.len(),
                None => !self@.has_room(name@),
            },
    {
        let mut i: usize = 0;
        while i < self.rooms.len()
            invariant
                i <= self.rooms@.len(),
                self@.distinct(),
                forall|j: int| 0 <= j < i ==> self.rooms@[j].name@ != name@,
            decreases self.rooms@.len() - i,
        {
            if same_text(&self.rooms[i].name, name) {
                assert(self@.rooms[i as int].name == name@);
                return Some(i);
            }
            i = i + 1;
        }
        assert(!self@.has_room(name@)) by {
            if self@.has_room(name@) {
                let k = choose|k: int|
                    0 <= k < self@.rooms.len() && (#[trigger] self@.rooms[k]).name == name@;
                assert(self.rooms@[k].name@ == name@);
            }
        }
        None
    }

    /// The position of the agent named `name`, if present.
    fn find_agent(&self, name: &str) -> (r: Option<usize>)
        requires
            self@.distinct(),
        ensures
            match r {
                Some(i) => self@.has_agent(name@) && i == self@.agent_index(name@) && i
                    < self.agents@.len(),
                None => !self@.has_agent(name@),
            },
    {
        let mut i: usize = 0;
        while i < self.agents.len()
            invariant
                i <= self.agents@.len(),
                self@.distinct(),
                forall|j: int| 0 <= j < i ==> self.agents@[j].name@ != name@,
            decreases self.agents@.len() - i,
        {
            if same_text(&self.agents[i].name, name) {
                assert(self@.agents[i as int].name == name@);
                return Some(i);
            }
            i = i + 1;
        }
        assert(!self@.has_agent(name@)) by {
            if self@.has_agent(name@) {
                let k = choose|k: int|
                    0 <= k < self@.agents.len() && (#[trigger] self@.agents[k]).name == name@;
                assert(self.agents@[k].name@ == name@);
            }
        }
        None
    }

    /// Create a new session with the given topology: one open, empty room
    /// per room of the topology, and no agents.
    pub fn new(topology: Topology) -> (s: Session)
        requires
            topology.wf(),
        ensures
            s.wf(),
            s@.topology == topology@,
            s@.rooms == topology@.rooms.map_values(|n: Seq<char>| fresh_room(n)),
            s@.agents == Seq::<AgentView>::empty(),
            s@.rooms.len() == topology@.rooms.len(),
            forall|i: int|
                0 <= i < s@.rooms.len() ==> (#[trigger] s@.rooms[i]).name == topology@.rooms[i]
                    && s@.rooms[i].state == RoomState::Open && s@.rooms[i].agents.len() == 0
                    && s@.rooms[i].tags.len() == 0,
    {
        let names = topology.rooms();
        let ghost tv = topology@;
        proof {
            topology.lemma_view_well_formed();
        }
        let mut rooms: Vec<Room> = Vec::new();
        let mut i: usize = 0;
        while i < names.len()
            invariant
                i <= names@.len(),
                names@.map_values(|s: String| s@) == tv.rooms,
                tv.rooms.no_duplicates(),
                rooms@.map_values(|r: Room| r@) == tv.rooms.take(i as int).map_values(
                    |n: Seq<char>| fresh_room(n),
                ),
            decreases names@.len() - i,
        {
            let ghost before = rooms@;
            let r = Room::new(names[i].as_str());
            rooms.push(r);
            proof {
                assert(tv.rooms[i as int] == names@[i as int]@);
                assert(rooms@.map_values(|r: Room| r@) =~= before.map_values(|r: Room| r@).push(
                    fresh_room(tv.rooms[i as int]),
                ));
                assert(tv.rooms.take(i + 1).map_values(|n: Seq<char>| fresh_room(n)) =~= tv.rooms.take(
                    i as int,
                ).map_values(|n: Seq<char>| fresh_room(n)).push(fresh_room(tv.rooms[i as int])));
                assert(rooms@.map_values(|r: Room| r@) =~= tv.rooms.take(i + 1).map_values(
                    |n: Seq<char>| fresh_room(n),
                ));
            }
            i = i + 1;
        }
        let s = Session { topology, rooms, agents: Vec::new() };
        proof {
            assert(tv.rooms.take(i as int) =~= tv.rooms);
            assert(s@.agents =~= Seq::<AgentView>::empty());
            assert forall|x: int, y: int|
                0 <= x < s@.rooms.len() && 0 <= y < s@.rooms.len() && x != y
                    implies (#[trigger] s@.rooms[x]).name != (#[trigger] s@.rooms[y]).name by {
                assert(s@.rooms[x].name == tv.rooms[x]);
                assert(s@.rooms[y].name == tv.rooms[y]);
            }
            assert forall|x: int| 0 <= x < s@.rooms.len() implies (
            #[trigger] s@.rooms[x]).well_formed() by {
                assert(s@.rooms[x].agents == Seq::<AgentView>::empty());
            }
            assert forall|x: int, m: Seq<char>|
                0 <= x < s@.rooms.len() implies !(#[trigger] s@.rooms[x].has_agent(m)) by {
                assert(s@.rooms[x].agents == Seq::<AgentView>::empty());
            }
            assert forall|m: Seq<char>|
                #![trigger s@.topology.has_room(m)]
                #![trigger s@.has_room(m)]
                s@.topology.has_room(m) == s@.has_room(m) by {
                if s@.topology.has_room(m) {
                    let k = choose|k: int| 0 <= k < tv.rooms.len() && tv.rooms[k] == m;
                    assert(s@.rooms[k].name == m);
                }
                if s@.has_room(m) {
                    let k = choose|k: int| 0 <= k < s@.rooms.len() && (#[trigger] s@.rooms[k]).name == m;
                    assert(tv.rooms[k] == m);
                }
            }
        }
        s
    }
}

/// Replacing a room by one of the same name that is well formed keeps the
/// session well formed, and keeps every room where it was.
proof fn lemma_update_room(s: SessionView, i: int, r: RoomView)
    requires
        s.distinct(),
        0 <= i < s.rooms.len(),
        r.name == s.rooms[i].name,
        r.well_formed(),
    ensures
        (SessionView { rooms: s.rooms.update(i, r), ..s }).distinct(),
        forall|n: Seq<char>|
            #![trigger rooms_have(s.rooms.update(i, r), n)]
            rooms_have(s.rooms.update(i, r), n) == rooms_have(s.rooms, n) && (rooms_have(s.rooms, n)
                ==> room_pos(s.rooms.update(i, r), n) == room_pos(s.rooms, n)),
{
    let rs = s.rooms.update(i, r);
    assert forall|n: Seq<char>|
        #![trigger rooms_have(rs, n)]
        rooms_have(rs, n) == rooms_have(s.rooms, n) && (rooms_have(s.rooms, n) ==> room_pos(rs, n)
            == room_pos(s.rooms, n)) by {
        if rooms_have(s.rooms, n) {
            let k = room_pos(s.rooms, n);
            assert(rs[k].name == n);
            let k2 = room_pos(rs, n);
            assert(s.rooms[k2].name == n);
            if k != k2 {
                assert(s.rooms[k].name != s.rooms[k2].name);
            }
        }
        if rooms_have(rs, n) {
            let k = choose|k: int| 0 <= k < rs.len() && (#[trigger] rs[k]).name == n;
            assert(s.rooms[k].name == n);
        }
    }
    assert forall|x: int, y: int|
        0 <= x < rs.len() && 0 <= y < rs.len() && x != y implies (#[trigger] rs[x]).name != (
    #[trigger] rs[y]).name by {
        assert(s.rooms[x].name == rs[x].name);
        assert(s.rooms[y].name == rs[y].name);
    }
    assert forall|x: int| 0 <= x < rs.len() implies (#[trigger] rs[x]).well_formed() by {
        if x != i {
            assert(rs[x] == s.rooms[x]);
        }
    }
}

/// Recording agent `a` keeps the agent names distinct.
proof fn lemma_record(s: SessionView, a: AgentView)
    requires
        s.distinct(),
    ensures
        (SessionView { agents: s.record(a), ..s }).distinct(),
{
    let ags = s.record(a);
    assert forall|x: int, y: int|
        0 <= x < ags.len() && 0 <= y < ags.len() && x != y implies (#[trigger] ags[x]).name != (
    #[trigger] ags[y]).name by {
        if s.has_agent(a.name) {
            let k = s.agent_index(a.name);
            if x != k {
                assert(ags[x] == s.agents[x]);
            }
            if y != k {
                assert(ags[y] == s.agents[y]);
            }
        } else {
            if x < s.agents.len() {
                assert(ags[x] == s.agents[x]);
            }
            if y < s.agents.len() {
                assert(ags[y] == s.agents[y]);
            }
        }
    }
}

/// Replacing an agent by one of the same name keeps the names and every
/// other agent where they were.
proof fn lemma_agents_update(s: SessionView, k: int, a: AgentView)
    requires
        s.distinct(),
        0 <= k < s.agents.len(),
        a.name == s.agents[k].name,
    ensures
        (SessionView { agents: s.agents.update(k, a), ..s }).distinct(),
        forall|n: Seq<char>|
            #[trigger] (SessionView { agents: s.agents.update(k, a), ..s }).has_agent(n)
                == s.has_agent(n),
        (SessionView { agents: s.agents.update(k, a), ..s }).agent(a.name) == a,
        forall|n: Seq<char>|
            s.has_agent(n) && n != a.name ==> #[trigger] (SessionView {
                agents: s.agents.update(k, a),
                ..s
            }).agent(n) == s.agent(n),
{
    let t = SessionView { agents: s.agents.update(k, a), ..s };
    assert forall|x: int, y: int|
        0 <= x < t.agents.len() && 0 <= y < t.agents.len() && x != y implies (
    #[trigger] t.agents[x]).name != (#[trigger] t.agents[y]).name by {
        assert(t.agents[x].name == s.agents[x].name);
        assert(t.agents[y].name == s.agents[y].name);
    }
    assert forall|n: Seq<char>| #[trigger] t.has_agent(n) == s.has_agent(n) by {
        if s.has_agent(n) {
            let i = choose|i: int| 0 <= i < s.agents.len() && (#[trigger] s.agents[i]).name == n;
            assert(t.agents[i].name == n);
        }
        if t.has_agent(n) {
            let i = choose|i: int| 0 <= i < t.agents.len() && (#[trigger] t.agents[i]).name == n;
            assert(s.agents[i].name == n);
        }
    }
    assert(t.agents[k] == a);
    let k2 = t.agent_index(a.name);
    if k2 != k {
        assert(t.agents[k2].name != t.agents[k].name);
    }
    assert forall|n: Seq<char>| s.has_agent(n) && n != a.name implies #[trigger] t.agent(n)
        == s.agent(n) by {
        let i = s.agent_index(n);
        assert(i != k);
        assert(t.agents[i] == s.agents[i]);
        let i2 = t.agent_index(n);
        if i2 != i {
            assert(t.agents[i2].name != t.agents[i].name);
        }
    }
}

/// Appending an agent of a new name keeps every other agent where it was.
proof fn lemma_agents_push(s: SessionView, a: AgentView)
    requires
        s.distinct(),
        !s.has_agent(a.name),
    ensures
        (SessionView { agents: s.agents.push(a), ..s }).distinct(),
        forall|n: Seq<char>|
            #[trigger] (SessionView { agents: s.agents.push(a), ..s }).has_agent(n) == (
            s.has_agent(n) || n == a.name),
        (SessionView { agents: s.agents.push(a), ..s }).agent(a.name) == a,
        (SessionView { agents: s.agents.push(a), ..s }).agent_index(a.name) == s.agents.len(),
        forall|n: Seq<char>|
            s.has_agent(n) ==> #[trigger] (SessionView { agents: s.agents.push(a), ..s }).agent(n)
                == s.agent(n),
{
    let t = SessionView { agents: s.agents.push(a), ..s };
    let k = s.agents.len() as int;
    assert forall|x: int, y: int|
        0 <= x < t.agents.len() && 0 <= y < t.agents.len() && x != y implies (
    #[trigger] t.agents[x]).name != (#[trigger] t.agents[y]).name by {
        if x < k {
            assert(t.agents[x] == s.agents[x]);
        }
        if y < k {
            assert(t.agents[y] == s.agents[y]);
        }
    }
    assert forall|n: Seq<char>| #[trigger] t.has_agent(n) == (s.has_agent(n) || n == a.name) by {
        if s.has_agent(n) {
            let i = choose|i: int| 0 <= i < s.agents.len() && (#[trigger] s.agents[i]).name == n;
            assert(t.agents[i].name == n);
        }
        if n == a.name {
            assert(t.agents[k].name == n);
        }
        if t.has_agent(n) {
            let i = choose|i: int| 0 <= i < t.agents.len() && (#[trigger] t.agents[i]).name == n;
            if i < k {
                assert(s.agents[i].name == n);
            }
        }
    }
    assert(t.agents[k] == a);
    let k2 = t.agent_index(a.name);
    if k2 != k {
        assert(t.agents[k2].name != t.agents[k].name);
    }
    assert forall|n: Seq<char>| s.has_agent(n) implies #[trigger] t.agent(n) == s.agent(n) by {
        let i = s.agent_index(n);
        assert(t.agents[i] == s.agents[i]);
        let i2 = t.agent_index(n);
        if i2 != i {
            assert(t.agents[i2].name != t.agents[i].name);
        }
    }
}

/// Removing the agent at `k` keeps every other agent.
proof fn lemma_agents_remove(s: SessionView, k: int)
    requires
        s.distinct(),
        0 <= k < s.agents.len(),
    ensures
        (SessionView { agents: s.agents.remove(k), ..s }).distinct(),
        forall|n: Seq<char>|
            #[trigger] (SessionView { agents: s.agents.remove(k), ..s }).has_agent(n) == (
            s.has_agent(n) && n != s.agents[k].name),
        forall|n: Seq<char>|
            s.has_agent(n) && n != s.agents[k].name ==> #[trigger] (SessionView {
                agents: s.agents.remove(k),
                ..s
            }).agent(n) == s.agent(n),
{
    let t = SessionView { agents: s.agents.remove(k), ..s };
    assert forall|x: int, y: int|
        0 <= x < t.agents.len() && 0 <= y < t.agents.len() && x != y implies (
    #[trigger] t.agents[x]).name != (#[trigger] t.agents[y]).name by {
        let x0 = if x < k { x } else { x + 1 };
        let y0 = if y < k { y } else { y + 1 };
        assert(t.agents[x] == s.agents[x0]);
        assert(t.agents[y] == s.agents[y0]);
    }
    assert forall|n: Seq<char>| #[trigger] t.has_agent(n) == (s.has_agent(n) && n
        != s.agents[k].name) by {
        if s.has_agent(n) && n != s.agents[k].name {
            let i = choose|i: int| 0 <= i < s.agents.len() && (#[trigger] s.agents[i]).name == n;
            let i1 = if i < k { i } else { i - 1 };
            assert(t.agents[i1] == s.agents[i]);
        }
        if t.has_agent(n) {
            let i = choose|i: int| 0 <= i < t.agents.len() && (#[trigger] t.agents[i]).name == n;
            let i0 = if i < k { i } else { i + 1 };
            assert(t.agents[i] == s.agents[i0]);
            assert(i0 != k ==> s.agents[i0].name != s.agents[k].name);
        }
    }
    assert forall|n: Seq<char>| s.has_agent(n) && n != s.agents[k].name implies #[trigger] t.agent(
        n,
    ) == s.agent(n) by {
        let i = s.agent_index(n);
        let i1 = if i < k { i } else { i - 1 };
        assert(t.agents[i1] == s.agents[i]);
        let i2 = t.agent_index(n);
        if i2 != i1 {
            assert(t.agents[i2].name != t.agents[i1].name);
        }
    }
}

/// The room named `rn` stands at `room_index(rn)`, and at no other place.
proof fn lemma_room_named(s: SessionView, rn: Seq<char>)
    requires
        s.distinct(),
        s.has_room(rn),
    ensures
        0 <= s.room_index(rn) < s.rooms.len(),
        s.rooms[s.room_index(rn)].name == rn,
        forall|i: int|
            0 <= i < s.rooms.len() && (#[trigger] s.rooms[i]).name == rn ==> i == s.room_index(rn),
{
    let k = s.room_index(rn);
    assert forall|i: int| 0 <= i < s.rooms.len() && (#[trigger] s.rooms[i]).name == rn implies i
        == k by {
        if i != k {
            assert(s.rooms[i].name != s.rooms[k].name);
        }
    }
}

/// In a well-formed session, the agent of a given name that a room holds is
/// the session's record of that agent.
pub proof fn lemma_room_entry_is_record(s: SessionView, i: int, m: Seq<char>)
    requires
        s.well_formed(),
        0 <= i < s.rooms.len(),
        s.rooms[i].has_agent(m),
    ensures
        s.rooms[i].agents[s.rooms[i].agent_index(m)] == s.agent(m),
        s.agent(m).current_room == Some(s.rooms[i].name),
{
    let k = s.rooms[i].agent_index(m);
    assert(s.rooms[i].agents[k].name == m);
}

/// Admitting an agent that is in no room yet, into a room of the session
/// that is not closed, keeps the session well formed: the agent is recorded
/// in that room, and the room holds that very agent.
pub proof fn lemma_admission(s: SessionView, a: AgentView)
    requires
        s.well_formed(),
        a.current_room is Some,
        s.has_room(a.current_room.unwrap()),
        s.rooms[s.room_index(a.current_room.unwrap())].state != RoomState::Closed,
        !(s.has_agent(a.name) && s.agent(a.name).current_room is Some),
    ensures
        s.admitted(a).well_formed(),
        s.admitted(a).has_agent(a.name),
        s.admitted(a).agent(a.name) == a,
        s.admitted(a).agents.len() == if s.has_agent(a.name) {
            s.agents.len()
        } else {
            s.agents.len() + 1
        },
        s.admitted(a).rooms[s.room_index(a.current_room.unwrap())].has_agent(a.name),
        ({
            let room = s.admitted(a).rooms[s.room_index(a.current_room.unwrap())];
            room.agents[room.agent_index(a.name)] == a
        }),
{
    let rn = a.current_room.unwrap();
    lemma_room_named(s, rn);
    let ri = s.room_index(rn);
    let room = s.rooms[ri];
    if room.has_agent(a.name) {
        assert(s.rooms[ri].has_agent(a.name));
    }
    assert(room.admits(a));
    crate::room::lemma_enter_then_leave(room, a);
    lemma_update_room(s, ri, room.enter(a));
    let s1 = SessionView { rooms: s.rooms.update(ri, room.enter(a)), ..s };
    lemma_record_finds(s1, a);
    lemma_record(s1, a);
    if s.has_agent(a.name) {
        lemma_agents_update(s1, s1.agent_index(a.name), a);
    } else {
        lemma_agents_push(s1, a);
    }
    let t = s.admitted(a);
    assert(t == SessionView { agents: s1.record(a), ..s1 });
    assert forall|i: int, m: Seq<char>|
        0 <= i < t.rooms.len() && #[trigger] t.rooms[i].has_agent(m) implies t.has_agent(m)
            && t.agent(m).current_room == Some(t.rooms[i].name) by {
        if i == ri {
            crate::room::lemma_enter_has(room, a, m);
            if m != a.name {
                assert(s.rooms[i].has_agent(m));
            }
        } else {
            assert(t.rooms[i] == s.rooms[i]);
            assert(s.rooms[i].has_agent(m));
        }
    }
    assert forall|m: Seq<char>| #[trigger]
        t.has_agent(m) && t.agent(m).current_room is Some implies t.has_room(
        t.agent(m).current_room.unwrap(),
    ) && t.rooms[t.room_index(t.agent(m).current_room.unwrap())].has_agent(m) by {
        crate::room::lemma_enter_has(room, a, m);
        if m != a.name {
            assert(s.has_agent(m));
            let x = s.agent(m).current_room.unwrap();
            assert(s.has_room(x));
            assert(rooms_have(t.rooms, x));
        }
    }
    assert forall|n: Seq<char>|
        #![trigger t.topology.has_room(n)]
        #![trigger t.has_room(n)]
        t.topology.has_room(n) == t.has_room(n) by {
        assert(rooms_have(t.rooms, n) == rooms_have(s.rooms, n));
    }
    assert forall|i: int, j: int|
        0 <= i < t.rooms.len() && 0 <= j < t.rooms[i].agents.len() implies #[trigger] t.rooms[i].agents[j]
        == t.agent(t.rooms[i].agents[j].name) by {
        let e = t.rooms[i].agents[j];
        if i == ri {
            if j < room.agents.len() {
                assert(e == room.agents[j]);
                assert(s.rooms[ri].agents[j] == s.agent(e.name));
                assert(room.has_agent(e.name));
                assert(e.name != a.name);
            }
        } else {
            assert(t.rooms[i] == s.rooms[i]);
            assert(s.rooms[i].agents[j] == s.agent(e.name));
            assert(s.rooms[i].has_agent(e.name));
        }
    }
    crate::room::lemma_enter_has(room, a, a.name);
    lemma_room_entry_is_record(t, ri, a.name);
}

/// Expelling an agent keeps the session well formed; the agent is no longer
/// known, and no room holds it.
pub proof fn lemma_expulsion(s: SessionView, n: Seq<char>)
    requires
        s.well_formed(),
        s.has_agent(n),
    ensures
        s.expelled(n).well_formed(),
        !s.expelled(n).has_agent(n),
        s.expelled(n).agents.len() == s.agents.len() - 1,
        forall|i: int| 0 <= i < s.rooms.len() ==> !(#[trigger] s.expelled(n).rooms[i]).has_agent(n),
{
    let k = s.agent_index(n);
    lemma_agents_remove(s, k);
    let s1 = SessionView { agents: s.agents.remove(k), ..s };
    let t = s.expelled(n);
    match s.agent(n).current_room {
        Some(rn) => {
            lemma_room_named(s, rn);
            let ri = s.room_index(rn);
            crate::room::lemma_leave(s.rooms[ri], n);
            lemma_update_room(s1, ri, s.rooms[ri].leave(n));
            assert(t == SessionView { rooms: s1.rooms.update(ri, s.rooms[ri].leave(n)), ..s1 });
        },
        None => {
            assert(t == s1);
        },
    }
    assert forall|i: int, m: Seq<char>|
        0 <= i < t.rooms.len() && #[trigger] t.rooms[i].has_agent(m) implies t.has_agent(m)
            && t.agent(m).current_room == Some(t.rooms[i].name) by {
        crate::room::lemma_leave_has(s.rooms[i], n, m);
        let cur = s.agent(n).current_room;
        if cur is Some && i == s.room_index(cur.unwrap()) {
            assert(t.rooms[i] == s.rooms[i].leave(n));
            assert(s.rooms[i].has_agent(m));
        } else {
            assert(t.rooms[i] == s.rooms[i]);
            assert(s.rooms[i].has_agent(m));
            if m == n {
                assert(s.agent(n).current_room == Some(s.rooms[i].name));
            }
        }
        assert(m != n);
        assert(s.agents[k].name == n);
        assert(t.agents == s1.agents);
        assert(s1.has_agent(m));
        assert(t.has_agent(m));
        assert(t.agent(m) == s1.agent(m));
        assert(t.rooms[i].name == s.rooms[i].name);
    }
    assert forall|m: Seq<char>| #[trigger]
        t.has_agent(m) && t.agent(m).current_room is Some implies t.has_room(
        t.agent(m).current_room.unwrap(),
    ) && t.rooms[t.room_index(t.agent(m).current_room.unwrap())].has_agent(m) by {
        assert(s.has_agent(m));
        let x = s.agent(m).current_room.unwrap();
        assert(s.has_room(x));
        assert(rooms_have(t.rooms, x));
        crate::room::lemma_leave_has(s.rooms[s.room_index(x)], n, m);
    }
    assert forall|n2: Seq<char>|
        #![trigger t.topology.has_room(n2)]
        #![trigger t.has_room(n2)]
        t.topology.has_room(n2) == t.has_room(n2) by {
        assert(rooms_have(t.rooms, n2) == rooms_have(s.rooms, n2));
    }
    assert forall|i: int| 0 <= i < s.rooms.len() implies !(#[trigger] t.rooms[i]).has_agent(n) by {
        crate::room::lemma_leave_has(s.rooms[i], n, n);
        if s.rooms[i].has_agent(n) {
            let rn = s.agent(n).current_room.unwrap();
            assert(s.rooms[i].name == rn);
        }
    }
    assert forall|i: int, j: int|
        0 <= i < t.rooms.len() && 0 <= j < t.rooms[i].agents.len() implies #[trigger] t.rooms[i].agents[j]
        == t.agent(t.rooms[i].agents[j].name) by {
        let e = t.rooms[i].agents[j];
        assert(t.rooms[i].has_agent(e.name));
        assert(t.has_agent(e.name));
        assert(e.name != n);
        let cur = s.agent(n).current_room;
        if cur is Some && i == s.room_index(cur.unwrap()) {
            assert(t.rooms[i] == s.rooms[i].leave(n));
            crate::room::lemma_leave_keeps(s.rooms[i], n);
            assert(s.rooms[i].agents.contains(e));
            let j0 = choose|j0: int| 0 <= j0 < s.rooms[i].agents.len() && s.rooms[i].agents[j0] == e;
            assert(s.rooms[i].agents[j0] == s.agent(e.name));
        } else {
            assert(t.rooms[i] == s.rooms[i]);
            assert(s.rooms[i].agents[j] == s.agent(e.name));
        }
        assert(s.agents[k].name == n);
        assert(t.agents == s1.agents);
        assert(t.agent(e.name) == s1.agent(e.name));
    }
}

/// Moving an agent from its room to a room of the session that is not closed
/// keeps the session well formed: the agent is recorded in the new room, the
/// new room holds the moved agent as the session records it, the room it
/// came from (when another) no longer holds it, and every other agent stays
/// as it was.
pub proof fn lemma_relocation(s: SessionView, n: Seq<char>, to: Seq<char>)
    requires
        s.well_formed(),
        s.has_agent(n),
        s.agent(n).current_room is Some,
        s.has_room(to),
        s.rooms[s.room_index(to)].state != RoomState::Closed,
    ensures
        s.moved(n, to).well_formed(),
        s.moved(n, to).has_agent(n),
        s.moved(n, to).agent(n) == s.relocated(n, to),
        s.moved(n, to).agents.len() == s.agents.len(),
        s.moved(n, to).rooms[s.room_index(to)].has_agent(n),
        ({
            let room = s.moved(n, to).rooms[s.room_index(to)];
            &&& room.agents[room.agent_index(n)] == s.moved(n, to).agent(n)
            &&& room.agents[room.agent_index(n)].current_room == Some(to)
        }),
        s.agent(n).current_room != Some(to) ==> !s.moved(n, to).rooms[s.room_index(
            s.agent(n).current_room.unwrap(),
        )].has_agent(n),
        forall|m: Seq<char>|
            m != n ==> (#[trigger] s.moved(n, to).has_agent(m) == s.has_agent(m) && (s.has_agent(m)
                ==> s.moved(n, to).agent(m) == s.agent(m))),
{
    let from = s.agent(n).current_room.unwrap();
    let ai = s.agent_index(n);
    let rel = s.relocated(n, to);
    assert(s.has_room(from));
    lemma_room_named(s, from);
    lemma_room_named(s, to);
    let fi = s.room_index(from);
    let ti = s.room_index(to);
    let left = s.rooms[fi].leave(n);
    crate::room::lemma_leave(s.rooms[fi], n);
    lemma_update_room(s, fi, left);
    let d = SessionView { rooms: s.rooms.update(fi, left), ..s };
    assert(d.rooms == s.departed(n).rooms);
    assert(room_pos(d.rooms, to) == ti);
    let target = d.rooms[ti];
    if ti != fi && s.rooms[ti].has_agent(n) {
        assert(s.agent(n).current_room == Some(s.rooms[ti].name));
    }
    assert(!target.has_agent(n));
    assert(target.admits(rel));
    crate::room::lemma_enter_then_leave(target, rel);
    lemma_update_room(d, ti, target.enter(rel));
    let d1 = SessionView { rooms: d.rooms.update(ti, target.enter(rel)), ..d };
    lemma_agents_update(d1, ai, rel);
    let t = s.moved(n, to);
    assert(t == SessionView { agents: d1.agents.update(ai, rel), ..d1 });
    assert forall|i: int, m: Seq<char>|
        0 <= i < t.rooms.len() && #[trigger] t.rooms[i].has_agent(m) implies t.has_agent(m)
            && t.agent(m).current_room == Some(t.rooms[i].name) by {
        crate::room::lemma_enter_has(target, rel, m);
        crate::room::lemma_leave_has(s.rooms[fi], n, m);
        if m != n {
            if i == ti {
                assert(target.has_agent(m));
            } else if i == fi {
                assert(t.rooms[i] == left);
            } else {
                assert(t.rooms[i] == s.rooms[i]);
            }
            assert(s.rooms[i].has_agent(m));
        } else if i != ti {
            if i == fi {
                assert(t.rooms[i] == left);
            } else {
                assert(t.rooms[i] == s.rooms[i]);
                assert(s.rooms[i].has_agent(n));
                assert(s.rooms[i].name == from);
            }
        }
    }
    assert forall|m: Seq<char>| #[trigger]
        t.has_agent(m) && t.agent(m).current_room is Some implies t.has_room(
        t.agent(m).current_room.unwrap(),
    ) && t.rooms[t.room_index(t.agent(m).current_room.unwrap())].has_agent(m) by {
        crate::room::lemma_enter_has(target, rel, m);
        crate::room::lemma_leave_has(s.rooms[fi], n, m);
        if m != n {
            assert(s.has_agent(m));
            let x = s.agent(m).current_room.unwrap();
            assert(s.has_room(x));
            assert(rooms_have(d.rooms, x));
            assert(rooms_have(t.rooms, x));
            let xi = s.room_index(x);
            assert(t.room_index(x) == xi);
            assert(s.rooms[xi].has_agent(m));
            if xi == ti {
                if ti != fi {
                    assert(target == s.rooms[ti]);
                }
                assert(target.has_agent(m));
            } else if xi == fi {
                assert(t.rooms[xi] == left);
            } else {
                assert(t.rooms[xi] == s.rooms[xi]);
            }
        } else {
            assert(rooms_have(d.rooms, to));
            assert(rooms_have(t.rooms, to));
            assert(t.room_index(to) == ti);
        }
    }
    assert forall|n2: Seq<char>|
        #![trigger t.topology.has_room(n2)]
        #![trigger t.has_room(n2)]
        t.topology.has_room(n2) == t.has_room(n2) by {
        assert(rooms_have(t.rooms, n2) == rooms_have(s.rooms, n2));
    }
    if from != to {
        crate::room::lemma_enter_has(target, rel, n);
        assert(fi != ti);
        assert(t.rooms[fi] == left);
    }
    crate::room::lemma_enter_has(target, rel, n);
    assert forall|i: int, j: int|
        0 <= i < t.rooms.len() && 0 <= j < t.rooms[i].agents.len() implies #[trigger] t.rooms[i].agents[j]
        == t.agent(t.rooms[i].agents[j].name) by {
        let e = t.rooms[i].agents[j];
        crate::room::lemma_leave_keeps(s.rooms[fi], n);
        if i == ti {
            assert(t.rooms[i] == target.enter(rel));
            if j == target.agents.len() {
                assert(e == rel);
                assert(s.agents[ai].name == n);
                assert(rel.name == n);
                assert(t.agent(n) == rel);
            } else {
                assert(e == target.agents[j]);
                assert(target.has_agent(e.name));
                assert(e.name != n);
                if ti == fi {
                    assert(s.rooms[fi].agents.contains(e));
                    let j0 = choose|j0: int|
                        0 <= j0 < s.rooms[fi].agents.len() && s.rooms[fi].agents[j0] == e;
                    assert(s.rooms[fi].agents[j0] == s.agent(e.name));
                    assert(s.rooms[fi].has_agent(e.name));
                } else {
                    assert(target == s.rooms[ti]);
                    assert(s.rooms[ti].agents[j] == s.agent(e.name));
                    assert(s.rooms[ti].has_agent(e.name));
                }
            }
        } else if i == fi {
            assert(t.rooms[i] == left);
            assert(s.rooms[fi].agents.contains(e));
            let j0 = choose|j0: int| 0 <= j0 < s.rooms[fi].agents.len() && s.rooms[fi].agents[j0] == e;
            assert(s.rooms[fi].agents[j0] == s.agent(e.name));
            assert(s.rooms[fi].has_agent(e.name));
        } else {
            assert(t.rooms[i] == s.rooms[i]);
            assert(s.rooms[i].agents[j] == s.agent(e.name));
            assert(s.rooms[i].has_agent(e.name));
            if e.name == n {
                assert(s.rooms[i].name == from);
            }
        }
        if e.name != n {
            assert(s.has_agent(e.name));
            assert(d1.agent(e.name) == s.agent(e.name));
            assert(t.agent(e.name) == s.agent(e.name));
        }
    }
    lemma_room_entry_is_record(t, ti, n);
}

/// Appending a room of a new name keeps the session's names distinct and
/// every other room where it was.
proof fn lemma_push_room(s: SessionView, r: RoomView)
    requires
        s.distinct(),
        !s.has_room(r.name),
        r.well_formed(),
    ensures
        (SessionView { rooms: s.rooms.push(r), ..s }).distinct(),
        forall|n: Seq<char>|
            #[trigger] rooms_have(s.rooms.push(r), n) == (rooms_have(s.rooms, n) || n == r.name),
        forall|n: Seq<char>|
            rooms_have(s.rooms, n) ==> #[trigger] room_pos(s.rooms.push(r), n) == room_pos(s.rooms, n),
        room_pos(s.rooms.push(r), r.name) == s.rooms.len(),
{
    let rs = s.rooms.push(r);
    let k = s.rooms.len() as int;
    assert(rs[k] == r);
    assert forall|x: int, y: int|
        0 <= x < rs.len() && 0 <= y < rs.len() && x != y implies (#[trigger] rs[x]).name != (
    #[trigger] rs[y]).name by {
        if x < k {
            assert(rs[x] == s.rooms[x]);
        }
        if y < k {
            assert(rs[y] == s.rooms[y]);
        }
    }
    assert forall|x: int| 0 <= x < rs.len() implies (#[trigger] rs[x]).well_formed() by {
        if x < k {
            assert(rs[x] == s.rooms[x]);
        }
    }
    assert forall|n: Seq<char>| #[trigger] rooms_have(rs, n) == (rooms_have(s.rooms, n) || n
        == r.name) by {
        if rooms_have(s.rooms, n) {
            let i = choose|i: int| 0 <= i < s.rooms.len() && (#[trigger] s.rooms[i]).name == n;
            assert(rs[i] == s.rooms[i]);
        }
        if rooms_have(rs, n) {
            let i = choose|i: int| 0 <= i < rs.len() && (#[trigger] rs[i]).name == n;
            if i < k {
                assert(rs[i] == s.rooms[i]);
            }
        }
    }
    assert forall|n: Seq<char>| rooms_have(s.rooms, n) implies #[trigger] room_pos(rs, n)
        == room_pos(s.rooms, n) by {
        let i = room_pos(s.rooms, n);
        assert(rs[i] == s.rooms[i]);
        let i2 = room_pos(rs, n);
        if i2 != i {
            assert(rs[i2].name != rs[i].name);
        }
    }
    let i2 = room_pos(rs, r.name);
    if i2 != k {
        assert(rs[i2].name != rs[k].name);
    }
}

/// Changing a room in ways that leave its name and its agents as they were
/// keeps the session well formed.
proof fn lemma_restyle_room(s: SessionView, i: int, r: RoomView)
    requires
        s.well_formed(),
        0 <= i < s.rooms.len(),
        r.name == s.rooms[i].name,
        r.agents == s.rooms[i].agents,
    ensures
        (SessionView { rooms: s.rooms.update(i, r), ..s }).well_formed(),
{
    lemma_update_room(s, i, r);
    let t = SessionView { rooms: s.rooms.update(i, r), ..s };
    assert forall|j: int, m: Seq<char>|
        0 <= j < t.rooms.len() && #[trigger] t.rooms[j].has_agent(m) implies t.has_agent(m)
            && t.agent(m).current_room == Some(t.rooms[j].name) by {
        if j == i {
            let k = choose|k: int| 0 <= k < r.agents.len() && (#[trigger] r.agents[k]).name == m;
            assert(s.rooms[i].agents[k].name == m);
        }
        assert(s.rooms[j].has_agent(m));
    }
    assert forall|m: Seq<char>| #[trigger]
        t.has_agent(m) && t.agent(m).current_room is Some implies t.has_room(
        t.agent(m).current_room.unwrap(),
    ) && t.rooms[t.room_index(t.agent(m).current_room.unwrap())].has_agent(m) by {
        assert(s.has_agent(m));
        let x = s.agent(m).current_room.unwrap();
        assert(s.has_room(x));
        assert(rooms_have(t.rooms, x));
        let xi = s.room_index(x);
        assert(s.rooms[xi].has_agent(m));
        if xi == i {
            let k = choose|k: int|
                0 <= k < s.rooms[i].agents.len() && (#[trigger] s.rooms[i].agents[k]).name == m;
            assert(r.agents[k].name == m);
        }
    }
    assert forall|n: Seq<char>|
        #![trigger t.topology.has_room(n)]
        #![trigger t.has_room(n)]
        t.topology.has_room(n) == t.has_room(n) by {
        assert(rooms_have(t.rooms, n) == rooms_have(s.rooms, n));
    }
}

/// Emptying room `name` of its agents keeps the agents' names, and changes
/// each agent only by taking it out of that room.
proof fn lemma_evict(s: SessionView, name: Seq<char>)
    requires
        s.distinct(),
    ensures
        (SessionView { agents: evict_all(s.agents, name), ..s }).distinct(),
        forall|m: Seq<char>|
            #[trigger] (SessionView { agents: evict_all(s.agents, name), ..s }).has_agent(m)
                == s.has_agent(m),
        forall|m: Seq<char>|
            s.has_agent(m) ==> #[trigger] (SessionView {
                agents: evict_all(s.agents, name),
                ..s
            }).agent(m) == evicted(s.agent(m), name),
{
    let t = SessionView { agents: evict_all(s.agents, name), ..s };
    assert forall|j: int| 0 <= j < t.agents.len() implies (#[trigger] t.agents[j]).name
        == s.agents[j].name by {
        assert(t.agents[j] == evicted(s.agents[j], name));
    }
    assert forall|x: int, y: int|
        0 <= x < t.agents.len() && 0 <= y < t.agents.len() && x != y implies (
    #[trigger] t.agents[x]).name != (#[trigger] t.agents[y]).name by {
        assert(t.agents[x].name == s.agents[x].name);
        assert(t.agents[y].name == s.agents[y].name);
    }
    assert forall|m: Seq<char>| #[trigger] t.has_agent(m) == s.has_agent(m) by {
        if s.has_agent(m) {
            let i = choose|i: int| 0 <= i < s.agents.len() && (#[trigger] s.agents[i]).name == m;
            assert(t.agents[i].name == m);
        }
        if t.has_agent(m) {
            let i = choose|i: int| 0 <= i < t.agents.len() && (#[trigger] t.agents[i]).name == m;
            assert(s.agents[i].name == m);
        }
    }
    assert forall|m: Seq<char>| s.has_agent(m) implies #[trigger] t.agent(m) == evicted(
        s.agent(m),
        name,
    ) by {
        let i = s.agent_index(m);
        assert(t.agents[i] == evicted(s.agents[i], name));
        assert(t.agents[i].name == m);
        let i2 = t.agent_index(m);
        if i2 != i {
            assert(t.agents[i2].name != t.agents[i].name);
        }
    }
}

impl Session {
    /// Once room `i` has been replaced by `r`, the rooms' views are the old ones
    /// with `r`'s view in place `i`.
    proof fn lemma_rooms_view_update(&self, old_rooms: Seq<Room>, i: int, r: Room)
        requires
            self.rooms@ == old_rooms.update(i, r),
            0 <= i < old_rooms.len(),
        ensures
            self.rooms@.map_values(|x: Room| x@) == old_rooms.map_values(|x: Room| x@).update(i, r@),
    {
        assert(self.rooms@.map_values(|x: Room| x@) =~= old_rooms.map_values(|x: Room| x@).update(
            i,
            r@,
        ));
    }

    /// Bring an agent into the session, placing it in the room it names.
    /// Refused, in this order, and leaving the session as it was: an agent
    /// that names no room, a room that does not exist, a closed room, and an
    /// agent of that name that is already in a room. An agent of the same
    /// name that is in no room is replaced.
    pub fn admit_agent(&mut self, agent: RoomAgent) -> (r: Result<(), SessionError>)
        requires
            old(self).wf(),
        ensures
            final(self).wf(),
            r is Err ==> final(self)@ == old(self)@,
            agent@.current_room is None ==> (r matches Err(SessionError::AgentNotInRoom(n)) && n@
                == agent@.name),
            agent@.current_room matches Some(rn) ==> {
                let closed = old(self)@.rooms[old(self)@.room_index(rn)].state == RoomState::Closed;
                &&& !old(self)@.has_room(rn) ==> (r matches Err(SessionError::RoomNotFound(n))
                    && n@ == rn)
                &&& old(self)@.has_room(rn) && closed ==> (r matches Err(
                    SessionError::RoomClosed(n),
                ) && n@ == rn)
                &&& old(self)@.has_room(rn) && !closed && old(self)@.placed(agent@.name) ==> (
                r matches Err(SessionError::AgentAlreadyInRoom(n)) && n@ == agent@.name)
                &&& old(self)@.has_room(rn) && !closed && !old(self)@.placed(agent@.name) ==> (r is Ok
                    && final(self)@ == old(self)@.admitted(agent@))
            },
    {
        let room_name = match &agent.current_room {
            None => {
                return Err(SessionError::AgentNotInRoom(agent.name.clone()));
            },
            Some(rn) => rn.clone(),
        };
        let ri = match self.find_room(room_name.as_str()) {
            None => {
                return Err(SessionError::RoomNotFound(room_name));
            },
            Some(i) => i,
        };
        if self.rooms[ri].state == RoomState::Closed {
            return Err(SessionError::RoomClosed(room_name));
        }
        if let Some(ai) = self.find_agent(agent.name.as_str()) {
            if let Some(_) = &self.agents[ai].current_room {
                return Err(SessionError::AgentAlreadyInRoom(agent.name.clone()));
            }
        }
        let ghost o = self@;
        proof {
            lemma_admission(o, agent@);
        }
        let ghost old_rooms = self.rooms@;
        let copy = agent.clone();
        let _ = self.rooms[ri].add_agent(copy);
        proof {
            self.lemma_rooms_view_update(old_rooms, ri as int, self.rooms@[ri as int]);
            lemma_update_room(o, ri as int, self@.rooms[ri as int]);
            assert(self@.rooms =~= enter_room(o.rooms, room_name@, agent@));
        }
        let ghost mid = self@;
        match self.find_agent(agent.name.as_str()) {
            Some(ai) => {
                self.agents.set(ai, agent);
                proof {
                    assert(self@.agents =~= mid.agents.update(ai as int, agent@));
                }
            },
            None => {
                self.agents.push(agent);
                proof {
                    assert(self@.agents =~= mid.agents.push(agent@));
                }
            },
        }
        proof {
            assert(self@.agents == mid.record(agent@));
            assert(self@ == o.admitted(agent@));
        }
        Ok(())
    }

    /// Remove an agent from the session entirely; it also leaves the room it is in.
    pub fn expel(&mut self, agent_name: &str) -> (r: Result<RoomAgent, SessionError>)
        requires
            old(self).wf(),
        ensures
            final(self).wf(),
            !old(self)@.has_agent(agent_name@) ==> (r matches Err(SessionError::AgentNotFound(n))
                && n@ == agent_name@ && final(self)@ == old(self)@),
            old(self)@.has_agent(agent_name@) ==> (r matches Ok(a) && a == old(
                self,
            ).agents@[old(self)@.agent_index(agent_name@)] && final(self)@ == old(self)@.expelled(
                agent_name@,
            )),
    {
        let ai = match self.find_agent(agent_name) {
            None => {
                return Err(SessionError::AgentNotFound(agent_name.to_owned()));
            },
            Some(i) => i,
        };
        let ghost o = self@;
        proof {
            lemma_expulsion(o, agent_name@);
            lemma_agents_remove(o, ai as int);
        }
        let agent = self.agents.remove(ai);
        proof {
            assert(self@.agents =~= o.agents.remove(ai as int));
        }
        if let Some(rn) = &agent.current_room {
            if let Some(ri) = self.find_room(rn.as_str()) {
                let ghost mid = self@;
                let ghost old_rooms = self.rooms@;
                let _ = self.rooms[ri].remove_agent(agent_name);
                proof {
                    self.lemma_rooms_view_update(old_rooms, ri as int, self.rooms@[ri as int]);
                    lemma_update_room(mid, ri as int, self@.rooms[ri as int]);
                    assert(self@.rooms =~= leave_room(o.rooms, rn@, agent_name@));
                }
            }
        }
        proof {
            assert(self@ == o.expelled(agent_name@));
        }
        Ok(agent)
    }

    /// Move an agent from its current room to an adjacent room. The move
    /// needs a connection that lets the agent pass from its room to the
    /// target, an open one, a target room that is not closed, and
    /// (`can_pay`) energy enough for the traversal. A move that is refused
    /// leaves the session as it was.
    pub fn move_agent(&mut self, agent_name: &str, to_room: &str, can_pay: bool) -> (r: Result<
        (),
        SessionError,
    >)
        requires
            old(self).wf(),
        ensures
            final(self).wf(),
            r is Err ==> final(self)@ == old(self)@,
            !old(self)@.has_agent(agent_name@) ==> (r matches Err(SessionError::AgentNotFound(n))
                && n@ == agent_name@),
            old(self)@.has_agent(agent_name@) && old(self)@.agent(agent_name@).current_room is None
                ==> (r matches Err(SessionError::AgentNotInRoom(n)) && n@ == agent_name@),
            old(self)@.has_agent(agent_name@) ==> (old(self)@.agent(agent_name@).current_room matches Some(
                from,
            ) ==> {
                let t = old(self)@.topology;
                let target = old(self)@.rooms[old(self)@.room_index(to_room@)];
                &&& t.passable(from, to_room@) ==> old(self)@.has_room(to_room@)
                &&& !t.leads(from, to_room@) ==> (r matches Err(SessionError::NotConnected(f, g))
                    && f@ == from && g@ == to_room@)
                &&& t.leads(from, to_room@) && !t.passable(from, to_room@) ==> (r matches Err(
                    SessionError::ConnectionClosed(f, g),
                ) && f@ == from && g@ == to_room@)
                &&& t.passable(from, to_room@) && target.state == RoomState::Closed ==> (r matches Err(
                    SessionError::RoomClosed(g),
                ) && g@ == to_room@)
                &&& t.passable(from, to_room@) && target.state != RoomState::Closed && !can_pay ==> (r matches Err(
                    SessionError::InsufficientEnergy,
                ))
                &&& t.passable(from, to_room@) && target.state != RoomState::Closed && can_pay ==> (r is Ok
                    && final(self)@ == old(self)@.moved(agent_name@, to_room@))
            }),
    {
        let ai = match self.find_agent(agent_name) {
            None => {
                return Err(SessionError::AgentNotFound(agent_name.to_owned()));
            },
            Some(i) => i,
        };
        let from_room = match &self.agents[ai].current_room {
            None => {
                return Err(SessionError::AgentNotInRoom(agent_name.to_owned()));
            },
            Some(rn) => rn.clone(),
        };
        let (leads, passable) = self.topology.passage(from_room.as_str(), to_room);
        if !leads {
            return Err(SessionError::NotConnected(from_room, to_room.to_owned()));
        }
        if !passable {
            return Err(SessionError::ConnectionClosed(from_room, to_room.to_owned()));
        }
        proof {
            self.topology.lemma_view_well_formed();
            crate::topology::lemma_passable_room(self@.topology, from_room@, to_room@);
        }
        let ti = match self.find_room(to_room) {
            None => {
                return Err(SessionError::RoomNotFound(to_room.to_owned()));
            },
            Some(i) => i,
        };
        if self.rooms[ti].state == RoomState::Closed {
            return Err(SessionError::RoomClosed(to_room.to_owned()));
        }
        if !can_pay {
            return Err(SessionError::InsufficientEnergy);
        }
        let ghost o = self@;
        proof {
            lemma_relocation(o, agent_name@, to_room@);
        }
        if let Some(fi) = self.find_room(from_room.as_str()) {
            let ghost old_rooms = self.rooms@;
            let _ = self.rooms[fi].remove_agent(agent_name);
            proof {
                self.lemma_rooms_view_update(old_rooms, fi as int, self.rooms@[fi as int]);
                lemma_update_room(o, fi as int, self@.rooms[fi as int]);
            }
        }
        proof {
            assert(self@.rooms =~= leave_room(o.rooms, from_room@, agent_name@));
            assert(self@ == o.departed(agent_name@));
        }
        let ghost mid = self@;
        let mut moved = self.agents[ai].clone();
        moved.current_room = Some(to_room.to_owned());
        let copy = moved.clone();
        self.agents.set(ai, moved);
        proof {
            assert(copy@ == o.relocated(agent_name@, to_room@));
            assert(self@.agents =~= o.agents.update(ai as int, copy@));
            lemma_agents_update(mid, ai as int, copy@);
        }
        let ghost mid2 = self@;
        if let Some(ti) = self.find_room(to_room) {
            let ghost old_rooms = self.rooms@;
            let _ = self.rooms[ti].add_agent(copy);
            proof {
                self.lemma_rooms_view_update(old_rooms, ti as int, self.rooms@[ti as int]);
                lemma_update_room(mid2, ti as int, self@.rooms[ti as int]);
            }
        }
        proof {
            assert(self@.rooms =~= enter_room(mid.rooms, to_room@, copy@));
            assert(self@ == o.moved(agent_name@, to_room@));
        }
        Ok(())
    }
}

impl Session {
    /// Add a room to the session (also to its topology). A room of that name
    /// that is already there is replaced by a new, open, empty one; the
    /// agents recorded in it are then in no room.
    pub fn add_room(&mut self, name: &str)
        requires
            old(self).wf(),
        ensures
            final(self).wf(),
            final(self)@.topology.doors == old(self)@.topology.doors,
            final(self)@.topology.rooms == if old(self)@.topology.has_room(name@) {
                old(self)@.topology.rooms
            } else {
                old(self)@.topology.rooms.push(name@)
            },
            final(self)@.rooms == if old(self)@.has_room(name@) {
                old(self)@.rooms.update(old(self)@.room_index(name@), fresh_room(name@))
            } else {
                old(self)@.rooms.push(fresh_room(name@))
            },
            final(self)@.agents == if old(self)@.has_room(name@) {
                evict_all(old(self)@.agents, name@)
            } else {
                old(self)@.agents
            },
    {
        let ghost o = self@;
        self.topology.add_room(name);
        match self.find_room(name) {
            Some(i) => {
                self.rooms.set(i, Room::new(name));
                let mut out: Vec<RoomAgent> = Vec::new();
                let mut k: usize = 0;
                while k < self.agents.len()
                    invariant
                        k <= self.agents@.len(),
                        out@.len() == k,
                        forall|j: int|
                            0 <= j < k ==> (#[trigger] out@[j])@ == evicted(self.agents@[j]@, name@),
                    decreases self.agents@.len() - k,
                {
                    let mut a = self.agents[k].clone();
                    let here = match &a.current_room {
                        Some(rn) => same_text(rn, name),
                        None => false,
                    };
                    if here {
                        a.current_room = None;
                    }
                    out.push(a);
                    k = k + 1;
                }
                self.agents = out;
                proof {
                    assert(self@.rooms =~= o.rooms.update(i as int, fresh_room(name@)));
                    assert(self@.agents =~= evict_all(o.agents, name@));
                    assert(o.topology.has_room(name@));
                    assert(fresh_room(name@).well_formed());
                    lemma_room_named(o, name@);
                    lemma_update_room(o, i as int, fresh_room(name@));
                    let s1 = SessionView { rooms: o.rooms.update(i as int, fresh_room(name@)), ..o };
                    lemma_evict(s1, name@);
                    let t = self@;
                    assert(t == SessionView { agents: evict_all(s1.agents, name@), ..s1 });
                    assert forall|j: int, m: Seq<char>|
                        0 <= j < t.rooms.len() && #[trigger] t.rooms[j].has_agent(m) implies t.has_agent(
                        m,
                    ) && t.agent(m).current_room == Some(t.rooms[j].name) by {
                        if j == i {
                            assert(t.rooms[j].agents == Seq::<AgentView>::empty());
                        }
                        assert(t.rooms[j] == o.rooms[j]);
                        assert(o.rooms[j].has_agent(m));
                        assert(o.rooms[j].name != name@);
                    }
                    assert forall|m: Seq<char>| #[trigger]
                        t.has_agent(m) && t.agent(m).current_room is Some implies t.has_room(
                        t.agent(m).current_room.unwrap(),
                    ) && t.rooms[t.room_index(t.agent(m).current_room.unwrap())].has_agent(m) by {
                        assert(o.has_agent(m));
                        let x = o.agent(m).current_room.unwrap();
                        assert(x != name@);
                        assert(o.has_room(x));
                        assert(rooms_have(t.rooms, x));
                        let xi = o.room_index(x);
                        assert(xi != i);
                        assert(o.rooms[xi].has_agent(m));
                        assert(t.rooms[xi] == o.rooms[xi]);
                    }
                    assert forall|n: Seq<char>|
                        #![trigger t.topology.has_room(n)]
                        #![trigger t.has_room(n)]
                        t.topology.has_room(n) == t.has_room(n) by {
                        assert(o.topology.has_room(n) == o.has_room(n));
                        assert(rooms_have(t.rooms, n) == rooms_have(o.rooms, n));
                    }
                    assert forall|x: int, j: int|
                        0 <= x < t.rooms.len() && 0 <= j < t.rooms[x].agents.len()
                            implies #[trigger] t.rooms[x].agents[j] == t.agent(t.rooms[x].agents[j].name) by {
                        if x == i {
                            assert(t.rooms[x].agents == Seq::<AgentView>::empty());
                        }
                        let e = t.rooms[x].agents[j];
                        assert(t.rooms[x] == o.rooms[x]);
                        assert(o.rooms[x].agents[j] == o.agent(e.name));
                        assert(o.rooms[x].has_agent(e.name));
                        assert(o.rooms[x].name != name@);
                        assert(s1.agent(e.name) == o.agent(e.name));
                    }
                }
            },
            None => {
                self.rooms.push(Room::new(name));
                proof {
                    assert(self@.rooms =~= o.rooms.push(fresh_room(name@)));
                    lemma_push_room(o, fresh_room(name@));
                    let t = self@;
                    assert(t.agents == o.agents);
                    assert forall|i: int, m: Seq<char>|
                        0 <= i < t.rooms.len() && #[trigger] t.rooms[i].has_agent(m) implies t.has_agent(
                        m,
                    ) && t.agent(m).current_room == Some(t.rooms[i].name) by {
                        if i < o.rooms.len() {
                            assert(t.rooms[i] == o.rooms[i]);
                            assert(o.rooms[i].has_agent(m));
                        } else {
                            assert(t.rooms[i].agents == Seq::<AgentView>::empty());
                        }
                    }
                    assert forall|m: Seq<char>| #[trigger]
                        t.has_agent(m) && t.agent(m).current_room is Some implies t.has_room(
                        t.agent(m).current_room.unwrap(),
                    ) && t.rooms[t.room_index(t.agent(m).current_room.unwrap())].has_agent(m) by {
                        assert(o.has_agent(m));
                        let x = o.agent(m).current_room.unwrap();
                        assert(o.has_room(x));
                        assert(rooms_have(t.rooms, x));
                        let xi = o.room_index(x);
                        assert(o.rooms[xi].has_agent(m));
                        assert(t.rooms[xi] == o.rooms[xi]);
                    }
                    assert forall|n: Seq<char>|
                        #![trigger t.topology.has_room(n)]
                        #![trigger t.has_room(n)]
                        t.topology.has_room(n) == t.has_room(n) by {
                        assert(o.topology.has_room(n) == o.has_room(n));
                        assert(!o.topology.has_room(name@));
                        assert(t.topology.rooms == o.topology.rooms.push(name@));
                        if o.topology.has_room(n) {
                            let k = choose|k: int|
                                0 <= k < o.topology.rooms.len() && o.topology.rooms[k] == n;
                            assert(t.topology.rooms[k] == n);
                        }
                        if n == name@ {
                            assert(t.topology.rooms[o.topology.rooms.len() as int] == n);
                        }
                        if t.topology.has_room(n) {
                            let k = choose|k: int|
                                0 <= k < t.topology.rooms.len() && t.topology.rooms[k] == n;
                            if k < o.topology.rooms.len() {
                                assert(o.topology.rooms[k] == n);
                            }
                        }
                        assert(t.topology.has_room(n) == (o.topology.has_room(n) || n == name@));
                        assert(rooms_have(t.rooms, n) == (rooms_have(o.rooms, n) || n == name@));
                    }
                    assert forall|x: int, j: int|
                        0 <= x < t.rooms.len() && 0 <= j < t.rooms[x].agents.len()
                            implies #[trigger] t.rooms[x].agents[j] == t.agent(t.rooms[x].agents[j].name) by {
                        if x == o.rooms.len() {
                            assert(t.rooms[x].agents == Seq::<AgentView>::empty());
                        }
                        assert(t.rooms[x] == o.rooms[x]);
                        assert(o.rooms[x].agents[j] == o.agent(o.rooms[x].agents[j].name));
                    }
                }
            },
        }
    }

    /// Connect two rooms of the session's topology.
    pub fn connect_rooms(&mut self, from: &str, to: &str, ct: ConnectionType) -> (r: Result<
        (),
        SessionError,
    >)
        requires
            old(self).wf(),
        ensures
            final(self).wf(),
            final(self)@.rooms == old(self)@.rooms,
            final(self)@.agents == old(self)@.agents,
            final(self)@.topology.rooms == old(self)@.topology.rooms,
            !old(self)@.topology.has_room(from@) ==> (r matches Err(
                SessionError::Topology(TopologyError::RoomNotFound(n)),
            ) && n@ == from@),
            old(self)@.topology.has_room(from@) && !old(self)@.topology.has_room(to@) ==> (r matches Err(
                SessionError::Topology(TopologyError::RoomNotFound(n)),
            ) && n@ == to@),
            old(self)@.topology.has_room(from@) && old(self)@.topology.has_room(to@) && old(
                self,
            )@.topology.connected(from@, to@) ==> (r matches Err(
                SessionError::Topology(TopologyError::AlreadyConnected(a, b)),
            ) && a@ == from@ && b@ == to@),
            r is Ok <==> (old(self)@.topology.has_room(from@) && old(self)@.topology.has_room(to@)
                && !old(self)@.topology.connected(from@, to@)),
            r is Ok ==> final(self)@.topology.doors == old(self)@.topology.doors.push(
                DoorView { from: from@, to: to@, connection_type: ct, open: true },
            ),
            r is Err ==> final(self)@ == old(self)@,
    {
        let ghost o = self@;
        let r = match self.topology.connect(from, to, ct) {
            Ok(()) => Ok(()),
            Err(e) => Err(SessionError::Topology(e)),
        };
        proof {
            let t = self@;
            assert(t.rooms == o.rooms && t.agents == o.agents);
            assert forall|n: Seq<char>|
                #![trigger t.topology.has_room(n)]
                #![trigger t.has_room(n)]
                t.topology.has_room(n) == t.has_room(n) by {
                assert(o.topology.has_room(n) == o.has_room(n));
            }
            assert(t.distinct());
            assert forall|i: int, m: Seq<char>|
                0 <= i < t.rooms.len() && #[trigger] t.rooms[i].has_agent(m) implies t.has_agent(
                m,
            ) && t.agent(m).current_room == Some(t.rooms[i].name) by {
                assert(o.rooms[i].has_agent(m));
            }
            assert forall|m: Seq<char>| #[trigger]
                t.has_agent(m) && t.agent(m).current_room is Some implies t.has_room(
                t.agent(m).current_room.unwrap(),
            ) && t.rooms[t.room_index(t.agent(m).current_room.unwrap())].has_agent(m) by {
                assert(o.has_agent(m));
            }
        }
        r
    }

    /// Get a reference to a room.
    pub fn get_room(&self, name: &str) -> (r: Option<&Room>)
        requires
            self.wf(),
        ensures
            match r {
                Some(room) => self@.has_room(name@) && *room == self.rooms@[self@.room_index(name@)],
                None => !self@.has_room(name@),
            },
    {
        match self.find_room(name) {
            Some(i) => Some(&self.rooms[i]),
            None => None,
        }
    }

    /// Get a mutable reference to a room. Whatever is written through it
    /// becomes that room's entry in the session; the session stays well
    /// formed when the room's name and agents are left as they were.
    pub fn get_room_mut(&mut self, name: &str) -> (r: Option<&mut Room>)
        requires
            old(self).wf(),
        ensures
            match r {
                Some(room) => {
                    &&& old(self)@.has_room(name@)
                    &&& *room == old(self).rooms@[old(self)@.room_index(name@)]
                    &&& final(self).rooms@ == old(self).rooms@.update(
                        old(self)@.room_index(name@),
                        *final(room),
                    )
                    &&& final(self).topology == old(self).topology
                    &&& final(self).agents == old(self).agents
                    &&& (*final(room))@.name == (*room)@.name && (*final(room))@.agents
                        == (*room)@.agents ==> final(self).wf()
                },
                None => !old(self)@.has_room(name@) && *final(self) == *old(self),
            },
    {
        match self.find_room(name) {
            Some(i) => {
                proof {
                    let o = *self;
                    assert forall|n: Session|
                        n.topology == o.topology && n.agents == o.agents && n.rooms@ == o.rooms@.update(
                            i as int,
                            n.rooms@[i as int],
                        ) && n.rooms@[i as int]@.name == o.rooms@[i as int]@.name
                            && n.rooms@[i as int]@.agents == o.rooms@[i as int]@.agents
                            implies #[trigger] n.wf() by {
                        lemma_restyle_room(o@, i as int, n.rooms@[i as int]@);
                        assert(n@.rooms =~= o@.rooms.update(i as int, n.rooms@[i as int]@));
                        assert(n@ == (SessionView {
                            rooms: o@.rooms.update(i as int, n.rooms@[i as int]@),
                            ..o@
                        }));
                    }
                }
                Some(&mut self.rooms[i])
            },
            None => None,
        }
    }

    /// Get a reference to an agent.
    pub fn get_agent(&self, name: &str) -> (r: Option<&RoomAgent>)
        requires
            self.wf(),
        ensures
            match r {
                Some(a) => self@.has_agent(name@) && *a == self.agents@[self@.agent_index(name@)],
                None => !self@.has_agent(name@),
            },
    {
        match self.find_agent(name) {
            Some(i) => Some(&self.agents[i]),
            None => None,
        }
    }

    /// Total number of agents known to the session.
    pub fn total_agents(&self) -> (n: usize)
        ensures
            n == self@.agents.len(),
    {
        self.agents.len()
    }

    /// Find the rooms an agent can reach from its current room in one step:
    /// one entry per open connection that lets it pass, in order.
    pub fn reachable_rooms(&self, agent_name: &str) -> (r: Result<Vec<&str>, SessionError>)
        requires
            self.wf(),
        ensures
            !self@.has_agent(agent_name@) ==> (r matches Err(SessionError::AgentNotFound(n)) && n@
                == agent_name@),
            self@.has_agent(agent_name@) && self@.agent(agent_name@).current_room is None ==> (r matches Err(
                SessionError::AgentNotInRoom(n),
            ) && n@ == agent_name@),
            self@.has_agent(agent_name@) ==> (self@.agent(agent_name@).current_room matches Some(cur)
                ==> (r matches Ok(v) && v@.map_values(|s: &str| s@)
                == self@.topology.open_neighbor_names(cur) && forall|x: Seq<char>|
                v@.map_values(|s: &str| s@).contains(x) <==> #[trigger] self@.topology.passable(
                    cur,
                    x,
                ))),
    {
        let ai = match self.find_agent(agent_name) {
            None => {
                return Err(SessionError::AgentNotFound(agent_name.to_owned()));
            },
            Some(i) => i,
        };
        match &self.agents[ai].current_room {
            None => Err(SessionError::AgentNotInRoom(agent_name.to_owned())),
            Some(cur) => {
                let v = self.topology.open_neighbors(cur.as_str());
                proof {
                    assert forall|x: Seq<char>|
                        v@.map_values(|s: &str| s@).contains(x) <==> #[trigger] self@.topology.passable(
                            cur@,
                            x,
                        ) by {
                        crate::topology::lemma_open_neighbor_names(self@.topology, cur@, x);
                    }
                }
                Ok(v)
            },
        }
    }
}

/// Recording agent `a` makes it the agent of its name; the session knows one
/// more agent when the name was new.
proof fn lemma_record_finds(s: SessionView, a: AgentView)
    requires
        s.distinct(),
    ensures
        (SessionView { agents: s.record(a), ..s }).has_agent(a.name),
        (SessionView { agents: s.record(a), ..s }).agent(a.name) == a,
        !s.has_agent(a.name) ==> (SessionView { agents: s.record(a), ..s }).agent_index(a.name)
            == s.agents.len(),
        s.record(a).len() == if s.has_agent(a.name) {
            s.agents.len()
        } else {
            s.agents.len() + 1
        },
{
    let t = SessionView { agents: s.record(a), ..s };
    lemma_record(s, a);
    let k = if s.has_agent(a.name) { s.agent_index(a.name) } else { s.agents.len() as int };
    assert(t.agents[k] == a);
    let k2 = t.agent_index(a.name);
    if k2 != k {
        assert(t.agents[k2].name != t.agents[k].name);
    }
}

/// Expelling an agent just admitted under a new name, into a room of the
/// session that is not closed, restores the session as it was.
pub proof fn lemma_expel_undoes_admission(s: SessionView, a: AgentView)
    requires
        s.well_formed(),
        a.current_room is Some,
        s.has_room(a.current_room.unwrap()),
        s.rooms[s.room_index(a.current_room.unwrap())].state != RoomState::Closed,
        !s.has_agent(a.name),
    ensures
        s.admitted(a).expelled(a.name) == s,
{
    let rn = a.current_room.unwrap();
    lemma_room_named(s, rn);
    let ri = s.room_index(rn);
    let room = s.rooms[ri];
    if room.has_agent(a.name) {
        assert(s.rooms[ri].has_agent(a.name));
    }
    crate::room::lemma_enter_then_leave(room, a);
    lemma_update_room(s, ri, room.enter(a));
    let s1 = SessionView { rooms: s.rooms.update(ri, room.enter(a)), ..s };
    lemma_record_finds(s1, a);
    let t = s.admitted(a);
    assert(t.agent(a.name) == a);
    assert(t.agent_index(a.name) == s.agents.len());
    assert(t.agents.remove(s.agents.len() as int) =~= s.agents);
    assert(rooms_have(t.rooms, rn));
    assert(room_pos(t.rooms, rn) == ri);
    assert(t.rooms[ri] == room.enter(a));
    assert(leave_room(t.rooms, rn, a.name) =~= s.rooms);
    assert(t.expelled(a.name).rooms =~= s.rooms);
    assert(t.expelled(a.name).agents =~= s.agents);
}

/// A room added to a session is afterwards a room of the session and of its
/// topology, new, open and empty, and no agent is recorded in it.
pub proof fn lemma_added_room_present(s: SessionView, name: Seq<char>)
    requires
        s.well_formed(),
    ensures
        ({
            let rooms = if s.has_room(name) {
                s.rooms.update(s.room_index(name), fresh_room(name))
            } else {
                s.rooms.push(fresh_room(name))
            };
            let agents = if s.has_room(name) {
                evict_all(s.agents, name)
            } else {
                s.agents
            };
            let topology_rooms = if s.topology.has_room(name) {
                s.topology.rooms
            } else {
                s.topology.rooms.push(name)
            };
            &&& rooms_have(rooms, name)
            &&& rooms[room_pos(rooms, name)] == fresh_room(name)
            &&& rooms[room_pos(rooms, name)].name == name
            &&& rooms[room_pos(rooms, name)].state == RoomState::Open
            &&& rooms[room_pos(rooms, name)].agents.len() == 0
            &&& rooms[room_pos(rooms, name)].tags.len() == 0
            &&& topology_rooms.contains(name)
            &&& forall|j: int| 0 <= j < agents.len() ==> (#[trigger] agents[j]).current_room != Some(name)
        }),
{
    if s.has_room(name) {
        let k = s.room_index(name);
        lemma_room_named(s, name);
        lemma_update_room(s, k, fresh_room(name));
        let rooms = s.rooms.update(k, fresh_room(name));
        assert(rooms[k] == fresh_room(name));
        let k2 = room_pos(rooms, name);
        if k2 != k {
            assert(rooms[k2] == s.rooms[k2]);
        }
        let agents = evict_all(s.agents, name);
        assert forall|j: int| 0 <= j < agents.len() implies (#[trigger] agents[j]).current_room
            != Some(name) by {
            assert(agents[j] == evicted(s.agents[j], name));
        }
    } else {
        assert(fresh_room(name).well_formed());
        lemma_push_room(s, fresh_room(name));
        assert(s.rooms.push(fresh_room(name))[s.rooms.len() as int] == fresh_room(name));
        assert forall|j: int| 0 <= j < s.agents.len() implies (#[trigger] s.agents[j]).current_room
            != Some(name) by {
            let m = s.agents[j].name;
            if s.agents[j].current_room == Some(name) {
                assert(s.has_agent(m));
                let k = s.agent_index(m);
                if k != j {
                    assert(s.agents[k].name != s.agents[j].name);
                }
                assert(s.agent(m).current_room == Some(name));
            }
        }
    }
    if !s.topology.has_room(name) {
        assert(s.topology.rooms.push(name)[s.topology.rooms.len() as int] == name);
    }
}

} // verus!
