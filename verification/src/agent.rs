//! Agents: room participants identified by name.

use vstd::prelude::*;

verus! {

/// The text of an optional string.
pub open spec fn opt_view(o: Option<String>) -> Option<Seq<char>> {
    match o {
        Some(s) => Some(s@),
        None => None,
    }
}

/// An owned copy of an optional string.
pub(crate) fn copy_opt(o: &Option<String>) -> (r: Option<String>)
    ensures
        r == *o,
{
    match o {
        Some(s) => Some(s.clone()),
        None => None,
    }
}

/// What an agent is: its name, the room it is in, and whether it is active.
pub struct AgentView {
    pub name: Seq<char>,
    pub current_room: Option<Seq<char>>,
    pub active: bool,
}

/// An agent participating in rooms.
#[derive(Debug)]
pub struct RoomAgent {
    /// Unique agent name.
    pub name: String,
    /// Current room the agent is in (None if not in any room).
    pub current_room: Option<String>,
    /// Whether the agent is active.
    pub active: bool,
}

impl View for RoomAgent {
    type V = AgentView;

    open spec fn view(&self) -> AgentView {
        AgentView { name: self.name@, current_room: opt_view(self.current_room), active: self.active }
    }
}

impl Clone for RoomAgent {
    fn clone(&self) -> (r: Self)
        ensures
            r == *self,
    {
        RoomAgent {
            name: self.name.clone(),
            current_room: copy_opt(&self.current_room),
            active: self.active,
        }
    }
}

impl RoomAgent {
    /// Create a new active agent with the given name, initially in the specified room.
    pub fn new(name: &str, room: &str) -> (a: RoomAgent)
        ensures
            a@ == (AgentView { name: name@, current_room: Some(room@), active: true }),
    {
        RoomAgent { name: name.to_owned(), current_room: Some(room.to_owned()), active: true }
    }

    /// Create a detached agent: in no room, and inactive.
    pub fn detached(name: &str) -> (a: RoomAgent)
        ensures
            a@ == (AgentView { name: name@, current_room: None, active: false }),
    {
        RoomAgent { name: name.to_owned(), current_room: None, active: false }
    }

    /// Deactivate the agent.
    pub fn deactivate(&mut self)
        ensures
            final(self)@ == (AgentView { active: false, ..old(self)@ }),
    {
        self.active = false;
    }

    /// Reactivate the agent.
    pub fn activate(&mut self)
        ensures
            final(self)@ == (AgentView { active: true, ..old(self)@ }),
    {
        self.active = true;
    }
}

} // verus!
