//! Rooms: collaborative spaces that hold agents.

use vstd::prelude::*;

use crate::agent::{AgentView, RoomAgent};
use crate::topology::{names, same_text};

verus! {

/// Current state of a room.
#[derive(Debug, Clone, Copy, PartialEq, Eq, Structural)]
pub enum RoomState {
    /// Room is open and accepting new agents.
    Open,
    /// Room is paused: no state changes allowed.
    Paused,
    /// Room is closed: no agents can enter or act.
    Closed,
}

/// What a room is: its name, state, agents (in the order they entered) and tags.
pub struct RoomView {
    pub name: Seq<char>,
    pub state: RoomState,
    pub agents: Seq<AgentView>,
    pub tags: Seq<Seq<char>>,
}

impl RoomView {
    /// Whether an agent named `n` is in the room.
    pub open spec fn has_agent(self, n: Seq<char>) -> bool {
        exists|i: int| 0 <= i < self.agents.len() && (#[trigger] self.agents[i]).name == n
    }

    /// The position of the agent named `n`.
    pub open spec fn agent_index(self, n: Seq<char>) -> int {
        choose|i: int| 0 <= i < self.agents.len() && (#[trigger] self.agents[i]).name == n
    }

    /// No two agents of the room share a name.
    pub open spec fn well_formed(self) -> bool {
        forall|i: int, j: int|
            0 <= i < self.agents.len() && 0 <= j < self.agents.len() && i != j
                ==> (#[trigger] self.agents[i]).name != (#[trigger] self.agents[j]).name
    }

    /// Whether the room lets agent `a` in: it is not closed and holds no agent of that name.
    pub open spec fn admits(self, a: AgentView) -> bool {
        self.state != RoomState::Closed && !self.has_agent(a.name)
    }

    /// The room after agent `a` has entered it, if it admits `a`.
    pub open spec fn enter(self, a: AgentView) -> RoomView {
        if self.admits(a) {
            RoomView { agents: self.agents.push(a), ..self }
        } else {
            self
        }
    }

    /// The room after the agent named `n` has left it, if it was there.
    pub open spec fn leave(self, n: Seq<char>) -> RoomView {
        if self.has_agent(n) {
            RoomView { agents: self.agents.remove(self.agent_index(n)), ..self }
        } else {
            self
        }
    }
}

/// A collaborative room where agents interact.
#[derive(Debug)]
pub struct Room {
    /// Unique room name.
    pub name: String,
    /// Current room state.
    pub state: RoomState,
    /// Agents currently in this room, in the order they entered.
    pub agents: Vec<RoomAgent>,
    /// Tags/metadata for the room.
    pub tags: Vec<String>,
}

impl View for Room {
    type V = RoomView;

    open spec fn view(&self) -> RoomView {
        RoomView {
            name: self.name@,
            state: self.state,
            agents: self.agents@.map_values(|a: RoomAgent| a@),
            tags: names(self.tags@),
        }
    }
}

impl Clone for Room {
    fn clone(&self) -> (r: Self)
        ensures
            r@ == self@,
    {
        let mut agents: Vec<RoomAgent> = Vec::new();
        let mut i: usize = 0;
        while i < self.agents.len()
            invariant
                i <= self.agents@.len(),
                agents@ == self.agents@.take(i as int),
            decreases self.agents@.len() - i,
        {
            agents.push(self.agents[i].clone());
            assert(agents@ =~= self.agents@.take(i + 1));
            i = i + 1;
        }
        let mut tags: Vec<String> = Vec::new();
        let mut j: usize = 0;
        while j < self.tags.len()
            invariant
                j <= self.tags@.len(),
                tags@ == self.tags@.take(j as int),
            decreases self.tags@.len() - j,
        {
            tags.push(self.tags[j].clone());
            assert(tags@ =~= self.tags@.take(j + 1));
            j = j + 1;
        }
        assert(agents@ =~= self.agents@);
        assert(tags@ =~= self.tags@);
        Room { name: self.name.clone(), state: self.state, agents, tags }
    }
}

impl Room {
    /// No two agents of the room share a name.
    pub open spec fn wf(&self) -> bool {
        self@.well_formed()
    }

    /// Create a new open room with the given name, no agents and no tags.
    pub fn new(name: &str) -> (r: Room)
        ensures
            r.wf(),
            r@ == (RoomView {
                name: name@,
                state: RoomState::Open,
                agents: Seq::empty(),
                tags: Seq::empty(),
            }),
    {
        let r = Room { name: name.to_owned(), state: RoomState::Open, agents: Vec::new(), tags: Vec::new() };
        assert(r@.agents =~= Seq::<AgentView>::empty());
        assert(r@.tags =~= Seq::<Seq<char>>::empty());
        r
    }

    /// Add a tag to this room.
    pub fn with_tag(self, tag: &str) -> (r: Room)
        ensures
            r@ == (RoomView { tags: self@.tags.push(tag@), ..self@ }),
    {
        let mut r = self;
        r.tags.push(tag.to_owned());
        assert(names(r.tags@) =~= names(self.tags@).push(tag@));
        r
    }

    /// The position of the agent named `name`, if present.
    fn find_agent(&self, name: &str) -> (r: Option<usize>)
        requires
            self.wf(),
        ensures
            match r {
                Some(i) => self@.has_agent(name@) && i == self@.agent_index(name@) && i
                    < self.agents@.len(),
                None => !self@.has_agent(name@),
            },
    {
        let mut i: usize = 0;
        while i < self.agents.len()
            invariant
                i <= self.agents@.len(),
                self.wf(),
                forall|j: int| 0 <= j < i ==> self.agents@[j].name@ != name@,
            decreases self.agents@.len() - i,
        {
            if same_text(&self.agents[i].name, name) {
                assert(self@.agents[i as int].name == name@);
                return Some(i);
            }
            i = i + 1;
        }
        assert(!self@.has_agent(name@)) by {
            if self@.has_agent(name@) {
                let k = choose|k: int| 0 <= k < self@.agents.len() && (#[trigger] self@.agents[k]).name == name@;
                assert(self.agents@[k].name@ == name@);
            }
        }
        None
    }

    /// Add an agent to this room. Returns false, and leaves the room as it
    /// was, if the room is closed or an agent of that name is already present.
    pub fn add_agent(&mut self, agent: RoomAgent) -> (r: bool)
        requires
            old(self).wf(),
        ensures
            final(self).wf(),
            r == old(self)@.admits(agent@),
            final(self)@ == old(self)@.enter(agent@),
            r ==> final(self).agents@ == old(self).agents@.push(agent),
            !r ==> *final(self) == *old(self),
    {
        if self.state == RoomState::Closed {
            return false;
        }
        if self.find_agent(agent.name.as_str()).is_some() {
            return false;
        }
        let ghost a = agent@;
        self.agents.push(agent);
        proof {
            let o = old(self)@;
            assert(self@.agents =~= o.agents.push(a));
            assert forall|i: int, j: int|
                0 <= i < self@.agents.len() && 0 <= j < self@.agents.len() && i != j
                    implies (#[trigger] self@.agents[i]).name != (#[trigger] self@.agents[j]).name by {
                if i < o.agents.len() && j < o.agents.len() {
                    assert(self@.agents[i] == o.agents[i]);
                    assert(self@.agents[j] == o.agents[j]);
                } else if i < o.agents.len() {
                    assert(self@.agents[i] == o.agents[i]);
                } else {
                    assert(self@.agents[j] == o.agents[j]);
                }
            }
        }
        true
    }

    /// Remove an agent by name. Returns the removed agent, if any.
    pub fn remove_agent(&mut self, name: &str) -> (r: Option<RoomAgent>)
        requires
            old(self).wf(),
        ensures
            final(self).wf(),
            final(self)@ == old(self)@.leave(name@),
            final(self).name == old(self).name,
            final(self).state == old(self).state,
            final(self).tags == old(self).tags,
            match r {
                Some(a) => old(self)@.has_agent(name@) && a == old(self).agents@[old(self)@.agent_index(name@)],
                None => !old(self)@.has_agent(name@),
            },
    {
        match self.find_agent(name) {
            None => None,
            Some(i) => {
                let a = self.agents.remove(i);
                proof {
                    let o = old(self)@;
                    assert(self@.agents =~= o.agents.remove(i as int));
                    assert forall|x: int, y: int|
                        0 <= x < self@.agents.len() && 0 <= y < self@.agents.len() && x != y
                            implies (#[trigger] self@.agents[x]).name != (
                        #[trigger] self@.agents[y]).name by {
                        let x0 = if x < i { x } else { x + 1 };
                        let y0 = if y < i { y } else { y + 1 };
                        assert(self@.agents[x] == o.agents[x0]);
                        assert(self@.agents[y] == o.agents[y0]);
                    }
                }
                Some(a)
            },
        }
    }

    /// Get an agent by name.
    pub fn get_agent(&self, name: &str) -> (r: Option<&RoomAgent>)
        requires
            self.wf(),
        ensures
            match r {
                Some(a) => self@.has_agent(name@) && *a == self.agents@[self@.agent_index(name@)],
                None => !self@.has_agent(name@),
            },
    {
        match self.find_agent(name) {
            None => None,
            Some(i) => Some(&self.agents[i]),
        }
    }

    /// Get a mutable reference to an agent by name. Whatever is written
    /// through it becomes that agent's entry in the room.
    pub fn get_agent_mut(&mut self, name: &str) -> (r: Option<&mut RoomAgent>)
        requires
            old(self).wf(),
        ensures
            match r {
                Some(a) => {
                    &&& old(self)@.has_agent(name@)
                    &&& *a == old(self).agents@[old(self)@.agent_index(name@)]
                    &&& final(self).agents@ == old(self).agents@.update(
                        old(self)@.agent_index(name@),
                        *final(a),
                    )
                    &&& final(self).name == old(self).name
                    &&& final(self).state == old(self).state
                    &&& final(self).tags == old(self).tags
                },
                None => !old(self)@.has_agent(name@) && *final(self) == *old(self),
            },
    {
        match self.find_agent(name) {
            None => None,
            Some(i) => Some(&mut self.agents[i]),
        }
    }

    /// Number of agents in the room.
    pub fn agent_count(&self) -> (n: usize)
        ensures
            n == self@.agents.len(),
    {
        self.agents.len()
    }

    /// Set room state.
    pub fn set_state(&mut self, state: RoomState)
        ensures
            final(self)@ == (RoomView { state: state, ..old(self)@ }),
    {
        self.state = state;
    }

    /// List agent names in the room, in the order the agents entered.
    pub fn agent_names(&self) -> (r: Vec<&str>)
        ensures
            r@.map_values(|s: &str| s@) == self@.agents.map_values(|a: AgentView| a.name),
    {
        let mut out: Vec<&str> = Vec::new();
        let mut i: usize = 0;
        while i < self.agents.len()
            invariant
                i <= self.agents@.len(),
                out@.map_values(|s: &str| s@) == self@.agents.take(i as int).map_values(
                    |a: AgentView| a.name,
                ),
            decreases self.agents@.len() - i,
        {
            let ghost before = out@;
            out.push(self.agents[i].name.as_str());
            assert(self@.agents[i as int].name == self.agents@[i as int].name@);
            assert(out@.map_values(|s: &str| s@) =~= before.map_values(|s: &str| s@).push(
                self.agents@[i as int].name@,
            ));
            assert(out@.map_values(|s: &str| s@) =~= self@.agents.take(i + 1).map_values(
                |a: AgentView| a.name,
            ));
            i = i + 1;
        }
        assert(self@.agents.take(i as int) =~= self@.agents);
        out
    }
}

/// An agent that a room lets in is in the room afterwards, one more agent
/// than before, and its leaving again restores the room as it was. A
/// closed room lets no one in.
pub proof fn lemma_enter_then_leave(r: RoomView, a: AgentView)
    requires
        r.well_formed(),
    ensures
        r.state == RoomState::Closed ==> r.enter(a) == r,
        r.admits(a) ==> {
            &&& r.enter(a).well_formed()
            &&& r.enter(a).has_agent(a.name)
            &&& r.enter(a).agents[r.enter(a).agent_index(a.name)] == a
            &&& r.enter(a).agents.len() == r.agents.len() + 1
            &&& r.enter(a).leave(a.name) == r
        },
{
    if r.admits(a) {
        let e = r.enter(a);
        let last = r.agents.len() as int;
        assert(e.agents[last] == a);
        assert forall|i: int, j: int|
            0 <= i < e.agents.len() && 0 <= j < e.agents.len() && i != j implies (
        #[trigger] e.agents[i]).name != (#[trigger] e.agents[j]).name by {
            if i < last && j < last {
                assert(e.agents[i] == r.agents[i]);
                assert(e.agents[j] == r.agents[j]);
            } else if i < last {
                assert(e.agents[i] == r.agents[i]);
            } else {
                assert(e.agents[j] == r.agents[j]);
            }
        }
        let k = e.agent_index(a.name);
        if k != last {
            assert(e.agents[k].name != e.agents[last].name);
        }
        assert(e.leave(a.name).agents =~= r.agents);
    }
}

/// After the agent named `n` has left a room, no agent of that name is in
/// it, the room is still well formed, and it keeps its name and state.
pub proof fn lemma_leave(r: RoomView, n: Seq<char>)
    requires
        r.well_formed(),
    ensures
        !r.leave(n).has_agent(n),
        r.leave(n).well_formed(),
        r.leave(n).name == r.name,
        r.leave(n).state == r.state,
        r.has_agent(n) ==> r.leave(n).agents.len() == r.agents.len() - 1,
{
    if r.has_agent(n) {
        let k = r.agent_index(n);
        let l = r.leave(n);
        assert forall|i: int, j: int|
            0 <= i < l.agents.len() && 0 <= j < l.agents.len() && i != j implies (
        #[trigger] l.agents[i]).name != (#[trigger] l.agents[j]).name by {
            let i0 = if i < k { i } else { i + 1 };
            let j0 = if j < k { j } else { j + 1 };
            assert(l.agents[i] == r.agents[i0]);
            assert(l.agents[j] == r.agents[j0]);
        }
        if l.has_agent(n) {
            let i = choose|i: int| 0 <= i < l.agents.len() && (#[trigger] l.agents[i]).name == n;
            let i0 = if i < k { i } else { i + 1 };
            assert(l.agents[i] == r.agents[i0]);
            assert(r.agents[i0].name != r.agents[k].name);
        }
    }
}

/// After agent `a` has tried to enter a room, the room holds the agents it
/// held, and `a` too when it let `a` in; its name and state stay.
pub proof fn lemma_enter_has(r: RoomView, a: AgentView, n: Seq<char>)
    ensures
        r.enter(a).has_agent(n) == (r.has_agent(n) || (r.admits(a) && n == a.name)),
        r.enter(a).name == r.name,
        r.enter(a).state == r.state,
{
    if r.admits(a) {
        let e = r.enter(a);
        if r.has_agent(n) {
            let i = choose|i: int| 0 <= i < r.agents.len() && (#[trigger] r.agents[i]).name == n;
            assert(e.agents[i] == r.agents[i]);
        }
        if n == a.name {
            assert(e.agents[r.agents.len() as int] == a);
        }
        if e.has_agent(n) {
            let i = choose|i: int| 0 <= i < e.agents.len() && (#[trigger] e.agents[i]).name == n;
            if i < r.agents.len() {
                assert(e.agents[i] == r.agents[i]);
            }
        }
    }
}

/// After the agent named `m` has left a room, the room holds exactly the
/// other agents it held.
pub proof fn lemma_leave_has(r: RoomView, m: Seq<char>, n: Seq<char>)
    requires
        r.well_formed(),
    ensures
        r.leave(m).has_agent(n) == (r.has_agent(n) && n != m),
{
    lemma_leave(r, m);
    if r.has_agent(m) {
        let k = r.agent_index(m);
        let l = r.leave(m);
        if r.has_agent(n) && n != m {
            let i = choose|i: int| 0 <= i < r.agents.len() && (#[trigger] r.agents[i]).name == n;
            assert(i != k);
            let i1 = if i < k { i } else { i - 1 };
            assert(l.agents[i1] == r.agents[i]);
        }
        if l.has_agent(n) {
            let i = choose|i: int| 0 <= i < l.agents.len() && (#[trigger] l.agents[i]).name == n;
            let i0 = if i < k { i } else { i + 1 };
            assert(l.agents[i] == r.agents[i0]);
        }
    }
}

/// A room that is not closed and holds no agent of that name lets in every
/// agent, whatever room the agent names: the agent is appended to the room's
/// agents. Any other room stays as it was.
pub proof fn lemma_enter_exact(r: RoomView, a: AgentView)
    ensures
        r.admits(a) == (r.state != RoomState::Closed && !r.has_agent(a.name)),
        r.state != RoomState::Closed && !r.has_agent(a.name) ==> r.enter(a) == (RoomView {
            agents: r.agents.push(a),
            ..r
        }),
        r.state == RoomState::Closed || r.has_agent(a.name) ==> r.enter(a) == r,
{
}

/// What stays in a room after the agent named `n` has left are agents it
/// held, none of them named `n`.
pub proof fn lemma_leave_keeps(r: RoomView, n: Seq<char>)
    requires
        r.well_formed(),
    ensures
        forall|j: int|
            0 <= j < r.leave(n).agents.len() ==> r.agents.contains(#[trigger] r.leave(n).agents[j])
                && r.leave(n).agents[j].name != n,
{
    let l = r.leave(n);
    assert forall|j: int| 0 <= j < l.agents.len() implies r.agents.contains(
        #[trigger] l.agents[j],
    ) && l.agents[j].name != n by {
        if r.has_agent(n) {
            let k = r.agent_index(n);
            let j0 = if j < k { j } else { j + 1 };
            assert(l.agents[j] == r.agents[j0]);
            assert(r.agents[j0].name != r.agents[k].name);
        } else {
            assert(l.agents[j] == r.agents[j]);
        }
    }
}

} // verus!
