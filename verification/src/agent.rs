//! Agents, the flock that owns them, and the pose that a tick hands out.

use vstd::prelude::*;
use crate::fixed::magnitude;
use crate::index::Entry;
use crate::vec2::{Vec2, Vector};

verus! {

/// The greatest speed of an agent after a tick, in thousandths of a unit
/// per second.
pub const MAX_SPEED: u32 = 500_000;

/// The least speed of a moving agent after a tick.
pub const MIN_SPEED: u32 = 50_000;

/// The square of [`MAX_SPEED`].
pub const MAX_SPEED_SQUARED: u128 = 250_000_000_000;

/// The square of [`MIN_SPEED`].
pub const MIN_SPEED_SQUARED: u128 = 2_500_000_000;

/// The length of an orientation: one unit.
pub const ORIENTATION_LENGTH: u32 = 1000;

/// No coordinate of a position exceeds this in absolute value: a million
/// units. A step that would leave this square stops at its border.
pub const POSITION_LIMIT: i64 = 1_000_000_000;

/// No coordinate of a velocity that the integrator takes exceeds this: a
/// thousand million million units a second. With it a velocity after a
/// delta and friction still fits in sixty-four bits.
pub const VELOCITY_LIMIT: i64 = 1_000_000_000_000_000_000;

/// No coordinate of a velocity that the steering rules take exceeds this:
/// a thousand units a second, twice the greatest speed. With it the exact
/// test of the view cone fits in a hundred and twenty-eight bits.
pub const HEADING_LIMIT: i64 = 1_000_000;

/// The orientation that belongs to velocity `v`: its direction, at a length
/// of at most one unit, or `previous` where `v` is zero and has none.
pub open spec fn heading(v: Vector, previous: Vector) -> Vector {
    if v == Vector::zero() {
        previous
    } else {
        v.shortened_to(ORIENTATION_LENGTH as nat)
    }
}

/// The orientation that belongs to a velocity other than zero is one unit
/// long, or less than three thousandths shorter, and points the way the
/// velocity does.
pub proof fn lemma_heading(v: Vector, previous: Vector)
    requires
        v != Vector::zero(),
    ensures
        (ORIENTATION_LENGTH - 3) * (ORIENTATION_LENGTH - 3) <= heading(
            v,
            previous,
        ).norm_squared() <= ORIENTATION_LENGTH * ORIENTATION_LENGTH,
        v.x >= 0 ==> heading(v, previous).x >= 0,
        v.x <= 0 ==> heading(v, previous).x <= 0,
        v.y >= 0 ==> heading(v, previous).y >= 0,
        v.y <= 0 ==> heading(v, previous).y <= 0,
        magnitude(heading(v, previous).cross(v)) <= magnitude(v.x) + magnitude(v.y),
{
    v.lemma_shortened(ORIENTATION_LENGTH as nat);
}

/// The orientation of an agent that has never moved: straight up.
pub open spec fn upright() -> Vector {
    Vector { x: 0, y: ORIENTATION_LENGTH as int }
}

/// What an [`Agent`] stands for.
pub struct AgentState {
    pub id: int,
    pub position: Vector,
    pub velocity: Vector,
    pub orientation: Vector,
}

impl AgentState {
    /// Whether the agent fits the machine: the position lies within the
    /// position limit, the velocity within the velocity limit, and the
    /// orientation is no longer than one unit. The speed limits are no part
    /// of it: they hold after a step, not of what is handed in.
    pub open spec fn wf(self) -> bool {
        &&& self.position.within(POSITION_LIMIT as int)
        &&& self.velocity.within(VELOCITY_LIMIT as int)
        &&& self.orientation.within(ORIENTATION_LENGTH as int)
    }

    /// Whether the steering rules can take the agent: it is well formed and
    /// its velocity lies within the heading limit. Every agent is so after
    /// a steering delta.
    pub open spec fn steerable(self) -> bool {
        self.wf() && self.velocity.within(HEADING_LIMIT as int)
    }
}

/// One agent: a stable identity, where it is, how fast it moves, and which
/// way it points.
#[derive(Clone, Copy, Debug, PartialEq, Eq, Structural)]
pub struct Agent {
    pub id: usize,
    pub position: Vec2,
    pub velocity: Vec2,
    pub orientation: Vec2,
}

impl View for Agent {
    type V = AgentState;

    open spec fn view(&self) -> AgentState {
        AgentState {
            id: self.id as int,
            position: self.position@,
            velocity: self.velocity@,
            orientation: self.orientation@,
        }
    }
}

/// The orientation that belongs to `velocity`, or `previous` where the
/// velocity is zero.
pub fn heading_of(velocity: Vec2, previous: Vec2) -> (o: Vec2)
    ensures
        o@ == heading(velocity@, previous@),
        previous@.within(ORIENTATION_LENGTH as int) ==> o@.within(ORIENTATION_LENGTH as int),
{
    if velocity.is_zero() {
        previous
    } else {
        proof {
            velocity@.lemma_shortened(ORIENTATION_LENGTH as nat);
        }
        velocity.shortened_to(ORIENTATION_LENGTH)
    }
}

impl Agent {
    /// An agent with every field given: `None` if the position lies outside
    /// the position limit or the speed is above [`MAX_SPEED`]. The agent
    /// points the way it moves, or straight up if it stands still.
    pub fn new(id: usize, position: Vec2, velocity: Vec2) -> (made: Option<Agent>)
        ensures
            made is Some <==> position@.within(POSITION_LIMIT as int) && velocity@.norm_squared()
                <= MAX_SPEED_SQUARED,
            made matches Some(a) ==> a.id == id && a.position == position && a.velocity
                == velocity && a@.orientation == heading(velocity@, upright()) && a@.wf()
                && a@.steerable(),
    {
        if !position.fits(POSITION_LIMIT) || velocity.norm_squared() > MAX_SPEED_SQUARED {
            return None;
        }
        proof {
            velocity@.lemma_coordinates_within_length(MAX_SPEED as nat);
        }
        let orientation: Vec2 = heading_of(velocity, Vec2 { x: 0, y: ORIENTATION_LENGTH as i64 });
        Some(Agent { id, position, velocity, orientation })
    }
}

impl Agent {
    /// Whether the agent is well formed.
    pub fn is_valid(&self) -> (b: bool)
        ensures
            b == self@.wf(),
    {
        self.position.fits(POSITION_LIMIT) && self.velocity.fits(VELOCITY_LIMIT)
            && self.orientation.fits(ORIENTATION_LENGTH as i64)
    }

    /// Whether the steering rules can take the agent.
    pub fn is_steerable(&self) -> (b: bool)
        ensures
            b == self@.steerable(),
    {
        self.is_valid() && self.velocity.fits(HEADING_LIMIT)
    }
}

/// What a tick hands to whoever draws the flock: which agent, where, and
/// pointing which way.
#[derive(Clone, Copy, Debug, PartialEq, Eq, Structural)]
pub struct Pose {
    pub agent_id: usize,
    pub position: Vec2,
    pub orientation: Vec2,
}

/// Whether every agent is well formed and carries its place in the sequence
/// as its identity.
pub open spec fn flock_wf(agents: Seq<AgentState>) -> bool {
    forall|i: int| 0 <= i < agents.len() ==> (#[trigger] agents[i]).wf() && agents[i].id == i
}

/// Whether every agent is steerable and carries its place in the sequence
/// as its identity.
pub open spec fn flock_steerable(agents: Seq<AgentState>) -> bool {
    forall|i: int|
        0 <= i < agents.len() ==> (#[trigger] agents[i]).steerable() && agents[i].id == i
}

/// The entries that a snapshot of the flock holds: each agent's identity
/// and position, in the flock's order.
pub open spec fn census(agents: Seq<AgentState>) -> Seq<Entry> {
    Seq::new(
        agents.len(),
        |i: int|
            Entry {
                id: i as usize,
                position: Vec2 { x: agents[i].position.x as i64, y: agents[i].position.y as i64 },
            },
    )
}

/// The agents of one simulation. An agent's identity is its place in the
/// flock, so it never changes while the flock only grows.
pub struct Flock {
    pub agents: Vec<Agent>,
}

impl View for Flock {
    type V = Seq<AgentState>;

    open spec fn view(&self) -> Seq<AgentState> {
        Seq::new(self.agents@.len(), |i: int| self.agents@[i]@)
    }
}

impl Flock {
    /// Whether the flock is well formed: see [`flock_wf`].
    pub open spec fn wf(&self) -> bool {
        flock_wf(self@)
    }

    /// Whether the steering rules can take the flock: see
    /// [`flock_steerable`].
    pub open spec fn steerable(&self) -> bool {
        flock_steerable(self@)
    }

    /// A flock without agents.
    pub fn new() -> (flock: Flock)
        ensures
            flock@ == Seq::<AgentState>::empty(),
            flock.wf(),
    {
        let flock = Flock { agents: Vec::new() };
        assert(flock@ =~= Seq::<AgentState>::empty());
        flock
    }

    /// The number of agents.
    pub fn len(&self) -> (n: usize)
        ensures
            n == self@.len(),
    {
        self.agents.len()
    }

    /// Whether the flock is well formed.
    pub fn is_valid(&self) -> (b: bool)
        ensures
            b == self.wf(),
    {
        let mut i: usize = 0;
        while i < self.agents.len()
            invariant
                i <= self.agents.len(),
                forall|k: int| 0 <= k < i ==> (#[trigger] self@[k]).wf() && self@[k].id == k,
            decreases self.agents.len() - i,
        {
            if self.agents[i].id != i || !self.agents[i].is_valid() {
                assert(!(self@[i as int].wf() && self@[i as int].id == i));
                return false;
            }
            i = i + 1;
        }
        true
    }

    /// Whether the steering rules can take the flock.
    pub fn is_steerable(&self) -> (b: bool)
        ensures
            b == self.steerable(),
    {
        let mut i: usize = 0;
        while i < self.agents.len()
            invariant
                i <= self.agents.len(),
                forall|k: int|
                    0 <= k < i ==> (#[trigger] self@[k]).steerable() && self@[k].id == k,
            decreases self.agents.len() - i,
        {
            if self.agents[i].id != i || !self.agents[i].is_steerable() {
                assert(!(self@[i as int].steerable() && self@[i as int].id == i));
                return false;
            }
            i = i + 1;
        }
        true
    }

    /// Adds an agent at `position` moving at `velocity` and gives its
    /// identity: the number of agents before. Gives `None`, and adds
    /// nothing, if the position lies outside the position limit or the
    /// speed is above [`MAX_SPEED`].
    pub fn spawn(&mut self, position: Vec2, velocity: Vec2) -> (id: Option<usize>)
        requires
            old(self).wf(),
        ensures
            final(self).wf(),
            old(self).steerable() ==> final(self).steerable(),
            id is Some <==> position@.within(POSITION_LIMIT as int) && velocity@.norm_squared()
                <= MAX_SPEED_SQUARED,
            id is Some ==> id == Some(old(self).agents.len()) && final(self)@ == old(self)@.push(
                AgentState {
                    id: old(self)@.len() as int,
                    position: position@,
                    velocity: velocity@,
                    orientation: heading(velocity@, upright()),
                },
            ),
            id is None ==> final(self)@ == old(self)@,
    {
        let n: usize = self.agents.len();
        match Agent::new(n, position, velocity) {
            Some(agent) => {
                self.agents.push(agent);
                assert(self@ =~= old(self)@.push(agent@));
                Some(n)
            },
            None => None,
        }
    }

    /// The agent with the given identity, if there is one.
    pub fn agent(&self, id: usize) -> (found: Option<Agent>)
        ensures
            found is Some <==> id < self@.len(),
            found matches Some(a) ==> a@ == self@[id as int],
    {
        if id < self.agents.len() {
            Some(self.agents[id])
        } else {
            None
        }
    }

    /// Every agent's identity and position, in the flock's order: what a
    /// snapshot is built from.
    pub fn entries(&self) -> (points: Vec<Entry>)
        ensures
            points@.len() == self@.len(),
            forall|i: int|
                0 <= i < points@.len() ==> (#[trigger] points@[i]).id == self.agents@[i].id
                    && points@[i].position@ == self@[i].position,
            self.wf() ==> points@ == census(self@),
    {
        let mut points: Vec<Entry> = Vec::new();
        let mut i: usize = 0;
        while i < self.agents.len()
            invariant
                i <= self.agents.len(),
                points@.len() == i,
                forall|k: int|
                    0 <= k < i ==> (#[trigger] points@[k]).id == self.agents@[k].id
                        && points@[k].position@ == self@[k].position,
            decreases self.agents.len() - i,
        {
            let a: Agent = self.agents[i];
            points.push(Entry { id: a.id, position: a.position });
            i = i + 1;
        }
        proof {
            if self.wf() {
                assert forall|k: int| 0 <= k < points@.len() implies points@[k] == census(
                    self@,
                )[k] by {
                    assert(self@[k].wf() && self@[k].id == k);
                }
                assert(points@ =~= census(self@));
            }
        }
        points
    }

    /// Every agent's pose, in the flock's order.
    pub fn poses(&self) -> (out: Vec<Pose>)
        ensures
            out@.len() == self@.len(),
            forall|i: int|
                0 <= i < out@.len() ==> (#[trigger] out@[i]).agent_id == self.agents@[i].id
                    && out@[i].position@ == self@[i].position && out@[i].orientation@
                    == self@[i].orientation,
    {
        let mut out: Vec<Pose> = Vec::new();
        let mut i: usize = 0;
        while i < self.agents.len()
            invariant
                i <= self.agents.len(),
                out@.len() == i,
                forall|k: int|
                    0 <= k < i ==> (#[trigger] out@[k]).agent_id == self.agents@[k].id
                        && out@[k].position@ == self@[k].position && out@[k].orientation@
                        == self@[k].orientation,
            decreases self.agents.len() - i,
        {
            let a: Agent = self.agents[i];
            out.push(Pose { agent_id: a.id, position: a.position, orientation: a.orientation });
            i = i + 1;
        }
        out
    }
}

} // verus!
