//! The integrator: applies steering deltas to velocities, with friction
//! and the speed limits, then moves every agent.

use vstd::prelude::*;
use crate::agent::{
    Agent, AgentState, Flock, MAX_SPEED, MAX_SPEED_SQUARED, MIN_SPEED, MIN_SPEED_SQUARED,
    POSITION_LIMIT, VELOCITY_LIMIT, flock_wf, heading, heading_of,
};
use crate::fixed::{
    UNIT, UNIT_SQUARED, div_inward, div_toward_zero, is_floor_sqrt, lemma_floor_sqrt_is,
    lemma_square_le, magnitude,
};
use crate::steering::{DELTA_LIMIT, SteeringDelta};
use crate::vec2::{Vec2, Vector};

verus! {

/// The share of its velocity that an agent loses to friction in a second,
/// in thousandths: a tenth.
pub const FRICTION: i64 = 100;

/// The velocity after friction has acted on it for `dt` thousandths of a
/// second: `v - v * FRICTION * dt`, the loss rounded toward zero.
pub open spec fn with_friction(v: Vector, dt: int) -> Vector {
    v.minus(v.times(FRICTION * dt).over(UNIT_SQUARED as int))
}

/// The velocity brought within the speed limits: shortened to
/// [`MAX_SPEED`] if it is faster, lengthened to [`MIN_SPEED`] if it is
/// slower and not zero, and else unchanged. Zero stays zero.
pub open spec fn clamped_speed(v: Vector) -> Vector {
    if v.norm_squared() > MAX_SPEED_SQUARED {
        v.shortened_to(MAX_SPEED as nat)
    } else if v.norm_squared() < MIN_SPEED_SQUARED {
        v.lengthened_to(MIN_SPEED as nat)
    } else {
        v
    }
}

/// The velocity of an agent after a steering delta: the delta added,
/// friction applied, and the speed clamped.
pub open spec fn steered_velocity(v: Vector, delta: Vector, dt: int) -> Vector {
    clamped_speed(with_friction(v.plus(delta), dt))
}

/// The agent after a steering delta: its new velocity, and the orientation
/// that belongs to it, or the old one if the new velocity is zero.
pub open spec fn steered(a: AgentState, delta: Vector, dt: int) -> AgentState {
    let v = steered_velocity(a.velocity, delta, dt);
    AgentState {
        id: a.id,
        position: a.position,
        velocity: v,
        orientation: heading(v, a.orientation),
    }
}

/// A coordinate kept within the position limit.
pub open spec fn confined(c: int) -> int {
    if c > POSITION_LIMIT {
        POSITION_LIMIT as int
    } else if c < -POSITION_LIMIT {
        -POSITION_LIMIT
    } else {
        c
    }
}

/// The position after moving at velocity `v` for `dt` thousandths of a
/// second, the step rounded toward zero and the result kept within the
/// position limit.
pub open spec fn moved(p: Vector, v: Vector, dt: int) -> Vector {
    Vector {
        x: confined(p.x + div_toward_zero(v.x * dt, UNIT as int)),
        y: confined(p.y + div_toward_zero(v.y * dt, UNIT as int)),
    }
}

/// The agent after moving at its velocity for `dt` thousandths of a second.
pub open spec fn advanced(a: AgentState, dt: int) -> AgentState {
    AgentState {
        id: a.id,
        position: moved(a.position, a.velocity, dt),
        velocity: a.velocity,
        orientation: a.orientation,
    }
}

/// The flock after the deltas have been applied to the velocities, one
/// after the other in their order. A delta for an agent that the flock
/// does not have is dropped.
pub open spec fn steered_all(flock: Seq<AgentState>, deltas: Seq<SteeringDelta>, dt: int) -> Seq<
    AgentState,
>
    decreases deltas.len(),
{
    if deltas.len() == 0 {
        flock
    } else {
        let before = steered_all(flock, deltas.drop_last(), dt);
        let d = deltas.last();
        if d.agent_id < before.len() {
            before.update(
                d.agent_id as int,
                steered(before[d.agent_id as int], d.velocity_delta@, dt),
            )
        } else {
            before
        }
    }
}

/// The flock after every agent has moved.
pub open spec fn advanced_all(flock: Seq<AgentState>, dt: int) -> Seq<AgentState> {
    Seq::new(flock.len(), |i: int| advanced(flock[i], dt))
}

/// The flock after a tick's deltas: first every delta applied to the
/// velocities, then every agent moved at its new velocity.
pub open spec fn applied(flock: Seq<AgentState>, deltas: Seq<SteeringDelta>, dt: int) -> Seq<
    AgentState,
> {
    advanced_all(steered_all(flock, deltas, dt), dt)
}

/// Whether the speed is zero or within the limits.
pub open spec fn speed_in_bounds(v: Vector) -> bool {
    v == Vector::zero() || MIN_SPEED_SQUARED <= v.norm_squared() <= MAX_SPEED_SQUARED
}

/// After clamping, the speed is at most [`MAX_SPEED`]; it is at least
/// [`MIN_SPEED`] unless the velocity was zero, and only then is it zero. A
/// velocity that was too fast ends less than three thousandths below
/// [`MAX_SPEED`], one that was too slow less than three thousandths above
/// [`MIN_SPEED`], and each points the way the velocity did: it keeps the
/// sign of both coordinates, and its cross product with the velocity is no
/// greater than the velocity's coordinates added.
pub proof fn lemma_clamped_speed(v: Vector)
    ensures
        clamped_speed(v).norm_squared() <= MAX_SPEED_SQUARED,
        v != Vector::zero() ==> clamped_speed(v).norm_squared() >= MIN_SPEED_SQUARED,
        v == Vector::zero() <==> clamped_speed(v) == Vector::zero(),
        speed_in_bounds(clamped_speed(v)),
        v.norm_squared() > MAX_SPEED_SQUARED ==> clamped_speed(v).norm_squared() >= (MAX_SPEED
            - 3) * (MAX_SPEED - 3),
        v.norm_squared() < MIN_SPEED_SQUARED ==> clamped_speed(v).norm_squared() <= (MIN_SPEED
            + 3) * (MIN_SPEED + 3),
        v.x >= 0 ==> clamped_speed(v).x >= 0,
        v.x <= 0 ==> clamped_speed(v).x <= 0,
        v.y >= 0 ==> clamped_speed(v).y >= 0,
        v.y <= 0 ==> clamped_speed(v).y <= 0,
        magnitude(clamped_speed(v).cross(v)) <= magnitude(v.x) + magnitude(v.y),
{
    assert(v.cross(v) == 0) by (nonlinear_arith)
        requires
            v.cross(v) == v.x * v.y - v.y * v.x,
    ;
    let n = v.norm_squared();
    let r = clamped_speed(v);
    assert(v.x * v.x >= 0 && v.y * v.y >= 0) by (nonlinear_arith);
    assert(r.x * r.x >= 0 && r.y * r.y >= 0) by (nonlinear_arith);
    if r == Vector::zero() {
        assert(r.x * r.x == 0 && r.y * r.y == 0) by (nonlinear_arith)
            requires
                r.x == 0,
                r.y == 0,
        ;
    }
    if v == Vector::zero() {
        assert(v.x * v.x == 0 && v.y * v.y == 0) by (nonlinear_arith)
            requires
                v.x == 0,
                v.y == 0,
        ;
        assert(is_floor_sqrt(0, 0)) by (nonlinear_arith);
        lemma_floor_sqrt_is(0, 0);
    } else if n > MAX_SPEED_SQUARED {
        v.lemma_shortened(MAX_SPEED as nat);
    } else if n < MIN_SPEED_SQUARED {
        v.lemma_lengthened(MIN_SPEED as nat);
        lemma_square_le(magnitude(r.x), MIN_SPEED as int);
        lemma_square_le(magnitude(r.y), MIN_SPEED as int);
        assert(magnitude(r.x) * magnitude(r.x) == r.x * r.x) by (nonlinear_arith);
        assert(magnitude(r.y) * magnitude(r.y) == r.y * r.y) by (nonlinear_arith);
    } else {
    }
}

/// Whatever the delta and the time step, an agent's speed after steering is
/// zero or within the limits, and it is zero only if delta and friction
/// brought the velocity to exactly zero.
pub proof fn lemma_speed_bound(a: AgentState, delta: Vector, dt: int)
    ensures
        speed_in_bounds(steered(a, delta, dt).velocity),
        steered(a, delta, dt).velocity == Vector::zero() <==> with_friction(
            a.velocity.plus(delta),
            dt,
        ) == Vector::zero(),
{
    lemma_clamped_speed(with_friction(a.velocity.plus(delta), dt));
}

/// The velocity brought within the speed limits.
pub fn clamp_speed(v: Vec2) -> (r: Vec2)
    ensures
        r@ == clamped_speed(v@),
        speed_in_bounds(r@),
{
    proof {
        lemma_clamped_speed(v@);
    }
    let n: u128 = v.norm_squared();
    if n > MAX_SPEED_SQUARED {
        v.shortened_to(MAX_SPEED)
    } else if n < MIN_SPEED_SQUARED {
        v.lengthened_to(MIN_SPEED)
    } else {
        v
    }
}

/// One coordinate of a velocity after the delta and friction.
fn slowed(v: i64, delta: i64, dt: u16) -> (r: i64)
    requires
        -VELOCITY_LIMIT <= v <= VELOCITY_LIMIT,
        -DELTA_LIMIT <= delta <= DELTA_LIMIT,
    ensures
        r == (v + delta) - div_toward_zero((v + delta) * (FRICTION * dt), UNIT_SQUARED as int),
{
    let sum: i128 = v as i128 + delta as i128;
    let rate: i128 = 100 * (dt as i128);
    assert(-1_020_000_000_000_000_000 * 6_553_600 <= sum * rate <= 1_020_000_000_000_000_000
        * 6_553_600) by (nonlinear_arith)
        requires
            -1_020_000_000_000_000_000 <= sum <= 1_020_000_000_000_000_000,
            0 <= rate <= 6_553_600,
    ;
    let loss: i128 = div_inward(sum * rate, 1_000_000);
    (sum - loss) as i64
}

/// One coordinate of a position after a step.
fn stepped(p: i64, v: i64, dt: u16) -> (r: i64)
    requires
        -POSITION_LIMIT <= p <= POSITION_LIMIT,
        -VELOCITY_LIMIT <= v <= VELOCITY_LIMIT,
    ensures
        r == confined(p + div_toward_zero(v * dt, UNIT as int)),
        -POSITION_LIMIT <= r <= POSITION_LIMIT,
{
    let speed: i128 = v as i128;
    let time: i128 = dt as i128;
    assert(-1_000_000_000_000_000_000 * 65_536 <= speed * time <= 1_000_000_000_000_000_000
        * 65_536) by (nonlinear_arith)
        requires
            -1_000_000_000_000_000_000 <= speed <= 1_000_000_000_000_000_000,
            0 <= time <= 65_536,
    ;
    let step: i128 = div_inward(speed * time, 1000);
    let to: i128 = p as i128 + step;
    if to > POSITION_LIMIT as i128 {
        POSITION_LIMIT
    } else if to < -(POSITION_LIMIT as i128) {
        -POSITION_LIMIT
    } else {
        to as i64
    }
}

impl Agent {
    /// Applies a steering delta: adds it to the velocity, applies friction
    /// for `dt` thousandths of a second, clamps the speed, and turns the
    /// agent the way it now moves. The position stays.
    pub fn steer(&mut self, delta: Vec2, dt: u16)
        requires
            old(self)@.wf(),
            delta@.within(DELTA_LIMIT as int),
        ensures
            final(self)@ == steered(old(self)@, delta@, dt as int),
            final(self)@.wf(),
            final(self)@.steerable(),
            speed_in_bounds(final(self)@.velocity),
    {
        let slow: Vec2 = Vec2 {
            x: slowed(self.velocity.x, delta.x, dt),
            y: slowed(self.velocity.y, delta.y, dt),
        };
        assert(slow@ == with_friction(self@.velocity.plus(delta@), dt as int));
        let velocity: Vec2 = clamp_speed(slow);
        proof {
            lemma_clamped_speed(slow@);
            velocity@.lemma_coordinates_within_length(MAX_SPEED as nat);
        }
        self.orientation = heading_of(velocity, self.orientation);
        self.velocity = velocity;
    }

    /// Moves the agent at its velocity for `dt` thousandths of a second.
    pub fn advance(&mut self, dt: u16)
        requires
            old(self)@.wf(),
        ensures
            final(self)@ == advanced(old(self)@, dt as int),
            final(self)@.wf(),
            old(self)@.steerable() ==> final(self)@.steerable(),
    {
        let position: Vec2 = Vec2 {
            x: stepped(self.position.x, self.velocity.x, dt),
            y: stepped(self.position.y, self.velocity.y, dt),
        };
        self.position = position;
    }
}

/// Steering keeps a flock well formed and as long as it was.
pub proof fn lemma_steered_all(flock: Seq<AgentState>, deltas: Seq<SteeringDelta>, dt: int)
    requires
        flock_wf(flock),
    ensures
        steered_all(flock, deltas, dt).len() == flock.len(),
        forall|i: int|
            0 <= i < flock.len() ==> (#[trigger] steered_all(flock, deltas, dt)[i]).id == i
                && steered_all(flock, deltas, dt)[i].position == flock[i].position,
    decreases deltas.len(),
{
    if deltas.len() > 0 {
        lemma_steered_all(flock, deltas.drop_last(), dt);
    }
}

/// Applies a tick's deltas to the flock in place: first every delta to the
/// velocity of its agent, in the order of the deltas, then one step of
/// every agent at its new velocity. A delta for an agent that the flock
/// does not have is dropped.
pub fn apply(flock: &mut Flock, deltas: &Vec<SteeringDelta>, dt: u16)
    requires
        old(flock).wf(),
        forall|i: int| 0 <= i < deltas@.len() ==> (#[trigger] deltas@[i]).wf(),
    ensures
        final(flock)@ == applied(old(flock)@, deltas@, dt as int),
        final(flock)@.len() == old(flock)@.len(),
        final(flock).wf(),
        old(flock).steerable() ==> final(flock).steerable(),
{
    let n: usize = flock.agents.len();
    let mut i: usize = 0;
    assert(deltas@.take(0) =~= Seq::<SteeringDelta>::empty());
    while i < deltas.len()
        invariant
            i <= deltas.len(),
            n == flock.agents.len(),
            flock.wf(),
            old(flock).steerable() ==> flock.steerable(),
            forall|k: int| 0 <= k < deltas@.len() ==> (#[trigger] deltas@[k]).wf(),
            flock@ == steered_all(old(flock)@, deltas@.take(i as int), dt as int),
        decreases deltas.len() - i,
    {
        let d: SteeringDelta = deltas[i];
        let ghost before = flock@;
        proof {
            assert(deltas@.take(i + 1).drop_last() =~= deltas@.take(i as int));
            assert(deltas@.take(i + 1).last() == d);
        }
        if d.agent_id < n {
            let mut agent: Agent = flock.agents[d.agent_id];
            assert(agent@ == before[d.agent_id as int]);
            agent.steer(d.velocity_delta, dt);
            flock.agents.set(d.agent_id, agent);
            assert(flock@ =~= before.update(d.agent_id as int, agent@));
        }
        i = i + 1;
    }
    assert(deltas@.take(i as int) =~= deltas@);
    let ghost mid = flock@;
    let mut j: usize = 0;
    while j < n
        invariant
            j <= n,
            n == flock.agents.len(),
            mid.len() == n,
            flock_wf(mid),
            flock.wf(),
            old(flock).steerable() ==> flock.steerable(),
            forall|k: int| 0 <= k < j ==> (#[trigger] flock@[k]) == advanced(mid[k], dt as int),
            forall|k: int| j <= k < n ==> (#[trigger] flock@[k]) == mid[k],
        decreases n - j,
    {
        let ghost before = flock@;
        let mut agent: Agent = flock.agents[j];
        assert(agent@ == before[j as int]);
        agent.advance(dt);
        flock.agents.set(j, agent);
        assert(flock@ =~= before.update(j as int, agent@));
        j = j + 1;
    }
    assert(flock@ =~= advanced_all(mid, dt as int));
}

} // verus!
