//! What holds of the steering rules whatever the flock: stated over the
//! functions that define them, and proved.

use vstd::prelude::*;
use vstd::arithmetic::div_mod::{
    lemma_div_is_ordered, lemma_div_is_ordered_by_denominator, lemma_div_plus_one,
    lemma_fundamental_div_mod,
};
use crate::agent::{AgentState, flock_wf};
use crate::fixed::{
    UNIT, div_toward_zero, lemma_div_toward_zero, lemma_square_le, lemma_square_lt, magnitude,
};
use crate::index::{Entry, lemma_filter_none, within_radius};
use crate::integrator::{
    applied, lemma_speed_bound, lemma_steered_all, speed_in_bounds, steered, steered_all,
};
use crate::params::ParameterSet;
use crate::steering::{
    BORDER, EDGE_FLOOR, EDGE_GAIN, SteeringDelta, alignment, average, cohesion, combined,
    edge_avoidance, edge_push, in_view_cone, is_visible, neighbors, positions_of, pushes_from,
    separation, steering, sum_of, velocities_of, visible_to,
};
use crate::vec2::Vector;
use crate::world::World;

verus! {

/// After the deltas of a tick have been applied, every agent that a delta
/// was addressed to moves at a speed within the limits, or not at all.
pub proof fn lemma_steered_agents_in_bounds(
    flock: Seq<AgentState>,
    deltas: Seq<SteeringDelta>,
    dt: int,
    who: int,
)
    requires
        flock_wf(flock),
        0 <= who < flock.len(),
        exists|j: int| 0 <= j < deltas.len() && (#[trigger] deltas[j]).agent_id == who,
    ensures
        speed_in_bounds(steered_all(flock, deltas, dt)[who].velocity),
        speed_in_bounds(applied(flock, deltas, dt)[who].velocity),
    decreases deltas.len(),
{
    let j = choose|j: int| 0 <= j < deltas.len() && (#[trigger] deltas[j]).agent_id == who;
    let rest = deltas.drop_last();
    let before = steered_all(flock, rest, dt);
    lemma_steered_all(flock, rest, dt);
    lemma_steered_all(flock, deltas, dt);
    let d = deltas.last();
    if d.agent_id == who {
        lemma_speed_bound(before[who], d.velocity_delta@, dt);
    } else {
        assert(j < rest.len());
        assert(rest[j] == deltas[j]);
        lemma_steered_agents_in_bounds(flock, rest, dt, who);
    }
}

/// With one delta for each agent, as `compute` gives them, every agent of
/// the flock moves after the tick at a speed within the limits, or not at
/// all.
pub proof fn lemma_tick_speed_bound(flock: Seq<AgentState>, deltas: Seq<SteeringDelta>, dt: int)
    requires
        flock_wf(flock),
        deltas.len() == flock.len(),
        forall|i: int| 0 <= i < deltas.len() ==> (#[trigger] deltas[i]).agent_id == i,
    ensures
        applied(flock, deltas, dt).len() == flock.len(),
        forall|i: int|
            0 <= i < flock.len() ==> speed_in_bounds(
                (#[trigger] applied(flock, deltas, dt)[i]).velocity,
            ),
{
    lemma_steered_all(flock, deltas, dt);
    assert forall|i: int| 0 <= i < flock.len() implies speed_in_bounds(
        (#[trigger] applied(flock, deltas, dt)[i]).velocity,
    ) by {
        assert(deltas[i].agent_id == i);
        lemma_steered_agents_in_bounds(flock, deltas, dt, i);
    }
}

/// An agent with no other agent's entry within its view radius has no
/// neighbours: cohesion, alignment and separation are zero, and what is
/// asked of it is edge avoidance alone.
pub proof fn lemma_isolated_agent(
    me: AgentState,
    flock: Seq<AgentState>,
    snapshot: Seq<Entry>,
    params: ParameterSet,
    world: World,
    dt: int,
)
    requires
        forall|i: int|
            0 <= i < snapshot.len() ==> (#[trigger] snapshot[i]).id == me.id || !within_radius(
                snapshot[i].position@,
                me.position,
                params.view_radius as nat,
            ),
    ensures
        neighbors(me, params, snapshot) == Seq::<Entry>::empty(),
        cohesion(me.position, neighbors(me, params, snapshot)) == Vector::zero(),
        alignment(neighbors(me, params, snapshot), flock) == Vector::zero(),
        separation(me.position, neighbors(me, params, snapshot), params.view_radius as nat)
            == Vector::zero(),
        steering(me, flock, snapshot, params, world, dt) == combined(
            params,
            Vector::zero(),
            Vector::zero(),
            Vector::zero(),
            edge_avoidance(world, me.position),
            dt,
        ),
{
    lemma_filter_none(snapshot, visible_to(me, params));
    lemma_no_neighbors(me.position, flock, params.view_radius as nat);
}

/// An agent at rest has no heading and so sees nothing: what is asked of
/// it is edge avoidance alone, whoever is near.
pub proof fn lemma_agent_at_rest(
    me: AgentState,
    flock: Seq<AgentState>,
    snapshot: Seq<Entry>,
    params: ParameterSet,
    world: World,
    dt: int,
)
    requires
        me.velocity == Vector::zero(),
    ensures
        neighbors(me, params, snapshot) == Seq::<Entry>::empty(),
        steering(me, flock, snapshot, params, world, dt) == combined(
            params,
            Vector::zero(),
            Vector::zero(),
            Vector::zero(),
            edge_avoidance(world, me.position),
            dt,
        ),
{
    assert forall|i: int| 0 <= i < snapshot.len() implies !visible_to(me, params)(
        #[trigger] snapshot[i],
    ) by {
        let offset = snapshot[i].position@.minus(me.position);
        assert(me.velocity.norm_squared() == 0) by (nonlinear_arith)
            requires
                me.velocity.x == 0,
                me.velocity.y == 0,
        ;
        assert(offset.norm_squared() * me.velocity.norm_squared() == 0) by (nonlinear_arith)
            requires
                me.velocity.norm_squared() == 0,
        ;
    }
    lemma_filter_none(snapshot, visible_to(me, params));
    lemma_no_neighbors(me.position, flock, params.view_radius as nat);
}

/// Without neighbours cohesion, alignment and separation are zero.
pub proof fn lemma_no_neighbors(position: Vector, flock: Seq<AgentState>, radius: nat)
    ensures
        cohesion(position, Seq::<Entry>::empty()) == Vector::zero(),
        alignment(Seq::<Entry>::empty(), flock) == Vector::zero(),
        separation(position, Seq::<Entry>::empty(), radius) == Vector::zero(),
{
    let none = Seq::<Entry>::empty();
    reveal(Seq::filter);
    assert(positions_of(none).len() == 0);
    assert(velocities_of(none, flock).len() == 0);
    assert(pushes_from(position, none, radius).len() == 0);
}

/// The square of the scalar product and the square of the cross product of
/// two vectors add up to the product of their squared lengths.
proof fn lemma_lagrange(a: Vector, b: Vector)
    ensures
        a.dot(b) * a.dot(b) + (a.x * b.y - a.y * b.x) * (a.x * b.y - a.y * b.x)
            == a.norm_squared() * b.norm_squared(),
{
    assert(a.x * a.x >= 0 && a.y * a.y >= 0 && b.x * b.x >= 0 && b.y * b.y >= 0)
        by (nonlinear_arith);
    let ax = a.x;
    let ay = a.y;
    let bx = b.x;
    let by = b.y;
    let p = ax * bx;
    let q = ay * by;
    let r = ax * by;
    let t = ay * bx;
    assert((p + q) * (p + q) == p * p + 2 * (p * q) + q * q) by (nonlinear_arith);
    assert((r - t) * (r - t) == r * r - 2 * (r * t) + t * t) by (nonlinear_arith);
    assert(p * q == r * t) by (nonlinear_arith)
        requires
            p == ax * bx,
            q == ay * by,
            r == ax * by,
            t == ay * bx,
    ;
    assert(p * p == (ax * ax) * (bx * bx)) by (nonlinear_arith)
        requires
            p == ax * bx,
    ;
    assert(q * q == (ay * ay) * (by * by)) by (nonlinear_arith)
        requires
            q == ay * by,
    ;
    assert(r * r == (ax * ax) * (by * by)) by (nonlinear_arith)
        requires
            r == ax * by,
    ;
    assert(t * t == (ay * ay) * (bx * bx)) by (nonlinear_arith)
        requires
            t == ay * bx,
    ;
    let aa = ax * ax;
    let bb = ay * ay;
    let cc = bx * bx;
    let dd = by * by;
    assert((aa + bb) * (cc + dd) == aa * cc + aa * dd + bb * cc + bb * dd) by (nonlinear_arith);
}

/// An entry in the rear half plane of an agent, where the scalar product of
/// its offset with the agent's heading is not positive, is outside every
/// view cone of at most ninety degrees.
pub proof fn lemma_rear_half_plane_excluded(offset: Vector, heading: Vector, view_cos: int)
    requires
        view_cos >= 0,
        offset.dot(heading) <= 0,
    ensures
        !in_view_cone(offset, heading, view_cos),
{
}

/// An entry straight behind an agent, on the line of its heading and
/// against it, is outside every view cone.
pub proof fn lemma_straight_behind_excluded(offset: Vector, heading: Vector, view_cos: int)
    requires
        -1000 <= view_cos <= 1000,
        offset.x * heading.y - offset.y * heading.x == 0,
        offset.dot(heading) < 0,
    ensures
        !in_view_cone(offset, heading, view_cos),
{
    let d = offset.dot(heading);
    let n = offset.norm_squared() * heading.norm_squared();
    let cross = offset.x * heading.y - offset.y * heading.x;
    lemma_lagrange(offset, heading);
    assert(cross * cross == 0) by (nonlinear_arith)
        requires
            cross == 0,
    ;
    assert(d * d == n);
    assert(view_cos * view_cos * n <= 1_000_000 * (d * d)) by (nonlinear_arith)
        requires
            -1000 <= view_cos <= 1000,
            d * d == n,
            n >= 0,
    ;
}

/// An agent does not see an entry straight behind it, wherever within the
/// view radius it lies, and neither its own.
pub proof fn lemma_behind_is_not_seen(me: AgentState, params: ParameterSet, e: Entry)
    requires
        params.wf(),
        e.position@.minus(me.position).x * me.velocity.y - e.position@.minus(me.position).y
            * me.velocity.x == 0,
        e.position@.minus(me.position).dot(me.velocity) < 0,
    ensures
        !is_visible(me, params, e),
{
    lemma_straight_behind_excluded(
        e.position@.minus(me.position),
        me.velocity,
        params.view_angle_cos as int,
    );
}

/// An entry that an agent does not see changes none of its rules, wherever
/// in the snapshot it stands: the neighbours are the same with it and
/// without it, and so is the steering delta.
pub proof fn lemma_unseen_entry_changes_nothing(
    me: AgentState,
    flock: Seq<AgentState>,
    snapshot: Seq<Entry>,
    at: int,
    e: Entry,
    params: ParameterSet,
    world: World,
    dt: int,
)
    requires
        0 <= at <= snapshot.len(),
        !is_visible(me, params, e),
    ensures
        neighbors(me, params, snapshot.insert(at, e)) == neighbors(me, params, snapshot),
        steering(me, flock, snapshot.insert(at, e), params, world, dt) == steering(
            me,
            flock,
            snapshot,
            params,
            world,
            dt,
        ),
{
    let pred = visible_to(me, params);
    let head = snapshot.take(at);
    let tail = snapshot.skip(at);
    assert(snapshot.insert(at, e) =~= head.push(e) + tail);
    assert(snapshot =~= head + tail);
    Seq::filter_distributes_over_add(head.push(e), tail, pred);
    Seq::filter_distributes_over_add(head, tail, pred);
    head.lemma_filter_push(e, pred);
}

/// The separation from a single neighbour is the push away from it: it
/// points from the neighbour to the agent, coordinate by coordinate, it is
/// never longer than the view radius, and less than three thousandths
/// shorter unless the two stand at the same place; its cross product with
/// the offset is no greater than the offset's coordinates added.
pub proof fn lemma_separation_points_away(position: Vector, neighbor: Entry, radius: nat)
    ensures
        separation(position, seq![neighbor], radius) == position.minus(
            neighbor.position@,
        ).shortened_to(radius),
        separation(position, seq![neighbor], radius).dot(position.minus(neighbor.position@))
            >= 0,
        position.x >= neighbor.position@.x ==> separation(position, seq![neighbor], radius).x
            >= 0,
        position.x <= neighbor.position@.x ==> separation(position, seq![neighbor], radius).x
            <= 0,
        position.y >= neighbor.position@.y ==> separation(position, seq![neighbor], radius).y
            >= 0,
        position.y <= neighbor.position@.y ==> separation(position, seq![neighbor], radius).y
            <= 0,
        separation(position, seq![neighbor], radius).norm_squared() <= radius * radius,
        magnitude(
            separation(position, seq![neighbor], radius).cross(
                position.minus(neighbor.position@),
            ),
        ) <= magnitude(position.x - neighbor.position@.x) + magnitude(
            position.y - neighbor.position@.y,
        ),
        position != neighbor.position@ && 3 <= radius < 0x1_0000_0000 ==> separation(
            position,
            seq![neighbor],
            radius,
        ).norm_squared() >= (radius - 3) * (radius - 3),
{
    let away = position.minus(neighbor.position@);
    let push = away.shortened_to(radius);
    let items = pushes_from(position, seq![neighbor], radius);
    assert(items =~= seq![push]);
    assert(items.drop_last() =~= Seq::<Vector>::empty());
    assert(sum_of(items.drop_last()) == Vector::zero());
    assert(sum_of(items) == push);
    assert(average(items, Vector::zero()) == push);
    away.lemma_shortened(radius);
}

/// At [`BORDER`] or more from every edge there is no edge avoidance.
pub proof fn lemma_edge_avoidance_inactive(world: World, position: Vector)
    requires
        world.edge_distance(position) >= BORDER,
    ensures
        edge_avoidance(world, position) == Vector::zero(),
{
}

/// Nearer than [`BORDER`] to an edge, edge avoidance pulls toward the
/// center of the world: each coordinate of the pull is opposite in sign to
/// the position's and at least four times as large, so the pull is zero
/// only at the center itself.
pub proof fn lemma_edge_avoidance_active(world: World, position: Vector)
    requires
        world.edge_distance(position) < BORDER,
    ensures
        position.x >= 0 ==> edge_avoidance(world, position).x <= 0,
        position.x <= 0 ==> edge_avoidance(world, position).x >= 0,
        position.y >= 0 ==> edge_avoidance(world, position).y <= 0,
        position.y <= 0 ==> edge_avoidance(world, position).y >= 0,
        magnitude(edge_avoidance(world, position).x) >= 4 * magnitude(position.x),
        magnitude(edge_avoidance(world, position).y) >= 4 * magnitude(position.y),
        edge_avoidance(world, position) == Vector::zero() <==> position == Vector::zero(),
        edge_avoidance(world, position).dot(position) <= 0,
        position != Vector::zero() ==> edge_avoidance(world, position).dot(position) < 0,
{
    let distance = world.edge_distance(position);
    let d: int = if distance < EDGE_FLOOR {
        EDGE_FLOOR as int
    } else {
        distance
    };
    let pull = edge_avoidance(world, position);
    lemma_edge_coordinate(position.x, d);
    lemma_edge_coordinate(position.y, d);
    assert(pull.x * position.x <= 0 && (position.x != 0 ==> pull.x * position.x < 0))
        by (nonlinear_arith)
        requires
            position.x >= 0 ==> pull.x <= 0,
            position.x <= 0 ==> pull.x >= 0,
            magnitude(pull.x) >= 4 * magnitude(position.x),
    ;
    assert(pull.y * position.y <= 0 && (position.y != 0 ==> pull.y * position.y < 0))
        by (nonlinear_arith)
        requires
            position.y >= 0 ==> pull.y <= 0,
            position.y <= 0 ==> pull.y >= 0,
            magnitude(pull.y) >= 4 * magnitude(position.y),
    ;
}

/// One coordinate of the pull toward the center: opposite in sign to the
/// coordinate of the position, and at least four times as large.
proof fn lemma_edge_coordinate(c: int, d: int)
    requires
        EDGE_FLOOR <= d < BORDER,
    ensures
        magnitude(div_toward_zero(-c * (EDGE_GAIN * UNIT), d)) == (magnitude(c) * 40_000) / d,
        (magnitude(c) * 40_000) / d >= 4 * magnitude(c),
        c >= 0 ==> div_toward_zero(-c * (EDGE_GAIN * UNIT), d) <= 0,
        c <= 0 ==> div_toward_zero(-c * (EDGE_GAIN * UNIT), d) >= 0,
{
    let top: int = -c * (EDGE_GAIN * UNIT);
    let m: int = magnitude(c);
    assert(top == -c * 40_000);
    lemma_div_toward_zero(top, d);
    assert(magnitude(top) == m * 40_000);
    lemma_fundamental_div_mod(m * 40_000, d);
    let q: int = (m * 40_000) / d;
    assert(q >= 4 * m) by (nonlinear_arith)
        requires
            m * 40_000 == d * q + (m * 40_000) % d,
            0 <= (m * 40_000) % d < d,
            0 < d <= 10_000,
            m >= 0,
    ;
}

/// The nearer the edge, the stronger the pull toward the center: for one
/// position, no coordinate of the pull at the smaller distance is smaller
/// than at the greater.
pub proof fn lemma_edge_push_grows(position: Vector, nearer: int, further: int)
    requires
        nearer <= further < BORDER,
    ensures
        magnitude(edge_push(position, nearer).x) >= magnitude(edge_push(position, further).x),
        magnitude(edge_push(position, nearer).y) >= magnitude(edge_push(position, further).y),
        edge_push(position, nearer).norm_squared() >= edge_push(position, further).norm_squared(),
{
    let d1: int = if nearer < EDGE_FLOOR {
        EDGE_FLOOR as int
    } else {
        nearer
    };
    let d2: int = if further < EDGE_FLOOR {
        EDGE_FLOOR as int
    } else {
        further
    };
    lemma_edge_coordinate(position.x, d1);
    lemma_edge_coordinate(position.x, d2);
    lemma_edge_coordinate(position.y, d1);
    lemma_edge_coordinate(position.y, d2);
    let mx: int = magnitude(position.x) * 40_000;
    let my: int = magnitude(position.y) * 40_000;
    lemma_div_is_ordered_by_denominator(mx, d1, d2);
    lemma_div_is_ordered_by_denominator(my, d1, d2);
    let a = edge_push(position, nearer);
    let b = edge_push(position, further);
    lemma_square_le(magnitude(b.x), magnitude(a.x));
    lemma_square_le(magnitude(b.y), magnitude(a.y));
    assert(magnitude(a.x) * magnitude(a.x) == a.x * a.x && magnitude(a.y) * magnitude(a.y)
        == a.y * a.y && magnitude(b.x) * magnitude(b.x) == b.x * b.x && magnitude(b.y)
        * magnitude(b.y) == b.y * b.y) by (nonlinear_arith);
}

/// One coordinate of the pull is no smaller for a coordinate that is no
/// smaller and a distance that is no greater, and greater for a greater
/// coordinate.
proof fn lemma_pull_grows(inner: int, outer: int, further: int, nearer: int)
    requires
        0 <= inner <= outer,
        EDGE_FLOOR <= nearer <= further < BORDER,
    ensures
        (outer * 40_000) / nearer >= (inner * 40_000) / further,
        outer > inner ==> (outer * 40_000) / nearer > (inner * 40_000) / further,
{
    let low: int = inner * 40_000;
    let high: int = outer * 40_000;
    lemma_div_is_ordered(low, high, further);
    lemma_div_is_ordered_by_denominator(high, nearer, further);
    if outer > inner {
        lemma_div_is_ordered(further + low, high, further);
        lemma_div_plus_one(low, further);
    }
}

/// In one world, of two agents within [`BORDER`] of an edge, the one that
/// is nearer to the edge and no nearer to the center in either coordinate
/// is pulled strictly harder toward the center.
pub proof fn lemma_edge_avoidance_grows_outward(world: World, inner: Vector, outer: Vector)
    requires
        magnitude(outer.x) >= magnitude(inner.x),
        magnitude(outer.y) >= magnitude(inner.y),
        world.edge_distance(outer) < world.edge_distance(inner) < BORDER,
    ensures
        magnitude(edge_avoidance(world, outer).x) >= magnitude(edge_avoidance(world, inner).x),
        magnitude(edge_avoidance(world, outer).y) >= magnitude(edge_avoidance(world, inner).y),
        edge_avoidance(world, outer).norm_squared() > edge_avoidance(
            world,
            inner,
        ).norm_squared(),
{
    let far: int = world.edge_distance(inner);
    let near: int = world.edge_distance(outer);
    let d1: int = if far < EDGE_FLOOR {
        EDGE_FLOOR as int
    } else {
        far
    };
    let d2: int = if near < EDGE_FLOOR {
        EDGE_FLOOR as int
    } else {
        near
    };
    let a = edge_avoidance(world, outer);
    let b = edge_avoidance(world, inner);
    lemma_edge_coordinate(outer.x, d2);
    lemma_edge_coordinate(outer.y, d2);
    lemma_edge_coordinate(inner.x, d1);
    lemma_edge_coordinate(inner.y, d1);
    lemma_pull_grows(magnitude(inner.x), magnitude(outer.x), d1, d2);
    lemma_pull_grows(magnitude(inner.y), magnitude(outer.y), d1, d2);
    assert(magnitude(a.x) * magnitude(a.x) == a.x * a.x && magnitude(a.y) * magnitude(a.y)
        == a.y * a.y && magnitude(b.x) * magnitude(b.x) == b.x * b.x && magnitude(b.y)
        * magnitude(b.y) == b.y * b.y) by (nonlinear_arith);
    lemma_square_le(magnitude(b.x), magnitude(a.x));
    lemma_square_le(magnitude(b.y), magnitude(a.y));
    if near == world.half_width() - magnitude(outer.x) {
        assert(magnitude(outer.x) > magnitude(inner.x));
        lemma_square_lt(magnitude(b.x), magnitude(a.x));
    } else {
        assert(magnitude(outer.y) > magnitude(inner.y));
        lemma_square_lt(magnitude(b.y), magnitude(a.y));
    }
}

/// Applying one run of deltas and then another is applying the two runs
/// joined.
pub proof fn lemma_steered_all_joined(
    flock: Seq<AgentState>,
    first: Seq<SteeringDelta>,
    second: Seq<SteeringDelta>,
    dt: int,
)
    ensures
        steered_all(flock, first + second, dt) == steered_all(
            steered_all(flock, first, dt),
            second,
            dt,
        ),
    decreases second.len(),
{
    if second.len() == 0 {
        assert(first + second =~= first);
    } else {
        assert((first + second).drop_last() =~= first + second.drop_last());
        assert((first + second).last() == second.last());
        lemma_steered_all_joined(flock, first, second.drop_last(), dt);
    }
}

/// The order in which the deltas of two different agents are applied makes
/// no difference: with two deltas next to each other exchanged, the flock
/// after the tick is the same.
pub proof fn lemma_order_among_agents_is_free(
    flock: Seq<AgentState>,
    deltas: Seq<SteeringDelta>,
    at: int,
    dt: int,
)
    requires
        0 <= at,
        at + 1 < deltas.len(),
        deltas[at].agent_id != deltas[at + 1].agent_id,
    ensures
        applied(flock, deltas.update(at, deltas[at + 1]).update(at + 1, deltas[at]), dt)
            == applied(flock, deltas, dt),
{
    let x = deltas[at];
    let y = deltas[at + 1];
    let exchanged = deltas.update(at, y).update(at + 1, x);
    let head = deltas.take(at);
    let tail = deltas.skip(at + 2);
    let mid = steered_all(flock, head, dt);
    assert(deltas =~= (head + seq![x, y]) + tail);
    assert(exchanged =~= (head + seq![y, x]) + tail);
    lemma_steered_all_joined(flock, head + seq![x, y], tail, dt);
    lemma_steered_all_joined(flock, head + seq![y, x], tail, dt);
    lemma_steered_all_joined(flock, head, seq![x, y], dt);
    lemma_steered_all_joined(flock, head, seq![y, x], dt);
    assert(steered_all(mid, seq![x, y], dt) =~= steered_all(mid, seq![y, x], dt)) by {
        assert(seq![x, y] =~= seq![x] + seq![y]);
        assert(seq![y, x] =~= seq![y] + seq![x]);
        lemma_steered_all_joined(mid, seq![x], seq![y], dt);
        lemma_steered_all_joined(mid, seq![y], seq![x], dt);
        lemma_one_delta(mid, x, dt);
        lemma_one_delta(mid, y, dt);
        lemma_one_delta(steered_all(mid, seq![x], dt), y, dt);
        lemma_one_delta(steered_all(mid, seq![y], dt), x, dt);
    }
}

/// With no two deltas for one agent, every agent that has a delta is
/// steered by it from its state before the tick, wherever the delta stands
/// among the others, and every agent that has none stays as it was.
pub proof fn lemma_distinct_deltas(
    flock: Seq<AgentState>,
    deltas: Seq<SteeringDelta>,
    dt: int,
    who: int,
)
    requires
        0 <= who < flock.len(),
        forall|j: int, k: int|
            #![trigger deltas[j], deltas[k]]
            0 <= j < k < deltas.len() ==> deltas[j].agent_id != deltas[k].agent_id,
    ensures
        steered_all(flock, deltas, dt).len() == flock.len(),
        (forall|j: int| 0 <= j < deltas.len() ==> (#[trigger] deltas[j]).agent_id != who)
            ==> steered_all(flock, deltas, dt)[who] == flock[who],
        forall|j: int|
            0 <= j < deltas.len() && (#[trigger] deltas[j]).agent_id == who ==> steered_all(
                flock,
                deltas,
                dt,
            )[who] == steered(flock[who], deltas[j].velocity_delta@, dt),
    decreases deltas.len(),
{
    if deltas.len() > 0 {
        let rest = deltas.drop_last();
        let last = deltas.last();
        assert(last == deltas[deltas.len() - 1]);
        assert forall|j: int, k: int|
            #![trigger rest[j], rest[k]]
            0 <= j < k < rest.len() implies rest[j].agent_id != rest[k].agent_id by {
            assert(rest[j] == deltas[j] && rest[k] == deltas[k]);
        }
        lemma_distinct_deltas(flock, rest, dt, who);
        if last.agent_id == who {
            assert forall|j: int| 0 <= j < rest.len() implies (#[trigger] rest[j]).agent_id
                != who by {
                assert(rest[j] == deltas[j]);
            }
            assert forall|j: int|
                0 <= j < deltas.len() && (#[trigger] deltas[j]).agent_id == who implies j
                == deltas.len() - 1 by {
                if j < deltas.len() - 1 {
                    assert(deltas[j].agent_id != deltas[deltas.len() - 1].agent_id);
                }
            }
        } else {
            assert forall|j: int|
                0 <= j < deltas.len() && (#[trigger] deltas[j]).agent_id == who implies rest[j]
                == deltas[j] && j < rest.len() by {}
            if forall|j: int| 0 <= j < deltas.len() ==> (#[trigger] deltas[j]).agent_id != who {
                assert forall|j: int| 0 <= j < rest.len() implies (#[trigger] rest[j]).agent_id
                    != who by {
                    assert(rest[j] == deltas[j]);
                }
            }
        }
    }
}

/// The order in which the deltas of a tick are applied makes no
/// difference: with one delta for each agent, as `compute` gives them, the
/// flock after the tick is the same for every rearrangement of the deltas.
pub proof fn lemma_any_order_of_deltas(
    flock: Seq<AgentState>,
    deltas: Seq<SteeringDelta>,
    shuffled: Seq<SteeringDelta>,
    dt: int,
)
    requires
        deltas.len() == flock.len(),
        forall|i: int| 0 <= i < deltas.len() ==> (#[trigger] deltas[i]).agent_id == i,
        shuffled.to_multiset() == deltas.to_multiset(),
    ensures
        steered_all(flock, shuffled, dt) == steered_all(flock, deltas, dt),
        applied(flock, shuffled, dt) == applied(flock, deltas, dt),
{
    broadcast use vstd::seq_lib::to_multiset_contains;

    assert(deltas.no_duplicates()) by {
        assert forall|i: int, j: int|
            0 <= i < deltas.len() && 0 <= j < deltas.len() && i != j implies deltas[i]
            != deltas[j] by {
            assert(deltas[i].agent_id == i && deltas[j].agent_id == j);
        }
    }
    deltas.lemma_multiset_has_no_duplicates();
    shuffled.lemma_multiset_has_no_duplicates_conv();
    // every rearranged delta is the delta of the agent that it names
    assert forall|j: int| 0 <= j < shuffled.len() implies 0 <= (#[trigger] shuffled[j]).agent_id
        < deltas.len() && deltas[shuffled[j].agent_id as int] == shuffled[j] by {
        assert(shuffled.contains(shuffled[j]));
        assert(deltas.to_multiset().count(shuffled[j]) > 0);
        assert(deltas.contains(shuffled[j]));
        let m = choose|m: int| 0 <= m < deltas.len() && deltas[m] == shuffled[j];
        assert(deltas[m].agent_id == m);
    }
    assert forall|j: int, k: int|
        #![trigger shuffled[j], shuffled[k]]
        0 <= j < k < shuffled.len() implies shuffled[j].agent_id != shuffled[k].agent_id by {
        if shuffled[j].agent_id == shuffled[k].agent_id {
            assert(deltas[shuffled[j].agent_id as int] == shuffled[j]);
            assert(deltas[shuffled[k].agent_id as int] == shuffled[k]);
            assert(shuffled[j] == shuffled[k]);
        }
    }
    assert forall|j: int, k: int|
        #![trigger deltas[j], deltas[k]]
        0 <= j < k < deltas.len() implies deltas[j].agent_id != deltas[k].agent_id by {
        assert(deltas[j].agent_id == j && deltas[k].agent_id == k);
    }
    let one = steered_all(flock, shuffled, dt);
    let other = steered_all(flock, deltas, dt);
    lemma_steered_all_len(flock, shuffled, dt);
    lemma_steered_all_len(flock, deltas, dt);
    assert forall|who: int| 0 <= who < flock.len() implies one[who] == other[who] by {
        lemma_distinct_deltas(flock, shuffled, dt, who);
        lemma_distinct_deltas(flock, deltas, dt, who);
        assert(deltas.contains(deltas[who]));
        assert(shuffled.to_multiset().count(deltas[who]) > 0);
        assert(shuffled.contains(deltas[who]));
        let j = choose|j: int| 0 <= j < shuffled.len() && shuffled[j] == deltas[who];
        assert(shuffled[j].agent_id == who);
        assert(deltas[who].agent_id == who);
    }
    assert(one =~= other);
}

/// Applying deltas leaves the flock as long as it was.
pub proof fn lemma_steered_all_len(flock: Seq<AgentState>, deltas: Seq<SteeringDelta>, dt: int)
    ensures
        steered_all(flock, deltas, dt).len() == flock.len(),
    decreases deltas.len(),
{
    if deltas.len() > 0 {
        lemma_steered_all_len(flock, deltas.drop_last(), dt);
    }
}

/// What one delta does to a flock.
proof fn lemma_one_delta(flock: Seq<AgentState>, x: SteeringDelta, dt: int)
    ensures
        steered_all(flock, seq![x], dt) == if x.agent_id < flock.len() {
            flock.update(
                x.agent_id as int,
                steered(flock[x.agent_id as int], x.velocity_delta@, dt),
            )
        } else {
            flock
        },
{
    assert(seq![x].drop_last() =~= Seq::<SteeringDelta>::empty());
    assert(seq![x].last() == x);
    assert(steered_all(flock, seq![x].drop_last(), dt) == flock);
}

} // verus!
