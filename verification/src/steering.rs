//! The steering rules: what each agent sees, and the change of velocity
//! that cohesion, alignment, separation and edge avoidance ask of it.

use vstd::prelude::*;
use vstd::arithmetic::div_mod::lemma_fundamental_div_mod;
use crate::agent::{Agent, AgentState, Flock, HEADING_LIMIT, POSITION_LIMIT};
use crate::fixed::{UNIT, UNIT_SQUARED, div_inward, div_toward_zero, magnitude};
use crate::index::{Entry, SpatialIndex, in_range_of, is_within, lemma_within_radius_offset, within_radius};
use crate::params::ParameterSet;
use crate::vec2::{Vec2, Vector};
use crate::world::World;

verus! {

/// Edge avoidance acts on an agent nearer than this to the nearest edge:
/// ten units.
pub const BORDER: i64 = 10_000;

/// The least distance by which edge avoidance divides: a hundredth of a
/// unit.
pub const EDGE_FLOOR: i64 = 10;

/// The factor by which edge avoidance outweighs the other rules.
pub const EDGE_GAIN: i64 = 40;

/// No coordinate of an edge-avoidance vector exceeds this.
pub const EDGE_LIMIT: i64 = 4_000_000_000_000;

/// No coordinate of a steering delta exceeds this.
pub const DELTA_LIMIT: i64 = 20_000_000_000_000_000;

/// The change of velocity that the rules ask of one agent in one tick.
#[derive(Clone, Copy, Debug, PartialEq, Eq, Structural)]
pub struct SteeringDelta {
    pub agent_id: usize,
    pub velocity_delta: Vec2,
}

impl SteeringDelta {
    /// Whether the change lies within [`DELTA_LIMIT`].
    pub open spec fn wf(self) -> bool {
        self.velocity_delta@.within(DELTA_LIMIT as int)
    }

    /// A record for the agent `agent_id`: `None` if a coordinate of the
    /// change lies beyond [`DELTA_LIMIT`].
    pub fn new(agent_id: usize, velocity_delta: Vec2) -> (made: Option<SteeringDelta>)
        ensures
            made is Some <==> velocity_delta@.within(DELTA_LIMIT as int),
            made matches Some(d) ==> d.agent_id == agent_id && d.velocity_delta == velocity_delta
                && d.wf(),
    {
        if velocity_delta.fits(DELTA_LIMIT) {
            Some(SteeringDelta { agent_id, velocity_delta })
        } else {
            None
        }
    }
}

/// Whether the angle between `offset` and `heading` is less than the view
/// angle whose cosine is `view_cos` thousandths: whether
/// `offset . heading / (|offset| |heading|) > view_cos / 1000`, decided
/// without a square root. A vector of length zero makes no angle and is
/// never in the cone; an angle equal to the view angle is outside it.
pub open spec fn in_view_cone(offset: Vector, heading: Vector, view_cos: int) -> bool {
    let d = offset.dot(heading);
    let n = offset.norm_squared() * heading.norm_squared();
    n > 0 && if view_cos >= 0 {
        d > 0 && UNIT_SQUARED * (d * d) > view_cos * view_cos * n
    } else {
        d >= 0 || UNIT_SQUARED * (d * d) < view_cos * view_cos * n
    }
}

/// Whether the agent `me` sees the entry `e`: it is another agent's, within
/// the view radius, and inside the view cone around the agent's velocity.
pub open spec fn is_visible(me: AgentState, params: ParameterSet, e: Entry) -> bool {
    &&& e.id != me.id
    &&& within_radius(e.position@, me.position, params.view_radius as nat)
    &&& in_view_cone(e.position@.minus(me.position), me.velocity, params.view_angle_cos as int)
}

/// The entries that `me` sees.
pub open spec fn visible_to(me: AgentState, params: ParameterSet) -> spec_fn(Entry) -> bool {
    |e: Entry| is_visible(me, params, e)
}

/// The neighbours of `me` in a snapshot: the entries that it sees, in the
/// snapshot's order.
pub open spec fn neighbors(me: AgentState, params: ParameterSet, snapshot: Seq<Entry>) -> Seq<
    Entry,
> {
    snapshot.filter(visible_to(me, params))
}

/// The sum of the vectors.
pub open spec fn sum_of(items: Seq<Vector>) -> Vector
    decreases items.len(),
{
    if items.len() == 0 {
        Vector::zero()
    } else {
        sum_of(items.drop_last()).plus(items.last())
    }
}

/// The average of the vectors, each coordinate rounded toward zero, or
/// `default` where there is none.
pub open spec fn average(items: Seq<Vector>, default: Vector) -> Vector {
    if items.len() == 0 {
        default
    } else {
        sum_of(items).over(items.len() as int)
    }
}

/// The positions of the entries.
pub open spec fn positions_of(entries: Seq<Entry>) -> Seq<Vector> {
    entries.map_values(|e: Entry| e.position@)
}

/// What the machine vectors stand for.
pub open spec fn views(items: Seq<Vec2>) -> Seq<Vector> {
    items.map_values(|v: Vec2| v@)
}

/// Cohesion: from `position` to the average position of the neighbours, and
/// zero where there are none.
pub open spec fn cohesion(position: Vector, neighbors: Seq<Entry>) -> Vector {
    average(positions_of(neighbors), position).minus(position)
}

/// The entries whose agent is in the flock.
pub open spec fn known_to(flock: Seq<AgentState>) -> spec_fn(Entry) -> bool {
    |e: Entry| e.id < flock.len()
}

/// The velocities, as the flock has them now, of those entries whose agent
/// is in the flock.
pub open spec fn velocities_of(entries: Seq<Entry>, flock: Seq<AgentState>) -> Seq<Vector> {
    entries.filter(known_to(flock)).map_values(|e: Entry| flock[e.id as int].velocity)
}

/// Alignment: the average velocity of the neighbours, and zero where there
/// are none.
pub open spec fn alignment(neighbors: Seq<Entry>, flock: Seq<AgentState>) -> Vector {
    average(velocities_of(neighbors, flock), Vector::zero())
}

/// For each entry, the vector that points from it to `position`, at a
/// length of at most `radius`.
pub open spec fn pushes_from(position: Vector, entries: Seq<Entry>, radius: nat) -> Seq<Vector> {
    entries.map_values(|e: Entry| position.minus(e.position@).shortened_to(radius))
}

/// Separation: the average of the pushes away from the neighbours, and zero
/// where there are none.
pub open spec fn separation(position: Vector, neighbors: Seq<Entry>, radius: nat) -> Vector {
    average(pushes_from(position, neighbors, radius), Vector::zero())
}

/// The pull toward the center of the world on an agent at `position` whose
/// nearest edge is `distance` away: the vector from the position to the
/// center, times [`EDGE_GAIN`], divided by the distance or by
/// [`EDGE_FLOOR`] if that is more.
pub open spec fn edge_push(position: Vector, distance: int) -> Vector {
    let d = if distance < EDGE_FLOOR {
        EDGE_FLOOR as int
    } else {
        distance
    };
    Vector {
        x: div_toward_zero(-position.x * (EDGE_GAIN * UNIT), d),
        y: div_toward_zero(-position.y * (EDGE_GAIN * UNIT), d),
    }
}

/// Edge avoidance: the pull toward the center within [`BORDER`] of an edge,
/// and zero elsewhere.
pub open spec fn edge_avoidance(world: World, position: Vector) -> Vector {
    let d = world.edge_distance(position);
    if d < BORDER {
        edge_push(position, d)
    } else {
        Vector::zero()
    }
}

/// The four rules weighted, added, and multiplied by the time step.
pub open spec fn combined(
    params: ParameterSet,
    cohesion: Vector,
    alignment: Vector,
    separation: Vector,
    edge: Vector,
    dt: int,
) -> Vector {
    cohesion.times(params.cohesion_weight as int).plus(
        alignment.times(params.alignment_weight as int),
    ).plus(separation.times(params.separation_weight as int)).plus(
        edge.times(params.edge_avoid_weight as int),
    ).times(dt).over(UNIT_SQUARED as int)
}

/// The change of velocity that the rules ask of `me` in a tick of `dt`
/// thousandths of a second, given the flock and a snapshot of positions.
pub open spec fn steering(
    me: AgentState,
    flock: Seq<AgentState>,
    snapshot: Seq<Entry>,
    params: ParameterSet,
    world: World,
    dt: int,
) -> Vector {
    let seen = neighbors(me, params, snapshot);
    combined(
        params,
        cohesion(me.position, seen),
        alignment(seen, flock),
        separation(me.position, seen, params.view_radius as nat),
        edge_avoidance(world, me.position),
        dt,
    )
}

/// Adding a vector to a sequence adds it to the sum.
pub proof fn lemma_sum_push(items: Seq<Vector>, v: Vector)
    ensures
        sum_of(items.push(v)) == sum_of(items).plus(v),
{
    assert(items.push(v).drop_last() =~= items);
}

/// A quotient rounded toward zero lies between any two integers that the
/// exact quotient lies between.
pub proof fn lemma_quotient_between(sum: int, k: int, lo: int, hi: int)
    requires
        k > 0,
        k * lo <= sum <= k * hi,
    ensures
        lo <= div_toward_zero(sum, k) <= hi,
{
    if sum >= 0 {
        let q: int = sum / k;
        lemma_fundamental_div_mod(sum, k);
        assert(lo <= q <= hi) by (nonlinear_arith)
            requires
                sum == k * q + sum % k,
                0 <= sum % k < k,
                k * lo <= sum <= k * hi,
                k > 0,
                sum >= 0,
        ;
    } else {
        let q: int = (-sum) / k;
        lemma_fundamental_div_mod(-sum, k);
        assert(lo <= -q <= hi) by (nonlinear_arith)
            requires
                -sum == k * q + (-sum) % k,
                0 <= (-sum) % k < k,
                k * lo <= sum <= k * hi,
                k > 0,
                sum < 0,
        ;
    }
}

/// The sum of vectors that each lie between `lo` and `hi`, coordinate by
/// coordinate, lies between as many times `lo` and as many times `hi`.
pub proof fn lemma_sum_between(items: Seq<Vector>, lo: Vector, hi: Vector)
    requires
        forall|i: int| 0 <= i < items.len() ==> (#[trigger] items[i]).between(lo, hi),
    ensures
        items.len() * lo.x <= sum_of(items).x <= items.len() * hi.x,
        items.len() * lo.y <= sum_of(items).y <= items.len() * hi.y,
    decreases items.len(),
{
    let k: int = items.len() as int;
    if k == 0 {
        assert(0 * lo.x == 0 && 0 * hi.x == 0 && 0 * lo.y == 0 && 0 * hi.y == 0)
            by (nonlinear_arith);
    } else {
        let rest = items.drop_last();
        assert forall|i: int| 0 <= i < rest.len() implies (#[trigger] rest[i]).between(
            lo,
            hi,
        ) by {
            assert(rest[i] == items[i]);
        }
        lemma_sum_between(rest, lo, hi);
        let last = items.last();
        assert(last == items[k - 1]);
        assert(last.between(lo, hi));
        assert(k * lo.x == (k - 1) * lo.x + lo.x) by (nonlinear_arith);
        assert(k * hi.x == (k - 1) * hi.x + hi.x) by (nonlinear_arith);
        assert(k * lo.y == (k - 1) * lo.y + lo.y) by (nonlinear_arith);
        assert(k * hi.y == (k - 1) * hi.y + hi.y) by (nonlinear_arith);
    }
}

/// The average of vectors that each lie between `lo` and `hi`, coordinate
/// by coordinate, lies between them, if the default does.
pub proof fn lemma_average_between(items: Seq<Vector>, default: Vector, lo: Vector, hi: Vector)
    requires
        default.between(lo, hi),
        forall|i: int| 0 <= i < items.len() ==> (#[trigger] items[i]).between(lo, hi),
    ensures
        average(items, default).between(lo, hi),
{
    if items.len() > 0 {
        lemma_sum_between(items, lo, hi);
        lemma_quotient_between(sum_of(items).x, items.len() as int, lo.x, hi.x);
        lemma_quotient_between(sum_of(items).y, items.len() as int, lo.y, hi.y);
    }
}

/// Filtering by a condition and then by a stronger one is filtering by the
/// stronger one.
pub proof fn lemma_filter_refines(
    s: Seq<Entry>,
    wide: spec_fn(Entry) -> bool,
    narrow: spec_fn(Entry) -> bool,
)
    requires
        forall|i: int| 0 <= i < s.len() && narrow(#[trigger] s[i]) ==> wide(s[i]),
    ensures
        s.filter(wide).filter(narrow) == s.filter(narrow),
    decreases s.len(),
{
    reveal(Seq::filter);
    if s.len() > 0 {
        let rest = s.drop_last();
        assert forall|i: int| 0 <= i < rest.len() && narrow(#[trigger] rest[i]) implies wide(
            rest[i],
        ) by {
            assert(rest[i] == s[i]);
        }
        lemma_filter_refines(rest, wide, narrow);
        assert(s.last() == s[s.len() - 1]);
        if wide(s.last()) {
            rest.filter(wide).lemma_filter_push(s.last(), narrow);
        }
    }
}

/// Whether the angle between `offset` and `heading` is less than the view
/// angle whose cosine is `view_cos` thousandths.
pub fn in_cone(offset: Vec2, heading: Vec2, view_cos: i16) -> (b: bool)
    requires
        offset@.within(0xffff_ffff),
        heading@.within(HEADING_LIMIT as int),
        -1000 <= view_cos <= 1000,
    ensures
        b == in_view_cone(offset@, heading@, view_cos as int),
{
    let ox: i128 = offset.x as i128;
    let oy: i128 = offset.y as i128;
    let hx: i128 = heading.x as i128;
    let hy: i128 = heading.y as i128;
    assert(-4_294_967_296_000_000 <= ox * hx <= 4_294_967_296_000_000) by (nonlinear_arith)
        requires
            -0x1_0000_0000 <= ox <= 0x1_0000_0000,
            -1_000_000 <= hx <= 1_000_000,
    ;
    assert(-4_294_967_296_000_000 <= oy * hy <= 4_294_967_296_000_000) by (nonlinear_arith)
        requires
            -0x1_0000_0000 <= oy <= 0x1_0000_0000,
            -1_000_000 <= hy <= 1_000_000,
    ;
    assert(0 <= ox * ox <= 0x1_0000_0000 * 0x1_0000_0000) by (nonlinear_arith)
        requires
            -0x1_0000_0000 <= ox <= 0x1_0000_0000,
    ;
    assert(0 <= oy * oy <= 0x1_0000_0000 * 0x1_0000_0000) by (nonlinear_arith)
        requires
            -0x1_0000_0000 <= oy <= 0x1_0000_0000,
    ;
    assert(0 <= hx * hx <= 1_000_000_000_000) by (nonlinear_arith)
        requires
            -1_000_000 <= hx <= 1_000_000,
    ;
    assert(0 <= hy * hy <= 1_000_000_000_000) by (nonlinear_arith)
        requires
            -1_000_000 <= hy <= 1_000_000,
    ;
    let d: i128 = ox * hx + oy * hy;
    let on: i128 = ox * ox + oy * oy;
    let hn: i128 = hx * hx + hy * hy;
    assert(0 <= on * hn <= 73_786_976_294_838_206_464_000_000_000_000) by (nonlinear_arith)
        requires
            0 <= on <= 36_893_488_147_419_103_232,
            0 <= hn <= 2_000_000_000_000,
    ;
    let n: i128 = on * hn;
    if n == 0 {
        return false;
    }
    let c: i128 = view_cos as i128;
    assert(0 <= c * c <= 1_000_000) by (nonlinear_arith)
        requires
            -1000 <= c <= 1000,
    ;
    let c2: i128 = c * c;
    assert(0 <= d * d <= 73_786_976_294_838_206_464_000_000_000_000) by (nonlinear_arith)
        requires
            -8_589_934_592_000_000 <= d <= 8_589_934_592_000_000,
    ;
    let dd: i128 = d * d;
    assert(0 <= c2 * n <= 73_786_976_294_838_206_464_000_000_000_000_000_000)
        by (nonlinear_arith)
        requires
            0 <= c2 <= 1_000_000,
            0 <= n <= 73_786_976_294_838_206_464_000_000_000_000,
    ;
    let lhs: i128 = 1_000_000 * dd;
    let rhs: i128 = c2 * n;
    if view_cos >= 0 {
        d > 0 && lhs > rhs
    } else {
        d >= 0 || lhs < rhs
    }
}

/// The entries among `candidates` that `me` sees, in their order.
pub fn visible_neighbors(me: &Agent, params: &ParameterSet, candidates: &Vec<Entry>) -> (seen: Vec<
    Entry,
>)
    requires
        me@.steerable(),
        params.wf(),
    ensures
        seen@ == neighbors(me@, *params, candidates@),
{
    let ghost pred = visible_to(me@, *params);
    let mut seen: Vec<Entry> = Vec::new();
    let mut i: usize = 0;
    proof {
        assert(candidates@.take(0) =~= Seq::<Entry>::empty());
        reveal(Seq::filter);
    }
    while i < candidates.len()
        invariant
            i <= candidates.len(),
            pred == visible_to(me@, *params),
            seen@ == candidates@.take(i as int).filter(pred),
            me@.velocity.within(HEADING_LIMIT as int),
            params.wf(),
        decreases candidates.len() - i,
    {
        let e: Entry = candidates[i];
        proof {
            candidates@.take(i as int).lemma_filter_push(e, pred);
            assert(candidates@.take(i + 1) =~= candidates@.take(i as int).push(e));
        }
        if e.id != me.id && is_within(e.position, me.position, params.view_radius) {
            proof {
                lemma_within_radius_offset(e.position@, me.position@, params.view_radius as nat);
            }
            let dx: i128 = e.position.x as i128 - me.position.x as i128;
            let dy: i128 = e.position.y as i128 - me.position.y as i128;
            let offset: Vec2 = Vec2 { x: dx as i64, y: dy as i64 };
            assert(offset@ == e.position@.minus(me.position@));
            if in_cone(offset, me.velocity, params.view_angle_cos) {
                seen.push(e);
            }
        }
        i = i + 1;
    }
    assert(candidates@.take(i as int) =~= candidates@);
    seen
}

/// The average of the vectors, each coordinate rounded toward zero, or
/// `default` where there is none.
pub fn average_of(items: &Vec<Vec2>, default: Vec2) -> (r: Vec2)
    ensures
        r@ == average(views(items@), default@),
{
    let n: usize = items.len();
    if n == 0 {
        return default;
    }
    let ghost vs = views(items@);
    let ghost lo = Vector { x: i64::MIN as int, y: i64::MIN as int };
    let ghost hi = Vector { x: i64::MAX as int, y: i64::MAX as int };
    let mut sx: i128 = 0;
    let mut sy: i128 = 0;
    let mut i: usize = 0;
    while i < n
        invariant
            i <= n,
            n == items.len(),
            vs == views(items@),
            lo == (Vector { x: i64::MIN as int, y: i64::MIN as int }),
            hi == (Vector { x: i64::MAX as int, y: i64::MAX as int }),
            sx == sum_of(vs.take(i as int)).x,
            sy == sum_of(vs.take(i as int)).y,
        decreases n - i,
    {
        proof {
            assert(vs.take(i + 1) =~= vs.take(i as int).push(vs[i as int]));
            lemma_sum_push(vs.take(i as int), vs[i as int]);
            lemma_sum_between(vs.take(i + 1), lo, hi);
        }
        sx = sx + items[i].x as i128;
        sy = sy + items[i].y as i128;
        i = i + 1;
    }
    proof {
        assert(vs.take(n as int) =~= vs);
        lemma_sum_between(vs, lo, hi);
        lemma_quotient_between(sx as int, n as int, lo.x, hi.x);
        lemma_quotient_between(sy as int, n as int, lo.y, hi.y);
    }
    let k: i128 = n as i128;
    Vec2 { x: (sx / k) as i64, y: (sy / k) as i64 }
}

/// Cohesion: from `position` to the average position of the entries seen.
pub fn cohesion_of(position: Vec2, seen: &Vec<Entry>, radius: u32) -> (r: Vec2)
    requires
        forall|i: int|
            0 <= i < seen@.len() ==> within_radius(
                (#[trigger] seen@[i]).position@,
                position@,
                radius as nat,
            ),
    ensures
        r@ == cohesion(position@, seen@),
        r@.within(radius as int),
{
    let mut points: Vec<Vec2> = Vec::new();
    let mut i: usize = 0;
    while i < seen.len()
        invariant
            i <= seen.len(),
            views(points@) =~= positions_of(seen@.take(i as int)),
        decreases seen.len() - i,
    {
        let ghost before = points@;
        let ghost head = seen@.take(i as int);
        points.push(seen[i].position);
        proof {
            assert(seen@.take(i + 1) =~= head.push(seen@[i as int]));
            assert(positions_of(head.push(seen@[i as int])) =~= positions_of(head).push(
                seen@[i as int].position@,
            ));
            assert(views(before.push(seen@[i as int].position)) =~= views(before).push(
                seen@[i as int].position@,
            ));
        }
        i = i + 1;
    }
    assert(seen@.take(i as int) =~= seen@);
    let mean: Vec2 = average_of(&points, position);
    proof {
        let items = positions_of(seen@);
        let span = Vector { x: radius as int, y: radius as int };
        assert forall|k: int| 0 <= k < items.len() implies (#[trigger] items[k]).between(
            position@.minus(span),
            position@.plus(span),
        ) by {
            lemma_within_radius_offset(seen@[k].position@, position@, radius as nat);
        }
        lemma_average_between(items, position@, position@.minus(span), position@.plus(span));
    }
    let dx: i128 = mean.x as i128 - position.x as i128;
    let dy: i128 = mean.y as i128 - position.y as i128;
    Vec2 { x: dx as i64, y: dy as i64 }
}

/// Alignment: the average velocity that the flock has for the entries seen.
pub fn alignment_of(seen: &Vec<Entry>, flock: &Flock) -> (r: Vec2)
    requires
        flock.steerable(),
    ensures
        r@ == alignment(seen@, flock@),
        r@.within(HEADING_LIMIT as int),
{
    let ghost known = known_to(flock@);
    let mut speeds: Vec<Vec2> = Vec::new();
    let mut i: usize = 0;
    proof {
        reveal(Seq::filter);
        assert(seen@.take(0) =~= Seq::<Entry>::empty());
    }
    while i < seen.len()
        invariant
            i <= seen.len(),
            known == known_to(flock@),
            views(speeds@) =~= velocities_of(seen@.take(i as int), flock@),
        decreases seen.len() - i,
    {
        let e: Entry = seen[i];
        proof {
            seen@.take(i as int).lemma_filter_push(e, known);
            assert(seen@.take(i + 1) =~= seen@.take(i as int).push(e));
        }
        let ghost before = speeds@;
        let ghost head = seen@.take(i as int).filter(known);
        if e.id < flock.agents.len() {
            let v: Vec2 = flock.agents[e.id].velocity;
            speeds.push(v);
            proof {
                assert(v@ == flock@[e.id as int].velocity);
                assert(head.push(e).map_values(|n: Entry| flock@[n.id as int].velocity)
                    =~= head.map_values(|n: Entry| flock@[n.id as int].velocity).push(v@));
                assert(views(before.push(v)) =~= views(before).push(v@));
            }
        }
        i = i + 1;
    }
    assert(seen@.take(i as int) =~= seen@);
    proof {
        let items = velocities_of(seen@, flock@);
        let span = Vector { x: HEADING_LIMIT as int, y: HEADING_LIMIT as int };
        let picked = seen@.filter(known);
        assert forall|k: int| 0 <= k < items.len() implies (#[trigger] items[k]).between(
            Vector::zero().minus(span),
            span,
        ) by {
            seen@.lemma_filter_pred(known, k);
            let who = picked[k].id as int;
            assert(flock@[who].steerable());
        }
        lemma_average_between(items, Vector::zero(), Vector::zero().minus(span), span);
    }
    average_of(&speeds, Vec2 { x: 0, y: 0 })
}

/// Separation: the average push away from the entries seen.
pub fn separation_of(position: Vec2, seen: &Vec<Entry>, radius: u32) -> (r: Vec2)
    requires
        forall|i: int|
            0 <= i < seen@.len() ==> within_radius(
                (#[trigger] seen@[i]).position@,
                position@,
                radius as nat,
            ),
    ensures
        r@ == separation(position@, seen@, radius as nat),
        r@.within(radius as int),
{
    let mut pushes: Vec<Vec2> = Vec::new();
    let mut i: usize = 0;
    while i < seen.len()
        invariant
            i <= seen.len(),
            views(pushes@) =~= pushes_from(position@, seen@.take(i as int), radius as nat),
            forall|k: int|
                0 <= k < seen@.len() ==> within_radius(
                    (#[trigger] seen@[k]).position@,
                    position@,
                    radius as nat,
                ),
        decreases seen.len() - i,
    {
        let e: Entry = seen[i];
        proof {
            lemma_within_radius_offset(e.position@, position@, radius as nat);
        }
        let dx: i128 = position.x as i128 - e.position.x as i128;
        let dy: i128 = position.y as i128 - e.position.y as i128;
        let away: Vec2 = Vec2 { x: dx as i64, y: dy as i64 };
        let ghost before = pushes@;
        let ghost head = seen@.take(i as int);
        let push: Vec2 = away.shortened_to(radius);
        pushes.push(push);
        proof {
            assert(away@ == position@.minus(e.position@));
            assert(seen@.take(i + 1) =~= head.push(e));
            assert(pushes_from(position@, head.push(e), radius as nat) =~= pushes_from(
                position@,
                head,
                radius as nat,
            ).push(push@));
            assert(views(before.push(push)) =~= views(before).push(push@));
        }
        i = i + 1;
    }
    assert(seen@.take(i as int) =~= seen@);
    proof {
        let items = pushes_from(position@, seen@, radius as nat);
        let span = Vector { x: radius as int, y: radius as int };
        assert forall|k: int| 0 <= k < items.len() implies (#[trigger] items[k]).between(
            Vector::zero().minus(span),
            span,
        ) by {
            position@.minus(seen@[k].position@).lemma_shortened(radius as nat);
        }
        lemma_average_between(items, Vector::zero(), Vector::zero().minus(span), span);
    }
    average_of(&pushes, Vec2 { x: 0, y: 0 })
}

/// One coordinate of the pull toward the center.
fn edge_pull(coordinate: i64, divisor: i64) -> (r: i64)
    requires
        -POSITION_LIMIT <= coordinate <= POSITION_LIMIT,
        EDGE_FLOOR <= divisor,
    ensures
        r == div_toward_zero(-coordinate * (EDGE_GAIN * UNIT), divisor as int),
        -EDGE_LIMIT <= r <= EDGE_LIMIT,
{
    let top: i128 = -(coordinate as i128) * 40_000;
    let q: i128 = div_inward(top, divisor as i128);
    proof {
        let m: int = magnitude(top as int);
        let d: int = divisor as int;
        lemma_fundamental_div_mod(m, d);
        assert(0 <= m / d && (m / d) * 10 <= m) by (nonlinear_arith)
            requires
                m == d * (m / d) + m % d,
                0 <= m % d < d,
                0 <= m,
                d >= 10,
        ;
        assert(magnitude(q as int) == m / d);
    }
    q as i64
}

/// Edge avoidance: the pull toward the center within [`BORDER`] of an edge.
pub fn edge_avoidance_of(world: &World, position: Vec2) -> (r: Vec2)
    requires
        position@.within(POSITION_LIMIT as int),
    ensures
        r@ == edge_avoidance(*world, position@),
        r@.within(EDGE_LIMIT as int),
{
    let d: i64 = world.distance_to_edge(position);
    if d < BORDER {
        let divisor: i64 = if d < EDGE_FLOOR {
            EDGE_FLOOR
        } else {
            d
        };
        Vec2 { x: edge_pull(position.x, divisor), y: edge_pull(position.y, divisor) }
    } else {
        Vec2 { x: 0, y: 0 }
    }
}

/// One coordinate of the combined change.
fn weigh(params: &ParameterSet, c: i64, a: i64, s: i64, e: i64, dt: u16) -> (r: i64)
    requires
        -0xffff_ffff <= c <= 0xffff_ffff,
        -HEADING_LIMIT <= a <= HEADING_LIMIT,
        -0xffff_ffff <= s <= 0xffff_ffff,
        -EDGE_LIMIT <= e <= EDGE_LIMIT,
    ensures
        r == div_toward_zero(
            (c * params.cohesion_weight + a * params.alignment_weight + s
                * params.separation_weight + e * params.edge_avoid_weight) * dt,
            UNIT_SQUARED as int,
        ),
        -DELTA_LIMIT <= r <= DELTA_LIMIT,
{
    let cw: i128 = params.cohesion_weight as i128;
    let aw: i128 = params.alignment_weight as i128;
    let sw: i128 = params.separation_weight as i128;
    let ew: i128 = params.edge_avoid_weight as i128;
    let ci: i128 = c as i128;
    let ai: i128 = a as i128;
    let si: i128 = s as i128;
    let ei: i128 = e as i128;
    assert(-281_474_976_710_656 <= ci * cw <= 281_474_976_710_656) by (nonlinear_arith)
        requires
            -4_294_967_296 <= ci <= 4_294_967_296,
            0 <= cw <= 65_536,
    ;
    assert(-65_536_000_000 <= ai * aw <= 65_536_000_000) by (nonlinear_arith)
        requires
            -1_000_000 <= ai <= 1_000_000,
            0 <= aw <= 65_536,
    ;
    assert(-281_474_976_710_656 <= si * sw <= 281_474_976_710_656) by (nonlinear_arith)
        requires
            -4_294_967_296 <= si <= 4_294_967_296,
            0 <= sw <= 65_536,
    ;
    assert(-262_144_000_000_000_000 <= ei * ew <= 262_144_000_000_000_000) by (nonlinear_arith)
        requires
            -4_000_000_000_000 <= ei <= 4_000_000_000_000,
            0 <= ew <= 65_536,
    ;
    let total: i128 = ci * cw + ai * aw + si * sw + ei * ew;
    let step: i128 = dt as i128;
    assert(-262_707_015_489_421_312 * 65_536 <= total * step <= 262_707_015_489_421_312 * 65_536)
        by (nonlinear_arith)
        requires
            -262_707_015_489_421_312 <= total <= 262_707_015_489_421_312,
            0 <= step <= 65_536,
    ;
    let q: i128 = div_inward(total * step, 1_000_000);
    q as i64
}

/// The four rules weighted, added, and multiplied by the time step.
pub fn combine(
    params: &ParameterSet,
    cohesion: Vec2,
    alignment: Vec2,
    separation: Vec2,
    edge: Vec2,
    dt: u16,
) -> (r: Vec2)
    requires
        cohesion@.within(0xffff_ffff),
        alignment@.within(HEADING_LIMIT as int),
        separation@.within(0xffff_ffff),
        edge@.within(EDGE_LIMIT as int),
    ensures
        r@ == combined(*params, cohesion@, alignment@, separation@, edge@, dt as int),
        r@.within(DELTA_LIMIT as int),
{
    Vec2 {
        x: weigh(params, cohesion.x, alignment.x, separation.x, edge.x, dt),
        y: weigh(params, cohesion.y, alignment.y, separation.y, edge.y, dt),
    }
}

/// The change of velocity that the rules ask of `me` in a tick of `dt`
/// thousandths of a second.
pub fn steer(
    me: &Agent,
    flock: &Flock,
    index: &SpatialIndex,
    params: &ParameterSet,
    world: &World,
    dt: u16,
) -> (delta: SteeringDelta)
    requires
        me@.steerable(),
        flock.steerable(),
        params.wf(),
    ensures
        delta.agent_id == me.id,
        delta.velocity_delta@ == steering(me@, flock@, index@, *params, *world, dt as int),
        delta.wf(),
{
    let candidates: Vec<Entry> = index.query(me.position, params.view_radius);
    let seen: Vec<Entry> = visible_neighbors(me, params, &candidates);
    proof {
        let wide = in_range_of(me.position@, params.view_radius as nat);
        let narrow = visible_to(me@, *params);
        lemma_filter_refines(index@, wide, narrow);
        assert forall|i: int| 0 <= i < seen@.len() implies within_radius(
            (#[trigger] seen@[i]).position@,
            me.position@,
            params.view_radius as nat,
        ) by {
            index@.lemma_filter_pred(narrow, i);
        }
    }
    let c: Vec2 = cohesion_of(me.position, &seen, params.view_radius);
    let a: Vec2 = alignment_of(&seen, flock);
    let s: Vec2 = separation_of(me.position, &seen, params.view_radius);
    let e: Vec2 = edge_avoidance_of(world, me.position);
    let velocity_delta: Vec2 = combine(params, c, a, s, e, dt);
    SteeringDelta { agent_id: me.id, velocity_delta }
}

/// One steering delta for each agent of the flock, in the flock's order,
/// each computed from the flock and the snapshot as they were handed in.
/// Nothing is changed.
pub fn compute(
    flock: &Flock,
    index: &SpatialIndex,
    params: &ParameterSet,
    world: &World,
    dt: u16,
) -> (deltas: Vec<SteeringDelta>)
    requires
        flock.steerable(),
        params.wf(),
    ensures
        deltas@.len() == flock@.len(),
        forall|i: int|
            0 <= i < deltas@.len() ==> (#[trigger] deltas@[i]).agent_id == i
                && deltas@[i].velocity_delta@ == steering(
                flock@[i],
                flock@,
                index@,
                *params,
                *world,
                dt as int,
            ) && deltas@[i].wf(),
{
    let mut deltas: Vec<SteeringDelta> = Vec::new();
    let mut i: usize = 0;
    while i < flock.agents.len()
        invariant
            i <= flock.agents.len(),
            flock.steerable(),
            params.wf(),
            deltas@.len() == i,
            forall|k: int|
                0 <= k < i ==> (#[trigger] deltas@[k]).agent_id == k
                    && deltas@[k].velocity_delta@ == steering(
                    flock@[k],
                    flock@,
                    index@,
                    *params,
                    *world,
                    dt as int,
                ) && deltas@[k].wf(),
        decreases flock.agents.len() - i,
    {
        let me: &Agent = &flock.agents[i];
        assert(me@ == flock@[i as int]);
        let delta: SteeringDelta = steer(me, flock, index, params, world, dt);
        deltas.push(delta);
        i = i + 1;
    }
    deltas
}

} // verus!
