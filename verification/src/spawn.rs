//! The first placement of a flock: agents scattered over the world.

use vstd::prelude::*;
use rand::Rng;
use crate::agent::{Flock, MAX_SPEED_SQUARED, POSITION_LIMIT, heading, upright};
use crate::vec2::{Vec2, Vector};
use crate::world::World;

verus! {

/// A number drawn from `low` up to, but not including, `high`.
///
/// Calls `rand::thread_rng` for the thread's generator and `Rng::sample`
/// on it with `rand::distributions::Uniform::new(low, high)`. `Uniform::new`
/// panics unless `low < high`, which is required here; `thread_rng` panics
/// only where the system gives it no seed. All that is claimed of the
/// number is the range that `Uniform` documents: which number comes is
/// chance.
#[verifier::external_body]
fn sample_between(low: i64, high: i64) -> (r: i64)
    requires
        low < high,
    ensures
        low <= r < high,
{
    rand::thread_rng().sample(rand::distributions::Uniform::new(low, high))
}

/// Whether a flock moving at `velocity` can be scattered over `world`:
/// the world is at least two thousandths wide and high, so that there is a
/// place to draw, it lies within the position limit, and the speed is at
/// most the greatest speed.
pub open spec fn can_scatter(world: World, velocity: Vector) -> bool {
    &&& 1 <= world.half_width() <= POSITION_LIMIT
    &&& 1 <= world.half_height() <= POSITION_LIMIT
    &&& velocity.norm_squared() <= MAX_SPEED_SQUARED
}

/// Whether `p` lies in the world, the left and lower edges included and
/// the right and upper ones not.
pub open spec fn inside(world: World, p: Vector) -> bool {
    &&& -world.half_width() <= p.x < world.half_width()
    &&& -world.half_height() <= p.y < world.half_height()
}

/// A flock of `count` agents, each at a place drawn uniformly from the
/// world and moving at `velocity`: `None` where [`can_scatter`] does not
/// hold.
pub fn scatter(world: &World, count: usize, velocity: Vec2) -> (made: Option<Flock>)
    ensures
        made is Some <==> can_scatter(*world, velocity@),
        made matches Some(flock) ==> flock.steerable() && flock@.len() == count && forall|i: int|
            0 <= i < count ==> inside(*world, (#[trigger] flock@[i]).position)
                && flock@[i].velocity == velocity@ && flock@[i].orientation == heading(
                velocity@,
                upright(),
            ),
{
    let half_width: i64 = (world.width / 2) as i64;
    let half_height: i64 = (world.height / 2) as i64;
    if half_width < 1 || half_width > POSITION_LIMIT || half_height < 1 || half_height
        > POSITION_LIMIT || velocity.norm_squared() > MAX_SPEED_SQUARED {
        return None;
    }
    let mut flock: Flock = Flock::new();
    let mut i: usize = 0;
    while i < count
        invariant
            i <= count,
            half_width == world.half_width(),
            half_height == world.half_height(),
            can_scatter(*world, velocity@),
            flock.wf(),
            flock.steerable(),
            flock@.len() == i,
            forall|k: int|
                0 <= k < i ==> inside(*world, (#[trigger] flock@[k]).position)
                    && flock@[k].velocity == velocity@ && flock@[k].orientation == heading(
                    velocity@,
                    upright(),
                ),
        decreases count - i,
    {
        let x: i64 = sample_between(-half_width, half_width);
        let y: i64 = sample_between(-half_height, half_height);
        let ghost before = flock@;
        let placed: Option<usize> = flock.spawn(Vec2 { x, y }, velocity);
        assert(placed is Some);
        assert forall|k: int| 0 <= k < i + 1 implies inside(*world, (#[trigger] flock@[k]).position)
            && flock@[k].velocity == velocity@ && flock@[k].orientation == heading(
            velocity@,
            upright(),
        ) by {
            if k < i {
                assert(flock@[k] == before[k]);
            }
        }
        i = i + 1;
    }
    Some(flock)
}

} // verus!
