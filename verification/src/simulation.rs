//! The simulation loop: one tick is a rebuild of the snapshot where it is
//! due, then steering from the state before the tick, then integration.

use vstd::prelude::*;
use crate::agent::{AgentState, Flock, Pose, census};
use crate::index::{Entry, SpatialIndex};
use crate::integrator::{advanced, apply, steered, steered_all};
use crate::params::{ParameterSet, ParameterStore, default_parameters};
use crate::schedule::{RebuildSchedule, after, rebuild_due};
use crate::steering::{SteeringDelta, compute, steering};
use crate::world::World;

verus! {

/// The flock after one tick: every agent steered by what the rules ask of
/// it in the flock as it was before the tick, and then moved.
pub open spec fn after_tick(
    flock: Seq<AgentState>,
    snapshot: Seq<Entry>,
    params: ParameterSet,
    world: World,
    dt: int,
) -> Seq<AgentState> {
    Seq::new(
        flock.len(),
        |i: int|
            advanced(
                steered(flock[i], steering(flock[i], flock, snapshot, params, world, dt), dt),
                dt,
            ),
    )
}

/// With one delta for each agent, in the flock's order, every agent is
/// steered by its own delta from its state before the tick: no agent's
/// steering sees what another's has already changed.
pub proof fn lemma_one_delta_each(
    flock: Seq<AgentState>,
    deltas: Seq<SteeringDelta>,
    dt: int,
    upto: int,
)
    requires
        deltas.len() == flock.len(),
        0 <= upto <= deltas.len(),
        forall|i: int| 0 <= i < deltas.len() ==> (#[trigger] deltas[i]).agent_id == i,
    ensures
        steered_all(flock, deltas.take(upto), dt).len() == flock.len(),
        forall|i: int|
            0 <= i < flock.len() ==> (#[trigger] steered_all(flock, deltas.take(upto), dt)[i])
                == if i < upto {
                steered(flock[i], deltas[i].velocity_delta@, dt)
            } else {
                flock[i]
            },
    decreases upto,
{
    if upto > 0 {
        lemma_one_delta_each(flock, deltas, dt, upto - 1);
        assert(deltas.take(upto).drop_last() =~= deltas.take(upto - 1));
        assert(deltas.take(upto).last() == deltas[upto - 1]);
    }
}

/// A flock, its world, its live parameters and the snapshot of positions
/// that its agents steer by, with the schedule of the snapshot's rebuilds.
pub struct Simulation {
    pub world: World,
    pub flock: Flock,
    pub store: ParameterStore,
    pub index: SpatialIndex,
    pub schedule: RebuildSchedule,
}

impl Simulation {
    /// Whether the steering rules can take the flock.
    pub open spec fn wf(&self) -> bool {
        self.flock.steerable()
    }

    /// Whether the simulation is well formed.
    pub fn is_valid(&self) -> (b: bool)
        ensures
            b == self.wf(),
    {
        self.flock.is_steerable()
    }

    /// A simulation of `flock` in `world` with the default parameters and
    /// a snapshot of the flock as it is, to be rebuilt every `interval`
    /// thousandths of a second.
    pub fn new(world: World, flock: Flock, interval: u32) -> (sim: Simulation)
        requires
            flock.steerable(),
        ensures
            sim.wf(),
            sim.world == world,
            sim.flock@ == flock@,
            sim.store@ == default_parameters(),
            sim.index@.to_multiset() == census(flock@).to_multiset(),
            sim.schedule@.interval == interval,
            sim.schedule@.elapsed == 0,
    {
        let points: Vec<Entry> = flock.entries();
        let index: SpatialIndex = SpatialIndex::build(&points);
        Simulation {
            world,
            flock,
            store: ParameterStore::new(),
            index,
            schedule: RebuildSchedule::new(interval),
        }
    }

    /// One tick of `dt` thousandths of a second. Reads the parameters once;
    /// rebuilds the snapshot from the flock as it is if the schedule says
    /// so; computes every agent's delta from the flock before the tick;
    /// applies them; and hands out every agent's pose.
    pub fn tick(&mut self, dt: u16) -> (poses: Vec<Pose>)
        requires
            old(self).wf(),
        ensures
            final(self).wf(),
            final(self).world == old(self).world,
            final(self).store@ == old(self).store@,
            final(self).schedule@ == after(old(self).schedule@, dt as nat),
            rebuild_due(old(self).schedule@, dt as nat) ==> final(self).index@.to_multiset()
                == census(old(self).flock@).to_multiset(),
            !rebuild_due(old(self).schedule@, dt as nat) ==> final(self).index@ == old(
                self,
            ).index@,
            final(self).flock@ == after_tick(
                old(self).flock@,
                final(self).index@,
                old(self).store@,
                old(self).world,
                dt as int,
            ),
            poses@.len() == final(self).flock@.len(),
            forall|i: int|
                0 <= i < poses@.len() ==> (#[trigger] poses@[i]).agent_id == i
                    && poses@[i].position@ == final(self).flock@[i].position
                    && poses@[i].orientation@ == final(self).flock@[i].orientation,
    {
        let params: ParameterSet = self.store.snapshot();
        if self.schedule.advance(dt) {
            let points: Vec<Entry> = self.flock.entries();
            self.index = SpatialIndex::build(&points);
        }
        let deltas: Vec<SteeringDelta> = compute(
            &self.flock,
            &self.index,
            &params,
            &self.world,
            dt,
        );
        let ghost before = self.flock@;
        apply(&mut self.flock, &deltas, dt);
        proof {
            lemma_one_delta_each(before, deltas@, dt as int, deltas@.len() as int);
            assert(deltas@.take(deltas@.len() as int) =~= deltas@);
            assert(self.flock@ =~= after_tick(
                before,
                self.index@,
                params,
                self.world,
                dt as int,
            ));
        }
        let poses: Vec<Pose> = self.flock.poses();
        proof {
            assert forall|i: int| 0 <= i < poses@.len() implies (#[trigger] poses@[i]).agent_id
                == i by {
                assert(self.flock@[i].id == i);
            }
        }
        poses
    }
}

} // verus!
