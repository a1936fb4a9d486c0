//! The tunable parameters of the steering rules, and the store that holds
//! the live set between ticks.

use vstd::prelude::*;

verus! {

/// One consistent set of steering parameters. Weights and the view radius
/// are counted in thousandths. The view cone is held by the cosine of its
/// half angle, in thousandths too: 500 stands for a view angle of sixty
/// degrees, 0 for ninety.
#[derive(Clone, Copy, Debug, PartialEq, Eq, Structural)]
pub struct ParameterSet {
    pub cohesion_weight: u16,
    pub alignment_weight: u16,
    pub separation_weight: u16,
    pub edge_avoid_weight: u16,
    pub view_radius: u32,
    pub view_angle_cos: i16,
}

impl ParameterSet {
    /// Whether the cosine of the view angle is one: between -1 and 1.
    pub open spec fn wf(self) -> bool {
        -1000 <= self.view_angle_cos <= 1000
    }

    /// Whether the set is well formed.
    pub fn is_valid(&self) -> (b: bool)
        ensures
            b == self.wf(),
    {
        -1000 <= self.view_angle_cos && self.view_angle_cos <= 1000
    }
}

/// The parameters that a simulation starts with: every weight one, a view
/// radius of a hundred units and a view angle of sixty degrees.
pub open spec fn default_parameters() -> ParameterSet {
    ParameterSet {
        cohesion_weight: 1000,
        alignment_weight: 1000,
        separation_weight: 1000,
        edge_avoid_weight: 1000,
        view_radius: 100_000,
        view_angle_cos: 500,
    }
}

impl Default for ParameterSet {
    /// Every weight one, a view radius of a hundred units and a view angle
    /// of sixty degrees.
    fn default() -> (p: ParameterSet)
        ensures
            p == default_parameters(),
            p.wf(),
    {
        ParameterSet {
            cohesion_weight: 1000,
            alignment_weight: 1000,
            separation_weight: 1000,
            edge_avoid_weight: 1000,
            view_radius: 100_000,
            view_angle_cos: 500,
        }
    }
}

/// The live parameters. A control surface writes single fields at any time;
/// a tick reads the whole set once, as a snapshot, so that it never works
/// with a half-written set.
pub struct ParameterStore {
    current: ParameterSet,
}

impl View for ParameterStore {
    type V = ParameterSet;

    closed spec fn view(&self) -> ParameterSet {
        self.current
    }
}

impl ParameterStore {
    #[verifier::type_invariant]
    spec fn holds_valid_set(&self) -> bool {
        self.current.wf()
    }

    /// A store that holds the default set.
    pub fn new() -> (store: ParameterStore)
        ensures
            store@ == default_parameters(),
    {
        ParameterStore { current: ParameterSet::default() }
    }

    /// The set as it stands now. It is always well formed.
    pub fn snapshot(&self) -> (p: ParameterSet)
        ensures
            p == self@,
            p.wf(),
    {
        proof {
            use_type_invariant(self);
        }
        self.current
    }

    /// Replaces the whole set, if the new one is well formed; says whether
    /// it did.
    pub fn replace(&mut self, next: ParameterSet) -> (accepted: bool)
        ensures
            accepted == next.wf(),
            final(self)@ == if accepted {
                next
            } else {
                old(self)@
            },
    {
        if next.is_valid() {
            self.current = next;
            true
        } else {
            false
        }
    }

    /// Sets the weight of the cohesion rule.
    pub fn set_cohesion_weight(&mut self, weight: u16)
        ensures
            final(self)@ == (ParameterSet { cohesion_weight: weight, ..old(self)@ }),
    {
        proof {
            use_type_invariant(&*self);
        }
        self.current.cohesion_weight = weight;
    }

    /// Sets the weight of the alignment rule.
    pub fn set_alignment_weight(&mut self, weight: u16)
        ensures
            final(self)@ == (ParameterSet { alignment_weight: weight, ..old(self)@ }),
    {
        proof {
            use_type_invariant(&*self);
        }
        self.current.alignment_weight = weight;
    }

    /// Sets the weight of the separation rule.
    pub fn set_separation_weight(&mut self, weight: u16)
        ensures
            final(self)@ == (ParameterSet { separation_weight: weight, ..old(self)@ }),
    {
        proof {
            use_type_invariant(&*self);
        }
        self.current.separation_weight = weight;
    }

    /// Sets the weight of the edge-avoidance rule.
    pub fn set_edge_avoid_weight(&mut self, weight: u16)
        ensures
            final(self)@ == (ParameterSet { edge_avoid_weight: weight, ..old(self)@ }),
    {
        proof {
            use_type_invariant(&*self);
        }
        self.current.edge_avoid_weight = weight;
    }

    /// Sets the radius within which an agent sees others.
    pub fn set_view_radius(&mut self, radius: u32)
        ensures
            final(self)@ == (ParameterSet { view_radius: radius, ..old(self)@ }),
    {
        proof {
            use_type_invariant(&*self);
        }
        self.current.view_radius = radius;
    }

    /// Sets the cosine of the view angle, if it is one; says whether it did.
    pub fn set_view_angle_cos(&mut self, cos: i16) -> (accepted: bool)
        ensures
            accepted == (-1000 <= cos <= 1000),
            final(self)@ == if accepted {
                (ParameterSet { view_angle_cos: cos, ..old(self)@ })
            } else {
                old(self)@
            },
    {
        if -1000 <= cos && cos <= 1000 {
            self.current.view_angle_cos = cos;
            true
        } else {
            false
        }
    }
}

} // verus!
