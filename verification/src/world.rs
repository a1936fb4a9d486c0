//! The world: a rectangle centred at the origin.

use vstd::prelude::*;
use crate::fixed::magnitude;
use crate::vec2::{Vec2, Vector};

verus! {

/// The bounds of the world: an axis-aligned rectangle, centred at the
/// origin, of the given width and height in thousandths.
#[derive(Clone, Copy, Debug, PartialEq, Eq, Structural)]
pub struct World {
    pub width: u32,
    pub height: u32,
}

impl World {
    /// The distance from the center to the left and right edges.
    pub open spec fn half_width(self) -> int {
        self.width as int / 2
    }

    /// The distance from the center to the upper and lower edges.
    pub open spec fn half_height(self) -> int {
        self.height as int / 2
    }

    /// The distance from `p` to the nearest edge. It is negative outside
    /// the world.
    pub open spec fn edge_distance(self, p: Vector) -> int {
        let horizontal = self.half_width() - magnitude(p.x);
        let vertical = self.half_height() - magnitude(p.y);
        if horizontal <= vertical {
            horizontal
        } else {
            vertical
        }
    }

    /// The distance from `p` to the nearest edge, negative outside the
    /// world.
    pub fn distance_to_edge(&self, p: Vec2) -> (d: i64)
        ensures
            d == self.edge_distance(p@),
    {
        let ax: i128 = if p.x >= 0 {
            p.x as i128
        } else {
            -(p.x as i128)
        };
        let ay: i128 = if p.y >= 0 {
            p.y as i128
        } else {
            -(p.y as i128)
        };
        let horizontal: i128 = (self.width / 2) as i128 - ax;
        let vertical: i128 = (self.height / 2) as i128 - ay;
        if horizontal <= vertical {
            horizontal as i64
        } else {
            vertical as i64
        }
    }
}

} // verus!
