//! What a mesh spans, and what stands under a point.

use super::bits::{greater, is_greater, is_nan, not_a_number, Bits};
use super::mesh::Mesh;
use vstd::prelude::*;

verus! {

/// An axis-aligned box.
#[derive(Debug, Clone, Copy)]
pub struct Bounds {
    pub min: [Bits; 3],
    pub max: [Bits; 3],
}

/// The lower of two stored numbers; the second where neither is.
pub open spec fn lower(a: Bits, b: Bits) -> Bits {
    if greater(b, a) {
        a
    } else {
        b
    }
}

/// The higher of two stored numbers; the second where neither is.
pub open spec fn higher(a: Bits, b: Bits) -> Bits {
    if greater(a, b) {
        a
    } else {
        b
    }
}

/// A box grown to hold one more point.
pub open spec fn grown(bounds: Bounds, point: [Bits; 3]) -> Bounds {
    Bounds {
        min: [
            lower(bounds.min@[0], point@[0]),
            lower(bounds.min@[1], point@[1]),
            lower(bounds.min@[2], point@[2]),
        ],
        max: [
            higher(bounds.max@[0], point@[0]),
            higher(bounds.max@[1], point@[1]),
            higher(bounds.max@[2], point@[2]),
        ],
    }
}

/// What the first `n` of some points span, of which there is at least one.
pub open spec fn spanned(points: Seq<[Bits; 3]>, n: nat) -> Bounds
    decreases n,
{
    if n <= 1 {
        Bounds { min: points[0], max: points[0] }
    } else {
        grown(spanned(points, (n - 1) as nat), points[n - 1])
    }
}

/// The lower of two stored numbers.
fn min(a: Bits, b: Bits) -> (r: Bits)
    ensures
        r == lower(a, b),
{
    if is_greater(b, a) {
        a
    } else {
        b
    }
}

/// The higher of two stored numbers.
fn max(a: Bits, b: Bits) -> (r: Bits)
    ensures
        r == higher(a, b),
{
    if is_greater(a, b) {
        a
    } else {
        b
    }
}

impl Bounds {
    /// This box grown to hold one more point.
    pub fn holding(&self, point: [Bits; 3]) -> (r: Bounds)
        ensures
            r == grown(*self, point),
    {
        Bounds {
            min: [
                min(self.min[0], point[0]),
                min(self.min[1], point[1]),
                min(self.min[2], point[2]),
            ],
            max: [
                max(self.max[0], point[0]),
                max(self.max[1], point[1]),
                max(self.max[2], point[2]),
            ],
        }
    }
}

impl Mesh {
    /// Axis-aligned bounds, or `None` for an empty mesh.
    pub fn bounds(&self) -> (r: Option<Bounds>)
        ensures
            r == (if self@.positions.len() > 0 {
                Some(spanned(self@.positions, self@.positions.len()))
            } else {
                None
            }),
    {
        if self.positions.len() == 0 {
            return None;
        }
        let mut bounds: Bounds = Bounds { min: self.positions[0], max: self.positions[0] };
        let mut i: usize = 1;
        while i < self.positions.len()
            invariant
                1 <= i <= self.positions@.len(),
                bounds == spanned(self@.positions, i as nat),
            decreases self.positions@.len() - i,
        {
            bounds = bounds.holding(self.positions[i]);
            i = i + 1;
        }
        Some(bounds)
    }
}

/// Whether a box holds a point along one axis.
pub open spec fn holds(bounds: Bounds, point: [Bits; 3], axis: int) -> bool {
    !greater(bounds.min@[axis], point@[axis]) && !greater(point@[axis], bounds.max@[axis])
}

/// Whether every coordinate of some points is a number.
pub open spec fn all_numbers(points: Seq<[Bits; 3]>) -> bool {
    forall|i: int, axis: int| #![trigger points[i]@[axis]]
        0 <= i < points.len() && 0 <= axis < 3 ==> !not_a_number(points[i]@[axis])
}

/// A box spanned by points with numbers for coordinates has numbers for corners.
proof fn lemma_corners(points: Seq<[Bits; 3]>, n: nat, axis: int)
    requires
        1 <= n <= points.len(),
        0 <= axis < 3,
        all_numbers(points),
    ensures
        !not_a_number(spanned(points, n).min@[axis]),
        !not_a_number(spanned(points, n).max@[axis]),
    decreases n,
{
    assert(!not_a_number(points[n - 1]@[axis]));
    if n > 1 {
        lemma_corners(points, (n - 1) as nat, axis);
    }
}

/// **The bounds of a mesh cover every position in it.**
pub proof fn law_bounds_cover_every_position(points: Seq<[Bits; 3]>, n: nat, i: int, axis: int)
    requires
        0 <= i < n <= points.len(),
        0 <= axis < 3,
        all_numbers(points),
    ensures
        holds(spanned(points, n), points[i], axis),
    decreases n,
{
    assert(!not_a_number(points[i]@[axis]));
    assert(!not_a_number(points[n - 1]@[axis]));
    if n > 1 {
        lemma_corners(points, (n - 1) as nat, axis);
        if i < n - 1 {
            law_bounds_cover_every_position(points, (n - 1) as nat, i, axis);
        }
    }
}

/// The highest of the first `n` of some heights that are at or below a level.
pub open spec fn highest_below(heights: Seq<Bits>, level: Bits, n: nat) -> Option<Bits>
    decreases n,
{
    if n == 0 {
        None
    } else {
        let before = highest_below(heights, level, (n - 1) as nat);
        let z = heights[n - 1];
        if at_or_below(z, level) && (before is None || greater(z, before->0)) {
            Some(z)
        } else {
            before
        }
    }
}

/// Whether one stored number is at or below another.
pub open spec fn at_or_below(z: Bits, level: Bits) -> bool {
    !not_a_number(z) && !not_a_number(level) && !greater(z, level)
}

/// Height of the highest surface at or below a level, of those that cover a point, or `None` if
/// nothing is under it. Exactly on a surface counts as standing on it.
pub fn ground_below(heights: &Vec<Bits>, level: Bits) -> (r: Option<Bits>)
    ensures
        r == highest_below(heights@, level, heights@.len()),
{
    let mut highest: Option<Bits> = None;
    let mut i: usize = 0;
    while i < heights.len()
        invariant
            i <= heights@.len(),
            highest == highest_below(heights@, level, i as nat),
        decreases heights@.len() - i,
    {
        let z: Bits = heights[i];
        if !is_nan(z) && !is_nan(level) && !is_greater(z, level) {
            let better: bool = match highest {
                Some(best) => is_greater(z, best),
                None => true,
            };
            if better {
                highest = Some(z);
            }
        }
        i = i + 1;
    }
    highest
}

/// **The ground below a point is the highest surface under it**: one of those that cover it, at or
/// below it, with none between.
pub proof fn law_the_ground_is_the_highest_surface_below(
    heights: Seq<Bits>,
    level: Bits,
    n: nat,
    i: int,
)
    requires
        0 <= i < n <= heights.len(),
        at_or_below(heights[i], level),
    ensures
        highest_below(heights, level, n) is Some,
        heights.contains(highest_below(heights, level, n)->0),
        at_or_below(highest_below(heights, level, n)->0, level),
        !greater(heights[i], highest_below(heights, level, n)->0),
    decreases n,
{
    lemma_highest(heights, level, (n - 1) as nat);
    if i < n - 1 {
        law_the_ground_is_the_highest_surface_below(heights, level, (n - 1) as nat, i);
    }
}

/// What is highest below a level is one of the heights, and is below it.
proof fn lemma_highest(heights: Seq<Bits>, level: Bits, n: nat)
    requires
        n <= heights.len(),
    ensures
        highest_below(heights, level, n) matches Some(z) ==> heights.contains(z) && at_or_below(
            z,
            level,
        ),
    decreases n,
{
    if n > 0 {
        lemma_highest(heights, level, (n - 1) as nat);
    }
}

} // verus!
