//! The decisions of an impact: whether two particles respond to each other,
//! and through which face a particle leaves an obstacle.
//!
//! Measured values are compared as integers: the caller hands in integer
//! keys that order as the values do, with the key zero for the value zero.
//! A particle that overlaps an axis-aligned obstacle is pushed out along the
//! axis of least penetration.
use vstd::prelude::*;

verus! {

/// What two particles do when the narrow phase looks at them.
#[derive(Clone, Copy, PartialEq, Eq, Debug, Structural)]
pub enum Impact {
    /// They do not overlap; nothing changes.
    Apart,
    /// They overlap but are already moving apart; nothing changes.
    Separating,
    /// They overlap and approach: they exchange the parts of their
    /// velocities that lie along the line between their centres.
    Exchange,
}

/// The impact for an overlap (the sum of the radii less the distance of the
/// centres) and an alignment (the relative velocity along the normal). Only
/// a positive overlap is a collision, and a negative alignment means the
/// pair is parting.
pub open spec fn impact_of(overlap: int, alignment: int) -> Impact {
    if overlap <= 0 {
        Impact::Apart
    } else if alignment < 0 {
        Impact::Separating
    } else {
        Impact::Exchange
    }
}

/// Decides whether a pair responds, from the signs of overlap and alignment.
pub fn classify(overlap: i64, alignment: i64) -> (impact: Impact)
    ensures
        impact == impact_of(overlap as int, alignment as int),
{
    if overlap <= 0 {
        Impact::Apart
    } else if alignment < 0 {
        Impact::Separating
    } else {
        Impact::Exchange
    }
}

/// Particles at least as far apart as the sum of their radii never respond,
/// whatever their velocities: the narrow phase gives no false positives.
pub proof fn lemma_no_false_positive(distance: int, radii: int, alignment: int)
    requires
        distance >= radii,
    ensures
        impact_of(radii - distance, alignment) == Impact::Apart,
{
}

/// A pair that exchanges at some alignment other than zero is found parting
/// at the opposite alignment.
pub proof fn lemma_exchange_parts(overlap: int, alignment: int)
    requires
        impact_of(overlap, alignment) == Impact::Exchange,
        alignment != 0,
    ensures
        impact_of(overlap, -alignment) == Impact::Separating,
{
}

/// The four depths, in the order in which ties are broken.
#[derive(Clone, Copy, PartialEq, Eq, Debug, Structural)]
pub enum Side {
    Left,
    Right,
    Up,
    Down,
}

/// The depth that belongs to a side.
pub open spec fn depth_of(side: Side, left: int, right: int, up: int, down: int) -> int {
    match side {
        Side::Left => left,
        Side::Right => right,
        Side::Up => up,
        Side::Down => down,
    }
}

/// The place of a side in the order left, right, up, down.
pub open spec fn rank(side: Side) -> int {
    match side {
        Side::Left => 0,
        Side::Right => 1,
        Side::Up => 2,
        Side::Down => 3,
    }
}

/// The side of least depth; among equal depths the first in the order left,
/// right, up, down.
pub open spec fn least_side(left: int, right: int, up: int, down: int) -> Side {
    if left <= right && left <= up && left <= down {
        Side::Left
    } else if right <= up && right <= down {
        Side::Right
    } else if up <= down {
        Side::Up
    } else {
        Side::Down
    }
}

/// The unit step along which a particle is pushed out through a side: the
/// left depth is measured to the obstacle's right face, so it pushes towards
/// rising `x`; the up depth is measured to its lower face and pushes towards
/// rising `y`.
pub open spec fn push_of(side: Side) -> (int, int) {
    match side {
        Side::Left => (1, 0),
        Side::Right => (-1, 0),
        Side::Up => (0, 1),
        Side::Down => (0, -1),
    }
}

/// Picks the contact side from the four penetration depths.
pub fn least_penetration(left: i64, right: i64, up: i64, down: i64) -> (side: Side)
    ensures
        side == least_side(left as int, right as int, up as int, down as int),
{
    if left <= right && left <= up && left <= down {
        Side::Left
    } else if right <= up && right <= down {
        Side::Right
    } else if up <= down {
        Side::Up
    } else {
        Side::Down
    }
}

impl Side {
    /// The direction of the push, as steps along `x` and `y`.
    pub fn push(self) -> (step: (i8, i8))
        ensures
            (step.0 as int, step.1 as int) == push_of(self),
    {
        match self {
            Side::Left => (1, 0),
            Side::Right => (-1, 0),
            Side::Up => (0, 1),
            Side::Down => (0, -1),
        }
    }

    /// Whether the push runs along `x`.
    pub fn is_horizontal(self) -> (flat: bool)
        ensures
            flat == (push_of(self).1 == 0),
    {
        match self {
            Side::Left | Side::Right => true,
            Side::Up | Side::Down => false,
        }
    }
}

/// The chosen side has the least depth, and every side that comes before it
/// in the order of ties is strictly deeper: the choice is fixed by the depths
/// alone.
pub proof fn lemma_least_side(left: int, right: int, up: int, down: int, other: Side)
    ensures
        depth_of(least_side(left, right, up, down), left, right, up, down) <= depth_of(
            other,
            left,
            right,
            up,
            down,
        ),
        rank(other) < rank(least_side(left, right, up, down)) ==> depth_of(
            least_side(left, right, up, down),
            left,
            right,
            up,
            down,
        ) < depth_of(other, left, right, up, down),
{
}

} // verus!
