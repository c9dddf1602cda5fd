//! What becomes of a particle at the edge of the simulation area.
//!
//! Each edge of the area either removes the particles that reach it or turns
//! them back. A particle's extent along an axis is the span that it covers,
//! its centre less its radius to its centre plus its radius. Extents and
//! bounds are compared as integers: the caller hands in integer keys that
//! order as the measured values do.
//!
//! Both ends of an extent are looked at on both axes, so a particle on a
//! removing edge is retired whatever else it touches. A removing edge takes
//! a particle as soon as the extent touches it; a bouncing edge turns a
//! particle back only once the extent has gone beyond it.
use vstd::prelude::*;

verus! {

/// How far one end of an extent has come towards the bound on its side.
#[derive(Clone, Copy, PartialEq, Eq, Debug, Structural)]
pub enum Reach {
    /// The end lies short of the bound.
    Clear,
    /// The end lies exactly on the bound.
    Touching,
    /// The end lies past the bound.
    Beyond,
}

/// The reach of both ends of an extent along one axis.
#[derive(Clone, Copy, PartialEq, Eq, Debug, Structural)]
pub struct Span {
    pub low: Reach,
    pub high: Reach,
}

/// What an edge does to a particle that reaches it.
#[derive(Clone, Copy, PartialEq, Eq, Debug, Structural)]
pub enum Rule {
    Remove,
    Bounce,
}

/// The rule of each edge of the area.
#[derive(Clone, Copy, PartialEq, Eq, Debug, Structural)]
pub struct Edges {
    pub low_x: Rule,
    pub high_x: Rule,
    pub low_y: Rule,
    pub high_y: Rule,
}

/// Whether a particle is turned back along an axis, and from which edge.
#[derive(Clone, Copy, PartialEq, Eq, Debug, Structural)]
pub enum Turn {
    Straight,
    FromLow,
    FromHigh,
}

/// What the boundary check decides for one particle: whether it is retired,
/// and along which axes its velocity is turned back and its position
/// clamped, and to which edge.
#[derive(Clone, Copy, PartialEq, Eq, Debug, Structural)]
pub struct Fate {
    pub leaves: bool,
    pub turn_x: Turn,
    pub turn_y: Turn,
}

/// The reach of the low end `low` of an extent towards the low bound.
pub open spec fn reach_of_low(low: int, bound: int) -> Reach {
    if low < bound {
        Reach::Beyond
    } else if low == bound {
        Reach::Touching
    } else {
        Reach::Clear
    }
}

/// The reach of the high end `high` of an extent towards the high bound.
pub open spec fn reach_of_high(high: int, bound: int) -> Reach {
    if high > bound {
        Reach::Beyond
    } else if high == bound {
        Reach::Touching
    } else {
        Reach::Clear
    }
}

/// The reach of the extent `low ..= high` within the bounds
/// `bound_low ..= bound_high`.
pub open spec fn span_of(low: int, high: int, bound_low: int, bound_high: int) -> Span {
    Span { low: reach_of_low(low, bound_low), high: reach_of_high(high, bound_high) }
}

/// An edge removes a particle whose extent touches it or lies beyond it.
pub open spec fn removes(reach: Reach, rule: Rule) -> bool {
    rule == Rule::Remove && reach != Reach::Clear
}

/// An edge turns back a particle whose extent lies beyond it.
pub open spec fn turns(reach: Reach, rule: Rule) -> bool {
    rule == Rule::Bounce && reach == Reach::Beyond
}

/// The turn along one axis. An extent that lies beyond bouncing edges at both
/// ends is turned back from the high one.
pub open spec fn turn_of(span: Span, low: Rule, high: Rule) -> Turn {
    if turns(span.high, high) {
        Turn::FromHigh
    } else if turns(span.low, low) {
        Turn::FromLow
    } else {
        Turn::Straight
    }
}

/// A particle leaves when either end of its extent has reached a removing
/// edge on either axis. Whether it leaves or not, it is turned back along
/// each axis on which it has gone beyond a bouncing edge.
pub open spec fn fate_of(x: Span, y: Span, edges: Edges) -> Fate {
    Fate {
        leaves: removes(x.low, edges.low_x) || removes(x.high, edges.high_x) || removes(
            y.low,
            edges.low_y,
        ) || removes(y.high, edges.high_y),
        turn_x: turn_of(x, edges.low_x, edges.high_x),
        turn_y: turn_of(y, edges.low_y, edges.high_y),
    }
}

/// Measures how far both ends of an extent have come towards their bounds.
pub fn span(low: i64, high: i64, bound_low: i64, bound_high: i64) -> (reach: Span)
    ensures
        reach == span_of(low as int, high as int, bound_low as int, bound_high as int),
{
    let at_low = if low < bound_low {
        Reach::Beyond
    } else if low == bound_low {
        Reach::Touching
    } else {
        Reach::Clear
    };
    let at_high = if high > bound_high {
        Reach::Beyond
    } else if high == bound_high {
        Reach::Touching
    } else {
        Reach::Clear
    };
    Span { low: at_low, high: at_high }
}

/// Whether an edge with `rule` removes a particle with this reach.
fn edge_removes(reach: Reach, rule: Rule) -> (gone: bool)
    ensures
        gone == removes(reach, rule),
{
    match (rule, reach) {
        (Rule::Remove, Reach::Touching) => true,
        (Rule::Remove, Reach::Beyond) => true,
        _ => false,
    }
}

/// Whether an edge with `rule` turns back a particle with this reach.
fn edge_turns(reach: Reach, rule: Rule) -> (back: bool)
    ensures
        back == turns(reach, rule),
{
    match (rule, reach) {
        (Rule::Bounce, Reach::Beyond) => true,
        _ => false,
    }
}

/// The turn along one axis.
fn axis_turn(reach: Span, low: Rule, high: Rule) -> (turn: Turn)
    ensures
        turn == turn_of(reach, low, high),
{
    if edge_turns(reach.high, high) {
        Turn::FromHigh
    } else if edge_turns(reach.low, low) {
        Turn::FromLow
    } else {
        Turn::Straight
    }
}

impl Edges {
    /// Decides the fate of a particle from the reach of its extents along
    /// `x` and along `y`.
    pub fn fate(&self, x: Span, y: Span) -> (fate: Fate)
        ensures
            fate == fate_of(x, y, *self),
    {
        let leaves = edge_removes(x.low, self.low_x) || edge_removes(x.high, self.high_x)
            || edge_removes(y.low, self.low_y) || edge_removes(y.high, self.high_y);
        Fate {
            leaves,
            turn_x: axis_turn(x, self.low_x, self.high_x),
            turn_y: axis_turn(y, self.low_y, self.high_y),
        }
    }
}

/// A particle leaves exactly when an end of one of its extents lies on or
/// past a removing edge: nothing else that it touches keeps it, and nothing
/// else retires it.
pub proof fn lemma_leaves_exactly(
    low_x: int,
    high_x: int,
    low_y: int,
    high_y: int,
    bound_low_x: int,
    bound_high_x: int,
    bound_low_y: int,
    bound_high_y: int,
    edges: Edges,
)
    ensures
        fate_of(
            span_of(low_x, high_x, bound_low_x, bound_high_x),
            span_of(low_y, high_y, bound_low_y, bound_high_y),
            edges,
        ).leaves <==> ((low_x <= bound_low_x && edges.low_x == Rule::Remove) || (high_x
            >= bound_high_x && edges.high_x == Rule::Remove) || (low_y <= bound_low_y
            && edges.low_y == Rule::Remove) || (high_y >= bound_high_y && edges.high_y
            == Rule::Remove)),
{
}

/// A particle whose extent exactly touches a removing edge leaves, however
/// its other end and the other axis stand.
pub proof fn lemma_touching_removes(
    low: int,
    high: int,
    bound_low: int,
    bound_high: int,
    other: Span,
    edges: Edges,
)
    ensures
        high == bound_high && edges.high_x == Rule::Remove ==> fate_of(
            span_of(low, high, bound_low, bound_high),
            other,
            edges,
        ).leaves,
        low == bound_low && edges.low_x == Rule::Remove ==> fate_of(
            span_of(low, high, bound_low, bound_high),
            other,
            edges,
        ).leaves,
        high == bound_high && edges.high_y == Rule::Remove ==> fate_of(
            other,
            span_of(low, high, bound_low, bound_high),
            edges,
        ).leaves,
        low == bound_low && edges.low_y == Rule::Remove ==> fate_of(
            other,
            span_of(low, high, bound_low, bound_high),
            edges,
        ).leaves,
{
}

/// A particle is turned back along an axis exactly when an end of its extent
/// lies past a bouncing edge of that axis; touching the edge is not enough.
pub proof fn lemma_turns_exactly(low: int, high: int, bound_low: int, bound_high: int, lo: Rule, hi: Rule)
    ensures
        turn_of(span_of(low, high, bound_low, bound_high), lo, hi) != Turn::Straight <==> ((low
            < bound_low && lo == Rule::Bounce) || (high > bound_high && hi == Rule::Bounce)),
        turn_of(span_of(low, high, bound_low, bound_high), lo, hi) == Turn::FromHigh <==> (high
            > bound_high && hi == Rule::Bounce),
{
}

/// A particle strictly inside the area on both axes neither leaves nor is
/// turned back.
pub proof fn lemma_inside_stays(
    low_x: int,
    high_x: int,
    low_y: int,
    high_y: int,
    bound_low_x: int,
    bound_high_x: int,
    bound_low_y: int,
    bound_high_y: int,
    edges: Edges,
)
    requires
        bound_low_x < low_x,
        high_x < bound_high_x,
        bound_low_y < low_y,
        high_y < bound_high_y,
    ensures
        fate_of(
            span_of(low_x, high_x, bound_low_x, bound_high_x),
            span_of(low_y, high_y, bound_low_y, bound_high_y),
            edges,
        ) == (Fate { leaves: false, turn_x: Turn::Straight, turn_y: Turn::Straight }),
{
}

} // verus!
