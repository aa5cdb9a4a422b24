//! The plain midpoint walk along one eighth of a circle: the points that a
//! circle of a given radius passes through between the axis and the
//! diagonal, one for every column.

use vstd::prelude::*;

verus! {

/// Where the walk stands: the point `(x, y)` and the decision variable `p` of
/// the midpoint rule.
pub ghost struct OctantState {
    pub x: int,
    pub y: int,
    pub p: int,
}

/// The walk begins on the axis, at the radius.
pub open spec fn octant_start(scaled: int) -> OctantState {
    OctantState { x: 0, y: scaled, p: 1 - scaled }
}

/// One step of the midpoint rule: a column further, and a row nearer to the
/// axis where the midpoint between the two rows lies outside the circle.
pub open spec fn octant_next(s: OctantState) -> OctantState {
    if s.p < 0 {
        OctantState { x: s.x + 1, y: s.y, p: s.p + 2 * (s.x + 1) + 1 }
    } else {
        OctantState { x: s.x + 1, y: s.y - 1, p: s.p + 2 * ((s.x + 1) - (s.y - 1)) + 1 }
    }
}

/// The points from state `s` on, up to the diagonal.
pub open spec fn octant_from(s: OctantState) -> Seq<(i32, i32)>
    decreases s.y - s.x + 2,
{
    if s.x > s.y {
        Seq::empty()
    } else {
        seq![(s.x as i32, s.y as i32)] + octant_from(octant_next(s))
    }
}

/// The points of the walk for a radius of `scaled`. A negative radius has
/// none.
pub open spec fn octant_walk(scaled: int) -> Seq<(i32, i32)> {
    octant_from(octant_start(scaled))
}

/// Walks one eighth of a circle of radius `scaled` and lists its points.
pub fn octant_points(scaled: i32) -> (points: Vec<(i32, i32)>)
    ensures
        points@ == octant_walk(scaled as int),
{
    let mut points: Vec<(i32, i32)> = Vec::new();
    let mut x: i64 = 0;
    let mut y: i64 = scaled as i64;
    let mut p: i64 = 1 - scaled as i64;
    assert(points@ + octant_from(octant_start(scaled as int)) =~= octant_walk(scaled as int));
    while x <= y
        invariant
            0 <= x,
            y <= scaled,
            scaled < 0 || x <= y + 2,
            scaled < 0 || -2 * scaled - 1 <= p <= 2 * scaled + 3 + 5 * x,
            points@ + octant_from(OctantState { x: x as int, y: y as int, p: p as int }) == octant_walk(
                scaled as int,
            ),
        decreases y - x + 2,
    {
        let ghost s = OctantState { x: x as int, y: y as int, p: p as int };
        let ghost before = points@;
        points.push((x as i32, y as i32));
        x = x + 1;
        if p < 0 {
            p = p + 2 * x + 1;
        } else {
            y = y - 1;
            p = p + 2 * (x - y) + 1;
        }
        proof {
            let next = OctantState { x: x as int, y: y as int, p: p as int };
            assert(next == octant_next(s));
            assert(points@ + octant_from(next) =~= before + octant_from(s));
        }
    }
    assert(points@ + octant_from(OctantState { x: x as int, y: y as int, p: p as int }) =~= points@);
    points
}

} // verus!
