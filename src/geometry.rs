use vstd::prelude::*;

verus! {

/// A 2-D integer vector: a position, a velocity or an acceleration.
#[derive(Clone, Copy, Debug, PartialEq, Eq, Structural)]
pub struct Vec2 {
    pub x: i32,
    pub y: i32,
}

impl Vec2 {
    pub fn new(x: i32, y: i32) -> (r: Vec2)
        ensures
            r.x == x,
            r.y == y,
    {
        Vec2 { x, y }
    }

    pub fn zeros() -> (r: Vec2)
        ensures
            r.x == 0,
            r.y == 0,
    {
        Vec2 { x: 0, y: 0 }
    }
}

/// Squared Euclidean distance between two points.
pub open spec fn sq_dist(p: Vec2, q: Vec2) -> int {
    (p.x - q.x) * (p.x - q.x) + (p.y - q.y) * (p.y - q.y)
}

/// Squared Euclidean distance between `p` and `q`, exact.
pub fn squared_distance(p: Vec2, q: Vec2) -> (r: u128)
    ensures
        r == sq_dist(p, q),
{
    let dx: i64 = p.x as i64 - q.x as i64;
    let dy: i64 = p.y as i64 - q.y as i64;
    let ax: u128 = if dx < 0 { (-dx) as u128 } else { dx as u128 };
    let ay: u128 = if dy < 0 { (-dy) as u128 } else { dy as u128 };
    assert(ax * ax == dx * dx && ay * ay == dy * dy) by (nonlinear_arith)
        requires
            ax == if dx < 0 { -dx } else { dx as int },
            ay == if dy < 0 { -dy } else { dy as int },
    ;
    assert(ax * ax <= 0x1_0000_0000 * 0x1_0000_0000 && ay * ay <= 0x1_0000_0000 * 0x1_0000_0000)
        by (nonlinear_arith)
        requires
            ax <= 0x1_0000_0000,
            ay <= 0x1_0000_0000,
    ;
    ax * ax + ay * ay
}

} // verus!
