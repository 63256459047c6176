use vstd::prelude::*;

verus! {

/// A grid position for path planning.
#[derive(Clone, Copy, Debug, PartialEq, Eq, Hash, Structural)]
pub struct GridPos {
    pub x: i32,
    pub y: i32,
}

pub open spec fn abs(v: int) -> int {
    if v < 0 { -v } else { v }
}

/// The Manhattan (4-connected) distance between two positions.
pub open spec fn manhattan(a: GridPos, b: GridPos) -> int {
    abs(a.x - b.x) + abs(a.y - b.y)
}

impl GridPos {
    pub fn new(x: i32, y: i32) -> (p: GridPos)
        ensures
            p.x == x,
            p.y == y,
    {
        GridPos { x, y }
    }

    /// Manhattan distance; the sum of the coordinate differences must fit in an
    /// `i32`: the computation is done in `i32` arithmetic.
    pub fn manhattan_to(&self, other: &GridPos) -> (d: i32)
        requires
            manhattan(*self, *other) <= i32::MAX,
        ensures
            d == manhattan(*self, *other),
            d == (if self.x >= other.x { self.x - other.x } else { other.x - self.x }) + (if self.y
                >= other.y {
                self.y - other.y
            } else {
                other.y - self.y
            }),
    {
        let dx = self.x - other.x;
        let dy = self.y - other.y;
        let ax = if dx < 0 { -dx } else { dx };
        let ay = if dy < 0 { -dy } else { dy };
        ax + ay
    }
}

/// The Manhattan distance is symmetric, never negative, zero exactly between equal
/// positions, and obeys the triangle inequality.
pub proof fn lemma_manhattan_metric(a: GridPos, b: GridPos, c: GridPos)
    ensures
        manhattan(a, b) == manhattan(b, a),
        manhattan(a, b) >= 0,
        manhattan(a, b) == 0 <==> a == b,
        manhattan(a, c) <= manhattan(a, b) + manhattan(b, c),
{
}

/// The Manhattan distance is the distance along x plus the distance along y.
pub proof fn lemma_manhattan_formula(a: GridPos, b: GridPos)
    ensures
        manhattan(a, b) == (if a.x >= b.x { a.x - b.x } else { b.x - a.x }) + (if a.y >= b.y {
            a.y - b.y
        } else {
            b.y - a.y
        }),
{
}

/// Shifting both positions by the same offset keeps their Manhattan distance,
/// and a position lies from its shifted copy at the offset's size.
pub proof fn lemma_manhattan_translation(a: GridPos, b: GridPos, c: GridPos, d: GridPos, tx: int, ty: int)
    requires
        c.x == a.x + tx,
        c.y == a.y + ty,
        d.x == b.x + tx,
        d.y == b.y + ty,
    ensures
        manhattan(c, d) == manhattan(a, b),
        manhattan(a, c) == (if tx >= 0 { tx } else { -tx }) + (if ty >= 0 { ty } else { -ty }),
{
}

/// Ternary obstacle: Free (traversable), Unknown (possibly blocked, treated as
/// traversable), Blocked (impassable).
#[derive(Clone, Copy, Debug, PartialEq, Eq, Structural)]
pub enum TernaryObstacle {
    Unknown,
    Free,
    Blocked,
}

} // verus!
