//! Points in 3-D integer space and their pairwise squared distances.

use vstd::prelude::*;

verus! {

/// A point with three non-negative integer coordinates, identified by its
/// position in the input list.
#[derive(Clone, Copy)]
pub struct Position {
    pub x: u32,
    pub y: u32,
    pub z: u32,
}

/// The square of an integer.
pub open spec fn sq(d: int) -> int {
    d * d
}

/// Squared Euclidean distance between two points, as a mathematical integer.
pub open spec fn sq_dist(p: Position, q: Position) -> int {
    sq(p.x - q.x) + sq(p.y - q.y) + sq(p.z - q.z)
}

/// All pairwise squared distances of the point sequence fit in signed 64-bit
/// arithmetic, which the distance computation requires.
pub open spec fn pairwise_fit(ps: Seq<Position>) -> bool {
    forall|i: int, j: int|
        0 <= i < ps.len() && 0 <= j < ps.len() ==> #[trigger] sq_dist(ps[i], ps[j]) <= i64::MAX
}

impl Position {
    /// Squared Euclidean distance to another point, computed in signed
    /// 64-bit arithmetic so that coordinate differences cannot underflow.
    pub fn dist(&self, other: &Self) -> (r: u64)
        requires
            sq_dist(*self, *other) <= i64::MAX,
        ensures
            r == sq_dist(*self, *other),
    {
        let dx = self.x as i64 - other.x as i64;
        let dy = self.y as i64 - other.y as i64;
        let dz = self.z as i64 - other.z as i64;
        proof {
            assert(dx * dx >= 0 && dy * dy >= 0 && dz * dz >= 0) by (nonlinear_arith);
        }
        (dx * dx + dy * dy + dz * dz) as u64
    }
}

/// The immutable list of input points.
pub struct PointSet {
    points: Vec<Position>,
}

impl View for PointSet {
    type V = Seq<Position>;

    closed spec fn view(&self) -> Seq<Position> {
        self.points@
    }
}

/// Decides whether the squared distance of one pair fits in signed 64-bit
/// arithmetic, without computing anything that could overflow.
fn pair_fits(p: &Position, q: &Position) -> (r: bool)
    ensures
        r == (sq_dist(*p, *q) <= i64::MAX),
{
    let dx: u64 = if p.x >= q.x {
        (p.x - q.x) as u64
    } else {
        (q.x - p.x) as u64
    };
    let dy: u64 = if p.y >= q.y {
        (p.y - q.y) as u64
    } else {
        (q.y - p.y) as u64
    };
    let dz: u64 = if p.z >= q.z {
        (p.z - q.z) as u64
    } else {
        (q.z - p.z) as u64
    };
    proof {
        assert(dx * dx == sq(p.x - q.x) && dy * dy == sq(p.y - q.y) && dz * dz == sq(p.z - q.z))
            by (nonlinear_arith)
            requires
                dx == (if p.x >= q.x { p.x - q.x } else { q.x - p.x }),
                dy == (if p.y >= q.y { p.y - q.y } else { q.y - p.y }),
                dz == (if p.z >= q.z { p.z - q.z } else { q.z - p.z }),
        ;
        assert(dx < 0x1_0000_0000 && dy < 0x1_0000_0000 && dz < 0x1_0000_0000);
        assert(dx * dx < 0x1_0000_0000_0000_0000_0000 && dy * dy < 0x1_0000_0000_0000_0000_0000
            && dz * dz < 0x1_0000_0000_0000_0000_0000) by (nonlinear_arith)
            requires
                dx < 0x1_0000_0000 && dy < 0x1_0000_0000 && dz < 0x1_0000_0000,
        ;
    }
    let sx = (dx as u128) * (dx as u128);
    let sy = (dy as u128) * (dy as u128);
    let sz = (dz as u128) * (dz as u128);
    sx + sy + sz <= i64::MAX as u128
}

impl PointSet {
    /// Every pairwise squared distance fits in signed 64-bit arithmetic; the
    /// input contract under which the engine's queries are defined.
    pub open spec fn wf(&self) -> bool {
        pairwise_fit(self@)
    }

    /// Builds a point set, rejecting inputs whose pairwise squared distances
    /// would not fit in signed 64-bit arithmetic.
    pub fn new(points: Vec<Position>) -> (r: Option<PointSet>)
        ensures
            match r {
                Some(ps) => ps.wf() && ps@ == points@ && pairwise_fit(points@),
                None => !pairwise_fit(points@),
            },
    {
        let n = points.len();
        let mut i: usize = 0;
        while i < n
            invariant
                n == points@.len(),
                i <= n,
                forall|a: int, b: int|
                    0 <= a < i && 0 <= b < n ==> #[trigger] sq_dist(points@[a], points@[b])
                        <= i64::MAX,
            decreases n - i,
        {
            let mut j: usize = 0;
            while j < n
                invariant
                    n == points@.len(),
                    i < n,
                    j <= n,
                    forall|a: int, b: int|
                        0 <= a < i && 0 <= b < n ==> #[trigger] sq_dist(points@[a], points@[b])
                            <= i64::MAX,
                    forall|b: int|
                        0 <= b < j ==> #[trigger] sq_dist(points@[i as int], points@[b])
                            <= i64::MAX,
                decreases n - j,
            {
                if !pair_fits(&points[i], &points[j]) {
                    return None;
                }
                j = j + 1;
            }
            i = i + 1;
        }
        Some(PointSet { points })
    }

    /// Number of points.
    pub fn len(&self) -> (r: usize)
        ensures
            r == self@.len(),
    {
        self.points.len()
    }

    /// The point at index `i`.
    pub fn point(&self, i: usize) -> (r: Position)
        requires
            i < self@.len(),
        ensures
            r == self@[i as int],
    {
        self.points[i]
    }
}

} // verus!
