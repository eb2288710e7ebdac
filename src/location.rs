use vstd::prelude::*;

verus! {

/// A cell position on the grid: column first, then row.
#[derive(Debug, Clone, Copy, PartialEq, Eq, Structural)]
pub struct Location(pub i32, pub i32);

/// The squared Euclidean distance between two positions.
pub open spec fn dist_sq_spec(a: Location, b: Location) -> int {
    (a.0 - b.0) * (a.0 - b.0) + (a.1 - b.1) * (a.1 - b.1)
}

/// A Euclidean distance, held exactly as the square of its value.
#[derive(Debug, Clone, Copy, PartialEq, Eq, Structural)]
pub struct Distance {
    pub squared: u64,
}

impl Location {
    /// The Euclidean distance between `start` and `dest`, as the square of its value.
    pub fn dist(start: Location, dest: Location) -> (r: Distance)
        requires
            dist_sq_spec(start, dest) <= u64::MAX,
        ensures
            r.squared == dist_sq_spec(start, dest),
    {
        let dx: i128 = start.0 as i128 - dest.0 as i128;
        let dy: i128 = start.1 as i128 - dest.1 as i128;
        assert(dx * dx <= 0x1_0000_0000_0000_0000) by (nonlinear_arith)
            requires -0x1_0000_0000 <= dx <= 0x1_0000_0000;
        assert(dy * dy <= 0x1_0000_0000_0000_0000) by (nonlinear_arith)
            requires -0x1_0000_0000 <= dy <= 0x1_0000_0000;
        assert(dx * dx >= 0 && dy * dy >= 0) by (nonlinear_arith);
        Distance { squared: (dx * dx + dy * dy) as u64 }
    }
}

/// Distance is symmetric, never negative, and zero exactly between equal positions.
pub proof fn lemma_dist_metric(a: Location, b: Location)
    ensures
        dist_sq_spec(a, b) == dist_sq_spec(b, a),
        dist_sq_spec(a, b) >= 0,
        dist_sq_spec(a, b) == 0 <==> a == b,
{
    let dx = a.0 - b.0;
    let dy = a.1 - b.1;
    assert(dx * dx == (b.0 - a.0) * (b.0 - a.0)) by (nonlinear_arith)
        requires dx == a.0 - b.0;
    assert(dy * dy == (b.1 - a.1) * (b.1 - a.1)) by (nonlinear_arith)
        requires dy == a.1 - b.1;
    assert(dx * dx >= 0 && dy * dy >= 0) by (nonlinear_arith);
    assert(dx * dx + dy * dy == 0 ==> dx == 0 && dy == 0) by (nonlinear_arith)
        requires dx * dx >= 0, dy * dy >= 0;
    if a == b {
        assert(dx * dx + dy * dy == 0) by (nonlinear_arith)
            requires dx == 0, dy == 0;
    }
    if dist_sq_spec(a, b) == 0 {
        assert(a.0 == b.0 && a.1 == b.1);
    }
}

} // verus!
