use vstd::prelude::*;

verus! {

/// Number of fixed-point steps per unit of normalized image space.
///
/// A coordinate in the unit square [0,1] is stored as an integer number of
/// steps, so `SCALE` itself stands for the value 1.0. Interior coordinates lie
/// in [0, SCALE); points copied across an edge may sit exactly at SCALE.
pub const SCALE: u32 = 65536;

/// A feature point of the noise field, in fixed-point unit-square coordinates.
#[derive(Clone, Copy, PartialEq, Eq, Structural, Debug)]
pub struct Point {
    pub x: u32,
    pub y: u32,
}

/// A coordinate of the unit square, possibly sitting on its far edge.
pub open spec fn valid_point(p: Point) -> bool {
    p.x <= SCALE && p.y <= SCALE
}

/// Squared Euclidean distance between two coordinates.
pub open spec fn dist2i(ax: int, ay: int, bx: int, by: int) -> int {
    (ax - bx) * (ax - bx) + (ay - by) * (ay - by)
}

/// Squared Euclidean distance between two points.
pub open spec fn dist2(a: Point, b: Point) -> int {
    dist2i(a.x as int, a.y as int, b.x as int, b.y as int)
}

pub proof fn lemma_dist2_bounded(a: Point, b: Point)
    requires
        valid_point(a),
        valid_point(b),
    ensures
        0 <= dist2(a, b) <= 2 * (SCALE as int) * (SCALE as int),
{
    let dx = a.x as int - b.x as int;
    let dy = a.y as int - b.y as int;
    assert(dx * dx >= 0 && dx * dx <= (SCALE as int) * (SCALE as int)) by (nonlinear_arith)
        requires -(SCALE as int) <= dx <= SCALE as int;
    assert(dy * dy >= 0 && dy * dy <= (SCALE as int) * (SCALE as int)) by (nonlinear_arith)
        requires -(SCALE as int) <= dy <= SCALE as int;
}

/// Squared distance is unchanged when both points are translated alike.
pub proof fn lemma_dist2_translation(ax: int, ay: int, bx: int, by: int, tx: int, ty: int)
    ensures
        dist2i(ax + tx, ay + ty, bx + tx, by + ty) == dist2i(ax, ay, bx, by),
{
}

/// Computes the squared distance between two points of the unit square.
pub fn dist2_exec(a: Point, b: Point) -> (d: u64)
    requires
        valid_point(a),
        valid_point(b),
    ensures
        d == dist2(a, b),
{
    let dx: u64 = if a.x >= b.x { (a.x - b.x) as u64 } else { (b.x - a.x) as u64 };
    let dy: u64 = if a.y >= b.y { (a.y - b.y) as u64 } else { (b.y - a.y) as u64 };
    proof {
        let dxi = a.x as int - b.x as int;
        let dyi = a.y as int - b.y as int;
        assert(dx * dx == dxi * dxi) by (nonlinear_arith)
            requires dx == dxi || dx == -dxi, dx <= SCALE;
        assert(dy * dy == dyi * dyi) by (nonlinear_arith)
            requires dy == dyi || dy == -dyi, dy <= SCALE;
        assert(dx * dx <= (SCALE as u64) * (SCALE as u64)) by (nonlinear_arith)
            requires dx <= SCALE as u64;
        assert(dy * dy <= (SCALE as u64) * (SCALE as u64)) by (nonlinear_arith)
            requires dy <= SCALE as u64;
    }
    dx * dx + dy * dy
}

/// The integer square root, rounded down.
pub open spec fn sqrt_floor(n: nat) -> nat
    decreases n,
{
    if n == 0 {
        0
    } else {
        let r = sqrt_floor((n - 1) as nat);
        if (r + 1) * (r + 1) <= n {
            r + 1
        } else {
            r
        }
    }
}

pub proof fn lemma_sqrt_floor_bracket(n: nat)
    ensures
        sqrt_floor(n) * sqrt_floor(n) <= n,
        n < (sqrt_floor(n) + 1) * (sqrt_floor(n) + 1),
    decreases n,
{
    if n > 0 {
        lemma_sqrt_floor_bracket((n - 1) as nat);
        let r = sqrt_floor((n - 1) as nat);
        if (r + 1) * (r + 1) <= n {
            assert(sqrt_floor(n) == r + 1);
            assert(n - 1 < (r + 1) * (r + 1));
            assert(n == (r + 1) * (r + 1));
            assert((r + 1) * (r + 1) < (r + 2) * (r + 2)) by (nonlinear_arith);
            assert(n < (sqrt_floor(n) + 1) * (sqrt_floor(n) + 1));
        } else {
            assert(sqrt_floor(n) == r);
            assert(n < (r + 1) * (r + 1));
            assert(n < (sqrt_floor(n) + 1) * (sqrt_floor(n) + 1));
        }
    } else {
        assert(sqrt_floor(n) == 0);
        assert(n < (sqrt_floor(n) + 1) * (sqrt_floor(n) + 1)) by (nonlinear_arith)
            requires n == 0 && sqrt_floor(n) == 0;
    }
}

pub proof fn lemma_sqrt_floor_unique(n: nat, r: nat)
    requires
        r * r <= n,
        n < (r + 1) * (r + 1),
    ensures
        r == sqrt_floor(n),
{
    lemma_sqrt_floor_bracket(n);
    let s = sqrt_floor(n);
    if r < s {
        assert((r + 1) * (r + 1) <= s * s) by (nonlinear_arith)
            requires r + 1 <= s;
    }
    if s < r {
        assert((s + 1) * (s + 1) <= r * r) by (nonlinear_arith)
            requires s + 1 <= r;
    }
}

pub proof fn lemma_sqrt_floor_monotone(a: nat, b: nat)
    requires
        a <= b,
    ensures
        sqrt_floor(a) <= sqrt_floor(b),
{
    lemma_sqrt_floor_bracket(a);
    lemma_sqrt_floor_bracket(b);
    let sa = sqrt_floor(a);
    let sb = sqrt_floor(b);
    if sb < sa {
        assert((sb + 1) * (sb + 1) <= sa * sa) by (nonlinear_arith)
            requires sb + 1 <= sa;
    }
}

/// Computes the integer square root by bisection.
pub fn isqrt(n: u64) -> (r: u64)
    requires
        n < 0x400000000,
    ensures
        r == sqrt_floor(n as nat),
        r * r <= n,
        n < (r + 1) * (r + 1),
{
    let mut lo: u64 = 0;
    let mut hi: u64 = 0x20000;
    while lo + 1 < hi
        invariant
            lo < hi <= 0x20000,
            lo * lo <= n,
            n < hi * hi,
        decreases hi - lo,
    {
        let mid = lo + (hi - lo) / 2;
        proof {
            assert(mid * mid <= 0x20000u64 * 0x20000u64) by (nonlinear_arith)
                requires mid <= 0x20000u64;
        }
        if mid * mid <= n {
            lo = mid;
        } else {
            hi = mid;
        }
    }
    proof {
        assert(hi * hi <= (lo + 1) * (lo + 1)) by (nonlinear_arith)
            requires hi <= lo + 1;
        lemma_sqrt_floor_unique(n as nat, lo as nat);
    }
    lo
}

} // verus!
