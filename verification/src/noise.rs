use vstd::prelude::*;

use crate::geom::{
    dist2, dist2i, dist2_exec, isqrt, lemma_dist2_bounded, lemma_sqrt_floor_monotone, sqrt_floor,
    valid_point, Point, SCALE,
};

verus! {

pub open spec fn min2(a: int, b: int) -> int {
    if a <= b {
        a
    } else {
        b
    }
}

/// The squared distance from `(ux, uy)` to the nearest point of `s`.
pub open spec fn min_d2(ux: int, uy: int, s: Seq<Point>) -> int
    recommends
        s.len() >= 1,
    decreases s.len(),
{
    if s.len() <= 1 {
        dist2i(ux, uy, s[0].x as int, s[0].y as int)
    } else {
        min2(min_d2(ux, uy, s.drop_last()), dist2i(ux, uy, s.last().x as int, s.last().y as int))
    }
}

pub proof fn lemma_dist2i_nonneg(ax: int, ay: int, bx: int, by: int)
    ensures
        dist2i(ax, ay, bx, by) >= 0,
{
    assert((ax - bx) * (ax - bx) >= 0) by (nonlinear_arith);
    assert((ay - by) * (ay - by) >= 0) by (nonlinear_arith);
}

/// The nearest squared distance is no larger than the squared distance to any
/// single point of the set.
pub proof fn lemma_min_d2_le(ux: int, uy: int, s: Seq<Point>, i: int)
    requires
        0 <= i < s.len(),
    ensures
        min_d2(ux, uy, s) <= dist2i(ux, uy, s[i].x as int, s[i].y as int),
    decreases s.len(),
{
    if s.len() > 1 && i < s.len() - 1 {
        lemma_min_d2_le(ux, uy, s.drop_last(), i);
        assert(s.drop_last()[i] == s[i]);
    }
}

pub proof fn lemma_min_d2_nonneg(ux: int, uy: int, s: Seq<Point>)
    requires
        s.len() >= 1,
    ensures
        min_d2(ux, uy, s) >= 0,
    decreases s.len(),
{
    if s.len() == 1 {
        lemma_dist2i_nonneg(ux, uy, s[0].x as int, s[0].y as int);
    } else {
        lemma_min_d2_nonneg(ux, uy, s.drop_last());
        lemma_dist2i_nonneg(ux, uy, s.last().x as int, s.last().y as int);
    }
}

pub open spec fn clamp_scale(v: int) -> int {
    if v >= SCALE as int {
        SCALE as int
    } else {
        v
    }
}

/// The intensity of the noise field at `(ux, uy)`: the distance to the nearest
/// feature point, scaled by `shrink` and saturated at one unit, subtracted
/// from full intensity. Highest exactly at a feature point, falling off with
/// distance, and zero once the scaled distance reaches a full unit.
pub open spec fn spec_evaluate(ux: int, uy: int, s: Seq<Point>, shrink: int) -> int
    recommends
        s.len() >= 1,
        shrink >= 0,
{
    SCALE - clamp_scale(shrink * sqrt_floor(min_d2(ux, uy, s) as nat))
}

pub proof fn lemma_evaluate_bounds(ux: int, uy: int, s: Seq<Point>, shrink: int)
    requires
        s.len() >= 1,
        shrink >= 0,
    ensures
        0 <= spec_evaluate(ux, uy, s, shrink) <= SCALE,
{
    let r = sqrt_floor(min_d2(ux, uy, s) as nat) as int;
    assert(shrink * r >= 0) by (nonlinear_arith)
        requires shrink >= 0 && r >= 0;
}

/// The noise field attains full intensity exactly on a feature point.
pub proof fn lemma_evaluate_at_feature(ux: int, uy: int, s: Seq<Point>, shrink: int, i: int)
    requires
        0 <= i < s.len(),
        s[i].x == ux,
        s[i].y == uy,
        shrink >= 0,
    ensures
        spec_evaluate(ux, uy, s, shrink) == SCALE,
{
    lemma_min_d2_le(ux, uy, s, i);
    lemma_min_d2_nonneg(ux, uy, s);
    assert(dist2i(ux, uy, s[i].x as int, s[i].y as int) == 0);
    assert(min_d2(ux, uy, s) == 0);
    assert(sqrt_floor(0nat) == 0);
    assert(shrink * sqrt_floor(min_d2(ux, uy, s) as nat) == 0) by (nonlinear_arith)
        requires sqrt_floor(min_d2(ux, uy, s) as nat) == 0;
}

/// Intensity never increases as the squared distance to the nearest feature
/// point grows: the field falls off monotonically away from its seeds.
pub proof fn lemma_evaluate_monotone(
    ux1: int,
    uy1: int,
    ux2: int,
    uy2: int,
    s: Seq<Point>,
    shrink: int,
)
    requires
        s.len() >= 1,
        shrink >= 0,
        min_d2(ux1, uy1, s) <= min_d2(ux2, uy2, s),
    ensures
        spec_evaluate(ux1, uy1, s, shrink) >= spec_evaluate(ux2, uy2, s, shrink),
{
    lemma_min_d2_nonneg(ux1, uy1, s);
    lemma_min_d2_nonneg(ux2, uy2, s);
    lemma_sqrt_floor_monotone(min_d2(ux1, uy1, s) as nat, min_d2(ux2, uy2, s) as nat);
    let r1 = sqrt_floor(min_d2(ux1, uy1, s) as nat) as int;
    let r2 = sqrt_floor(min_d2(ux2, uy2, s) as nat) as int;
    assert(shrink * r1 <= shrink * r2) by (nonlinear_arith)
        requires shrink >= 0 && 0 <= r1 <= r2;
}

/// Evaluates the noise field at one sample coordinate against the full point
/// set: scans every feature point for the nearest squared distance, takes its
/// integer square root, scales it by `shrink` and saturates.
pub fn evaluate(uv: Point, points: &Vec<Point>, shrink: u32) -> (v: u32)
    requires
        points@.len() >= 1,
        valid_point(uv),
        forall|i: int| 0 <= i < points@.len() ==> valid_point(points@[i]),
    ensures
        v == spec_evaluate(uv.x as int, uv.y as int, points@, shrink as int),
        v <= SCALE,
{
    let ghost ux = uv.x as int;
    let ghost uy = uv.y as int;
    let mut best: u64 = dist2_exec(uv, points[0]);
    proof {
        lemma_dist2_bounded(uv, points@[0]);
        assert(points@.take(1)[0] == points@[0]);
    }
    let mut i: usize = 1;
    while i < points.len()
        invariant
            1 <= i <= points@.len(),
            valid_point(uv),
            forall|k: int| 0 <= k < points@.len() ==> valid_point(points@[k]),
            best == min_d2(ux, uy, points@.take(i as int)),
            best <= 2 * (SCALE as u64) * (SCALE as u64),
            ux == uv.x as int,
            uy == uv.y as int,
        decreases points@.len() - i,
    {
        let d = dist2_exec(uv, points[i]);
        proof {
            lemma_dist2_bounded(uv, points@[i as int]);
            let t = points@.take(i as int + 1);
            assert(t.drop_last() =~= points@.take(i as int));
            assert(t.last() == points@[i as int]);
        }
        if d < best {
            best = d;
        }
        i = i + 1;
    }
    proof {
        assert(points@.take(points@.len() as int) =~= points@);
    }
    let root = isqrt(best);
    proof {
        assert(root <= 0x20000) by (nonlinear_arith)
            requires root * root <= best && best < 0x400000000u64 && root >= 0;
        assert((shrink as u64) * root <= 0xffffffffu64 * 0x20000u64) by (nonlinear_arith)
            requires shrink <= 0xffffffffu64 && root <= 0x20000u64;
    }
    let scaled: u64 = (shrink as u64) * root;
    let clamped: u64 = if scaled >= SCALE as u64 {
        SCALE as u64
    } else {
        scaled
    };
    (SCALE as u64 - clamped) as u32
}

/// The quantization of a fixed-point intensity to one 8-bit pixel value.
pub open spec fn quantize(v: int) -> int {
    255 * v / (SCALE as int)
}

/// Quantizes a fixed-point intensity in [0, SCALE] to an 8-bit pixel value.
/// Full intensity maps to 255 and zero intensity to 0.
pub fn quantize_exec(v: u32) -> (p: u8)
    requires
        v <= SCALE,
    ensures
        p == quantize(v as int),
        v == SCALE ==> p == 255,
{
    let prod: u64 = 255u64 * (v as u64);
    let q: u64 = prod / 65536u64;
    proof {
        vstd::arithmetic::div_mod::lemma_div_is_ordered(prod as int, (255 * 65536) as int, 65536int);
        assert((255 * 65536) as int / 65536int == 255);
    }
    q as u8
}

} // verus!
