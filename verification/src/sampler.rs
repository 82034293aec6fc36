use vstd::prelude::*;

use crate::geom::{dist2, dist2_exec, lemma_dist2_translation, valid_point, Point, SCALE};

verus! {

/// A small linear-congruential pseudorandom generator. It drives candidate
/// placement only; nothing about the noise field depends on its quality, and
/// a fixed seed reproduces a point set exactly.
pub struct Rng {
    state: u64,
}

impl Rng {
    pub closed spec fn wf(self) -> bool {
        self.state < 0x7fffffff
    }

    pub fn new(seed: u64) -> (r: Rng)
        ensures
            r.wf(),
    {
        Rng { state: seed % 0x7fffffff }
    }

    /// Draws one pseudorandom fixed-point coordinate from [0, SCALE).
    fn next_frac(&mut self) -> (r: u32)
        requires
            old(self).wf(),
        ensures
            final(self).wf(),
            r < SCALE,
    {
        let next = (self.state * 48271 + 11) % 0x7fffffff;
        self.state = next;
        (next % 65536) as u32
    }
}

/// The tunables of the point-placement procedure.
pub struct SamplerConfig {
    /// Number of points in each of the four edge bands.
    pub edge_band: usize,
    /// Total number of feature points, edge bands included.
    pub total: usize,
    /// Minimum-separation radius, in fixed-point units.
    pub min_radius: u32,
    /// How many candidates may be drawn for one slot before the last is
    /// accepted regardless of separation.
    pub budget: u32,
}

impl SamplerConfig {
    pub open spec fn wf(self) -> bool {
        &&& 4 * self.edge_band <= self.total
        &&& self.budget >= 1
        &&& self.min_radius <= SCALE
    }
}

/// The squared separation floor: candidates closer than twice the minimum
/// radius to an accepted point are retried.
pub open spec fn sep2(cfg: SamplerConfig) -> int {
    4 * (cfg.min_radius as int) * (cfg.min_radius as int)
}

fn sep2_exec(cfg: &SamplerConfig) -> (s2: u64)
    requires
        cfg.wf(),
    ensures
        s2 == sep2(*cfg),
{
    let two_r: u64 = 2 * (cfg.min_radius as u64);
    proof {
        assert(two_r * two_r <= 0x20000u64 * 0x20000u64) by (nonlinear_arith)
            requires two_r <= 0x20000u64;
        assert((2 * (cfg.min_radius as int)) * (2 * (cfg.min_radius as int)) == 4 * (
        cfg.min_radius as int) * (cfg.min_radius as int)) by (nonlinear_arith);
    }
    two_r * two_r
}

/// Slots `0..k` hold the top edge band.
pub open spec fn in_top(k: int, i: int) -> bool {
    0 <= i < k
}

/// Slots `k..2k` hold the bottom edge band, each the translation of its top
/// partner by one unit downward.
pub open spec fn in_bottom(k: int, i: int) -> bool {
    k <= i < 2 * k
}

/// Slots `2k..3k` hold the left edge band.
pub open spec fn in_left(k: int, i: int) -> bool {
    2 * k <= i < 3 * k
}

/// Slots `3k..4k` hold the right edge band, each the translation of its left
/// partner by one unit rightward.
pub open spec fn in_right(k: int, i: int) -> bool {
    3 * k <= i < 4 * k
}

/// Slots `4k..total` hold the interior points.
pub open spec fn in_interior(k: int, total: int, i: int) -> bool {
    4 * k <= i < total
}

/// The slots whose candidates go through the separation check; bottom and
/// right slots are copies and are never checked themselves.
pub open spec fn checked_slot(k: int, total: int, i: int) -> bool {
    in_top(k, i) || in_left(k, i) || in_interior(k, total, i)
}

/// Slot `i` is the edge partner that slot `j` was copied from.
pub open spec fn paired(k: int, i: int, j: int) -> bool {
    (in_bottom(k, j) || in_right(k, j)) && i == j - k
}

/// The band structure of a fully or partially placed point sequence: every
/// point lies in the unit square, top points sit on the top edge, bottom and
/// right points are exact one-unit translations of their partners (sharing
/// their partner's exhaustion flag), left points sit on the left edge, and
/// interior points lie strictly inside.
pub open spec fn bands_ok(k: int, pts: Seq<Point>, ex: Seq<bool>) -> bool {
    &&& forall|i: int| 0 <= i < pts.len() ==> valid_point(#[trigger] pts[i])
    &&& forall|i: int|
        0 <= i < pts.len() && i < k ==> (#[trigger] pts[i]).y == 0 && pts[i].x < SCALE
    &&& forall|i: int|
        k <= i < pts.len() && i < 2 * k ==> (#[trigger] pts[i]).x == pts[i - k].x && pts[i].y
            == pts[i - k].y + SCALE && ex[i] == ex[i - k]
    &&& forall|i: int|
        2 * k <= i < pts.len() && i < 3 * k ==> (#[trigger] pts[i]).x == 0 && pts[i].y < SCALE
    &&& forall|i: int|
        3 * k <= i < pts.len() && i < 4 * k ==> (#[trigger] pts[i]).x == pts[i - k].x + SCALE
            && pts[i].y == pts[i - k].y && ex[i] == ex[i - k]
    &&& forall|i: int|
        4 * k <= i < pts.len() ==> (#[trigger] pts[i]).x < SCALE && pts[i].y < SCALE
}

/// Every checked slot accepted within budget keeps the separation floor to
/// every point placed before it.
pub open spec fn separated_ok(cfg: SamplerConfig, pts: Seq<Point>, ex: Seq<bool>) -> bool {
    forall|a: int, b: int|
        0 <= a < b < pts.len() && checked_slot(cfg.edge_band as int, cfg.total as int, b)
            && !ex[b] ==> dist2(#[trigger] pts[a], #[trigger] pts[b]) >= sep2(cfg)
}

/// What point placement guarantees of its result.
pub open spec fn sampled_ok(cfg: SamplerConfig, pts: Seq<Point>, ex: Seq<bool>) -> bool {
    &&& pts.len() == cfg.total
    &&& ex.len() == cfg.total
    &&& bands_ok(cfg.edge_band as int, pts, ex)
    &&& separated_ok(cfg, pts, ex)
}

/// One unit of separation along either axis keeps any two points of the unit
/// square at least twice the minimum radius apart.
proof fn lemma_axis_separation(cfg: SamplerConfig, a: Point, b: Point)
    requires
        cfg.wf(),
        2 * cfg.min_radius <= SCALE,
        a.x as int - b.x as int == SCALE as int || b.x as int - a.x as int == SCALE as int
            || a.y as int - b.y as int == SCALE as int || b.y as int - a.y as int == SCALE as int,
    ensures
        dist2(a, b) >= sep2(cfg),
{
    let dx = a.x as int - b.x as int;
    let dy = a.y as int - b.y as int;
    assert(dx * dx >= 0) by (nonlinear_arith);
    assert(dy * dy >= 0) by (nonlinear_arith);
    if dx == SCALE as int || dx == -(SCALE as int) {
        assert(dx * dx == (SCALE as int) * (SCALE as int)) by (nonlinear_arith)
            requires dx == SCALE as int || dx == -(SCALE as int);
    } else {
        assert(dy * dy == (SCALE as int) * (SCALE as int)) by (nonlinear_arith)
            requires dy == SCALE as int || dy == -(SCALE as int);
    }
    assert(4 * (cfg.min_radius as int) * (cfg.min_radius as int) <= (SCALE as int) * (
    SCALE as int)) by (nonlinear_arith)
        requires 0 <= 2 * (cfg.min_radius as int) <= SCALE as int;
}

/// Every bottom-band point is exactly its top partner translated by one unit
/// downward, and every right-band point exactly its left partner translated by
/// one unit rightward — the copy is bit for bit, never a resample.
pub proof fn lemma_edge_translation(cfg: SamplerConfig, pts: Seq<Point>, ex: Seq<bool>, j: int)
    requires
        cfg.wf(),
        sampled_ok(cfg, pts, ex),
        in_bottom(cfg.edge_band as int, j) || in_right(cfg.edge_band as int, j),
    ensures
        in_bottom(cfg.edge_band as int, j) ==> pts[j].x == pts[j - cfg.edge_band].x && pts[j].y
            == pts[j - cfg.edge_band].y + SCALE,
        in_right(cfg.edge_band as int, j) ==> pts[j].x == pts[j - cfg.edge_band].x + SCALE
            && pts[j].y == pts[j - cfg.edge_band].y,
{
}

/// Two distinct accepted points that are not an edge-translation pair keep a
/// Euclidean distance of at least twice the minimum radius, provided neither
/// slot exhausted its retry budget. Pairs of a horizontal-edge point (top or
/// bottom band) with a right-band copy are not covered: placement never checks
/// a copy against earlier points, and only for the remaining copy pairs does a
/// full unit of separation along one axis stand in for the check.
pub proof fn lemma_min_separation(cfg: SamplerConfig, pts: Seq<Point>, ex: Seq<bool>, i: int, j: int)
    requires
        cfg.wf(),
        sampled_ok(cfg, pts, ex),
        2 * cfg.min_radius <= SCALE,
        0 <= i < j < pts.len(),
        !paired(cfg.edge_band as int, i, j),
        !((in_top(cfg.edge_band as int, i) || in_bottom(cfg.edge_band as int, i)) && in_right(
            cfg.edge_band as int,
            j,
        )),
        !ex[i],
        !ex[j],
    ensures
        dist2(pts[i], pts[j]) >= sep2(cfg),
{
    let k = cfg.edge_band as int;
    let total = cfg.total as int;
    if checked_slot(k, total, j) {
        assert(dist2(pts[i], pts[j]) >= sep2(cfg));
    } else if in_bottom(k, j) {
        if in_top(k, i) {
            assert(pts[j - k].y == 0);
            assert(pts[j].y == pts[j - k].y + SCALE);
            assert(pts[i].y == 0);
            lemma_axis_separation(cfg, pts[i], pts[j]);
        } else {
            assert(in_bottom(k, i));
            let a = pts[i - k];
            let b = pts[j - k];
            assert(pts[i].x == a.x && pts[i].y == a.y + SCALE);
            assert(pts[j].x == b.x && pts[j].y == b.y + SCALE);
            lemma_dist2_translation(
                a.x as int,
                a.y as int,
                b.x as int,
                b.y as int,
                0,
                SCALE as int,
            );
            assert(checked_slot(k, total, j - k));
            assert(ex[j - k] == ex[j]);
            assert(dist2(a, b) >= sep2(cfg));
        }
    } else {
        assert(in_right(k, j));
        if in_left(k, i) {
            assert(pts[j - k].x == 0);
            assert(pts[j].x == pts[j - k].x + SCALE);
            assert(pts[i].x == 0);
            lemma_axis_separation(cfg, pts[i], pts[j]);
        } else {
            assert(in_right(k, i));
            let a = pts[i - k];
            let b = pts[j - k];
            assert(pts[i].x == a.x + SCALE && pts[i].y == a.y);
            assert(pts[j].x == b.x + SCALE && pts[j].y == b.y);
            lemma_dist2_translation(
                a.x as int,
                a.y as int,
                b.x as int,
                b.y as int,
                SCALE as int,
                0,
            );
            assert(checked_slot(k, total, j - k));
            assert(ex[j - k] == ex[j]);
            assert(dist2(a, b) >= sep2(cfg));
        }
    }
}

/// The full set of feature points, with one exhaustion flag per slot telling
/// whether the slot's candidate was accepted only because the retry budget
/// ran out.
pub struct PointSet {
    pub pts: Vec<Point>,
    pub exhausted: Vec<bool>,
}

#[derive(Clone, Copy)]
enum Band {
    Top,
    Left,
    Interior,
}

spec fn band_shape(band: Band, c: Point) -> bool {
    match band {
        Band::Top => c.y == 0 && c.x < SCALE,
        Band::Left => c.x == 0 && c.y < SCALE,
        Band::Interior => c.x < SCALE && c.y < SCALE,
    }
}

fn make_candidate(rng: &mut Rng, band: Band) -> (c: Point)
    requires
        old(rng).wf(),
    ensures
        final(rng).wf(),
        valid_point(c),
        band_shape(band, c),
{
    match band {
        Band::Top => {
            let x = rng.next_frac();
            Point { x, y: 0 }
        },
        Band::Left => {
            let y = rng.next_frac();
            Point { x: 0, y }
        },
        Band::Interior => {
            let x = rng.next_frac();
            let y = rng.next_frac();
            Point { x, y }
        },
    }
}

fn far_from_all(c: Point, pts: &Vec<Point>, s2: u64) -> (b: bool)
    requires
        valid_point(c),
        forall|i: int| 0 <= i < pts@.len() ==> valid_point(#[trigger] pts@[i]),
    ensures
        b <==> (forall|i: int| 0 <= i < pts@.len() ==> dist2(#[trigger] pts@[i], c) >= s2),
{
    let mut i: usize = 0;
    while i < pts.len()
        invariant
            i <= pts@.len(),
            valid_point(c),
            forall|t: int| 0 <= t < pts@.len() ==> valid_point(#[trigger] pts@[t]),
            forall|t: int| 0 <= t < i ==> dist2(#[trigger] pts@[t], c) >= s2,
        decreases pts@.len() - i,
    {
        let d = dist2_exec(pts[i], c);
        if d < s2 {
            return false;
        }
        i = i + 1;
    }
    true
}

/// Draws candidates for one slot until one keeps the separation floor to all
/// already-placed points, or the budget runs out, in which case the last
/// candidate is accepted regardless and the slot is flagged.
fn sample_slot(rng: &mut Rng, pts: &Vec<Point>, s2: u64, budget: u32, band: Band) -> (res: (
    Point,
    bool,
))
    requires
        old(rng).wf(),
        budget >= 1,
        forall|i: int| 0 <= i < pts@.len() ==> valid_point(#[trigger] pts@[i]),
    ensures
        final(rng).wf(),
        valid_point(res.0),
        band_shape(band, res.0),
        !res.1 ==> forall|i: int| 0 <= i < pts@.len() ==> dist2(#[trigger] pts@[i], res.0) >= s2,
{
    let mut c = make_candidate(rng, band);
    let mut attempt: u32 = 1;
    while attempt < budget
        invariant
            rng.wf(),
            valid_point(c),
            band_shape(band, c),
            forall|i: int| 0 <= i < pts@.len() ==> valid_point(#[trigger] pts@[i]),
        decreases budget - attempt,
    {
        if far_from_all(c, pts, s2) {
            return (c, false);
        }
        c = make_candidate(rng, band);
        attempt = attempt + 1;
    }
    if far_from_all(c, pts, s2) {
        return (c, false);
    }
    (c, true)
}

/// Places the full point set: the top edge band with separation retries, its
/// bottom translation, the left edge band with retries, its right translation,
/// then the interior points, each checked against everything placed so far.
/// Budget exhaustion is recorded per slot, never reported as an error.
pub fn sample_points(cfg: &SamplerConfig, rng: &mut Rng) -> (ps: PointSet)
    requires
        cfg.wf(),
        old(rng).wf(),
    ensures
        final(rng).wf(),
        sampled_ok(*cfg, ps.pts@, ps.exhausted@),
{
    let ghost k = cfg.edge_band as int;
    let s2 = sep2_exec(cfg);
    let mut pts: Vec<Point> = Vec::new();
    let mut ex: Vec<bool> = Vec::new();
    let mut i: usize = 0;
    while i < cfg.edge_band
        invariant
            cfg.wf(),
            rng.wf(),
            k == cfg.edge_band as int,
            s2 == sep2(*cfg),
            i <= cfg.edge_band,
            pts@.len() == i,
            ex@.len() == i,
            bands_ok(k, pts@, ex@),
            separated_ok(*cfg, pts@, ex@),
        decreases cfg.edge_band - i,
    {
        let (c, f) = sample_slot(rng, &pts, s2, cfg.budget, Band::Top);
        pts.push(c);
        ex.push(f);
        i = i + 1;
    }
    let mut i: usize = 0;
    while i < cfg.edge_band
        invariant
            cfg.wf(),
            rng.wf(),
            k == cfg.edge_band as int,
            s2 == sep2(*cfg),
            i <= cfg.edge_band,
            pts@.len() == cfg.edge_band + i,
            ex@.len() == cfg.edge_band + i,
            bands_ok(k, pts@, ex@),
            separated_ok(*cfg, pts@, ex@),
        decreases cfg.edge_band - i,
    {
        let t = pts[i];
        let f = ex[i];
        pts.push(Point { x: t.x, y: t.y + SCALE });
        ex.push(f);
        i = i + 1;
    }
    let mut i: usize = 0;
    while i < cfg.edge_band
        invariant
            cfg.wf(),
            rng.wf(),
            k == cfg.edge_band as int,
            s2 == sep2(*cfg),
            i <= cfg.edge_band,
            pts@.len() == 2 * cfg.edge_band + i,
            ex@.len() == 2 * cfg.edge_band + i,
            bands_ok(k, pts@, ex@),
            separated_ok(*cfg, pts@, ex@),
        decreases cfg.edge_band - i,
    {
        let (c, f) = sample_slot(rng, &pts, s2, cfg.budget, Band::Left);
        pts.push(c);
        ex.push(f);
        i = i + 1;
    }
    let mut i: usize = 0;
    while i < cfg.edge_band
        invariant
            cfg.wf(),
            rng.wf(),
            k == cfg.edge_band as int,
            s2 == sep2(*cfg),
            i <= cfg.edge_band,
            pts@.len() == 3 * cfg.edge_band + i,
            ex@.len() == 3 * cfg.edge_band + i,
            bands_ok(k, pts@, ex@),
            separated_ok(*cfg, pts@, ex@),
        decreases cfg.edge_band - i,
    {
        let t = pts[2 * cfg.edge_band + i];
        let f = ex[2 * cfg.edge_band + i];
        pts.push(Point { x: t.x + SCALE, y: t.y });
        ex.push(f);
        proof {
            let m = (pts@.len() - 1) as int;
            assert(m == 3 * k + i);
            assert(pts@[m - k] == t);
            assert(t.x == 0);
            assert(pts@[m].x == pts@[m - k].x + SCALE);
            assert(ex@[m] == ex@[m - k]);
            assert forall|i0: int| 0 <= i0 < pts@.len() implies valid_point(pts@[i0]) by {}
            assert forall|i0: int| 0 <= i0 < pts@.len() && i0 < k implies pts@[i0].y == 0
                && pts@[i0].x < SCALE by {}
            assert forall|i0: int|
                k <= i0 < pts@.len() && i0 < 2 * k implies (#[trigger] pts@[i0]).x == pts@[i0
                - k].x && pts@[i0].y == pts@[i0 - k].y + SCALE && ex@[i0] == ex@[i0 - k] by {}
            assert forall|i0: int|
                2 * k <= i0 < pts@.len() && i0 < 3 * k implies pts@[i0].x == 0
                && pts@[i0].y < SCALE by {}
            assert forall|i0: int|
                3 * k <= i0 < pts@.len() && i0 < 4 * k implies (#[trigger] pts@[i0]).x == pts@[
                i0 - k].x + SCALE && pts@[i0].y == pts@[i0 - k].y && ex@[i0] == ex@[i0 - k] by {}
            assert forall|i0: int| 4 * k <= i0 < pts@.len() implies pts@[i0].x < SCALE
                && pts@[i0].y < SCALE by {}
        }
        i = i + 1;
    }
    while pts.len() < cfg.total
        invariant
            cfg.wf(),
            rng.wf(),
            k == cfg.edge_band as int,
            s2 == sep2(*cfg),
            4 * cfg.edge_band <= pts@.len() <= cfg.total,
            ex@.len() == pts@.len(),
            bands_ok(k, pts@, ex@),
            separated_ok(*cfg, pts@, ex@),
        decreases cfg.total - pts@.len(),
    {
        let (c, f) = sample_slot(rng, &pts, s2, cfg.budget, Band::Interior);
        pts.push(c);
        ex.push(f);
        proof {
            assert forall|i0: int| 0 <= i0 < pts@.len() implies valid_point(pts@[i0]) by {}
            assert forall|i0: int| 0 <= i0 < pts@.len() && i0 < k implies pts@[i0].y == 0
                && pts@[i0].x < SCALE by {}
            assert forall|i0: int|
                k <= i0 < pts@.len() && i0 < 2 * k implies (#[trigger] pts@[i0]).x == pts@[i0
                - k].x && pts@[i0].y == pts@[i0 - k].y + SCALE && ex@[i0] == ex@[i0 - k] by {}
            assert forall|i0: int|
                2 * k <= i0 < pts@.len() && i0 < 3 * k implies pts@[i0].x == 0
                && pts@[i0].y < SCALE by {}
            assert forall|i0: int|
                3 * k <= i0 < pts@.len() && i0 < 4 * k implies (#[trigger] pts@[i0]).x == pts@[
                i0 - k].x + SCALE && pts@[i0].y == pts@[i0 - k].y && ex@[i0] == ex@[i0 - k] by {}
            assert forall|i0: int| 4 * k <= i0 < pts@.len() implies pts@[i0].x < SCALE
                && pts@[i0].y < SCALE by {}
        }
    }
    PointSet { pts, exhausted: ex }
}

} // verus!
