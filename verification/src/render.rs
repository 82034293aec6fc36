use vstd::prelude::*;

use vstd::arithmetic::div_mod::{
    lemma_fundamental_div_mod, lemma_fundamental_div_mod_converse, lemma_mod_bound,
    lemma_multiply_divide_lt,
};
use crate::geom::{valid_point, Point, SCALE};
use crate::n_space_util::n_space_unwrap;
use crate::noise::{evaluate, quantize, quantize_exec, spec_evaluate};

verus! {

/// The tunables of one full render.
pub struct RenderConfig {
    /// Output image width in pixels.
    pub width: usize,
    /// Output image height in pixels.
    pub height: usize,
    /// The image is partitioned into `grid_side` by `grid_side` equal tiles.
    pub grid_side: usize,
    /// Multiplier applied to the distance field before saturation.
    pub shrink: u32,
}

impl RenderConfig {
    /// Dimensions must divide evenly into the tile grid, so that the tiles
    /// partition the image exactly, and must fit the pixel-coordinate range
    /// of an 8-bit grayscale raster.
    pub open spec fn wf(self) -> bool {
        &&& 0 < self.grid_side <= self.width
        &&& self.grid_side <= self.height
        &&& self.width <= u32::MAX
        &&& self.height <= u32::MAX
        &&& self.width % self.grid_side == 0
        &&& self.height % self.grid_side == 0
        &&& self.width * self.height <= usize::MAX
    }

    pub open spec fn tile_w(self) -> int {
        self.width as int / self.grid_side as int
    }

    pub open spec fn tile_h(self) -> int {
        self.height as int / self.grid_side as int
    }
}

/// A nonempty point set whose members all lie in the unit square.
pub open spec fn points_ok(s: Seq<Point>) -> bool {
    &&& s.len() >= 1
    &&& forall|i: int| 0 <= i < s.len() ==> valid_point(#[trigger] s[i])
}

/// The fixed-point unit-square coordinate of pixel coordinate `gc` in an
/// image dimension of `dim` pixels.
pub open spec fn uv_of(gc: int, dim: int) -> int {
    gc * (SCALE as int) / dim
}

fn uv_coord(gc: usize, dim: usize) -> (r: u32)
    requires
        0 < dim <= u32::MAX,
        gc < dim,
    ensures
        r == uv_of(gc as int, dim as int),
        r < SCALE,
{
    let q: u64 = (gc as u64) * 65536 / (dim as u64);
    proof {
        assert((gc as int) * (SCALE as int) < (dim as int) * (SCALE as int)) by (nonlinear_arith)
            requires 0 <= gc < dim;
        lemma_multiply_divide_lt((gc as int) * (SCALE as int), dim as int, SCALE as int);
    }
    q as u32
}

/// The pixel value the render owes at global pixel coordinates `(gx, gy)`.
pub open spec fn pixel_at(cfg: RenderConfig, s: Seq<Point>, gx: int, gy: int) -> int {
    quantize(
        spec_evaluate(
            uv_of(gx, cfg.width as int),
            uv_of(gy, cfg.height as int),
            s,
            cfg.shrink as int,
        ),
    )
}

/// A fully rendered image: every pixel holds the noise value of its own
/// global coordinates, row-major.
pub open spec fn image_ok(cfg: RenderConfig, s: Seq<Point>, img: Seq<u8>) -> bool {
    &&& img.len() == cfg.width * cfg.height
    &&& forall|idx: int|
        0 <= idx < img.len() ==> #[trigger] img[idx] == pixel_at(
            cfg,
            s,
            idx % cfg.width as int,
            idx / cfg.width as int,
        )
}

/// Pixel `(gx, gy)` lies in the rectangular region of tile `n`.
pub open spec fn in_tile(cfg: RenderConfig, n: int, gx: int, gy: int) -> bool {
    let col = n % cfg.grid_side as int;
    let row = n / cfg.grid_side as int;
    &&& col * cfg.tile_w() <= gx < col * cfg.tile_w() + cfg.tile_w()
    &&& row * cfg.tile_h() <= gy < row * cfg.tile_h() + cfg.tile_h()
}

/// The index of the one tile that covers pixel `(gx, gy)`.
pub open spec fn tile_of(cfg: RenderConfig, gx: int, gy: int) -> int {
    (gy / cfg.tile_h()) * cfg.grid_side as int + gx / cfg.tile_w()
}

proof fn lemma_div_bracket(x: int, d: int, q: int)
    requires
        d > 0,
        q * d <= x < q * d + d,
    ensures
        x / d == q,
        x % d == x - q * d,
{
    lemma_fundamental_div_mod_converse(x, d, q, x - q * d);
}

proof fn lemma_div_gives_bracket(x: int, d: int)
    requires
        d > 0,
        x >= 0,
    ensures
        (x / d) * d <= x < (x / d) * d + d,
        x / d >= 0,
{
    lemma_fundamental_div_mod(x, d);
    lemma_mod_bound(x, d);
    assert(d * (x / d) == (x / d) * d) by (nonlinear_arith);
    if x / d < 0 {
        assert((x / d) * d <= -d) by (nonlinear_arith)
            requires x / d <= -1 && d > 0;
    }
}

/// The tile grid divides the image exactly: the image dimensions are the
/// grid side times the tile dimensions.
proof fn lemma_grid_exact(cfg: RenderConfig)
    requires
        cfg.wf(),
    ensures
        cfg.width as int == cfg.grid_side as int * cfg.tile_w(),
        cfg.height as int == cfg.grid_side as int * cfg.tile_h(),
        cfg.tile_w() > 0,
        cfg.tile_h() > 0,
{
    let g = cfg.grid_side as int;
    let w = cfg.width as int;
    let h = cfg.height as int;
    lemma_fundamental_div_mod(w, g);
    lemma_fundamental_div_mod(h, g);
    assert(w == g * cfg.tile_w());
    assert(h == g * cfg.tile_h());
    if cfg.tile_w() <= 0 {
        assert(g * cfg.tile_w() <= 0) by (nonlinear_arith)
            requires g > 0 && cfg.tile_w() <= 0;
    }
    if cfg.tile_h() <= 0 {
        assert(g * cfg.tile_h() <= 0) by (nonlinear_arith)
            requires g > 0 && cfg.tile_h() <= 0;
    }
}

/// Every pixel of the image lies in the region of exactly one tile: the one
/// `tile_of` names. Together with `lemma_tiles_disjoint` this says the tile
/// regions partition the image, with no overlap and no gap.
pub proof fn lemma_tiles_cover(cfg: RenderConfig, gx: int, gy: int)
    requires
        cfg.wf(),
        0 <= gx < cfg.width,
        0 <= gy < cfg.height,
    ensures
        0 <= tile_of(cfg, gx, gy) < cfg.grid_side * cfg.grid_side,
        in_tile(cfg, tile_of(cfg, gx, gy), gx, gy),
        forall|n: int|
            0 <= n < cfg.grid_side * cfg.grid_side && #[trigger] in_tile(cfg, n, gx, gy) ==> n
                == tile_of(cfg, gx, gy),
{
    let g = cfg.grid_side as int;
    let tw = cfg.tile_w();
    let th = cfg.tile_h();
    lemma_grid_exact(cfg);
    let qx = gx / tw;
    let qy = gy / th;
    lemma_div_gives_bracket(gx, tw);
    lemma_div_gives_bracket(gy, th);
    assert(gx < tw * g) by (nonlinear_arith)
        requires gx < g * tw;
    lemma_multiply_divide_lt(gx, tw, g);
    assert(gy < th * g) by (nonlinear_arith)
        requires gy < g * th;
    lemma_multiply_divide_lt(gy, th, g);
    let n0 = qy * g + qx;
    assert(n0 < g * g) by (nonlinear_arith)
        requires qy <= g - 1 && 0 <= qx < g && g > 0 && n0 == qy * g + qx;
    assert(n0 >= 0) by (nonlinear_arith)
        requires qy >= 0 && qx >= 0 && g > 0 && n0 == qy * g + qx;
    lemma_fundamental_div_mod_converse(n0, g, qy, qx);
    assert(in_tile(cfg, n0, gx, gy));
    assert forall|n: int|
        0 <= n < cfg.grid_side * cfg.grid_side && #[trigger] in_tile(cfg, n, gx, gy) implies n
        == n0 by {
        let col = n % g;
        let row = n / g;
        lemma_div_bracket(gx, tw, col);
        lemma_div_bracket(gy, th, row);
        lemma_fundamental_div_mod(n, g);
        assert(n == g * row + col);
        assert(g * row == row * g) by (nonlinear_arith);
    }
}

/// The grid column of tile `n`.
pub open spec fn tile_col(cfg: RenderConfig, n: int) -> int {
    n % cfg.grid_side as int
}

/// The grid row of tile `n`.
pub open spec fn tile_row(cfg: RenderConfig, n: int) -> int {
    n / cfg.grid_side as int
}

/// The global x coordinate of the pixel that slot `t` of tile `n` holds.
pub open spec fn tile_gx(cfg: RenderConfig, n: int, t: int) -> int {
    tile_col(cfg, n) * cfg.tile_w() + t % cfg.tile_w()
}

/// The global y coordinate of the pixel that slot `t` of tile `n` holds.
pub open spec fn tile_gy(cfg: RenderConfig, n: int, t: int) -> int {
    tile_row(cfg, n) * cfg.tile_h() + t / cfg.tile_w()
}

/// Slot `t` of tile `n` names a pixel inside tile `n`'s region, and its
/// row-major position in the full image recovers the same coordinates.
proof fn lemma_local_index(cfg: RenderConfig, n: int, t: int)
    requires
        cfg.wf(),
        0 <= n < cfg.grid_side * cfg.grid_side,
        0 <= t < cfg.tile_w() * cfg.tile_h(),
    ensures
        0 <= tile_col(cfg, n) < cfg.grid_side,
        0 <= tile_row(cfg, n) < cfg.grid_side,
        0 <= t % cfg.tile_w() < cfg.tile_w(),
        0 <= t / cfg.tile_w() < cfg.tile_h(),
        0 <= tile_gx(cfg, n, t) < cfg.width,
        0 <= tile_gy(cfg, n, t) < cfg.height,
        in_tile(cfg, n, tile_gx(cfg, n, t), tile_gy(cfg, n, t)),
        0 <= tile_gy(cfg, n, t) * cfg.width + tile_gx(cfg, n, t) < cfg.width * cfg.height,
        (tile_gy(cfg, n, t) * cfg.width + tile_gx(cfg, n, t)) % cfg.width as int == tile_gx(
            cfg,
            n,
            t,
        ),
        (tile_gy(cfg, n, t) * cfg.width + tile_gx(cfg, n, t)) / cfg.width as int == tile_gy(
            cfg,
            n,
            t,
        ),
{
    let g = cfg.grid_side as int;
    let w = cfg.width as int;
    let h = cfg.height as int;
    let tw = cfg.tile_w();
    let th = cfg.tile_h();
    lemma_grid_exact(cfg);
    lemma_mod_bound(n, g);
    lemma_div_gives_bracket(n, g);
    assert(n < g * g);
    lemma_multiply_divide_lt(n, g, g);
    lemma_mod_bound(t, tw);
    lemma_div_gives_bracket(t, tw);
    lemma_multiply_divide_lt(t, tw, th);
    let col = tile_col(cfg, n);
    let row = tile_row(cfg, n);
    let lx = t % tw;
    let ly = t / tw;
    let gx = tile_gx(cfg, n, t);
    let gy = tile_gy(cfg, n, t);
    assert(0 <= col * tw && col * tw + tw <= g * tw) by (nonlinear_arith)
        requires 0 <= col <= g - 1 && tw > 0;
    assert(0 <= row * th && row * th + th <= g * th) by (nonlinear_arith)
        requires 0 <= row <= g - 1 && th > 0;
    assert(0 <= gx < w);
    assert(0 <= gy < h);
    let dst = gy * w + gx;
    lemma_fundamental_div_mod_converse(dst, w, gy, gx);
    assert(gy * w + w <= h * w) by (nonlinear_arith)
        requires gy <= h - 1 && w > 0;
    assert(h * w == w * h) by (nonlinear_arith);
    assert(0 <= gy * w) by (nonlinear_arith)
        requires gy >= 0 && w > 0;
}

/// A pixel inside tile `n`'s region is held by exactly one slot of that tile,
/// recovered from its offsets within the region.
proof fn lemma_tile_index_of(cfg: RenderConfig, n: int, gx: int, gy: int)
    requires
        cfg.wf(),
        0 <= n < cfg.grid_side * cfg.grid_side,
        in_tile(cfg, n, gx, gy),
    ensures
        ({
            let t = (gy - tile_row(cfg, n) * cfg.tile_h()) * cfg.tile_w() + (gx - tile_col(cfg, n)
                * cfg.tile_w());
            &&& 0 <= t < cfg.tile_w() * cfg.tile_h()
            &&& tile_gx(cfg, n, t) == gx
            &&& tile_gy(cfg, n, t) == gy
        }),
{
    let tw = cfg.tile_w();
    let th = cfg.tile_h();
    lemma_grid_exact(cfg);
    let lx = gx - tile_col(cfg, n) * tw;
    let ly = gy - tile_row(cfg, n) * th;
    assert(0 <= lx < tw);
    assert(0 <= ly < th);
    let t = ly * tw + lx;
    lemma_fundamental_div_mod_converse(t, tw, ly, lx);
    assert(ly * tw + tw <= th * tw) by (nonlinear_arith)
        requires ly <= th - 1 && tw > 0;
    assert(th * tw == tw * th) by (nonlinear_arith);
    assert(0 <= ly * tw) by (nonlinear_arith)
        requires ly >= 0 && tw > 0;
}

/// No two distinct tiles claim the same pixel: the regions written during
/// compositing are disjoint.
pub proof fn lemma_tiles_disjoint(cfg: RenderConfig, n1: int, n2: int, gx: int, gy: int)
    requires
        cfg.wf(),
        0 <= n1 < cfg.grid_side * cfg.grid_side,
        0 <= n2 < cfg.grid_side * cfg.grid_side,
        n1 != n2,
        0 <= gx < cfg.width,
        0 <= gy < cfg.height,
    ensures
        !(in_tile(cfg, n1, gx, gy) && in_tile(cfg, n2, gx, gy)),
{
    lemma_tiles_cover(cfg, gx, gy);
}

/// Renders the rectangular region of tile `n`: every slot of the returned
/// buffer holds the noise value of the global pixel it stands for, in
/// row-major order local to the tile.
pub fn render_tile(cfg: &RenderConfig, points: &Vec<Point>, n: usize) -> (tile: Vec<u8>)
    requires
        cfg.wf(),
        points_ok(points@),
        n < cfg.grid_side * cfg.grid_side,
    ensures
        tile@.len() == cfg.tile_w() * cfg.tile_h(),
        forall|t: int|
            0 <= t < tile@.len() ==> #[trigger] tile@[t] == pixel_at(
                *cfg,
                points@,
                tile_gx(*cfg, n as int, t),
                tile_gy(*cfg, n as int, t),
            ),
{
    let g = cfg.grid_side;
    let tw = cfg.width / g;
    let th = cfg.height / g;
    proof {
        lemma_grid_exact(*cfg);
        assert((tw as int) * (th as int) <= (cfg.width as int) * (cfg.height as int))
            by (nonlinear_arith)
            requires
                0 <= tw as int <= cfg.width as int,
                0 <= th as int <= cfg.height as int,
        ;
        vstd::arithmetic::div_mod::lemma_div_nonincreasing(cfg.width as int, g as int);
        vstd::arithmetic::div_mod::lemma_div_nonincreasing(cfg.height as int, g as int);
    }
    let count = tw * th;
    let pos = n_space_unwrap(n, g);
    let col = pos[0] as usize;
    let row = pos[1] as usize;
    let mut tile: Vec<u8> = Vec::new();
    let mut t: usize = 0;
    while t < count
        invariant
            cfg.wf(),
            points_ok(points@),
            n < cfg.grid_side * cfg.grid_side,
            g == cfg.grid_side,
            tw as int == cfg.tile_w(),
            th as int == cfg.tile_h(),
            count as int == cfg.tile_w() * cfg.tile_h(),
            col as int == tile_col(*cfg, n as int),
            row as int == tile_row(*cfg, n as int),
            t <= count,
            tile@.len() == t,
            forall|t2: int|
                0 <= t2 < t ==> #[trigger] tile@[t2] == pixel_at(
                    *cfg,
                    points@,
                    tile_gx(*cfg, n as int, t2),
                    tile_gy(*cfg, n as int, t2),
                ),
        decreases count - t,
    {
        proof {
            lemma_local_index(*cfg, n as int, t as int);
        }
        let lx = t % tw;
        let ly = t / tw;
        let gx = col * tw + lx;
        let gy = row * th + ly;
        let uvx = uv_coord(gx, cfg.width);
        let uvy = uv_coord(gy, cfg.height);
        let v = evaluate(Point { x: uvx, y: uvy }, points, cfg.shrink);
        let p = quantize_exec(v);
        tile.push(p);
        t = t + 1;
    }
    tile
}

/// Copies a finished tile into its place in the full image: pixels inside
/// tile `n`'s region take the tile's values, every other pixel is untouched.
pub fn composite(cfg: &RenderConfig, img: &mut Vec<u8>, tile: &Vec<u8>, n: usize)
    requires
        cfg.wf(),
        n < cfg.grid_side * cfg.grid_side,
        old(img)@.len() == cfg.width * cfg.height,
        tile@.len() == cfg.tile_w() * cfg.tile_h(),
    ensures
        final(img)@.len() == cfg.width * cfg.height,
        forall|t: int|
            0 <= t < tile@.len() ==> final(img)@[tile_gy(*cfg, n as int, t) * cfg.width + tile_gx(
                *cfg,
                n as int,
                t,
            )] == #[trigger] tile@[t],
        forall|idx: int|
            0 <= idx < final(img)@.len() && !in_tile(
                *cfg,
                n as int,
                idx % cfg.width as int,
                idx / cfg.width as int,
            ) ==> #[trigger] final(img)@[idx] == old(img)@[idx],
{
    let g = cfg.grid_side;
    let tw = cfg.width / g;
    let th = cfg.height / g;
    proof {
        lemma_grid_exact(*cfg);
        assert((tw as int) * (th as int) <= (cfg.width as int) * (cfg.height as int))
            by (nonlinear_arith)
            requires
                0 <= tw as int <= cfg.width as int,
                0 <= th as int <= cfg.height as int,
        ;
        vstd::arithmetic::div_mod::lemma_div_nonincreasing(cfg.width as int, g as int);
        vstd::arithmetic::div_mod::lemma_div_nonincreasing(cfg.height as int, g as int);
    }
    let count = tw * th;
    let pos = n_space_unwrap(n, g);
    let col = pos[0] as usize;
    let row = pos[1] as usize;
    let mut t: usize = 0;
    while t < count
        invariant
            cfg.wf(),
            n < cfg.grid_side * cfg.grid_side,
            g == cfg.grid_side,
            tw as int == cfg.tile_w(),
            th as int == cfg.tile_h(),
            count as int == cfg.tile_w() * cfg.tile_h(),
            col as int == tile_col(*cfg, n as int),
            row as int == tile_row(*cfg, n as int),
            t <= count,
            img@.len() == cfg.width * cfg.height,
            tile@.len() == count,
            forall|t2: int|
                0 <= t2 < t ==> img@[tile_gy(*cfg, n as int, t2) * cfg.width + tile_gx(
                    *cfg,
                    n as int,
                    t2,
                )] == #[trigger] tile@[t2],
            forall|idx: int|
                0 <= idx < img@.len() && !in_tile(
                    *cfg,
                    n as int,
                    idx % cfg.width as int,
                    idx / cfg.width as int,
                ) ==> #[trigger] img@[idx] == old(img)@[idx],
        decreases count - t,
    {
        proof {
            lemma_local_index(*cfg, n as int, t as int);
        }
        let lx = t % tw;
        let ly = t / tw;
        let gx = col * tw + lx;
        let gy = row * th + ly;
        let dst = gy * cfg.width + gx;
        let v = tile[t];
        img.set(dst, v);
        proof {
            let ghost w = cfg.width as int;
            assert forall|t2: int|
                0 <= t2 < t + 1 implies img@[tile_gy(*cfg, n as int, t2) * cfg.width + tile_gx(
                *cfg,
                n as int,
                t2,
            )] == tile@[t2] by {
                if t2 < t {
                    lemma_local_index(*cfg, n as int, t2);
                    let dst2 = tile_gy(*cfg, n as int, t2) * w + tile_gx(*cfg, n as int, t2);
                    if dst2 == dst as int {
                        assert(tile_gx(*cfg, n as int, t2) == dst2 % w);
                        assert(tile_gy(*cfg, n as int, t2) == dst2 / w);
                        assert(t2 % cfg.tile_w() == t as int % cfg.tile_w());
                        assert(t2 / cfg.tile_w() == t as int / cfg.tile_w());
                        lemma_fundamental_div_mod(t2, cfg.tile_w());
                        lemma_fundamental_div_mod(t as int, cfg.tile_w());
                        assert(false);
                    }
                }
            }
        }
        t = t + 1;
    }
}

/// Renders the full image: the buffer starts all zero, then every tile is
/// rendered and composited into its own region, in index order.
pub fn render_image(cfg: &RenderConfig, points: &Vec<Point>) -> (img: Vec<u8>)
    requires
        cfg.wf(),
        points_ok(points@),
    ensures
        image_ok(*cfg, points@, img@),
{
    let w = cfg.width;
    let h = cfg.height;
    let size = w * h;
    let mut img: Vec<u8> = Vec::new();
    while img.len() < size
        invariant
            img@.len() <= size,
            size == w * h,
            forall|t: int| 0 <= t < img@.len() ==> #[trigger] img@[t] == 0,
        decreases size - img@.len(),
    {
        img.push(0u8);
    }
    let g = cfg.grid_side;
    proof {
        assert((g as int) * (g as int) <= (w as int) * (h as int)) by (nonlinear_arith)
            requires 0 < g as int <= w as int && g as int <= h as int;
    }
    let count = g * g;
    proof {
        assert forall|idx: int| 0 <= idx < img@.len() implies #[trigger] tile_of(
            *cfg,
            idx % w as int,
            idx / w as int,
        ) >= 0 by {
            let gx = idx % w as int;
            let gy = idx / w as int;
            lemma_mod_bound(idx, w as int);
            lemma_div_gives_bracket(idx, w as int);
            assert(idx < (w as int) * (h as int));
            lemma_multiply_divide_lt(idx, w as int, h as int);
            lemma_tiles_cover(*cfg, gx, gy);
        }
    }
    let mut n: usize = 0;
    while n < count
        invariant
            cfg.wf(),
            points_ok(points@),
            w == cfg.width,
            h == cfg.height,
            g == cfg.grid_side,
            count == g * g,
            img@.len() == w * h,
            n <= count,
            forall|idx: int|
                0 <= idx < img@.len() && tile_of(*cfg, idx % w as int, idx / w as int) < n
                    ==> #[trigger] img@[idx] == pixel_at(
                    *cfg,
                    points@,
                    idx % w as int,
                    idx / w as int,
                ),
            forall|idx: int|
                0 <= idx < img@.len() && tile_of(*cfg, idx % w as int, idx / w as int) >= n
                    ==> #[trigger] img@[idx] == 0,
        decreases count - n,
    {
        let tile = render_tile(cfg, points, n);
        composite(cfg, &mut img, &tile, n);
        proof {
            assert forall|idx: int|
                0 <= idx < img@.len() && tile_of(*cfg, idx % w as int, idx / w as int) < n + 1
                    implies img@[idx] == pixel_at(
                *cfg,
                points@,
                idx % w as int,
                idx / w as int,
            ) by {
                let gx = idx % w as int;
                let gy = idx / w as int;
                lemma_mod_bound(idx, w as int);
                lemma_div_gives_bracket(idx, w as int);
                assert(idx < (w as int) * (h as int));
                lemma_multiply_divide_lt(idx, w as int, h as int);
                lemma_tiles_cover(*cfg, gx, gy);
                let tn = tile_of(*cfg, gx, gy);
                if tn == n {
                    lemma_tile_index_of(*cfg, n as int, gx, gy);
                    let t = (gy - tile_row(*cfg, n as int) * cfg.tile_h()) * cfg.tile_w() + (gx
                        - tile_col(*cfg, n as int) * cfg.tile_w());
                    assert(tile@[t] == pixel_at(*cfg, points@, gx, gy));
                    lemma_fundamental_div_mod(idx, w as int);
                    assert((w as int) * gy == gy * (w as int)) by (nonlinear_arith);
                    assert(gy * (w as int) + gx == idx);
                    assert(img@[idx] == tile@[t]);
                } else {
                    assert(tn < n);
                    assert(!in_tile(*cfg, n as int, gx, gy));
                }
            }
            assert forall|idx: int|
                0 <= idx < img@.len() && tile_of(*cfg, idx % w as int, idx / w as int) >= n + 1
                    implies img@[idx] == 0 by {
                let gx = idx % w as int;
                let gy = idx / w as int;
                lemma_mod_bound(idx, w as int);
                lemma_div_gives_bracket(idx, w as int);
                assert(idx < (w as int) * (h as int));
                lemma_multiply_divide_lt(idx, w as int, h as int);
                lemma_tiles_cover(*cfg, gx, gy);
                assert(!in_tile(*cfg, n as int, gx, gy));
            }
        }
        n = n + 1;
    }
    proof {
        assert forall|idx: int| 0 <= idx < img@.len() implies img@[idx] == pixel_at(
            *cfg,
            points@,
            idx % cfg.width as int,
            idx / cfg.width as int,
        ) by {
            let gx = idx % w as int;
            let gy = idx / w as int;
            lemma_mod_bound(idx, w as int);
            lemma_div_gives_bracket(idx, w as int);
            assert(idx < (w as int) * (h as int));
            lemma_multiply_divide_lt(idx, w as int, h as int);
            lemma_tiles_cover(*cfg, gx, gy);
        }
    }
    img
}

/// The render stage is deterministic: two images fully rendered from the same
/// point set and configuration are identical, byte for byte. Only the
/// sampling stage is randomized.
pub proof fn lemma_render_deterministic(cfg: RenderConfig, s: Seq<Point>, a: Seq<u8>, b: Seq<u8>)
    requires
        image_ok(cfg, s, a),
        image_ok(cfg, s, b),
    ensures
        a == b,
{
    assert forall|idx: int| 0 <= idx < a.len() implies a[idx] == b[idx] by {}
    assert(a =~= b);
}

} // verus!
