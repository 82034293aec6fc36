use worley_noise::generate;
use worley_noise::geom::{Point, SCALE};
use worley_noise::n_space_util::n_space_unwrap;
use worley_noise::noise::{evaluate, quantize_exec};
use worley_noise::render::{composite, render_image, render_tile, RenderConfig};
use worley_noise::sampler::{sample_points, PointSet, Rng, SamplerConfig};

fn dist2(a: Point, b: Point) -> u64 {
    let dx = if a.x >= b.x { (a.x - b.x) as u64 } else { (b.x - a.x) as u64 };
    let dy = if a.y >= b.y { (a.y - b.y) as u64 } else { (b.y - a.y) as u64 };
    dx * dx + dy * dy
}

#[test]
fn unwrap_concrete() {
    assert_eq!(n_space_unwrap(0, 3), [0, 0]);
    assert_eq!(n_space_unwrap(5, 4), [1, 1]);
    assert_eq!(n_space_unwrap(11, 3), [2, 3]);
    assert_eq!(n_space_unwrap(15, 4), [3, 3]);
}

#[test]
fn unwrap_roundtrip() {
    for width in 1usize..6 {
        for n in 0..width * width {
            let pos = n_space_unwrap(n, width);
            let back = pos[0] as usize + pos[1] as usize * width;
            assert_eq!(back, n);
        }
    }
}

#[test]
fn evaluate_peaks_at_feature_point() {
    let points = vec![Point { x: 32768, y: 32768 }];
    let v = evaluate(Point { x: 32768, y: 32768 }, &points, 8);
    assert_eq!(v, SCALE);
    assert_eq!(quantize_exec(v), 255);
}

#[test]
fn evaluate_exact_falloff() {
    // One tenth of a unit from the single feature point: distance 6554 steps,
    // scaled by 8 and subtracted from full intensity.
    let points = vec![Point { x: 32768, y: 32768 }];
    let v = evaluate(Point { x: 32768 + 6554, y: 32768 }, &points, 8);
    assert_eq!(v, 65536 - 8 * 6554);
    assert_eq!(quantize_exec(v), (255u64 * (65536 - 8 * 6554) / 65536) as u8);
}

#[test]
fn evaluate_monotone_and_floor() {
    let points = vec![Point { x: 32768, y: 32768 }];
    let at = evaluate(Point { x: 32768, y: 32768 }, &points, 8);
    let near = evaluate(Point { x: 32768 + 6554, y: 32768 }, &points, 8);
    let far = evaluate(Point { x: 32768 + 16384, y: 32768 }, &points, 8);
    assert!(at > near);
    assert!(near > far);
    // At one tenth of a unit times shrink 8 the scaled distance passes a full
    // unit, so intensity saturates at the zero floor.
    assert_eq!(far, 0);
}

#[test]
fn evaluate_takes_nearest_point() {
    let points = vec![Point { x: 0, y: 0 }, Point { x: 40000, y: 40000 }];
    let v = evaluate(Point { x: 40000, y: 40000 }, &points, 8);
    assert_eq!(v, SCALE);
}

fn band_of(k: usize, total: usize, i: usize) -> usize {
    // 0 top, 1 bottom, 2 left, 3 right, 4 interior
    assert!(i < total);
    if i < k {
        0
    } else if i < 2 * k {
        1
    } else if i < 3 * k {
        2
    } else if i < 4 * k {
        3
    } else {
        4
    }
}

#[test]
fn sampler_edge_translation_exact() {
    let scfg = SamplerConfig { edge_band: 2, total: 12, min_radius: 3277, budget: 32 };
    let mut rng = Rng::new(42);
    let ps: PointSet = sample_points(&scfg, &mut rng);
    assert_eq!(ps.pts.len(), 12);
    assert_eq!(ps.exhausted.len(), 12);
    let k = 2;
    for j in k..2 * k {
        // bottom point: its top partner shifted one full unit down, bit for bit
        assert_eq!(ps.pts[j].x, ps.pts[j - k].x);
        assert_eq!(ps.pts[j].y, ps.pts[j - k].y + SCALE);
        assert_eq!(ps.exhausted[j], ps.exhausted[j - k]);
    }
    for j in 3 * k..4 * k {
        // right point: its left partner shifted one full unit rightward
        assert_eq!(ps.pts[j].x, ps.pts[j - k].x + SCALE);
        assert_eq!(ps.pts[j].y, ps.pts[j - k].y);
        assert_eq!(ps.exhausted[j], ps.exhausted[j - k]);
    }
}

#[test]
fn sampler_min_separation() {
    let scfg = SamplerConfig { edge_band: 2, total: 16, min_radius: 3277, budget: 32 };
    let sep2 = (2u64 * 3277) * (2u64 * 3277);
    let k = 2usize;
    let total = 16usize;
    for seed in [1u64, 7, 42, 1234] {
        let mut rng = Rng::new(seed);
        let ps = sample_points(&scfg, &mut rng);
        let mut flagged = 0usize;
        for i in 0..total {
            for j in (i + 1)..total {
                let bi = band_of(k, total, i);
                let bj = band_of(k, total, j);
                let paired = (bj == 1 || bj == 3) && i == j - k;
                let uncovered = (bi == 0 || bi == 1) && bj == 3;
                if paired || uncovered {
                    continue;
                }
                if ps.exhausted[i] || ps.exhausted[j] {
                    flagged += 1;
                    continue;
                }
                assert!(
                    dist2(ps.pts[i], ps.pts[j]) >= sep2,
                    "pair ({}, {}) too close for seed {}",
                    i,
                    j,
                    seed
                );
            }
        }
        // exhausted pairs are reported, not failed
        if flagged > 0 {
            println!("seed {}: {} pairs skipped for exhausted budget", seed, flagged);
        }
    }
}

#[test]
fn sampler_points_in_unit_square() {
    let scfg = SamplerConfig { edge_band: 3, total: 20, min_radius: 3277, budget: 32 };
    let mut rng = Rng::new(9);
    let ps = sample_points(&scfg, &mut rng);
    for p in &ps.pts {
        assert!(p.x <= SCALE && p.y <= SCALE);
    }
    for i in 0..3 {
        assert_eq!(ps.pts[i].y, 0);
    }
    for i in 6..9 {
        assert_eq!(ps.pts[i].x, 0);
    }
}

#[test]
fn render_deterministic() {
    // Two full renders of one fixed point set and resolution are
    // byte-identical: only the sampling stage is randomized.
    let rcfg = RenderConfig { width: 32, height: 32, grid_side: 2, shrink: 8 };
    let points = vec![
        Point { x: 10000, y: 20000 },
        Point { x: 50000, y: 40000 },
        Point { x: 30000, y: 60000 },
    ];
    let a = render_image(&rcfg, &points);
    let b = render_image(&rcfg, &points);
    assert_eq!(a, b);
}

#[test]
fn generate_deterministic_for_seed() {
    let rcfg = RenderConfig { width: 16, height: 16, grid_side: 2, shrink: 8 };
    let scfg = SamplerConfig { edge_band: 1, total: 6, min_radius: 3277, budget: 32 };
    let (ps1, img1) = generate(&rcfg, &scfg, 77);
    let (ps2, img2) = generate(&rcfg, &scfg, 77);
    assert_eq!(ps1.pts, ps2.pts);
    assert_eq!(img1, img2);
}

#[test]
fn end_to_end_small_image() {
    // 64 by 64 image, a 2 by 2 tile grid, four directly injected points (no
    // edge bands), shrink factor 8.
    let rcfg = RenderConfig { width: 64, height: 64, grid_side: 2, shrink: 8 };
    let points = vec![
        Point { x: 16384, y: 16384 },
        Point { x: 49152, y: 16384 },
        Point { x: 16384, y: 49152 },
        Point { x: 49152, y: 49152 },
    ];
    let img = render_image(&rcfg, &points);
    assert_eq!(img.len(), 64 * 64);
    for &p in &img {
        assert!((p as u32) <= 255);
    }
    // Pixel (16, 16) maps exactly onto the first feature point, so it holds
    // full intensity.
    assert_eq!(img[16 * 64 + 16], 255);
    // The same holds at the other three points by symmetry.
    assert_eq!(img[16 * 64 + 48], 255);
    assert_eq!(img[48 * 64 + 16], 255);
    assert_eq!(img[48 * 64 + 48], 255);
}

#[test]
fn compositing_disjoint_cover() {
    // A 4 by 4 tile grid: tag each tile's pixels with its own value, then
    // check that the tiles cover every pixel exactly once.
    let rcfg = RenderConfig { width: 64, height: 64, grid_side: 4, shrink: 8 };
    let mut img = vec![0u8; 64 * 64];
    for n in 0..16usize {
        let tile = vec![(n + 1) as u8; 16 * 16];
        composite(&rcfg, &mut img, &tile, n);
    }
    let mut counts = [0usize; 17];
    for gy in 0..64usize {
        for gx in 0..64usize {
            let v = img[gy * 64 + gx] as usize;
            assert!(v != 0, "pixel ({}, {}) left uncovered", gx, gy);
            counts[v] += 1;
            let expected = (gy / 16) * 4 + gx / 16 + 1;
            assert_eq!(v, expected);
        }
    }
    for n in 1..17usize {
        assert_eq!(counts[n], 256);
    }
}

#[test]
fn render_tile_matches_full_image() {
    let rcfg = RenderConfig { width: 32, height: 32, grid_side: 4, shrink: 8 };
    let points = vec![Point { x: 20000, y: 20000 }, Point { x: 60000, y: 10000 }];
    let img = render_image(&rcfg, &points);
    for n in 0..16usize {
        let tile = render_tile(&rcfg, &points, n);
        assert_eq!(tile.len(), 8 * 8);
        let pos = n_space_unwrap(n, 4);
        let (col, row) = (pos[0] as usize, pos[1] as usize);
        for ly in 0..8usize {
            for lx in 0..8usize {
                let gx = col * 8 + lx;
                let gy = row * 8 + ly;
                assert_eq!(tile[ly * 8 + lx], img[gy * 32 + gx]);
            }
        }
    }
}
