use vstd::prelude::*;

pub mod geom;
pub mod n_space_util;
pub mod noise;
pub mod render;
pub mod sampler;

use crate::render::{image_ok, points_ok, render_image, RenderConfig};
use crate::sampler::{sample_points, sampled_ok, PointSet, Rng, SamplerConfig};

verus! {

/// Runs the whole pipeline: seeds the generator, places the feature points
/// under the separation and edge-continuity constraints, then renders every
/// tile and composites them into one grayscale image buffer.
pub fn generate(rcfg: &RenderConfig, scfg: &SamplerConfig, seed: u64) -> (out: (PointSet, Vec<u8>))
    requires
        rcfg.wf(),
        scfg.wf(),
        scfg.total >= 1,
    ensures
        sampled_ok(*scfg, out.0.pts@, out.0.exhausted@),
        image_ok(*rcfg, out.0.pts@, out.1@),
{
    let mut rng = Rng::new(seed);
    let ps = sample_points(scfg, &mut rng);
    proof {
        assert(points_ok(ps.pts@));
    }
    let img = render_image(rcfg, &ps.pts);
    (ps, img)
}

} // verus!
