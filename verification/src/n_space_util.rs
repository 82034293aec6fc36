use vstd::prelude::*;
use vecmath::Vector2;

verus! {

/// Converts a linear tile index into a 2D grid position: column first, row second.
/// The same mapping is used both to place a render task's region and to position
/// its finished tile during compositing, so both uses agree by construction.
pub fn n_space_unwrap(n: usize, width: usize) -> (pos: Vector2<u32>)
    requires
        width > 0,
        n < width * width,
        width <= u32::MAX,
    ensures
        pos[0] == n as int % width as int,
        pos[1] == n as int / width as int,
        pos[0] < width,
        pos[1] < width,
        pos[0] + pos[1] * width == n,
{
    proof {
        lemma_unwrap_roundtrip(n as int, width as int);
    }
    [(n % width) as u32, (n / width) as u32]
}

/// Unwrapping a linear index to (column, row) and re-linearising as
/// `column + row * width` gives back exactly the index it came from.
pub proof fn lemma_unwrap_roundtrip(n: int, width: int)
    requires
        width > 0,
        n >= 0,
    ensures
        n % width + (n / width) * width == n,
        0 <= n % width < width,
        0 <= n / width,
        n < width * width ==> n / width < width,
{
    vstd::arithmetic::div_mod::lemma_fundamental_div_mod(n, width);
    vstd::arithmetic::div_mod::lemma_mod_bound(n, width);
    vstd::arithmetic::div_mod::lemma_div_nonincreasing(n, width);
    assert(width * (n / width) == (n / width) * width) by (nonlinear_arith);
    if n < width * width {
        assert(n / width < width) by {
            if n / width >= width {
                vstd::arithmetic::div_mod::lemma_fundamental_div_mod(n, width);
                assert(n == width * (n / width) + n % width);
                assert(width * (n / width) >= width * width) by (nonlinear_arith)
                    requires width > 0 && n / width >= width;
            }
        }
    }
}

} // verus!
