//! Termination policy of a light path, and the reflect-or-refract choice at a
//! refractive boundary.
use vstd::prelude::*;

verus! {

/// Bounce depth at which a path stops scattering: a hit at this depth or
/// deeper contributes its emission only.
pub const MAX_DEPTH: u32 = 50;

/// Order key (IEEE-754 bit pattern) of the `f32` value `1.0`. A uniform draw
/// from `[0, 1)` has a key below it.
pub const ONE_KEY: u32 = 0x3f80_0000;

/// Whether a hit at bounce `depth` may ask its material to scatter. When it may
/// not, or when the material absorbs the ray, the hit's radiance is its
/// emission alone.
pub fn may_scatter(depth: u32) -> (r: bool)
    ensures
        r == (depth < MAX_DEPTH),
{
    depth < MAX_DEPTH
}

/// Greatest number of further bounces of a path whose current hit is at
/// `depth`: each scatter moves one level deeper, and none happens from
/// `MAX_DEPTH` on.
pub open spec fn bounces_left(depth: nat) -> nat
    decreases MAX_DEPTH - depth,
{
    if depth < MAX_DEPTH {
        1 + bounces_left(depth + 1)
    } else {
        0
    }
}

/// A path that starts at depth `depth` scatters at most `MAX_DEPTH - depth`
/// times; one that starts at depth 0 recurses exactly `MAX_DEPTH` levels deep
/// at worst.
pub proof fn lemma_path_length(depth: nat)
    requires
        depth <= MAX_DEPTH,
    ensures
        bounces_left(depth) == MAX_DEPTH - depth,
    decreases MAX_DEPTH - depth,
{
    if depth < MAX_DEPTH {
        lemma_path_length(depth + 1);
    }
}

/// Whether a ray crossing a refractive boundary reflects. `refracts` says
/// whether Snell's law gives a refracted direction; `draw` is the order key of
/// a uniform draw from `[0, 1)` and `reflectance` that of the Schlick
/// reflectance. Without a refracted direction (total internal reflection) the
/// reflect probability is one; otherwise the ray reflects when the draw falls
/// below the reflectance.
pub fn dialectric_reflects(refracts: bool, draw: u32, reflectance: u32) -> (r: bool)
    ensures
        r == (draw < (if refracts { reflectance } else { ONE_KEY })),
        !refracts && draw < ONE_KEY ==> r,
{
    let probability = if refracts { reflectance } else { ONE_KEY };
    draw < probability
}

} // verus!
