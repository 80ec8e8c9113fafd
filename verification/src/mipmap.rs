//! Choosing the mipmap level of an image for a texture size limit.
use vstd::arithmetic::power2::lemma2_to64;
use vstd::arithmetic::power2::lemma_pow2_pos;
use vstd::arithmetic::power2::lemma_pow2_strictly_increases;
use vstd::arithmetic::power2::pow2;
use vstd::bits::lemma_usize_shl_is_mul;
use vstd::prelude::*;

verus! {

/// The number of mipmap levels that are tried, starting at level 0.
pub const MAX_MIPMAP_LEVEL: usize = 10;

/// The largest side of an image at mipmap level `level`, where level 0 has
/// the side `level_0_max_size` and each level halves it, rounding down.
pub open spec fn level_dimension(level_0_max_size: usize, level: nat) -> int {
    level_0_max_size as int / pow2(level) as int
}

/// The first mipmap level whose images fit into a texture of side
/// `max_texture`, among the levels below [`MAX_MIPMAP_LEVEL`].
pub fn compute_biggest_level(max_texture: usize, level_0_max_size: usize) -> (level: Option<usize>)
    ensures
        level matches Some(found) ==> {
            &&& found < MAX_MIPMAP_LEVEL
            &&& level_dimension(level_0_max_size, found as nat) <= max_texture
            &&& forall|lower: nat|
                lower < found ==> level_dimension(level_0_max_size, lower) > max_texture
        },
        level is None ==> forall|lower: nat|
            lower < MAX_MIPMAP_LEVEL ==> level_dimension(level_0_max_size, lower) > max_texture,
{
    let mut attempted_level: usize = 0;
    while attempted_level < MAX_MIPMAP_LEVEL
        invariant
            attempted_level <= MAX_MIPMAP_LEVEL,
            forall|lower: nat|
                lower < attempted_level ==> level_dimension(level_0_max_size, lower) > max_texture,
        decreases MAX_MIPMAP_LEVEL - attempted_level,
    {
        proof {
            lemma_pow2_pos(attempted_level as nat);
            lemma_pow2_strictly_increases(attempted_level as nat, 10);
            lemma2_to64();
            lemma_usize_shl_is_mul(1, attempted_level);
        }
        let dimension = level_0_max_size / (1usize << attempted_level);
        if dimension <= max_texture {
            return Some(attempted_level);
        }
        attempted_level = attempted_level + 1;
    }
    None
}

} // verus!
