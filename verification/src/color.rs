//! The colour a particle is drawn with: a pure function of its position.

use crate::physics::{SimConfig, MAX_WORLD};
use crate::vec2::Vec2;
use vstd::arithmetic::div_mod::{lemma_div_is_ordered, lemma_fundamental_div_mod_converse};
use vstd::prelude::*;

verus! {

/// `a / b` rounded half up, for `a >= 0` and `b > 0`.
pub open spec fn round_div(a: int, b: int) -> int {
    (2 * a + b) / (2 * b)
}

/// One colour channel: 255 minus the rounded share of `pos` in `extent`,
/// scaled to the 0..=255 range.
pub open spec fn channel(pos: int, extent: int) -> int {
    255 - round_div(pos * 255, extent)
}

/// Computes one channel exactly.
fn channel_u8(pos: i64, extent: i64) -> (c: u8)
    requires
        1 <= extent <= MAX_WORLD,
        0 <= pos <= extent,
    ensures
        c == channel(pos as int, extent as int),
{
    let num: u64 = 510 * (pos as u64) + extent as u64;
    let den: u64 = 2 * (extent as u64);
    let q: u64 = num / den;
    proof {
        lemma_fundamental_div_mod_converse(
            511 * (extent as int),
            2 * (extent as int),
            255,
            extent as int,
        );
        lemma_div_is_ordered(num as int, 511 * (extent as int), 2 * (extent as int));
        assert(q <= 255);
        assert(num == 2 * (pos as int * 255) + extent);
    }
    (255 - q) as u8
}

/// The colour drawn for a particle at `position`: red and green fade with
/// the position's share of the world extent, blue stays full.  A pure,
/// stateless function of the final position, reproducible bit for bit.
pub fn color_for(position: Vec2, cfg: &SimConfig) -> (c: (u8, u8, u8))
    requires
        cfg.wf(),
        0 <= position.x <= cfg.width,
        0 <= position.y <= cfg.height,
    ensures
        c.0 == channel(position.x as int, cfg.width as int),
        c.1 == channel(position.y as int, cfg.height as int),
        c.2 == 255,
{
    let r = channel_u8(position.x, cfg.width);
    let g = channel_u8(position.y, cfg.height);
    (r, g, 255)
}

} // verus!
