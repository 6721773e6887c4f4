//! Combines the tile assembler and the colorizer into the full data set an
//! image encoder needs.

use vstd::prelude::*;
use crate::colors::{color_specs, ColorSpec};
use crate::tiles::{assembled, assemble_tiles};

verus! {

/// Everything the image encoder needs: the buffer of per-pixel color
/// indices in raster order, its dimensions, and one displayable color
/// description per color index.
pub struct ImageData {
    pub width: usize,
    pub height: usize,
    pub pixels: Vec<u8>,
    pub colors: Vec<ColorSpec>,
}

/// Expands a design into image data: a buffer `tile_size` wide and
/// `tile_size * tile_colors.len()` high holding one square tile per
/// proto-palette, plus the color table.
#[verifier::loop_isolation(false)]
pub fn render_design(tile_colors: &Vec<Vec<u8>>, nb_colors: usize, tile_size: usize) -> (r:
    ImageData)
    requires
        tile_size >= 1,
        nb_colors <= 256,
        forall|t: int|
            0 <= t < tile_colors@.len() ==> (#[trigger] tile_colors.deep_view()[t]).len() > 0,
        tile_colors@.len() * (tile_size * tile_size) <= usize::MAX,
    ensures
        r.width == tile_size,
        r.height == tile_size * tile_colors@.len(),
        r.pixels@ == assembled(tile_colors.deep_view(), tile_size as int),
        r.pixels@.len() == r.width * r.height,
        r.colors@.len() == nb_colors,
        forall|i: int| 0 <= i < nb_colors ==> (#[trigger] r.colors@[i]).hue_index == i / 2,
        forall|i: int| 0 <= i < nb_colors ==> (#[trigger] r.colors@[i]).bright == (i % 2 == 1),
{
    let pixels = assemble_tiles(tile_colors, tile_size);
    let colors = color_specs(nb_colors);
    let n = tile_colors.len();
    proof {
        assert(tile_size as int * (tile_size as int * n as int) == n as int * (tile_size as int
            * tile_size as int)) by (nonlinear_arith);
        assert(tile_size as int * n as int <= n as int * (tile_size as int * tile_size as int))
            by (nonlinear_arith)
            requires
                tile_size >= 1,
                n >= 0,
        ;
    }
    let height = tile_size * n;
    ImageData { width: tile_size, height, pixels, colors }
}

} // verus!
