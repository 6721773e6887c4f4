//! The palette colorizer's decisions: which hue step and which lightness
//! level each abstract color index gets. Turning a decision into concrete
//! color components is left to the binary around the library.

use vstd::prelude::*;

verus! {

/// The displayable color chosen for one color index: the index of its hue
/// around the color circle (out of `nb_colors / 2` evenly spaced hues), and
/// whether the bright or the dark lightness level is used.
#[derive(Clone, Copy, PartialEq, Eq, Structural, Debug)]
pub struct ColorSpec {
    pub hue_index: u8,
    pub bright: bool,
}

/// Chooses one displayable color per color index: consecutive index pairs
/// share a hue and alternate between the dark and the bright lightness
/// level, so all chosen colors are pairwise distinct and the choice is a
/// function of `nb_colors` alone.
#[verifier::loop_isolation(false)]
pub fn color_specs(nb_colors: usize) -> (r: Vec<ColorSpec>)
    requires
        nb_colors <= 256,
    ensures
        r@.len() == nb_colors,
        forall|i: int| 0 <= i < nb_colors ==> (#[trigger] r@[i]).hue_index == i / 2,
        forall|i: int| 0 <= i < nb_colors ==> (#[trigger] r@[i]).bright == (i % 2 == 1),
        forall|i: int, j: int| 0 <= i < j < nb_colors ==> r@[i] != r@[j],
{
    let mut r: Vec<ColorSpec> = Vec::new();
    let mut i: usize = 0;
    while i < nb_colors
        invariant
            i <= nb_colors,
            r@.len() == i,
            forall|q: int| 0 <= q < i ==> (#[trigger] r@[q]).hue_index == q / 2,
            forall|q: int| 0 <= q < i ==> (#[trigger] r@[q]).bright == (q % 2 == 1),
        decreases nb_colors - i,
    {
        r.push(ColorSpec { hue_index: (i / 2) as u8, bright: i % 2 == 1 });
        i += 1;
    }
    proof {
        assert forall|a: int, b: int| 0 <= a < b < nb_colors implies r@[a] != r@[b] by {
            if r@[a] == r@[b] {
                assert(a / 2 == b / 2 && a % 2 == b % 2);
                assert(a == 2 * (a / 2) + a % 2);
                assert(b == 2 * (b / 2) + b % 2);
            }
        }
    }
    r
}

} // verus!
