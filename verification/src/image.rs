//! Texture images: a width, a height and three bytes (red, green, blue)
//! per pixel, row by row from the top.
use vstd::prelude::*;

verus! {

/// An image as a texture file holds it.
#[derive(Clone, Debug)]
pub struct Image {
    pub w: usize,
    pub h: usize,
    pub data: Vec<u8>,
}

/// Where the texel at column `x` and row `y` starts in an image of width `w`.
pub open spec fn texel_offset(w: nat, x: nat, y: nat) -> int {
    (3 * (y * w + x)) as int
}

/// Texels are stored row by row, `w` texels to a row, three bytes each:
/// row `y` starts at byte `3 * w * y`, and each step right adds three bytes.
pub proof fn lemma_texel_offset(w: nat, x: nat, y: nat)
    ensures
        texel_offset(w, 0, y) == 3 * w * y,
        texel_offset(w, x, y) == texel_offset(w, 0, y) + 3 * x,
        texel_offset(w, x, y + 1) == texel_offset(w, x, y) + 3 * w,
{
    assert(3 * (y * w + 0) == 3 * w * y) by (nonlinear_arith);
    assert(3 * ((y + 1) * w + x) == 3 * (y * w + x) + 3 * w) by (nonlinear_arith);
}

impl Image {
    /// The red, green and blue bytes of the texel at column `x`, row `y`.
    pub fn texel(&self, x: usize, y: usize) -> (r: (u8, u8, u8))
        requires
            texel_offset(self.w as nat, x as nat, y as nat) + 2 < self.data.len(),
        ensures
            r == (
                self.data@[3 * (y * self.w + x)],
                self.data@[3 * (y * self.w + x) + 1],
                self.data@[3 * (y * self.w + x) + 2],
            ),
            r == (
                self.data@[texel_offset(self.w as nat, x as nat, y as nat)],
                self.data@[texel_offset(self.w as nat, x as nat, y as nat) + 1],
                self.data@[texel_offset(self.w as nat, x as nat, y as nat) + 2],
            ),
    {
        let i = 3 * (y * self.w + x);
        (self.data[i], self.data[i + 1], self.data[i + 2])
    }
}

} // verus!
