//! Textures: the constant colour, the choice between the two sides of a
//! checker, and the image with the lookup of one texel in it.

use vstd::prelude::*;
use vstd::slice::slice_to_vec;
use crate::scalar::Scalar;
use crate::vector::Vec3;

verus! {

/// One colour everywhere.
#[derive(Clone, Copy, Debug, PartialEq, Eq, Structural)]
pub struct ConstantTexture {
    pub color: Vec3,
}

impl ConstantTexture {
    pub fn new(color: Vec3) -> (t: ConstantTexture)
        ensures
            t.color == color,
    {
        ConstantTexture { color }
    }

    /// The colour, whatever the place.
    pub fn value(&self, u: Scalar, v: Scalar, p: &Vec3) -> (c: Vec3)
        ensures
            c == self.color,
    {
        self.color
    }
}

/// Two textures in alternation.
pub struct CheckerTexture<T> {
    pub odd: T,
    pub even: T,
}

impl<T> CheckerTexture<T> {
    pub fn new(odd: T, even: T) -> (t: Self)
        ensures
            t.odd == odd,
            t.even == even,
    {
        CheckerTexture { odd, even }
    }

    /// The texture that colours a point: the odd one where the product of
    /// sines at the point is below zero, else the even one.
    pub fn side(&self, sines: Scalar) -> (t: &T)
        ensures
            *t == if sines.less(Scalar { bits: 0 }) {
                self.odd
            } else {
                self.even
            },
    {
        if sines.lt(Scalar::zero()) {
            &self.odd
        } else {
            &self.even
        }
    }
}

/// A texture that reads its colour from an image of `width` by `height`
/// pixels, four bytes to the pixel, row-major.
pub struct ImageTexture {
    pub data: Vec<u8>,
    pub width: usize,
    pub height: usize,
}

/// `at`, brought into `0 .. extent`.
pub open spec fn clamped(at: int, extent: int) -> int {
    if at < 0 {
        0
    } else if at >= extent {
        extent - 1
    } else {
        at
    }
}

impl ImageTexture {
    /// The image is not empty, and the buffer holds every pixel of it.
    pub open spec fn wf(self) -> bool {
        &&& self.width > 0
        &&& self.height > 0
        &&& self.data@.len() >= 4 * self.width * self.height
    }

    /// Where the texel in column `i` of row `j` starts in the buffer, both
    /// brought into the image first.
    pub open spec fn texel_start(self, i: int, j: int) -> int {
        4 * clamped(i, self.width as int) + 4 * self.width * clamped(j, self.height as int)
    }

    /// Copies the pixels; nothing is asked of them here.
    pub fn new(data: &[u8], width: usize, height: usize) -> (t: ImageTexture)
        ensures
            t.data@ == data@,
            t.width == width,
            t.height == height,
    {
        ImageTexture { data: slice_to_vec(data), width, height }
    }

    /// Whether lookups are possible: the image is not empty and the buffer
    /// holds all of it.
    pub fn is_complete(&self) -> (ok: bool)
        ensures
            ok == self.wf(),
    {
        if self.width == 0 || self.height == 0 {
            return false;
        }
        let len: usize = self.data.len();
        let per_row: usize = len / 4 / self.width;
        proof {
            let w = self.width as int;
            let h = self.height as int;
            let q = (len as int) / 4;
            vstd::arithmetic::div_mod::lemma_fundamental_div_mod(len as int, 4);
            vstd::arithmetic::div_mod::lemma_fundamental_div_mod(q, w);
            vstd::arithmetic::div_mod::lemma_mod_bound(q, w);
            let p = q / w;
            assert(h <= p <==> 4 * w * h <= len) by (nonlinear_arith)
                requires
                    len == 4 * q + (len as int) % 4,
                    0 <= (len as int) % 4 < 4,
                    q == w * p + q % w,
                    0 <= q % w < w,
                    h > 0,
                    w > 0,
            ;
        }
        self.height <= per_row
    }

    /// The red, green and blue bytes of the texel in column `i` of row `j`.
    /// A column or row outside the image is taken as the nearest inside it.
    pub fn texel(&self, i: i32, j: i32) -> (rgb: (u8, u8, u8))
        requires
            self.wf(),
        ensures
            rgb.0 == self.data@[self.texel_start(i as int, j as int)],
            rgb.1 == self.data@[self.texel_start(i as int, j as int) + 1],
            rgb.2 == self.data@[self.texel_start(i as int, j as int) + 2],
    {
        let ci: usize = if i < 0 {
            0
        } else if i as usize >= self.width {
            self.width - 1
        } else {
            i as usize
        };
        let cj: usize = if j < 0 {
            0
        } else if j as usize >= self.height {
            self.height - 1
        } else {
            j as usize
        };
        proof {
            let w = self.width as int;
            let h = self.height as int;
            assert(0 <= w * cj && 4 * w <= 4 * w * h && 4 * ci + 4 * w * cj + 4 <= 4 * w * h)
                by (nonlinear_arith)
                requires
                    0 <= ci < w,
                    0 <= cj < h,
            ;
            assert(4 * w * cj == 4 * self.width * cj);
        }
        // taking the length tells that it fits a `usize`
        let len: usize = self.data.len();
        let start: usize = 4 * ci + 4 * self.width * cj;
        (self.data[start], self.data[start + 1], self.data[start + 2])
    }
}

} // verus!
