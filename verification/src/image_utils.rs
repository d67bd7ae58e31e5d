//! A grid of 8-bit brightness values and the lookups that bilinear sampling
//! is built on.
//!
//! The grid is stored row by row from the top-left corner. A lookup outside
//! the grid is answered with the nearest pixel on the edge, so sampling near
//! the border never fails.

use vstd::prelude::*;

verus! {

/// The mathematical model of a [`BrightnessGrid`].
pub struct Raster {
    pub width: int,
    pub height: int,
    pub pixels: Seq<u8>,
}

/// The nearest position to `position` among `0, .., len - 1`.
pub open spec fn clamp(position: int, len: int) -> int {
    if position < 0 {
        0
    } else if position >= len {
        len - 1
    } else {
        position
    }
}

impl Raster {
    /// A raster has at least one pixel and exactly `width * height` of them.
    pub open spec fn wf(self) -> bool {
        &&& self.width >= 1
        &&& self.height >= 1
        &&& self.pixels.len() == self.width * self.height
    }

    /// Whether `(x, y)` is a pixel of the raster.
    pub open spec fn contains(self, x: int, y: int) -> bool {
        0 <= x < self.width && 0 <= y < self.height
    }

    /// The value stored for the pixel in column `x` of row `y`.
    pub open spec fn pixel(self, x: int, y: int) -> u8
        recommends
            self.contains(x, y),
    {
        self.pixels[y * self.width + x]
    }

    /// The value of the pixel nearest to `(x, y)`: each coordinate is
    /// clamped to the raster on its own.
    pub open spec fn clamped_pixel(self, x: int, y: int) -> u8 {
        self.pixel(clamp(x, self.width), clamp(y, self.height))
    }

    /// The four pixels around a sample point whose coordinates round down to
    /// `(x, y)`.
    pub open spec fn neighbours(self, x: int, y: int) -> Neighbours {
        Neighbours {
            top_left: self.clamped_pixel(x, y),
            top_right: self.clamped_pixel(x + 1, y),
            bottom_left: self.clamped_pixel(x, y + 1),
            bottom_right: self.clamped_pixel(x + 1, y + 1),
        }
    }

    /// Whether every pixel has the same value.
    pub open spec fn uniform(self, value: u8) -> bool {
        forall|i: int| 0 <= i < self.pixels.len() ==> self.pixels[i] == value
    }
}

/// The four grid values that a bilinear sample is mixed from. For a sample
/// point with fractional parts `fx` and `fy` their weights are
/// `(1 - fx)(1 - fy)`, `fx (1 - fy)`, `(1 - fx) fy` and `fx fy`, in the order
/// of the fields.
#[derive(Clone, Copy, Debug, PartialEq, Eq, Structural)]
pub struct Neighbours {
    pub top_left: u8,
    pub top_right: u8,
    pub bottom_left: u8,
    pub bottom_right: u8,
}

/// A non-empty image of 8-bit brightness values.
#[derive(Debug, PartialEq, Eq)]
pub struct BrightnessGrid {
    width: usize,
    height: usize,
    pixels: Vec<u8>,
}

impl View for BrightnessGrid {
    type V = Raster;

    closed spec fn view(&self) -> Raster {
        Raster { width: self.width as int, height: self.height as int, pixels: self.pixels@ }
    }
}

/// A position inside a raster has an index inside its pixel list.
pub proof fn lemma_pixel_index(width: int, height: int, x: int, y: int)
    by (nonlinear_arith)
    requires
        0 <= x < width,
        0 <= y < height,
    ensures
        0 <= y * width + x < width * height,
{
}

/// At a pixel of the raster the first of the four neighbours is the value
/// stored for that pixel.
pub proof fn lemma_neighbours_on_pixel(raster: Raster, x: int, y: int)
    requires
        raster.wf(),
        raster.contains(x, y),
    ensures
        raster.neighbours(x, y).top_left == raster.pixel(x, y),
{
}

/// In a raster of one value all four neighbours of every sample point have
/// that value.
pub proof fn lemma_neighbours_uniform(raster: Raster, value: u8, x: int, y: int)
    requires
        raster.wf(),
        raster.uniform(value),
    ensures
        raster.neighbours(x, y) == (Neighbours {
            top_left: value,
            top_right: value,
            bottom_left: value,
            bottom_right: value,
        }),
{
    lemma_pixel_index(raster.width, raster.height, clamp(x, raster.width), clamp(y, raster.height));
    lemma_pixel_index(
        raster.width,
        raster.height,
        clamp(x + 1, raster.width),
        clamp(y, raster.height),
    );
    lemma_pixel_index(
        raster.width,
        raster.height,
        clamp(x, raster.width),
        clamp(y + 1, raster.height),
    );
    lemma_pixel_index(
        raster.width,
        raster.height,
        clamp(x + 1, raster.width),
        clamp(y + 1, raster.height),
    );
}

/// The nearest position to `position` among `0, .., len - 1`.
fn clamp_to(position: i64, len: usize) -> (nearest: usize)
    requires
        len >= 1,
    ensures
        nearest == clamp(position as int, len as int),
{
    if position < 0 {
        0
    } else if position as u64 >= len as u64 {
        len - 1
    } else {
        position as usize
    }
}

/// The nearest position to the successor of `position` among
/// `0, .., len - 1`.
fn clamp_next(position: i64, len: usize) -> (nearest: usize)
    requires
        len >= 1,
    ensures
        nearest == clamp(position as int + 1, len as int),
{
    if position < 0 {
        0
    } else if position as u64 >= (len - 1) as u64 {
        len - 1
    } else {
        position as usize + 1
    }
}

impl BrightnessGrid {
    #[verifier::type_invariant]
    spec fn well_formed(self) -> bool {
        self@.wf()
    }

    /// A grid of `width` by `height` pixels with the given values, row by
    /// row from the top; `None` when the grid would be empty or the number
    /// of values is not `width * height`.
    pub fn new(width: usize, height: usize, pixels: Vec<u8>) -> (grid: Option<BrightnessGrid>)
        ensures
            grid is Some <==> width >= 1 && height >= 1 && pixels.len() == width * height,
            grid matches Some(g) ==> g@ == (Raster {
                width: width as int,
                height: height as int,
                pixels: pixels@,
            }) && g@.wf(),
    {
        if width == 0 || height == 0 {
            return None;
        }
        match width.checked_mul(height) {
            Some(count) => {
                if pixels.len() == count {
                    Some(BrightnessGrid { width, height, pixels })
                } else {
                    None
                }
            },
            None => None,
        }
    }

    /// The number of pixels in a row.
    pub fn width(&self) -> (width: usize)
        ensures
            width == self@.width,
            self@.wf(),
    {
        proof {
            use_type_invariant(self);
        }
        self.width
    }

    /// The number of rows.
    pub fn height(&self) -> (height: usize)
        ensures
            height == self@.height,
            self@.wf(),
    {
        proof {
            use_type_invariant(self);
        }
        self.height
    }

    /// All values, row by row from the top.
    pub fn pixels(&self) -> (pixels: &Vec<u8>)
        ensures
            pixels@ == self@.pixels,
            self@.wf(),
    {
        proof {
            use_type_invariant(self);
        }
        &self.pixels
    }

    /// The value of the pixel in column `x` of row `y`.
    pub fn get_pixel(&self, x: usize, y: usize) -> (value: u8)
        requires
            self@.contains(x as int, y as int),
        ensures
            value == self@.pixel(x as int, y as int),
    {
        proof {
            use_type_invariant(self);
            lemma_pixel_index(self.width as int, self.height as int, x as int, y as int);
            assert(y * self.width + x < self.pixels.len());
        }
        self.pixels[y * self.width + x]
    }

    /// The value of the pixel nearest to `(x, y)`, which may lie anywhere.
    pub fn get_clamped(&self, x: i64, y: i64) -> (value: u8)
        ensures
            value == self@.clamped_pixel(x as int, y as int),
    {
        proof {
            use_type_invariant(self);
        }
        self.get_pixel(clamp_to(x, self.width), clamp_to(y, self.height))
    }

    /// The four pixels that a bilinear sample is mixed from, for a sample
    /// point whose coordinates round down to `(x, y)`. Each of the four is
    /// clamped to the grid on its own, so the edge pixels repeat outside.
    pub fn neighbours(&self, x: i64, y: i64) -> (around: Neighbours)
        ensures
            around == self@.neighbours(x as int, y as int),
    {
        proof {
            use_type_invariant(self);
        }
        let left = clamp_to(x, self.width);
        let right = clamp_next(x, self.width);
        let top = clamp_to(y, self.height);
        let bottom = clamp_next(y, self.height);
        Neighbours {
            top_left: self.get_pixel(left, top),
            top_right: self.get_pixel(right, top),
            bottom_left: self.get_pixel(left, bottom),
            bottom_right: self.get_pixel(right, bottom),
        }
    }
}

} // verus!
