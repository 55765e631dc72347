//! A decoded RGB pixel buffer: the input and output boundary of the
//! maze-solving core. Channels are 8-bit, in RGB order, row-major.

use vstd::prelude::*;

verus! {

/// A `width` x `height` buffer of RGB pixels. The byte at
/// `3 * (y * width + x) + k` is channel `k` of the pixel at column `x`,
/// row `y`.
pub struct PixelBuffer {
    /// Number of pixel columns.
    pub width: u32,
    /// Number of pixel rows.
    pub height: u32,
    /// The raw channel bytes, exactly `3 * width * height` of them.
    pub data: Vec<u8>,
}

impl PixelBuffer {
    /// The dimensions are small enough for all index arithmetic and the
    /// byte count matches the dimensions.
    pub open spec fn wf(&self) -> bool {
        &&& self.width <= 0x7fff
        &&& self.height <= 0x7fff
        &&& self.data@.len() == 3 * self.width * self.height
    }

    /// Channel `k` of the pixel at column `x`, row `y`.
    pub open spec fn spec_channel(&self, x: int, y: int, k: int) -> u8 {
        self.data@[3 * (y * self.width + x) + k]
    }

    /// Whether column `x`, row `y` lies inside the buffer.
    pub open spec fn pixel_in_bounds(&self, x: int, y: int) -> bool {
        0 <= x < self.width && 0 <= y < self.height
    }

    /// Wraps raw bytes as a buffer when the dimensions are representable
    /// and the byte count matches them exactly; rejects anything else.
    pub fn new(width: u32, height: u32, data: Vec<u8>) -> (r: Option<PixelBuffer>)
        ensures
            match r {
                Some(b) => {
                    &&& b.wf()
                    &&& b.width == width
                    &&& b.height == height
                    &&& b.data == data
                },
                None => !(width <= 0x7fff && height <= 0x7fff && data@.len() == 3 * width
                    * height),
            },
    {
        if width > 0x7fff || height > 0x7fff {
            return None;
        }
        proof {
            assert(3 * (width as int) * (height as int) < 0x1_0000_0000) by (nonlinear_arith)
                requires
                    width <= 0x7fff,
                    height <= 0x7fff,
            ;
        }
        let expected: usize = 3 * (width as usize) * (height as usize);
        if data.len() != expected {
            return None;
        }
        Some(PixelBuffer { width, height, data })
    }

    /// Number of pixel columns.
    pub fn width(&self) -> (r: u32)
        ensures
            r == self.width,
    {
        self.width
    }

    /// Number of pixel rows.
    pub fn height(&self) -> (r: u32)
        ensures
            r == self.height,
    {
        self.height
    }

    /// Proves that the flat index of channel `k` at (`x`, `y`) lies within
    /// the buffer's bytes.
    proof fn lemma_index_in_range(&self, x: int, y: int, k: int)
        requires
            self.wf(),
            self.pixel_in_bounds(x, y),
            0 <= k < 3,
        ensures
            0 <= 3 * (y * self.width + x) + k < self.data@.len(),
    {
        assert(3 * (y * self.width + x) + k < 3 * self.width * self.height) by (nonlinear_arith)
            requires
                0 <= x < self.width,
                0 <= y < self.height,
                0 <= k < 3,
        ;
    }

    /// The three channels of the pixel at column `x`, row `y`.
    pub fn pixel(&self, x: u32, y: u32) -> (r: (u8, u8, u8))
        requires
            self.wf(),
            self.pixel_in_bounds(x as int, y as int),
        ensures
            r.0 == self.spec_channel(x as int, y as int, 0),
            r.1 == self.spec_channel(x as int, y as int, 1),
            r.2 == self.spec_channel(x as int, y as int, 2),
    {
        proof {
            self.lemma_index_in_range(x as int, y as int, 0);
            self.lemma_index_in_range(x as int, y as int, 2);
            assert(3 * ((y as int) * (self.width as int) + (x as int)) + 2 < 0x1_0000_0000)
                by (nonlinear_arith)
                requires
                    0 <= (x as int) && (x as int) < self.width,
                    0 <= (y as int) && (y as int) < self.height,
                    self.width <= 0x7fff,
                    self.height <= 0x7fff,
            ;
        }
        let base: usize = 3 * ((y as usize) * (self.width as usize) + (x as usize));
        (self.data[base], self.data[base + 1], self.data[base + 2])
    }

    /// The three channel bytes of the pixel at column `x`, row `y`, as a
    /// borrowed slice of length 3.
    pub fn pixel_slice(&self, x: u32, y: u32) -> (r: &[u8])
        requires
            self.wf(),
            self.pixel_in_bounds(x as int, y as int),
        ensures
            r@.len() == 3,
            r@[0] == self.spec_channel(x as int, y as int, 0),
            r@[1] == self.spec_channel(x as int, y as int, 1),
            r@[2] == self.spec_channel(x as int, y as int, 2),
    {
        proof {
            self.lemma_index_in_range(x as int, y as int, 0);
            self.lemma_index_in_range(x as int, y as int, 2);
            assert(3 * ((y as int) * (self.width as int) + (x as int)) + 2 < 0x1_0000_0000)
                by (nonlinear_arith)
                requires
                    0 <= (x as int) && (x as int) < self.width,
                    0 <= (y as int) && (y as int) < self.height,
                    self.width <= 0x7fff,
                    self.height <= 0x7fff,
            ;
        }
        let base: usize = 3 * ((y as usize) * (self.width as usize) + (x as usize));
        &self.data.as_slice()[base..base + 3]
    }

    /// Overwrites the pixel at column `x`, row `y` with the channels of
    /// `rgb`; every other pixel keeps its bytes.
    pub fn set_pixel(&mut self, x: u32, y: u32, rgb: (u8, u8, u8))
        requires
            old(self).wf(),
            old(self).pixel_in_bounds(x as int, y as int),
        ensures
            final(self).wf(),
            final(self).width == old(self).width,
            final(self).height == old(self).height,
            final(self).spec_channel(x as int, y as int, 0) == rgb.0,
            final(self).spec_channel(x as int, y as int, 1) == rgb.1,
            final(self).spec_channel(x as int, y as int, 2) == rgb.2,
            forall|xx: int, yy: int, k: int|
                old(self).pixel_in_bounds(xx, yy) && 0 <= k < 3 && !(xx == x as int && yy
                    == y as int) ==> #[trigger] final(self).spec_channel(xx, yy, k) == old(
                    self,
                ).spec_channel(xx, yy, k),
    {
        proof {
            self.lemma_index_in_range(x as int, y as int, 0);
            self.lemma_index_in_range(x as int, y as int, 2);
            assert(3 * ((y as int) * (self.width as int) + (x as int)) + 2 < 0x1_0000_0000)
                by (nonlinear_arith)
                requires
                    0 <= (x as int) && (x as int) < self.width,
                    0 <= (y as int) && (y as int) < self.height,
                    self.width <= 0x7fff,
                    self.height <= 0x7fff,
            ;
        }
        let base: usize = 3 * ((y as usize) * (self.width as usize) + (x as usize));
        self.data[base] = rgb.0;
        self.data[base + 1] = rgb.1;
        self.data[base + 2] = rgb.2;
        proof {
            assert forall|xx: int, yy: int, k: int|
                old(self).pixel_in_bounds(xx, yy) && 0 <= k < 3 && !(xx == x as int && yy
                    == y as int) implies #[trigger] self.spec_channel(xx, yy, k) == old(
                self,
            ).spec_channel(xx, yy, k) by {
                old(self).lemma_index_in_range(xx, yy, k);
                assert(3 * (yy * self.width + xx) + k != 3 * ((y as int) * self.width + (
                x as int)) + 0 && 3 * (yy * self.width + xx) + k != 3 * ((y as int) * self.width
                    + (x as int)) + 1 && 3 * (yy * self.width + xx) + k != 3 * ((y as int)
                    * self.width + (x as int)) + 2) by (nonlinear_arith)
                    requires
                        0 <= xx < self.width,
                        0 <= yy < self.height,
                        0 <= k < 3,
                        0 <= (x as int) && (x as int) < self.width,
                        0 <= (y as int) && (y as int) < self.height,
                        !(xx == x as int && yy == y as int),
                ;
            }
        }
    }
}

} // verus!
