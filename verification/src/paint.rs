//! The pixel buffer a frame band is rasterized into: premultiplied
//! `0xAARRGGBB`, top-down rows — the layout a 32-bit DIB and a
//! per-pixel-alpha layered window expect.
use vstd::prelude::*;

verus! {

/// A premultiplied BGRA pixel buffer, `w` × `h`, top-down rows: each
/// `u32` is `0xAARRGGBB`, which in memory (little-endian) is B, G, R, A.
#[derive(Clone, Debug, PartialEq)]
pub struct Pixels {
    pub w: usize,
    pub h: usize,
    pub data: Vec<u32>,
}

/// Channel `k` of a packed pixel (0 = blue, 1 = green, 2 = red,
/// 3 = alpha), 0–255.
pub open spec fn channel(p: u32, k: int) -> int {
    (p as int / pow256(k)) % 256
}

/// 256 to the power `k`, for `k` in 0..4.
pub open spec fn pow256(k: int) -> int {
    if k <= 0 {
        1
    } else if k == 1 {
        256
    } else if k == 2 {
        65536
    } else {
        16777216
    }
}

/// A premultiplied channel value `c` divided back out of alpha `a` and
/// scaled to 0–255, rounded half up and capped at 255.
pub open spec fn unpremultiply(c: int, a: int) -> int {
    let v = (2 * c * 255 + a) / (2 * a);
    if v > 255 {
        255
    } else {
        v
    }
}

/// An opaque pixel reads back exactly as it was packed: dividing out an
/// alpha of 255 leaves every channel unchanged.
pub proof fn law_opaque_reads_back(c: int)
    requires
        0 <= c < 256,
    ensures
        unpremultiply(c, 255) == c,
{
    assert((2 * c * 255 + 255) / (2 * 255int) == c) by (nonlinear_arith)
        requires
            0 <= c < 256,
    {
        assert(2 * c * 255 + 255 == 510 * c + 255);
    }
}

/// The channels of a packed pixel as integers, blue first.
proof fn lemma_channels(p: u32)
    ensures
        (p >> 24) as int == channel(p, 3),
        ((p >> 16) & 0xFF) as int == channel(p, 2),
        ((p >> 8) & 0xFF) as int == channel(p, 1),
        (p & 0xFF) as int == channel(p, 0),
{
    assert(p >> 24 == p / 16777216) by (bit_vector);
    assert((p >> 16) & 0xFF == (p / 65536) % 256) by (bit_vector);
    assert((p >> 8) & 0xFF == (p / 256) % 256) by (bit_vector);
    assert(p & 0xFF == p % 256) by (bit_vector);
    assert(p / 16777216 < 256) by (bit_vector);
}

/// Un-premultiply one 0–255 channel against a non-zero alpha.
fn unpremul(c: u32, a: u32) -> (r: u8)
    requires
        c < 256,
        0 < a < 256,
    ensures
        r as int == unpremultiply(c as int, a as int),
{
    let v: u32 = (2 * c * 255 + a) / (2 * a);
    if v > 255 {
        255
    } else {
        v as u8
    }
}

impl Pixels {
    /// The alpha of the pixel at `(x, y)`, 0–255.
    pub fn alpha(&self, x: usize, y: usize) -> (a: u8)
        requires
            y * self.w + x < self.data@.len(),
        ensures
            a as int == channel(self.data@[y * self.w + x], 3),
    {
        let n = self.data.len();
        proof {
            assert(0 <= y * self.w) by (nonlinear_arith);
        }
        let p = self.data[y * self.w + x];
        proof {
            lemma_channels(p);
        }
        (p >> 24) as u8
    }

    /// The un-premultiplied `(r, g, b)` of the pixel at `(x, y)`, each
    /// 0–255; black where the pixel is fully transparent.
    pub fn rgb(&self, x: usize, y: usize) -> (c: (u8, u8, u8))
        requires
            y * self.w + x < self.data@.len(),
        ensures
            ({
                let p = self.data@[y * self.w + x];
                let a = channel(p, 3);
                if a == 0 {
                    c == (0u8, 0u8, 0u8)
                } else {
                    &&& c.0 as int == unpremultiply(channel(p, 2), a)
                    &&& c.1 as int == unpremultiply(channel(p, 1), a)
                    &&& c.2 as int == unpremultiply(channel(p, 0), a)
                }
            }),
    {
        let n = self.data.len();
        proof {
            assert(0 <= y * self.w) by (nonlinear_arith);
        }
        let p = self.data[y * self.w + x];
        proof {
            lemma_channels(p);
        }
        let a = p >> 24;
        if a == 0 {
            return (0, 0, 0);
        }
        (unpremul((p >> 16) & 0xFF, a), unpremul((p >> 8) & 0xFF, a), unpremul(p & 0xFF, a))
    }
}

} // verus!
