use vstd::prelude::*;

use crate::error::HeatError;

verus! {

/// The weights of a blend are given in hundredths.
pub const BLEND_SCALE: u32 = 100;

/// The weight of the base image in the usual blend (0.40).
pub const BASE_WEIGHT: u32 = 40;

/// The weight of the heatmap in the usual blend (0.60).
pub const HEAT_WEIGHT: u32 = 60;

/// An 8-bit RGB colour.
#[derive(Clone, Copy, Debug, PartialEq, Eq, Structural)]
pub struct Color {
    pub r: u8,
    pub g: u8,
    pub b: u8,
}

impl Color {
    /// Channel `c` of the colour: 0 is red, 1 green, 2 blue.
    pub open spec fn channel(self, c: int) -> u8 {
        if c == 0 {
            self.r
        } else if c == 1 {
            self.g
        } else {
            self.b
        }
    }
}

/// A `width × height` RGB image, stored row by row, three bytes per pixel.
pub struct Raster {
    pub width: usize,
    pub height: usize,
    pub data: Vec<u8>,
}

/// Pixel number `p` of the bytes `data`.
pub open spec fn pixel_of(data: Seq<u8>, p: int) -> Color {
    Color { r: data[3 * p], g: data[3 * p + 1], b: data[3 * p + 2] }
}

/// The number of bytes of a `width × height` RGB image.
pub open spec fn raw_len(width: int, height: int) -> int {
    3 * (width * height)
}

impl Raster {
    pub open spec fn wf(&self) -> bool {
        self.data@.len() == raw_len(self.width as int, self.height as int)
    }

    /// Pixel number `p`, counting row by row.
    pub open spec fn pixel_at(&self, p: int) -> Color {
        pixel_of(self.data@, p)
    }

    /// An image made of the bytes `data`, which must hold exactly three bytes
    /// for each pixel.
    pub fn from_raw(width: usize, height: usize, data: Vec<u8>) -> (r: Option<Raster>)
        ensures
            r is Some <==> data@.len() == raw_len(width as int, height as int),
            r matches Some(img) ==> img.wf() && img.width == width && img.height == height
                && img.data@ == data@,
    {
        let len = data.len();
        let n = checked_raw_len(width, height);
        match n {
            Some(n) => {
                if len == n {
                    Some(Raster { width, height, data })
                } else {
                    None
                }
            },
            None => None,
        }
    }

    /// The bytes of the image, row by row.
    pub fn into_raw(self) -> (r: Vec<u8>)
        ensures
            r@ == self.data@,
    {
        self.data
    }

    /// The pixel in column `x`, row `y`.
    pub fn pixel(&self, x: usize, y: usize) -> (r: Color)
        requires
            self.wf(),
            x < self.width,
            y < self.height,
        ensures
            r == self.pixel_at(y * self.width + x),
    {
        let len = self.data.len();
        proof {
            lemma_pixel_in_bounds(self.width as int, self.height as int, x as int, y as int);
        }
        let i = 3 * (y * self.width + x);
        Color { r: self.data[i], g: self.data[i + 1], b: self.data[i + 2] }
    }
}

/// Pixel `(x, y)` of a `width × height` image starts at a byte that leaves
/// room for its three channels.
pub proof fn lemma_pixel_in_bounds(width: int, height: int, x: int, y: int)
    requires
        0 <= x < width,
        0 <= y < height,
    ensures
        0 <= y * width + x < width * height,
        3 * (y * width + x) + 3 <= raw_len(width, height),
{
    assert(y * width + x < width * height) by (nonlinear_arith)
        requires
            0 <= x < width,
            0 <= y < height,
    ;
    assert(0 <= y * width) by (nonlinear_arith)
        requires
            0 <= x < width,
            0 <= y,
    ;
}

/// `3 * width * height`, where it fits in a `usize`.
pub fn checked_raw_len(width: usize, height: usize) -> (r: Option<usize>)
    ensures
        r is Some <==> raw_len(width as int, height as int) <= usize::MAX,
        r matches Some(n) ==> n == raw_len(width as int, height as int),
{
    match width.checked_mul(height) {
        Some(p) => p.checked_mul(3),
        None => {
            proof {
                assert(width * height <= 3 * (width * height)) by (nonlinear_arith);
            }
            None
        },
    }
}

/// One channel of a blend: `floor(base * base_weight + heat * heat_weight)`
/// with the weights in hundredths, saturated at 255.
pub open spec fn blend(base: u8, heat: u8, base_weight: u32, heat_weight: u32) -> int {
    let v = (base * base_weight + heat * heat_weight) / (BLEND_SCALE as int);
    if v > 255 {
        255
    } else {
        v
    }
}

fn blend_channel(base: u8, heat: u8, base_weight: u32, heat_weight: u32) -> (r: u8)
    ensures
        r == blend(base, heat, base_weight, heat_weight),
{
    assert(base * base_weight <= 255 * 0xffff_ffff) by (nonlinear_arith)
        requires
            base <= 255,
            base_weight <= 0xffff_ffff,
    ;
    assert(heat * heat_weight <= 255 * 0xffff_ffff) by (nonlinear_arith)
        requires
            heat <= 255,
            heat_weight <= 0xffff_ffff,
    ;
    let v: u64 = (base as u64 * base_weight as u64 + heat as u64 * heat_weight as u64)
        / BLEND_SCALE as u64;
    if v > 255 {
        255
    } else {
        v as u8
    }
}

/// Blends `heatmap` onto `base`: each channel of each pixel becomes
/// `floor(base * base_weight + heatmap * heat_weight)` (weights in hundredths,
/// saturated at 255). The two images must have the same dimensions; neither
/// is changed.
pub fn overlay_image(base: &Raster, heatmap: &Raster, base_weight: u32, heat_weight: u32) -> (r:
    Result<Raster, HeatError>)
    requires
        base.wf(),
        heatmap.wf(),
    ensures
        r is Err <==> base.width != heatmap.width || base.height != heatmap.height,
        r matches Err(e) ==> e == HeatError::DimensionMismatch,
        r matches Ok(img) ==> {
            &&& img.wf()
            &&& img.width == base.width
            &&& img.height == base.height
            &&& forall|i: int|
                0 <= i < img.data@.len() ==> #[trigger] img.data@[i] == blend(
                    base.data@[i],
                    heatmap.data@[i],
                    base_weight,
                    heat_weight,
                )
        },
{
    if base.width != heatmap.width || base.height != heatmap.height {
        return Err(HeatError::DimensionMismatch);
    }
    let n = base.data.len();
    let mut out: Vec<u8> = Vec::with_capacity(n);
    for i in 0..n
        invariant
            n == base.data@.len(),
            n == heatmap.data@.len(),
            out@.len() == i,
            forall|j: int|
                0 <= j < i ==> #[trigger] out@[j] == blend(
                    base.data@[j],
                    heatmap.data@[j],
                    base_weight,
                    heat_weight,
                ),
    {
        out.push(blend_channel(base.data[i], heatmap.data[i], base_weight, heat_weight));
    }
    Ok(Raster { width: base.width, height: base.height, data: out })
}

} // verus!
