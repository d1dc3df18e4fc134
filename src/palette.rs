use vstd::prelude::*;

use crate::error::HeatError;
use crate::levels::LEVEL_ONE;
use crate::raster::{pixel_of, raw_len, Color, Raster};

verus! {

/// A colour gradient, sampled at evenly spaced levels: entry `0` is the
/// colour at level 0, the last entry the colour at `LEVEL_ONE`.
pub struct Palette {
    pub colors: Vec<Color>,
}

/// The entry of an `n`-entry palette that level `level` looks up: the level
/// scaled to `0..n-1`, rounded down.
pub open spec fn palette_index(n: int, level: int) -> int {
    (level * (n - 1)) / (LEVEL_ONE as int)
}

impl Palette {
    pub open spec fn wf(&self) -> bool {
        self.colors@.len() > 0
    }

    /// The colour a level maps to.
    pub open spec fn spec_color(&self, level: int) -> Color {
        self.colors@[palette_index(self.colors@.len() as int, level)]
    }

    /// A palette of the given colours; an empty list is refused.
    pub fn new(colors: Vec<Color>) -> (r: Result<Palette, HeatError>)
        ensures
            r is Ok <==> colors@.len() > 0,
            r matches Ok(p) ==> p.colors@ == colors@,
            r matches Err(e) ==> e == HeatError::EmptyGradient,
    {
        if colors.len() == 0 {
            Err(HeatError::EmptyGradient)
        } else {
            Ok(Palette { colors })
        }
    }

    /// The colour of level `level`, which lies in `0..=LEVEL_ONE`.
    pub fn color_at(&self, level: u32) -> (r: Color)
        requires
            self.wf(),
            level <= LEVEL_ONE,
        ensures
            r == self.spec_color(level as int),
    {
        let n = self.colors.len();
        let ghost ni = n as int;
        proof {
            assert(0 <= level * (ni - 1) <= LEVEL_ONE * (ni - 1)) by (nonlinear_arith)
                requires
                    0 <= level <= LEVEL_ONE,
                    ni >= 1,
            ;
            assert((level * (ni - 1)) / (LEVEL_ONE as int) <= ni - 1) by (nonlinear_arith)
                requires
                    0 <= level * (ni - 1) <= LEVEL_ONE * (ni - 1),
            ;
            assert(0 <= (level * (ni - 1)) / (LEVEL_ONE as int)) by (nonlinear_arith)
                requires
                    0 <= level * (ni - 1),
            ;
        }
        let i: u128 = (level as u128 * (n - 1) as u128) / (LEVEL_ONE as u128);
        self.colors[i as usize]
    }
}

/// The image of a grid of levels: each cell becomes the palette's colour
/// for its level.
pub fn render(levels: &Vec<u32>, width: usize, height: usize, palette: &Palette) -> (r: Raster)
    requires
        palette.wf(),
        levels@.len() == width * height,
        raw_len(width as int, height as int) <= usize::MAX,
        forall|i: int| 0 <= i < levels@.len() ==> #[trigger] levels@[i] <= LEVEL_ONE,
    ensures
        r.wf(),
        r.width == width,
        r.height == height,
        forall|p: int|
            0 <= p < levels@.len() ==> #[trigger] r.pixel_at(p) == palette.spec_color(
                levels@[p] as int,
            ),
{
    let n = levels.len();
    let mut data: Vec<u8> = Vec::new();
    for i in 0..n
        invariant
            palette.wf(),
            n == levels@.len(),
            n == width * height,
            3 * n <= usize::MAX,
            forall|k: int| 0 <= k < n ==> #[trigger] levels@[k] <= LEVEL_ONE,
            data@.len() == 3 * i,
            forall|p: int|
                0 <= p < i ==> #[trigger] pixel_of(data@, p) == palette.spec_color(
                    levels@[p] as int,
                ),
    {
        let c = palette.color_at(levels[i]);
        let ghost before = data@;
        data.push(c.r);
        data.push(c.g);
        data.push(c.b);
        proof {
            assert forall|p: int| 0 <= p < i + 1 implies #[trigger] pixel_of(data@, p)
                == palette.spec_color(levels@[p] as int) by {
                if p < i {
                    assert(pixel_of(before, p) == palette.spec_color(levels@[p] as int));
                    assert(data@[3 * p] == before[3 * p]);
                    assert(data@[3 * p + 1] == before[3 * p + 1]);
                    assert(data@[3 * p + 2] == before[3 * p + 2]);
                }
            }
        }
    }
    Raster { width, height, data }
}

} // verus!
