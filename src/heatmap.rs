use rand::Rng;
use vstd::arithmetic::div_mod::{lemma_div_is_ordered, lemma_fundamental_div_mod};
use vstd::prelude::*;

use crate::error::HeatError;
use crate::field::{
    col_of,
    compute_field,
    contribution,
    dist,
    field_cells,
    field_value,
    lemma_cell_of,
    lemma_field_single,
    row_of,
    weight_at,
    Kernel,
    Sample,
};
use crate::levels::{int_values, lemma_seq_max, level_of, normalize, seq_max, LEVEL_ONE};
use crate::palette::{palette_index, render, Palette};
use crate::raster::{checked_raw_len, raw_len, Raster};

verus! {

/// The largest value of the field of `samples` over a `width × height` grid.
pub open spec fn grid_peak(samples: Seq<Sample>, w: Seq<u32>, width: int, height: int) -> int {
    seq_max(field_cells(samples, w, width, height))
}

/// The normalized level of cell `p` of the field of `samples` over a
/// `width × height` grid.
pub open spec fn heat_level(samples: Seq<Sample>, w: Seq<u32>, width: int, height: int, p: int) -> int {
    level_of(
        field_value(samples, w, col_of(p, width), row_of(p, width)),
        grid_peak(samples, w, width, height),
    )
}

/// The heatmap of `samples` as a `width × height` image: the field is
/// computed, normalized by its maximum, and each cell coloured through
/// `palette`.
pub fn gen_heatmap(
    samples: &Vec<Sample>,
    width: usize,
    height: usize,
    kernel: &Kernel,
    palette: &Palette,
) -> (r: Result<Raster, HeatError>)
    requires
        kernel.wf(),
        palette.wf(),
    ensures
        r is Ok <==> width > 0 && height > 0 && raw_len(width as int, height as int)
            <= usize::MAX,
        r matches Err(e) ==> e == HeatError::InvalidDimensions,
        r matches Ok(img) ==> {
            &&& img.wf()
            &&& img.width == width
            &&& img.height == height
            &&& forall|p: int|
                0 <= p < width * height ==> #[trigger] img.pixel_at(p) == palette.spec_color(
                    heat_level(samples@, kernel.weights@, width as int, height as int, p),
                )
        },
{
    if width == 0 || height == 0 {
        return Err(HeatError::InvalidDimensions);
    }
    if checked_raw_len(width, height).is_none() {
        return Err(HeatError::InvalidDimensions);
    }
    proof {
        assert(width * height <= 3 * (width * height)) by (nonlinear_arith)
            requires
                width > 0,
                height > 0,
        ;
    }
    let field = match compute_field(samples, width, height, kernel) {
        Ok(f) => f,
        Err(e) => {
            return Err(e);
        },
    };
    let levels = normalize(&field);
    let img = render(&levels, width, height, palette);
    proof {
        let cells = field_cells(samples@, kernel.weights@, width as int, height as int);
        assert(int_values(field.cells@) =~= cells);
        assert forall|p: int| 0 <= p < width * height implies #[trigger] img.pixel_at(p)
            == palette.spec_color(
            heat_level(samples@, kernel.weights@, width as int, height as int, p),
        ) by {
            assert(levels@[p] == level_of(field.cells@[p] as int, seq_max(cells)));
        }
    }
    Ok(img)
}

/// With no samples the field is zero everywhere, every level is 0, and every
/// pixel of the heatmap takes the palette's first colour, its colour at 0.0.
pub proof fn lemma_no_samples(w: Seq<u32>, width: int, height: int, palette: &Palette)
    requires
        width > 0,
        height > 0,
        palette.wf(),
    ensures
        forall|x: int, y: int| #[trigger] field_value(Seq::<Sample>::empty(), w, x, y) == 0,
        forall|p: int|
            0 <= p < width * height ==> #[trigger] heat_level(
                Seq::<Sample>::empty(),
                w,
                width,
                height,
                p,
            ) == 0,
        forall|p: int|
            0 <= p < width * height ==> #[trigger] palette.spec_color(
                heat_level(Seq::<Sample>::empty(), w, width, height, p),
            ) == palette.colors@[0],
{
    assert forall|p: int| 0 <= p < width * height implies #[trigger] heat_level(
        Seq::<Sample>::empty(),
        w,
        width,
        height,
        p,
    ) == 0 by {
        let e = crate::levels::effective_max(grid_peak(Seq::<Sample>::empty(), w, width, height));
        assert((0 * LEVEL_ONE) / e == 0);
    }
    assert(palette_index(palette.colors@.len() as int, 0) == 0);
}

/// Levels keep the order of the values they come from.
pub proof fn lemma_level_monotone(v1: int, v2: int, m: int)
    requires
        v1 >= v2,
    ensures
        level_of(v1, m) >= level_of(v2, m),
{
    let e = crate::levels::effective_max(m);
    assert(v1 * 65536 >= v2 * 65536);
    lemma_div_is_ordered(v2 * 65536, v1 * 65536, e);
}

/// Weights never grow with distance, and vanish beyond the table.
proof fn lemma_weight_ordered(kernel: &Kernel, d1: int, d2: int)
    requires
        kernel.wf(),
        0 <= d1 <= d2,
    ensures
        weight_at(kernel.weights@, d1) >= weight_at(kernel.weights@, d2),
        weight_at(kernel.weights@, d2) <= kernel.weights@[0],
{
    let w = kernel.weights@;
    if d2 < w.len() {
        assert(w[d2] <= w[d1]);
        assert(w[d2] <= w[0]);
    }
}

/// A single sample's field grows towards the sample along each axis.
proof fn lemma_single_axis_order(s: Sample, kernel: &Kernel, x1: int, y1: int, x2: int, y2: int)
    requires
        kernel.wf(),
        s.strength > 0,
        dist(x1, s.x as int) <= dist(x2, s.x as int),
        dist(y1, s.y as int) <= dist(y2, s.y as int),
    ensures
        field_value(seq![s], kernel.weights@, x1, y1) >= field_value(
            seq![s],
            kernel.weights@,
            x2,
            y2,
        ),
{
    let w = kernel.weights@;
    assert(seq![s].drop_last() =~= Seq::<Sample>::empty());
    assert(seq![s].last() == s);
    lemma_weight_ordered(kernel, dist(x1, s.x as int), dist(x2, s.x as int));
    lemma_weight_ordered(kernel, dist(y1, s.y as int), dist(y2, s.y as int));
    let a1 = weight_at(w, dist(x1, s.x as int));
    let a2 = weight_at(w, dist(x2, s.x as int));
    let b1 = weight_at(w, dist(y1, s.y as int));
    let b2 = weight_at(w, dist(y2, s.y as int));
    let st = s.strength as int;
    assert(st * (a1 * b1) >= st * (a2 * b2)) by (nonlinear_arith)
        requires
            st > 0,
            a1 >= a2 >= 0,
            b1 >= b2 >= 0,
    ;
    lemma_field_single(s, w, x1, y1);
    lemma_field_single(s, w, x2, y2);
}

/// One sample of positive strength, inside the grid, with a kernel whose
/// centre weight is positive: the field peaks at the sample, where the
/// normalized level is exactly `LEVEL_ONE` (1.0), and both the field and the
/// levels fall off (never rise) with distance from the sample along a row or
/// a column.
pub proof fn lemma_single_sample_peak(s: Sample, kernel: &Kernel, width: int, height: int)
    requires
        kernel.wf(),
        kernel.weights@[0] > 0,
        s.strength > 0,
        0 <= s.x < width,
        0 <= s.y < height,
    ensures
        grid_peak(seq![s], kernel.weights@, width, height) == field_value(
            seq![s],
            kernel.weights@,
            s.x as int,
            s.y as int,
        ),
        heat_level(seq![s], kernel.weights@, width, height, s.y * width + s.x) == LEVEL_ONE,
        forall|x1: int, x2: int, y: int|
            dist(x1, s.x as int) <= dist(x2, s.x as int) ==> #[trigger] field_value(
                seq![s],
                kernel.weights@,
                x1,
                y,
            ) >= #[trigger] field_value(seq![s], kernel.weights@, x2, y),
        forall|x: int, y1: int, y2: int|
            dist(y1, s.y as int) <= dist(y2, s.y as int) ==> #[trigger] field_value(
                seq![s],
                kernel.weights@,
                x,
                y1,
            ) >= #[trigger] field_value(seq![s], kernel.weights@, x, y2),
        forall|p: int, q: int|
            0 <= p < width * height && 0 <= q < width * height && row_of(p, width) == row_of(
                q,
                width,
            ) && dist(col_of(p, width), s.x as int) <= dist(col_of(q, width), s.x as int)
                ==> #[trigger] heat_level(seq![s], kernel.weights@, width, height, p)
                >= #[trigger] heat_level(seq![s], kernel.weights@, width, height, q),
        forall|p: int, q: int|
            0 <= p < width * height && 0 <= q < width * height && col_of(p, width) == col_of(
                q,
                width,
            ) && dist(row_of(p, width), s.y as int) <= dist(row_of(q, width), s.y as int)
                ==> #[trigger] heat_level(seq![s], kernel.weights@, width, height, p)
                >= #[trigger] heat_level(seq![s], kernel.weights@, width, height, q),
{
    let w = kernel.weights@;
    let one = seq![s];
    let cells = field_cells(one, w, width, height);
    let c0 = field_value(one, w, s.x as int, s.y as int);
    let p0 = s.y * width + s.x;
    lemma_cell_of(width, height, s.x as int, s.y as int);
    assert(cells[p0] == c0);
    lemma_seq_max(cells);
    assert forall|i: int| 0 <= i < cells.len() implies #[trigger] cells[i] <= c0 by {
        lemma_single_axis_order(s, kernel, s.x as int, s.y as int, col_of(i, width), row_of(i, width));
    }
    let k = choose|i: int| 0 <= i < cells.len() && #[trigger] cells[i] == seq_max(cells);
    assert(seq_max(cells) == c0);
    // the peak is positive, so the centre's level is exactly one
    assert(one.drop_last() =~= Seq::<Sample>::empty());
    lemma_field_single(s, w, s.x as int, s.y as int);
    let w0 = w[0] as int;
    assert(c0 == s.strength * (w0 * w0));
    assert(c0 > 0) by (nonlinear_arith)
        requires
            c0 == s.strength * (w0 * w0),
            s.strength > 0,
            w0 > 0,
    ;
    assert((c0 * 65536) / c0 == 65536) by (nonlinear_arith)
        requires
            c0 > 0,
    ;
    assert forall|x1: int, x2: int, y: int|
        dist(x1, s.x as int) <= dist(x2, s.x as int) implies #[trigger] field_value(
        one,
        w,
        x1,
        y,
    ) >= #[trigger] field_value(one, w, x2, y) by {
        lemma_single_axis_order(s, kernel, x1, y, x2, y);
    }
    assert forall|x: int, y1: int, y2: int|
        dist(y1, s.y as int) <= dist(y2, s.y as int) implies #[trigger] field_value(
        one,
        w,
        x,
        y1,
    ) >= #[trigger] field_value(one, w, x, y2) by {
        lemma_single_axis_order(s, kernel, x, y1, x, y2);
    }
    assert forall|p: int, q: int|
        0 <= p < width * height && 0 <= q < width * height && row_of(p, width) == row_of(q, width)
            && dist(col_of(p, width), s.x as int) <= dist(col_of(q, width), s.x as int) implies
        #[trigger] heat_level(one, w, width, height, p) >= #[trigger] heat_level(
        one,
        w,
        width,
        height,
        q,
    ) by {
        lemma_single_axis_order(s, kernel, col_of(p, width), row_of(p, width), col_of(q, width), row_of(q, width));
        lemma_level_monotone(
            field_value(one, w, col_of(p, width), row_of(p, width)),
            field_value(one, w, col_of(q, width), row_of(q, width)),
            c0,
        );
    }
    assert forall|p: int, q: int|
        0 <= p < width * height && 0 <= q < width * height && col_of(p, width) == col_of(q, width)
            && dist(row_of(p, width), s.y as int) <= dist(row_of(q, width), s.y as int) implies
        #[trigger] heat_level(one, w, width, height, p) >= #[trigger] heat_level(
        one,
        w,
        width,
        height,
        q,
    ) by {
        lemma_single_axis_order(s, kernel, col_of(p, width), row_of(p, width), col_of(q, width), row_of(q, width));
        lemma_level_monotone(
            field_value(one, w, col_of(p, width), row_of(p, width)),
            field_value(one, w, col_of(q, width), row_of(q, width)),
            c0,
        );
    }
}

/// The radius the heatmap of `count` samples on an image `width` pixels wide
/// is drawn with: `width * (1 / count + 1 / 20)`, rounded down.
pub open spec fn default_radius(width: int, count: int) -> int {
    (width * (20 + count)) / (20 * count)
}

/// The radius for `count` samples on an image `width` pixels wide, by the
/// rule `default_radius`.
pub fn radius_for(width: u32, count: usize) -> (r: u64)
    requires
        count > 0,
    ensures
        r == default_radius(width as int, count as int),
{
    assert(width * (20 + count) <= 0xffff_ffff * 0x1_0000_0000_0000_0014) by (nonlinear_arith)
        requires
            width <= 0xffff_ffff,
            count <= 0xffff_ffff_ffff_ffff,
    ;
    let num: u128 = width as u128 * (20 + count as u128);
    let den: u128 = 20 * count as u128;
    let q = num / den;
    proof {
        let c = count as int;
        let wi = width as int;
        lemma_fundamental_div_mod(num as int, den as int);
        assert(q * 20 <= 21 * wi) by (nonlinear_arith)
            requires
                c >= 1,
                num == wi * (20 + c),
                den == 20 * c,
                num == den * q + num % den,
                num % den >= 0,
                wi >= 0,
                q >= 0,
        ;
    }
    q as u64
}

/// The number of samples of the demonstration heatmap.
pub const RANDOM_SAMPLES: usize = 20;

/// The size of the demonstration heatmap.
pub const RANDOM_WIDTH: u32 = 1920;

pub const RANDOM_HEIGHT: u32 = 1080;

/// Strengths of the demonstration samples lie below this bound.
pub const RANDOM_STRENGTH_LIMIT: u32 = 100_000;

/// Relies on rand's `Rng::random_range` on the thread-local generator
/// `rand::rng()`: a value drawn from `0..upper` (it panics on an empty range).
#[verifier::external_body]
fn random_below(upper: u32) -> (r: u32)
    requires
        upper > 0,
    ensures
        r < upper,
{
    rand::rng().random_range(0..upper)
}

/// Whether every sample lies in `0..width × 0..height` with a strength in
/// `0..strength_limit`.
pub open spec fn samples_within(
    samples: Seq<Sample>,
    width: int,
    height: int,
    strength_limit: int,
) -> bool {
    forall|i: int|
        0 <= i < samples.len() ==> 0 <= #[trigger] samples[i].x < width && 0 <= samples[i].y
            < height && 0 <= samples[i].strength < strength_limit
}

/// `count` samples drawn at random: positions in `0..width × 0..height`,
/// strengths in `0..strength_limit`.
pub fn random_samples(count: usize, width: u32, height: u32, strength_limit: u32) -> (r: Vec<
    Sample,
>)
    requires
        0 < width <= i32::MAX,
        0 < height <= i32::MAX,
        0 < strength_limit <= i32::MAX,
    ensures
        r@.len() == count,
        samples_within(r@, width as int, height as int, strength_limit as int),
{
    let mut out: Vec<Sample> = Vec::new();
    for i in 0..count
        invariant
            0 < width <= i32::MAX,
            0 < height <= i32::MAX,
            0 < strength_limit <= i32::MAX,
            out@.len() == i,
            samples_within(out@, width as int, height as int, strength_limit as int),
    {
        let x = random_below(width);
        let y = random_below(height);
        let strength = random_below(strength_limit);
        let s = Sample { x: x as i32, y: y as i32, strength: strength as i32 };
        let ghost before = out@;
        out.push(s);
        proof {
            assert forall|k: int| 0 <= k < out@.len() implies 0 <= #[trigger] out@[k].x < width
                && 0 <= out@[k].y < height && 0 <= out@[k].strength < strength_limit by {
                if k < before.len() {
                    assert(out@[k] == before[k]);
                }
            }
        }
    }
    out
}

/// The demonstration heatmap: `RANDOM_SAMPLES` random samples on a
/// `RANDOM_WIDTH × RANDOM_HEIGHT` grid, drawn with `kernel` and `palette`.
pub fn generate_random(kernel: &Kernel, palette: &Palette) -> (r: Raster)
    requires
        kernel.wf(),
        palette.wf(),
    ensures
        r.wf(),
        r.width == RANDOM_WIDTH,
        r.height == RANDOM_HEIGHT,
        exists|samples: Seq<Sample>|
            samples.len() == RANDOM_SAMPLES && samples_within(
                samples,
                RANDOM_WIDTH as int,
                RANDOM_HEIGHT as int,
                RANDOM_STRENGTH_LIMIT as int,
            ) && forall|p: int|
                0 <= p < RANDOM_WIDTH * RANDOM_HEIGHT ==> #[trigger] r.pixel_at(p)
                    == palette.spec_color(
                    heat_level(samples, kernel.weights@, RANDOM_WIDTH as int, RANDOM_HEIGHT as int, p),
                ),
{
    let samples = random_samples(RANDOM_SAMPLES, RANDOM_WIDTH, RANDOM_HEIGHT, RANDOM_STRENGTH_LIMIT);
    let width = RANDOM_WIDTH as usize;
    let height = RANDOM_HEIGHT as usize;
    proof {
        assert(raw_len(width as int, height as int) == 6220800);
    }
    gen_heatmap(&samples, width, height, kernel, palette).unwrap()
}

} // verus!
