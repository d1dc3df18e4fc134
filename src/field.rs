use vstd::arithmetic::div_mod::{
    lemma_fundamental_div_mod,
    lemma_fundamental_div_mod_converse,
    lemma_mod_pos_bound,
};
use vstd::prelude::*;

use crate::error::HeatError;

verus! {

/// Kernel weights are fixed point: `WEIGHT_ONE` stands for 1.0.
pub const WEIGHT_ONE: u32 = 65536;

/// The bound on the magnitude of one sample's contribution to one cell:
/// `2^31` for the strength times `WEIGHT_ONE` squared.
pub open spec fn contribution_bound() -> int {
    0x8000_0000_0000_0000
}

/// A measurement: its position in pixel coordinates and its strength.
#[derive(Clone, Copy, Debug, PartialEq, Eq, Structural)]
pub struct Sample {
    pub x: i32,
    pub y: i32,
    pub strength: i32,
}

/// A radially decreasing weight profile, truncated at three times its radius.
/// `weights[d]` is the weight, in units of `WEIGHT_ONE`, of a cell whose
/// distance to the sample is `d` along one axis; a cell's weight is the
/// product of its two axis weights (which is how a Gaussian factors). Cells
/// further than `3 * radius` along either axis get nothing.
pub struct Kernel {
    pub radius: usize,
    pub weights: Vec<u32>,
}

/// A sequence that never increases.
pub open spec fn non_increasing(s: Seq<u32>) -> bool {
    forall|d: int, e: int| 0 <= d <= e < s.len() ==> #[trigger] s[e] <= #[trigger] s[d]
}

/// Every entry is at most `WEIGHT_ONE`.
pub open spec fn weights_bounded(s: Seq<u32>) -> bool {
    forall|d: int| 0 <= d < s.len() ==> #[trigger] s[d] <= WEIGHT_ONE
}

/// What a kernel of radius `radius` with weights `w` must be.
pub open spec fn valid_kernel(radius: int, w: Seq<u32>) -> bool {
    &&& radius > 0
    &&& w.len() == 3 * radius + 1
    &&& weights_bounded(w)
    &&& non_increasing(w)
}

impl Kernel {
    /// The half-size of the square window that a sample reaches.
    pub open spec fn reach(&self) -> int {
        3 * self.radius
    }

    pub open spec fn wf(&self) -> bool {
        valid_kernel(self.radius as int, self.weights@)
    }

    /// A kernel of the given radius and weights, if they make one.
    pub fn new(radius: usize, weights: Vec<u32>) -> (r: Result<Kernel, HeatError>)
        ensures
            r is Ok <==> valid_kernel(radius as int, weights@),
            r matches Ok(k) ==> k.radius == radius && k.weights@ == weights@,
            r matches Err(e) ==> e == HeatError::InvalidKernel,
    {
        let len = weights.len();
        if radius == 0 || radius > (usize::MAX - 1) / 3 || len != 3 * radius + 1 {
            return Err(HeatError::InvalidKernel);
        }
        let mut i: usize = 0;
        while i < len
            invariant
                len == weights@.len(),
                i <= len,
                forall|d: int| 0 <= d < i ==> #[trigger] weights@[d] <= WEIGHT_ONE,
                forall|d: int, e: int|
                    0 <= d <= e < i ==> #[trigger] weights@[e] <= #[trigger] weights@[d],
            decreases len - i,
        {
            if weights[i] > WEIGHT_ONE {
                return Err(HeatError::InvalidKernel);
            }
            if i > 0 && weights[i] > weights[i - 1] {
                return Err(HeatError::InvalidKernel);
            }
            proof {
                assert forall|d: int, e: int|
                    0 <= d <= e < i + 1 implies #[trigger] weights@[e] <= #[trigger] weights@[d] by {
                    if e == i && d < e {
                        assert(weights@[d] >= weights@[i - 1]);
                    }
                }
            }
            i = i + 1;
        }
        Ok(Kernel { radius, weights })
    }
}

/// The distance between two coordinates on one axis.
pub open spec fn dist(a: int, b: int) -> int {
    if a >= b {
        a - b
    } else {
        b - a
    }
}

/// The weight at axis distance `d`: zero beyond the end of the table.
pub open spec fn weight_at(w: Seq<u32>, d: int) -> int {
    if 0 <= d < w.len() {
        w[d] as int
    } else {
        0
    }
}

/// What sample `s` adds to the cell in column `x`, row `y`.
pub open spec fn contribution(s: Sample, w: Seq<u32>, x: int, y: int) -> int {
    s.strength * (weight_at(w, dist(x, s.x as int)) * weight_at(w, dist(y, s.y as int)))
}

/// The un-normalized field at `(x, y)`: the sum of every sample's
/// contribution, evaluated over the whole grid.
pub open spec fn field_value(samples: Seq<Sample>, w: Seq<u32>, x: int, y: int) -> int
    decreases samples.len(),
{
    if samples.len() == 0 {
        0
    } else {
        field_value(samples.drop_last(), w, x, y) + contribution(samples.last(), w, x, y)
    }
}

/// Whether `(x, y)` lies in the square window of half-size `reach` around `s`.
pub open spec fn in_window(s: Sample, reach: int, x: int, y: int) -> bool {
    dist(x, s.x as int) <= reach && dist(y, s.y as int) <= reach
}

/// The field at `(x, y)` as the windowed computation sums it: only samples
/// whose window holds the cell are counted.
pub open spec fn windowed_value(samples: Seq<Sample>, w: Seq<u32>, reach: int, x: int, y: int) -> int
    decreases samples.len(),
{
    if samples.len() == 0 {
        0
    } else {
        windowed_value(samples.drop_last(), w, reach, x, y) + if in_window(
            samples.last(),
            reach,
            x,
            y,
        ) {
            contribution(samples.last(), w, x, y)
        } else {
            0
        }
    }
}

/// A `width × height` grid of un-normalized intensities, row by row.
pub struct Field {
    pub width: usize,
    pub height: usize,
    pub cells: Vec<i128>,
}

impl Field {
    pub open spec fn wf(&self) -> bool {
        &&& self.width > 0
        &&& self.height > 0
        &&& self.cells@.len() == self.width * self.height
    }

    /// The cell in column `x`, row `y`.
    pub fn get(&self, x: usize, y: usize) -> (r: i128)
        requires
            self.wf(),
            x < self.width,
            y < self.height,
        ensures
            r == self.cells@[y * self.width + x],
    {
        let _ = self.cells.len();
        proof {
            lemma_cell_of(self.width as int, self.height as int, x as int, y as int);
        }
        self.cells[y * self.width + x]
    }
}

/// Column and row of cell index `i` in a grid of the given width.
pub open spec fn col_of(i: int, width: int) -> int {
    i % width
}

pub open spec fn row_of(i: int, width: int) -> int {
    i / width
}

/// The cells of the whole-grid field of `samples`, row by row.
pub open spec fn field_cells(samples: Seq<Sample>, w: Seq<u32>, width: int, height: int) -> Seq<int> {
    Seq::new(
        (width * height) as nat,
        |i: int| field_value(samples, w, col_of(i, width), row_of(i, width)),
    )
}

/// Cell index `i` of a `width × height` grid has its column and row in range.
pub proof fn lemma_index(i: int, width: int, height: int)
    requires
        width > 0,
        0 <= i < width * height,
    ensures
        0 <= col_of(i, width) < width,
        0 <= row_of(i, width) < height,
        i == row_of(i, width) * width + col_of(i, width),
{
    lemma_fundamental_div_mod(i, width);
    lemma_mod_pos_bound(i, width);
    let q = i / width;
    let r = i % width;
    assert(i == q * width + r) by (nonlinear_arith)
        requires
            i == width * q + r,
    ;
    assert(0 <= q < height) by (nonlinear_arith)
        requires
            i == q * width + r,
            0 <= r < width,
            0 <= i < width * height,
            width > 0,
    ;
}

/// Column `x`, row `y` of a `width × height` grid is cell `y * width + x`.
pub proof fn lemma_cell_of(width: int, height: int, x: int, y: int)
    requires
        0 <= x < width,
        0 <= y < height,
    ensures
        0 <= y * width + x < width * height,
        col_of(y * width + x, width) == x,
        row_of(y * width + x, width) == y,
{
    assert(0 <= y * width + x < width * height) by (nonlinear_arith)
        requires
            0 <= x < width,
            0 <= y < height,
    ;
    lemma_fundamental_div_mod_converse(y * width + x, width, y, x);
}

/// One sample's contribution to one cell is bounded in magnitude.
pub proof fn lemma_contribution_bound(s: Sample, w: Seq<u32>, x: int, y: int)
    requires
        weights_bounded(w),
    ensures
        -contribution_bound() <= contribution(s, w, x, y) <= contribution_bound(),
{
    let a = weight_at(w, dist(x, s.x as int));
    let b = weight_at(w, dist(y, s.y as int));
    let st = s.strength as int;
    assert(0 <= a <= 65536);
    assert(0 <= b <= 65536);
    assert(-contribution_bound() <= st * (a * b) <= contribution_bound()) by (nonlinear_arith)
        requires
            0 <= a <= 65536,
            0 <= b <= 65536,
            -0x8000_0000 <= st < 0x8000_0000,
    ;
}

/// The weight of a cell at coordinate `a` on one axis, for a sample at `center`.
fn axis_weight(kernel: &Kernel, a: usize, center: i32) -> (r: u32)
    requires
        kernel.wf(),
    ensures
        r == weight_at(kernel.weights@, dist(a as int, center as int)),
        r <= WEIGHT_ONE,
{
    let d: i128 = if a as i128 >= center as i128 {
        a as i128 - center as i128
    } else {
        center as i128 - a as i128
    };
    if d < kernel.weights.len() as i128 {
        kernel.weights[d as usize]
    } else {
        0
    }
}

/// What sample `s` adds to the cell in column `x`, row `y`.
fn contribution_at(s: Sample, kernel: &Kernel, x: usize, y: usize) -> (r: i128)
    requires
        kernel.wf(),
    ensures
        r == contribution(s, kernel.weights@, x as int, y as int),
{
    let wx = axis_weight(kernel, x, s.x);
    let wy = axis_weight(kernel, y, s.y);
    assert(wx * wy <= 65536 * 65536) by (nonlinear_arith)
        requires
            wx <= 65536,
            wy <= 65536,
    ;
    let p: i128 = wx as i128 * wy as i128;
    assert(-0x8000_0000_0000_0000 <= s.strength * p <= 0x8000_0000_0000_0000) by (nonlinear_arith)
        requires
            0 <= p <= 65536 * 65536,
            -0x8000_0000 <= s.strength < 0x8000_0000,
    ;
    s.strength as i128 * p
}

/// The clipped range `[lo, hi]` of coordinates in `0..size` that lie within
/// `reach` of `center`, or `None` if there are none.
fn axis_window(center: i32, reach: usize, size: usize) -> (r: Option<(usize, usize)>)
    requires
        size > 0,
    ensures
        r matches Some((lo, hi)) ==> lo <= hi < size && forall|v: int|
            0 <= v < size ==> ((lo <= v <= hi) <==> #[trigger] dist(v, center as int) <= reach),
        r is None ==> forall|v: int| 0 <= v < size ==> #[trigger] dist(v, center as int) > reach,
{
    let lo: i128 = if (center as i128) - (reach as i128) > 0 {
        (center as i128) - (reach as i128)
    } else {
        0
    };
    let hi: i128 = if (center as i128) + (reach as i128) < (size as i128) - 1 {
        (center as i128) + (reach as i128)
    } else {
        (size as i128) - 1
    };
    if lo > hi {
        None
    } else {
        Some((lo as usize, hi as usize))
    }
}

/// Adds the windowed contribution of `s` to every cell of `cells`.
fn add_sample(cells: &mut Vec<i128>, width: usize, height: usize, s: Sample, kernel: &Kernel)
    requires
        kernel.wf(),
        width > 0,
        height > 0,
        old(cells)@.len() == width * height,
        forall|i: int|
            0 <= i < old(cells)@.len() ==> i128::MIN + contribution_bound() <= #[trigger] old(
                cells,
            )@[i] <= i128::MAX - contribution_bound(),
    ensures
        final(cells)@.len() == old(cells)@.len(),
        forall|i: int|
            0 <= i < final(cells)@.len() ==> #[trigger] final(cells)@[i] == old(cells)@[i] + if in_window(
                s,
                kernel.reach(),
                col_of(i, width as int),
                row_of(i, width as int),
            ) {
                contribution(s, kernel.weights@, col_of(i, width as int), row_of(i, width as int))
            } else {
                0
            },
{
    let ghost w = width as int;
    let ghost n = width * height;
    let ghost start = cells@;
    let ghost reach = kernel.reach();
    let len = cells.len();
    let reach_exec: usize = kernel.weights.len() - 1;
    let wx = axis_window(s.x, reach_exec, width);
    let wy = axis_window(s.y, reach_exec, height);
    match (wx, wy) {
        (Some((x0, x1)), Some((y0, y1))) => {
            for y in y0..y1 + 1
                invariant
                    kernel.wf(),
                    reach == reach_exec,
                    w == width,
                    n == width * height,
                    n <= usize::MAX,
                    width > 0,
                    x0 <= x1 < width,
                    y0 <= y1 < height,
                    y0 <= y <= y1 + 1,
                    forall|v: int|
                        0 <= v < width ==> ((x0 <= v <= x1) <==> #[trigger] dist(v, s.x as int)
                            <= reach),
                    forall|v: int|
                        0 <= v < height ==> ((y0 <= v <= y1) <==> #[trigger] dist(v, s.y as int)
                            <= reach),
                    start.len() == n,
                    cells@.len() == n,
                    forall|i: int|
                        0 <= i < n ==> i128::MIN + contribution_bound() <= #[trigger] start[i]
                            <= i128::MAX - contribution_bound(),
                    forall|i: int|
                        0 <= i < n ==> #[trigger] cells@[i] == start[i] + if in_window(
                            s,
                            reach,
                            col_of(i, w),
                            row_of(i, w),
                        ) && row_of(i, w) < y {
                            contribution(s, kernel.weights@, col_of(i, w), row_of(i, w))
                        } else {
                            0
                        },
            {
                for x in x0..x1 + 1
                    invariant
                        kernel.wf(),
                        reach == reach_exec,
                        w == width,
                        n == width * height,
                        n <= usize::MAX,
                        width > 0,
                        x0 <= x1 < width,
                        y0 <= y <= y1 < height,
                        x0 <= x <= x1 + 1,
                        forall|v: int|
                            0 <= v < width ==> ((x0 <= v <= x1) <==> #[trigger] dist(v, s.x as int)
                                <= reach),
                        forall|v: int|
                            0 <= v < height ==> ((y0 <= v <= y1) <==> #[trigger] dist(
                                v,
                                s.y as int,
                            ) <= reach),
                        start.len() == n,
                        cells@.len() == n,
                        forall|i: int|
                            0 <= i < n ==> i128::MIN + contribution_bound() <= #[trigger] start[i]
                                <= i128::MAX - contribution_bound(),
                        forall|i: int|
                            0 <= i < n ==> #[trigger] cells@[i] == start[i] + if in_window(
                                s,
                                reach,
                                col_of(i, w),
                                row_of(i, w),
                            ) && (row_of(i, w) < y || (row_of(i, w) == y && col_of(i, w) < x)) {
                                contribution(s, kernel.weights@, col_of(i, w), row_of(i, w))
                            } else {
                                0
                            },
                {
                    proof {
                        lemma_cell_of(width as int, height as int, x as int, y as int);
                        lemma_contribution_bound(s, kernel.weights@, x as int, y as int);
                    }
                    let idx = y * width + x;
                    let c = contribution_at(s, kernel, x, y);
                    let cur = cells[idx];
                    cells.set(idx, cur + c);
                    proof {
                        assert forall|i: int| 0 <= i < n implies #[trigger] cells@[i] == start[i]
                            + if in_window(s, reach, col_of(i, w), row_of(i, w)) && (row_of(i, w)
                            < y || (row_of(i, w) == y && col_of(i, w) < x + 1)) {
                            contribution(s, kernel.weights@, col_of(i, w), row_of(i, w))
                        } else {
                            0
                        } by {
                            lemma_index(i, w, height as int);
                        }
                    }
                }
                proof {
                    assert forall|i: int| 0 <= i < n implies #[trigger] cells@[i] == start[i]
                        + if in_window(s, reach, col_of(i, w), row_of(i, w)) && row_of(i, w) < y
                        + 1 {
                        contribution(s, kernel.weights@, col_of(i, w), row_of(i, w))
                    } else {
                        0
                    } by {
                        lemma_index(i, w, height as int);
                    }
                }
            }
            proof {
                assert forall|i: int| 0 <= i < n implies #[trigger] cells@[i] == start[i]
                    + if in_window(s, reach, col_of(i, w), row_of(i, w)) {
                    contribution(s, kernel.weights@, col_of(i, w), row_of(i, w))
                } else {
                    0
                } by {
                    lemma_index(i, w, height as int);
                }
            }
        },
        _ => {
            proof {
                assert forall|i: int| 0 <= i < n implies !in_window(
                    s,
                    reach,
                    col_of(i, w),
                    row_of(i, w),
                ) by {
                    lemma_index(i, w, height as int);
                }
            }
        },
    }
}


/// `width * height`, where it fits in a `usize`, for a grid with no empty side.
fn cell_count(width: usize, height: usize) -> (r: Result<usize, HeatError>)
    ensures
        r is Ok <==> width > 0 && height > 0 && width * height <= usize::MAX,
        r matches Ok(n) ==> n == width * height,
        r matches Err(e) ==> e == HeatError::InvalidDimensions,
{
    if width == 0 || height == 0 {
        return Err(HeatError::InvalidDimensions);
    }
    match width.checked_mul(height) {
        Some(n) => Ok(n),
        None => Err(HeatError::InvalidDimensions),
    }
}

/// The field of `samples` over a `width × height` grid, computed the fast
/// way: each sample touches only the cells of its window, clipped to the
/// grid. By `lemma_windowing_exact` this is the whole-grid field.
pub fn compute_field(samples: &Vec<Sample>, width: usize, height: usize, kernel: &Kernel) -> (r:
    Result<Field, HeatError>)
    requires
        kernel.wf(),
    ensures
        r is Ok <==> width > 0 && height > 0 && width * height <= usize::MAX,
        r matches Err(e) ==> e == HeatError::InvalidDimensions,
        r matches Ok(f) ==> {
            &&& f.wf()
            &&& f.width == width
            &&& f.height == height
            &&& forall|i: int|
                0 <= i < f.cells@.len() ==> #[trigger] f.cells@[i] == windowed_value(
                    samples@,
                    kernel.weights@,
                    kernel.reach(),
                    col_of(i, width as int),
                    row_of(i, width as int),
                )
            &&& forall|i: int|
                0 <= i < f.cells@.len() ==> #[trigger] f.cells@[i] == field_value(
                    samples@,
                    kernel.weights@,
                    col_of(i, width as int),
                    row_of(i, width as int),
                )
        },
{
    let n = cell_count(width, height)?;
    let ghost w = width as int;
    let ghost reach = kernel.reach();
    let mut cells: Vec<i128> = Vec::with_capacity(n);
    for i in 0..n
        invariant
            cells@.len() == i,
            forall|k: int| 0 <= k < i ==> #[trigger] cells@[k] == 0,
    {
        cells.push(0);
    }
    let count = samples.len();
    for j in 0..count
        invariant
            kernel.wf(),
            reach == kernel.reach(),
            count == samples@.len(),
            w == width,
            width > 0,
            height > 0,
            n == width * height,
            cells@.len() == n,
            forall|k: int|
                0 <= k < n ==> -(j * contribution_bound()) <= #[trigger] cells@[k] <= j
                    * contribution_bound(),
            forall|k: int|
                0 <= k < n ==> #[trigger] cells@[k] == windowed_value(
                    samples@.take(j as int),
                    kernel.weights@,
                    reach,
                    col_of(k, w),
                    row_of(k, w),
                ),
    {
        let ghost before = cells@;
        add_sample(&mut cells, width, height, samples[j], kernel);
        proof {
            assert(samples@.take(j + 1).drop_last() =~= samples@.take(j as int));
            assert forall|k: int| 0 <= k < n implies -((j + 1) * contribution_bound())
                <= #[trigger] cells@[k] <= (j + 1) * contribution_bound() && cells@[k]
                == windowed_value(
                samples@.take(j + 1),
                kernel.weights@,
                reach,
                col_of(k, w),
                row_of(k, w),
            ) by {
                lemma_contribution_bound(samples[j as int], kernel.weights@, col_of(k, w), row_of(k, w));
                assert(before[k] == cells@[k] - if in_window(
                    samples[j as int],
                    reach,
                    col_of(k, w),
                    row_of(k, w),
                ) {
                    contribution(samples[j as int], kernel.weights@, col_of(k, w), row_of(k, w))
                } else {
                    0
                });
            }
        }
    }
    proof {
        assert(samples@.take(count as int) =~= samples@);
        assert forall|k: int| 0 <= k < n implies #[trigger] cells@[k] == field_value(
            samples@,
            kernel.weights@,
            col_of(k, w),
            row_of(k, w),
        ) by {
            lemma_windowing_exact(samples@, kernel, col_of(k, w), row_of(k, w));
        }
    }
    Ok(Field { width, height, cells })
}

/// The field of `samples` over a `width × height` grid, computed the direct
/// way: every sample is evaluated at every cell.
pub fn compute_field_full(samples: &Vec<Sample>, width: usize, height: usize, kernel: &Kernel) -> (r:
    Result<Field, HeatError>)
    requires
        kernel.wf(),
    ensures
        r is Ok <==> width > 0 && height > 0 && width * height <= usize::MAX,
        r matches Err(e) ==> e == HeatError::InvalidDimensions,
        r matches Ok(f) ==> {
            &&& f.wf()
            &&& f.width == width
            &&& f.height == height
            &&& forall|i: int|
                0 <= i < f.cells@.len() ==> #[trigger] f.cells@[i] == field_value(
                    samples@,
                    kernel.weights@,
                    col_of(i, width as int),
                    row_of(i, width as int),
                )
        },
{
    let n = cell_count(width, height)?;
    let ghost w = width as int;
    let count = samples.len();
    let mut cells: Vec<i128> = Vec::with_capacity(n);
    for i in 0..n
        invariant
            kernel.wf(),
            count == samples@.len(),
            w == width,
            width > 0,
            n == width * height,
            cells@.len() == i,
            forall|k: int|
                0 <= k < i ==> #[trigger] cells@[k] == field_value(
                    samples@,
                    kernel.weights@,
                    col_of(k, w),
                    row_of(k, w),
                ),
    {
        let x = i % width;
        let y = i / width;
        let mut v: i128 = 0;
        for j in 0..count
            invariant
                kernel.wf(),
                count == samples@.len(),
                -(j * contribution_bound()) <= v <= j * contribution_bound(),
                v == field_value(samples@.take(j as int), kernel.weights@, x as int, y as int),
        {
            proof {
                lemma_contribution_bound(samples[j as int], kernel.weights@, x as int, y as int);
                assert(samples@.take(j + 1).drop_last() =~= samples@.take(j as int));
            }
            v = v + contribution_at(samples[j], kernel, x, y);
        }
        proof {
            assert(samples@.take(count as int) =~= samples@);
        }
        cells.push(v);
    }
    Ok(Field { width, height, cells })
}

/// Truncating each sample to its window loses nothing: for every sample set
/// and every cell, the windowed sum equals the sum over all samples.
pub proof fn lemma_windowing_exact(samples: Seq<Sample>, kernel: &Kernel, x: int, y: int)
    requires
        kernel.wf(),
    ensures
        windowed_value(samples, kernel.weights@, kernel.reach(), x, y) == field_value(
            samples,
            kernel.weights@,
            x,
            y,
        ),
    decreases samples.len(),
{
    if samples.len() > 0 {
        lemma_windowing_exact(samples.drop_last(), kernel, x, y);
        let s = samples.last();
        if !in_window(s, kernel.reach(), x, y) {
            assert(weight_at(kernel.weights@, dist(x, s.x as int)) == 0 || weight_at(
                kernel.weights@,
                dist(y, s.y as int),
            ) == 0);
            assert(contribution(s, kernel.weights@, x, y) == 0) by (nonlinear_arith)
                requires
                    weight_at(kernel.weights@, dist(x, s.x as int)) == 0 || weight_at(
                        kernel.weights@,
                        dist(y, s.y as int),
                    ) == 0,
            ;
        }
    }
}

/// The field is additive: the field of two sample sets together is the sum
/// of their fields.
pub proof fn lemma_field_additive(a: Seq<Sample>, b: Seq<Sample>, w: Seq<u32>, x: int, y: int)
    ensures
        field_value(a + b, w, x, y) == field_value(a, w, x, y) + field_value(b, w, x, y),
    decreases b.len(),
{
    if b.len() == 0 {
        assert(a + b =~= a);
    } else {
        assert((a + b).drop_last() =~= a + b.drop_last());
        lemma_field_additive(a, b.drop_last(), w, x, y);
    }
}

/// Two samples that lie outside each other's windows do not interact: at
/// each sample's own position the field of the pair is that sample's
/// contribution alone, `strength * weights[0]^2`.
pub proof fn lemma_far_samples_separate(s1: Sample, s2: Sample, kernel: &Kernel)
    requires
        kernel.wf(),
        dist(s1.x as int, s2.x as int) > kernel.reach() || dist(s1.y as int, s2.y as int)
            > kernel.reach(),
    ensures
        field_value(seq![s1, s2], kernel.weights@, s1.x as int, s1.y as int) == s1.strength * (
        kernel.weights@[0] * kernel.weights@[0]),
        field_value(seq![s1, s2], kernel.weights@, s2.x as int, s2.y as int) == s2.strength * (
        kernel.weights@[0] * kernel.weights@[0]),
{
    let w = kernel.weights@;
    let pair = seq![s1, s2];
    assert(pair.drop_last() =~= seq![s1]);
    assert(seq![s1].drop_last() =~= Seq::<Sample>::empty());
    assert(pair.last() == s2);
    assert(seq![s1].last() == s1);
    assert(field_value(Seq::<Sample>::empty(), w, s1.x as int, s1.y as int) == 0);
    assert(field_value(Seq::<Sample>::empty(), w, s2.x as int, s2.y as int) == 0);
    assert(dist(s1.x as int, s1.x as int) == 0 && dist(s1.y as int, s1.y as int) == 0);
    assert(dist(s2.x as int, s2.x as int) == 0 && dist(s2.y as int, s2.y as int) == 0);
    assert(contribution(s2, w, s1.x as int, s1.y as int) == 0) by (nonlinear_arith)
        requires
            weight_at(w, dist(s1.x as int, s2.x as int)) == 0 || weight_at(
                w,
                dist(s1.y as int, s2.y as int),
            ) == 0,
            contribution(s2, w, s1.x as int, s1.y as int) == s2.strength * (weight_at(
                w,
                dist(s1.x as int, s2.x as int),
            ) * weight_at(w, dist(s1.y as int, s2.y as int))),
    ;
    assert(contribution(s1, w, s2.x as int, s2.y as int) == 0) by (nonlinear_arith)
        requires
            weight_at(w, dist(s2.x as int, s1.x as int)) == 0 || weight_at(
                w,
                dist(s2.y as int, s1.y as int),
            ) == 0,
            contribution(s1, w, s2.x as int, s2.y as int) == s1.strength * (weight_at(
                w,
                dist(s2.x as int, s1.x as int),
            ) * weight_at(w, dist(s2.y as int, s1.y as int))),
    ;
    assert(field_value(seq![s1], w, s1.x as int, s1.y as int) == contribution(s1, w, s1.x as int, s1.y as int));
    assert(field_value(seq![s1], w, s2.x as int, s2.y as int) == contribution(s1, w, s2.x as int, s2.y as int));
    assert(field_value(pair, w, s1.x as int, s1.y as int) == field_value(seq![s1], w, s1.x as int, s1.y as int) + contribution(s2, w, s1.x as int, s1.y as int));
    assert(field_value(pair, w, s2.x as int, s2.y as int) == field_value(seq![s1], w, s2.x as int, s2.y as int) + contribution(s2, w, s2.x as int, s2.y as int));
}

/// The field of a single sample is that sample's contribution.
pub proof fn lemma_field_single(s: Sample, w: Seq<u32>, x: int, y: int)
    ensures
        field_value(seq![s], w, x, y) == contribution(s, w, x, y),
{
    assert(seq![s].drop_last() =~= Seq::<Sample>::empty());
    assert(seq![s].last() == s);
    assert(field_value(Seq::<Sample>::empty(), w, x, y) == 0);
}

} // verus!
