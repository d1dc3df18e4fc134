use vstd::arithmetic::div_mod::{lemma_div_is_ordered, lemma_fundamental_div_mod_converse};
use vstd::prelude::*;

use crate::field::Field;

verus! {

/// Normalized intensities are fixed point: `LEVEL_ONE` stands for 1.0.
pub const LEVEL_ONE: u32 = 65536;

/// The largest value of a non-empty sequence (0 for an empty one).
pub open spec fn seq_max(s: Seq<int>) -> int
    decreases s.len(),
{
    if s.len() == 0 {
        0
    } else if s.len() == 1 {
        s[0]
    } else {
        let m = seq_max(s.drop_last());
        if s.last() > m {
            s.last()
        } else {
            m
        }
    }
}

/// The divisor of the normalization: the maximum, or 1 where the maximum is
/// not positive.
pub open spec fn effective_max(m: int) -> int {
    if m > 0 {
        m
    } else {
        1
    }
}

/// The normalized level of value `v` in a field whose maximum is `m`:
/// `clamp(v / effective_max(m), 0, 1)` in units of `LEVEL_ONE`, rounded down.
pub open spec fn level_of(v: int, m: int) -> int {
    let q = (v * LEVEL_ONE) / effective_max(m);
    if q < 0 {
        0
    } else if q > LEVEL_ONE {
        LEVEL_ONE as int
    } else {
        q
    }
}

/// Every element lies at or below the maximum, and a non-empty sequence
/// holds its maximum.
pub proof fn lemma_seq_max(s: Seq<int>)
    ensures
        forall|i: int| 0 <= i < s.len() ==> #[trigger] s[i] <= seq_max(s),
        s.len() > 0 ==> exists|i: int| 0 <= i < s.len() && #[trigger] s[i] == seq_max(s),
    decreases s.len(),
{
    if s.len() > 1 {
        let t = s.drop_last();
        lemma_seq_max(t);
        assert forall|i: int| 0 <= i < s.len() implies #[trigger] s[i] <= seq_max(s) by {
            if i < s.len() - 1 {
                assert(s[i] == t[i]);
            }
        }
        if s.last() <= seq_max(t) {
            let i = choose|i: int| 0 <= i < t.len() && #[trigger] t[i] == seq_max(t);
            assert(s[i] == t[i]);
        } else {
            assert(s[s.len() - 1] == seq_max(s));
        }
    } else if s.len() == 1 {
        assert(s[0] == seq_max(s));
    }
}

/// The largest cell of a non-empty grid.
pub fn field_max(cells: &Vec<i128>) -> (r: i128)
    requires
        cells@.len() > 0,
    ensures
        r == seq_max(int_values(cells@)),
{
    let ghost vals = int_values(cells@);
    let mut m: i128 = cells[0];
    let n = cells.len();
    for i in 1..n
        invariant
            n == cells@.len(),
            n > 0,
            vals == int_values(cells@),
            m == seq_max(vals.take(i as int)),
    {
        proof {
            assert(vals.take(i + 1).drop_last() =~= vals.take(i as int));
            if i == 1 {
                assert(vals.take(1).len() == 1);
            }
        }
        if cells[i] > m {
            m = cells[i];
        }
    }
    proof {
        assert(vals.take(n as int) =~= vals);
    }
    m
}

/// The cells of a grid as mathematical integers.
pub open spec fn int_values(cells: Seq<i128>) -> Seq<int> {
    cells.map_values(|c: i128| c as int)
}

/// `floor(v * LEVEL_ONE / m)` for `0 < v < m`, by binary long division.
fn scaled_quotient(v: u128, m: u128) -> (q: u32)
    requires
        0 < v < m,
        m <= i128::MAX,
    ensures
        q == (v * LEVEL_ONE) / (m as int),
        q < LEVEL_ONE,
{
    let mut q: u32 = 0;
    let mut r: u128 = v;
    let mut scale: u32 = 1;
    proof {
        vstd::arithmetic::power2::lemma2_to64();
    }
    for k in 0..16u32
        invariant
            0 < v < m,
            m <= i128::MAX,
            scale == vstd::arithmetic::power2::pow2(k as nat),
            v * scale == q * m + r,
            0 <= r < m,
            q < scale,
            scale <= 65536,
    {
        proof {
            vstd::arithmetic::power2::lemma_pow2_unfold((k + 1) as nat);
            vstd::arithmetic::power2::lemma2_to64();
            assert(scale <= 32768) by {
                if k < 15 {
                    vstd::arithmetic::power2::lemma_pow2_strictly_increases(k as nat, 15);
                }
            }
        }
        let ghost old_q = q as int;
        let ghost old_r = r as int;
        let ghost old_scale = scale as int;
        r = r * 2;
        q = q * 2;
        scale = scale * 2;
        if r >= m {
            r = r - m;
            q = q + 1;
        }
        proof {
            assert(v * scale == q * m + r) by (nonlinear_arith)
                requires
                    v * old_scale == old_q * m + old_r,
                    scale == 2 * old_scale,
                    (q == 2 * old_q && r == 2 * old_r) || (q == 2 * old_q + 1 && r == 2 * old_r
                        - m),
            ;
        }
    }
    proof {
        vstd::arithmetic::power2::lemma2_to64();
        lemma_fundamental_div_mod_converse(v * 65536, m as int, q as int, r as int);
    }
    q
}

/// The normalized level of value `v` in a field whose maximum is `m`.
pub fn level(v: i128, m: i128) -> (r: u32)
    ensures
        r == level_of(v as int, m as int),
        r <= LEVEL_ONE,
{
    let ghost e: int = effective_max(m as int);
    if v <= 0 {
        proof {
            assert((v * 65536) / e <= 0) by (nonlinear_arith)
                requires
                    v <= 0,
                    e > 0,
            ;
        }
        0
    } else if m <= 0 || v >= m {
        proof {
            assert(v * 65536 >= e * 65536) by (nonlinear_arith)
                requires
                    v >= e,
                    e > 0,
            ;
            lemma_div_is_ordered(e * 65536, v * 65536, e);
            assert((e * 65536) / e == 65536) by (nonlinear_arith)
                requires
                    e > 0,
            ;
        }
        LEVEL_ONE
    } else {
        scaled_quotient(v as u128, m as u128)
    }
}

/// The normalized levels of a field: each cell divided by the field's
/// maximum and clamped to `[0, LEVEL_ONE]`.
pub fn normalize(field: &Field) -> (r: Vec<u32>)
    requires
        field.wf(),
    ensures
        r@.len() == field.cells@.len(),
        forall|i: int|
            0 <= i < r@.len() ==> #[trigger] r@[i] == level_of(
                field.cells@[i] as int,
                seq_max(int_values(field.cells@)),
            ),
        forall|i: int| 0 <= i < r@.len() ==> #[trigger] r@[i] <= LEVEL_ONE,
{
    proof {
        assert(field.cells@.len() > 0) by (nonlinear_arith)
            requires
                field.width > 0,
                field.height > 0,
                field.cells@.len() == field.width * field.height,
        ;
    }
    let m = field_max(&field.cells);
    let n = field.cells.len();
    let mut out: Vec<u32> = Vec::with_capacity(n);
    for i in 0..n
        invariant
            n == field.cells@.len(),
            m == seq_max(int_values(field.cells@)),
            out@.len() == i,
            forall|k: int|
                0 <= k < i ==> #[trigger] out@[k] == level_of(
                    field.cells@[k] as int,
                    seq_max(int_values(field.cells@)),
                ),
            forall|k: int| 0 <= k < i ==> #[trigger] out@[k] <= LEVEL_ONE,
    {
        out.push(level(field.cells[i], m));
    }
    out
}

} // verus!
