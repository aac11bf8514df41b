//! The Gaussian-form kernel in fixed point.
//!
//! `exp(-d^2 / (2 B^2))` is taken as `(1 + d^2 / (2 n B^2))^(-n)` with
//! `n = KERNEL_STEPS`, evaluated as `n` successive integer scalings of the
//! peak weight `KERNEL_SCALE`. The kernel reads the squared distance, so no
//! square root is needed. Its normalization is the constant `KERNEL_SCALE`:
//! weights enter only normalized weighted means, where any common factor
//! cancels.
use vstd::prelude::*;
use vstd::arithmetic::div_mod::{
    lemma_div_is_ordered,
    lemma_div_is_ordered_by_denominator,
    lemma_div_multiples_vanish,
    lemma_div_pos_is_pos,
    lemma_multiply_divide_le,
    lemma_multiply_divide_lt,
};

verus! {

/// The weight of a point at distance zero.
pub const KERNEL_SCALE: u64 = 0x1_0000_0000;

/// Number of scaling steps in the approximation of the exponential.
pub const KERNEL_STEPS: u64 = 16;

/// `n` scaling steps of the weight `w` by `m / (m + x)`, each rounded down.
pub open spec fn kernel_steps(w: int, m: int, x: int, n: nat) -> int
    decreases n,
{
    if n == 0 {
        w
    } else {
        kernel_steps(w * m / (m + x), m, x, (n - 1) as nat)
    }
}

/// The scale `2 n B^2` against which a squared distance is measured.
pub open spec fn kernel_base(bandwidth: int) -> int {
    2 * KERNEL_STEPS * bandwidth * bandwidth
}

/// The kernel weight of a point at squared distance `dist_sq` under `bandwidth`.
pub open spec fn kernel_weight(dist_sq: int, bandwidth: int) -> int {
    kernel_steps(KERNEL_SCALE as int, kernel_base(bandwidth), dist_sq, KERNEL_STEPS as nat)
}

proof fn lemma_step_le(w: int, m: int, x: int)
    requires
        0 <= w,
        0 < m,
        0 <= x,
    ensures
        0 <= w * m / (m + x) <= w,
{
    assert(0 <= w * m && w * m <= (m + x) * w) by (nonlinear_arith)
        requires
            0 <= w,
            0 < m,
            0 <= x,
    ;
    lemma_div_pos_is_pos(w * m, m + x);
    lemma_multiply_divide_le(w * m, m + x, w);
}

proof fn lemma_steps_le(w: int, m: int, x: int, n: nat)
    requires
        0 <= w,
        0 < m,
        0 <= x,
    ensures
        0 <= kernel_steps(w, m, x, n) <= w,
    decreases n,
{
    if n > 0 {
        lemma_step_le(w, m, x);
        lemma_steps_le(w * m / (m + x), m, x, (n - 1) as nat);
    }
}

proof fn lemma_steps_mono(w1: int, w2: int, m: int, x1: int, x2: int, n: nat)
    requires
        0 <= w2 <= w1,
        0 < m,
        0 <= x1 <= x2,
    ensures
        kernel_steps(w2, m, x2, n) <= kernel_steps(w1, m, x1, n),
    decreases n,
{
    if n > 0 {
        assert(0 <= w2 * m <= w1 * m) by (nonlinear_arith)
            requires
                0 <= w2 <= w1,
                0 < m,
        ;
        lemma_div_is_ordered(w2 * m, w1 * m, m + x1);
        lemma_div_is_ordered_by_denominator(w2 * m, m + x1, m + x2);
        lemma_step_le(w1, m, x1);
        lemma_step_le(w2, m, x2);
        lemma_steps_mono(w1 * m / (m + x1), w2 * m / (m + x2), m, x1, x2, (n - 1) as nat);
    }
}

proof fn lemma_steps_at_zero(w: int, m: int, n: nat)
    requires
        0 < m,
    ensures
        kernel_steps(w, m, 0, n) == w,
    decreases n,
{
    if n > 0 {
        assert(w * m == m * w) by (nonlinear_arith);
        lemma_div_multiples_vanish(w, m);
        lemma_steps_at_zero(w, m, (n - 1) as nat);
    }
}

proof fn lemma_steps_vanish(w: int, m: int, x: int, n: nat)
    requires
        0 <= w,
        0 < m,
        w * m < m + x,
        0 <= x,
    ensures
        n > 0 ==> kernel_steps(w, m, x, n) == 0,
    decreases n,
{
    if n > 0 {
        lemma_div_pos_is_pos(w * m, m + x);
        lemma_multiply_divide_lt(w * m, m + x, 1);
        assert(w * m / (m + x) == 0);
        assert(0 * m == 0);
        if n > 1 {
            lemma_steps_vanish(0, m, x, (n - 1) as nat);
        }
        assert(kernel_steps(w, m, x, n) == kernel_steps(0, m, x, (n - 1) as nat));
    }
}

/// Kernel weights never grow with distance: a farther point weighs at most as
/// much as a nearer one.
pub proof fn kernel_is_monotone(near_sq: int, far_sq: int, bandwidth: int)
    requires
        0 < bandwidth,
        0 <= near_sq <= far_sq,
    ensures
        kernel_weight(far_sq, bandwidth) <= kernel_weight(near_sq, bandwidth),
{
    assert(0 < kernel_base(bandwidth)) by (nonlinear_arith)
        requires
            0 < bandwidth,
    ;
    lemma_steps_mono(
        KERNEL_SCALE as int,
        KERNEL_SCALE as int,
        kernel_base(bandwidth),
        near_sq,
        far_sq,
        KERNEL_STEPS as nat,
    );
}

/// The kernel peaks at distance zero, with weight `KERNEL_SCALE`, and every
/// point at a positive distance weighs strictly less.
pub proof fn kernel_peaks_at_zero(dist_sq: int, bandwidth: int)
    requires
        0 < bandwidth,
        0 <= dist_sq,
    ensures
        kernel_weight(0, bandwidth) == KERNEL_SCALE,
        0 <= kernel_weight(dist_sq, bandwidth) <= KERNEL_SCALE,
        0 < dist_sq ==> kernel_weight(dist_sq, bandwidth) < kernel_weight(0, bandwidth),
{
    let m = kernel_base(bandwidth);
    let w = KERNEL_SCALE as int;
    assert(0 < m) by (nonlinear_arith)
        requires
            0 < bandwidth,
            m == 2 * KERNEL_STEPS * bandwidth * bandwidth,
    ;
    lemma_steps_at_zero(w, m, KERNEL_STEPS as nat);
    lemma_steps_le(w, m, dist_sq, KERNEL_STEPS as nat);
    if 0 < dist_sq {
        assert(w * m < (m + dist_sq) * w) by (nonlinear_arith)
            requires
                0 < w,
                0 < m,
                0 < dist_sq,
        ;
        lemma_multiply_divide_lt(w * m, m + dist_sq, w);
        lemma_step_le(w, m, dist_sq);
        lemma_steps_le(w * m / (m + dist_sq), m, dist_sq, (KERNEL_STEPS - 1) as nat);
    }
}

/// Kernel weight of a point at squared distance `dist_sq`.
pub fn kernel(dist_sq: u128, bandwidth: u32) -> (r: u64)
    requires
        0 < bandwidth,
    ensures
        r == kernel_weight(dist_sq as int, bandwidth as int),
        r <= KERNEL_SCALE,
{
    let b: u128 = bandwidth as u128;
    assert(b * b <= 0xFFFF_FFFF * 0xFFFF_FFFF) by (nonlinear_arith)
        requires
            b <= 0xFFFF_FFFF,
    ;
    assert(0 < b * b) by (nonlinear_arith)
        requires
            0 < b,
    ;
    let m: u128 = 2 * (KERNEL_STEPS as u128) * (b * b);
    assert(m == kernel_base(bandwidth as int)) by (nonlinear_arith)
        requires
            m == 2 * KERNEL_STEPS * (b * b),
            b == bandwidth,
    ;
    let cap: u128 = m * (KERNEL_SCALE as u128);
    let ghost mi = m as int;
    let ghost xi = dist_sq as int;
    proof {
        lemma_steps_le(KERNEL_SCALE as int, mi, xi, KERNEL_STEPS as nat);
    }
    if dist_sq > cap {
        proof {
            lemma_steps_vanish(KERNEL_SCALE as int, mi, xi, KERNEL_STEPS as nat);
        }
        return 0;
    }
    let mut w: u128 = KERNEL_SCALE as u128;
    let mut k: u64 = 0;
    while k < KERNEL_STEPS
        invariant
            k <= KERNEL_STEPS,
            0 < mi < 0x1_0000_0000_0000_0000_00,
            m == mi,
            xi == dist_sq,
            dist_sq <= cap,
            cap == m * KERNEL_SCALE,
            w <= KERNEL_SCALE,
            kernel_steps(w as int, mi, xi, (KERNEL_STEPS - k) as nat) == kernel_weight(
                xi,
                bandwidth as int,
            ),
        decreases KERNEL_STEPS - k,
    {
        assert(w * m <= KERNEL_SCALE * m) by (nonlinear_arith)
            requires
                w <= KERNEL_SCALE,
                0 < m,
        ;
        proof {
            lemma_step_le(w as int, mi, xi);
        }
        w = w * m / (m + dist_sq);
        k = k + 1;
    }
    w as u64
}

} // verus!
