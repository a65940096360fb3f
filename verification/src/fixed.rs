//! Fixed-point scalars: the optimizer's stand-in for real numbers.
//!
//! A scalar is an `i64` counting millionths ([`SCALE`] per whole unit).
//! Dataset cells are bounded by [`VAL_LIMIT`] and genes by [`GENE_LIMIT`];
//! the bounds keep every product and sum of the scorer inside `i128`.

use vstd::prelude::*;

verus! {

/// One whole unit in fixed-point form: stored values count millionths.
pub const SCALE: i64 = 1_000_000;

/// Largest magnitude a dataset cell may hold (one million whole units).
pub const VAL_LIMIT: i64 = 1_000_000_000_000;

/// Largest magnitude a gene may hold (one million whole units).
pub const GENE_LIMIT: i64 = 1_000_000_000_000;

/// Bound on a single gene-times-cell product after rescaling.
pub const TERM_LIMIT: i64 = 1_000_000_000_000_000_000;

pub open spec fn abs(x: int) -> int {
    if x >= 0 {
        x
    } else {
        -x
    }
}

/// Division by two rounding toward zero, as the crossover mean uses it.
pub open spec fn spec_half(x: int) -> int {
    if x >= 0 {
        x / 2
    } else {
        -((-x) / 2)
    }
}

/// The product of two fixed-point scalars, rescaled back by [`SCALE`],
/// rounding toward zero.
pub open spec fn spec_fxmul(a: int, b: int) -> int {
    if a * b >= 0 {
        (a * b) / (SCALE as int)
    } else {
        -((-(a * b)) / (SCALE as int))
    }
}

/// Halves a scalar, rounding toward zero.
pub fn half(x: i64) -> (r: i64)
    requires
        i64::MIN < x,
    ensures
        r == spec_half(x as int),
        abs(r as int) <= abs(x as int),
{
    if x >= 0 {
        let q: u64 = (x as u64) / 2;
        q as i64
    } else {
        let m: u64 = ((-x) as u64) / 2;
        -(m as i64)
    }
}

/// Multiplies two bounded fixed-point scalars exactly.
pub fn fxmul(a: i64, b: i64) -> (r: i64)
    requires
        -GENE_LIMIT <= a <= GENE_LIMIT,
        -VAL_LIMIT <= b <= VAL_LIMIT,
    ensures
        r == spec_fxmul(a as int, b as int),
        -TERM_LIMIT <= r <= TERM_LIMIT,
{
    proof {
        lemma_fxmul_bound(a as int, b as int);
    }
    let p: i128 = (a as i128) * (b as i128);
    if p >= 0 {
        let q: u128 = (p as u128) / 1_000_000;
        q as i64
    } else {
        let m: u128 = ((-p) as u128) / 1_000_000;
        -(m as i64)
    }
}

/// The rescaled product of bounded scalars is bounded by [`TERM_LIMIT`].
pub proof fn lemma_fxmul_bound(a: int, b: int)
    requires
        -GENE_LIMIT <= a <= GENE_LIMIT,
        -VAL_LIMIT <= b <= VAL_LIMIT,
    ensures
        abs(a * b) <= (GENE_LIMIT as int) * (VAL_LIMIT as int),
        abs(spec_fxmul(a, b)) <= TERM_LIMIT as int,
        spec_fxmul(a, b) == if a * b >= 0 {
            (a * b) / (SCALE as int)
        } else {
            -((-(a * b)) / (SCALE as int))
        },
{
    assert(abs(a * b) <= (GENE_LIMIT as int) * (VAL_LIMIT as int)) by (nonlinear_arith)
        requires
            -GENE_LIMIT <= a <= GENE_LIMIT,
            -VAL_LIMIT <= b <= VAL_LIMIT,
    ;
    let p = abs(a * b);
    assert(p / (SCALE as int) <= TERM_LIMIT as int) by (nonlinear_arith)
        requires
            0 <= p <= 1_000_000_000_000_000_000_000_000,
    ;
    if a * b >= 0 {
        assert(0 <= (a * b) / (SCALE as int));
    } else {
        assert(0 <= (-(a * b)) / (SCALE as int));
    }
}

} // verus!
