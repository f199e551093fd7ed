//! Fixed-point scalars in millionths.
//!
//! Weights, importances and activation energies are stored as `u64`
//! counts of millionths, so `UNIT` stands for 1.0. Products of two such
//! scalars are computed in 128-bit arithmetic and scaled back down;
//! results too large for `u64` saturate at `u64::MAX`.

use vstd::prelude::*;

verus! {

/// The fixed-point representation of 1.0.
pub const UNIT: u64 = 1_000_000;

/// Saturating addition, as a mathematical function.
pub open spec fn sat_add_spec(a: int, b: int) -> int {
    if a + b > u64::MAX {
        u64::MAX as int
    } else {
        a + b
    }
}

/// Scaled product `a * f / UNIT`, saturating at `u64::MAX`.
pub open spec fn mul_frac_spec(a: int, f: int) -> int {
    if (a * f) / (UNIT as int) > u64::MAX {
        u64::MAX as int
    } else {
        (a * f) / (UNIT as int)
    }
}

/// Clamp a raw scalar into `[0, UNIT]`, the fixed-point image of `[0, 1]`.
pub open spec fn clamp_unit_spec(w: int) -> int {
    if w > UNIT {
        UNIT as int
    } else {
        w
    }
}

/// Saturating addition of two fixed-point scalars.
pub fn sat_add(a: u64, b: u64) -> (r: u64)
    ensures
        r == sat_add_spec(a as int, b as int),
{
    if a > u64::MAX - b {
        u64::MAX
    } else {
        a + b
    }
}

/// Multiply a scalar by a fixed-point factor: `a * f / UNIT`, saturating.
pub fn mul_frac(a: u64, f: u64) -> (r: u64)
    ensures
        r == mul_frac_spec(a as int, f as int),
{
    proof {
        assert((a as int) * (f as int) <= (u64::MAX as int) * (u64::MAX as int)) by (nonlinear_arith)
            requires
                a <= u64::MAX,
                f <= u64::MAX,
        ;
    }
    let p: u128 = (a as u128) * (f as u128) / (UNIT as u128);
    if p > u64::MAX as u128 {
        u64::MAX
    } else {
        p as u64
    }
}

/// Clamp a raw scalar into `[0, UNIT]`.
pub fn clamp_unit(w: u64) -> (r: u64)
    ensures
        r == clamp_unit_spec(w as int),
        r <= UNIT,
{
    if w > UNIT {
        UNIT
    } else {
        w
    }
}

/// Average of two scalars, rounding down.
pub fn average(a: u64, b: u64) -> (r: u64)
    ensures
        r == (a + b) / 2,
{
    let s: u128 = (a as u128) + (b as u128);
    (s / 2) as u64
}

/// Composing two scaled multiplications equals one multiplication by the
/// scaled product of the factors, whenever all intermediate products are
/// exact multiples of `UNIT` and nothing saturates.
pub proof fn lemma_mul_frac_compose(e: int, a: int, b: int)
    requires
        0 <= e,
        0 <= a,
        0 <= b,
        (e * a) % (UNIT as int) == 0,
        (a * b) % (UNIT as int) == 0,
        e * a <= u64::MAX * (UNIT as int),
        a * b <= u64::MAX * (UNIT as int),
        e * a * b <= u64::MAX * (UNIT as int) * (UNIT as int),
    ensures
        mul_frac_spec(mul_frac_spec(e, a), b) == mul_frac_spec(e, mul_frac_spec(a, b)),
{
    let u = UNIT as int;
    let ea = e * a / u;
    let ab = a * b / u;
    assert(e * a == ea * u) by {
        vstd::arithmetic::div_mod::lemma_fundamental_div_mod(e * a, u);
    }
    assert(a * b == ab * u) by {
        vstd::arithmetic::div_mod::lemma_fundamental_div_mod(a * b, u);
    }
    assert(ea <= u64::MAX) by (nonlinear_arith)
        requires
            e * a <= u64::MAX * u,
            e * a == ea * u,
            u > 0,
    ;
    assert(ab <= u64::MAX) by (nonlinear_arith)
        requires
            a * b <= u64::MAX * u,
            a * b == ab * u,
            u > 0,
    ;
    assert(0 <= ea) by (nonlinear_arith)
        requires
            0 <= e * a,
            e * a == ea * u,
            u > 0,
    ;
    assert(0 <= ab) by (nonlinear_arith)
        requires
            0 <= a * b,
            a * b == ab * u,
            u > 0,
    ;
    assert(mul_frac_spec(e, a) == ea);
    assert(mul_frac_spec(a, b) == ab);
    // Both sides equal e * a * b / UNIT / UNIT.
    assert(ea * b == e * ab) by (nonlinear_arith)
        requires
            e * a == ea * u,
            a * b == ab * u,
            u > 0,
    ;
    assert(ea * b / u == e * ab / u);
    assert(ea * b <= u64::MAX * u) by (nonlinear_arith)
        requires
            e * a * b <= u64::MAX * u * u,
            e * a == ea * u,
            u > 0,
    ;
    assert(e * ab <= u64::MAX * u);
    assert(0 <= ea * b) by (nonlinear_arith)
        requires
            0 <= ea,
            0 <= b,
    ;
    assert(mul_frac_spec(ea, b) == ea * b / u) by {
        vstd::arithmetic::div_mod::lemma_div_is_ordered(ea * b, u64::MAX * u, u);
        assert(u64::MAX * u / u == u64::MAX) by (nonlinear_arith)
            requires
                u > 0,
        ;
    }
    assert(mul_frac_spec(e, ab) == e * ab / u) by {
        vstd::arithmetic::div_mod::lemma_div_is_ordered(e * ab, u64::MAX * u, u);
        assert(u64::MAX * u / u == u64::MAX) by (nonlinear_arith)
            requires
                u > 0,
        ;
    }
}

} // verus!
