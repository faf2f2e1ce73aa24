use vstd::prelude::*;

verus! {

/// An exact rational number `num / den` with a positive denominator.
///
/// Slopes in the shadowcasting scan are always of the form
/// `(2 * column - 1) / (2 * depth)` or one of the seed values `-1` and `1`,
/// so they are held exactly as integer fractions; every comparison the scan
/// makes is decided by cross-multiplication, with no rounding anywhere.
pub struct Frac {
    pub num: int,
    pub den: int,
}

/// A fraction is well formed when its denominator is positive.
pub open spec fn frac_wf(f: Frac) -> bool {
    0 < f.den
}

/// `c >= d * f`, stated over the exact fraction `f`.
pub open spec fn col_at_least(c: int, d: int, f: Frac) -> bool {
    c * f.den >= d * f.num
}

/// `c <= d * f`, stated over the exact fraction `f`.
pub open spec fn col_at_most(c: int, d: int, f: Frac) -> bool {
    c * f.den <= d * f.num
}

/// `floor(d * f + 1/2)`: the first column of a row whose start slope is `f`.
pub open spec fn floor_half_up(d: int, f: Frac) -> int {
    (2 * d * f.num + f.den) / (2 * f.den)
}

/// `ceil(d * f - 1/2)`: the last column of a row whose end slope is `f`,
/// written as `-floor(-(d * f - 1/2))`.
pub open spec fn ceil_half_down(d: int, f: Frac) -> int {
    -((f.den - 2 * d * f.num) / (2 * f.den))
}

/// A product of two bounded factors is bounded by the product of the bounds.
pub proof fn lemma_mul_abs_bound(x: int, y: int, bx: int, by: int)
    requires
        -bx <= x <= bx,
        -by <= y <= by,
        0 <= bx,
        0 <= by,
    ensures
        -(bx * by) <= x * y <= bx * by,
{
    assert(-(bx * by) <= x * y <= bx * by) by (nonlinear_arith)
        requires
            -bx <= x <= bx,
            -by <= y <= by,
            0 <= bx,
            0 <= by,
    ;
}

/// Flooring division rounds no lower than any integer `q` with `q * b <= a`.
pub proof fn lemma_div_lower_bound(a: int, b: int, q: int)
    requires
        0 < b,
        q * b <= a,
    ensures
        q <= a / b,
{
    vstd::arithmetic::div_mod::lemma_fundamental_div_mod(a, b);
    assert(q <= a / b) by (nonlinear_arith)
        requires
            0 < b,
            q * b <= a,
            a == b * (a / b) + a % b,
            0 <= a % b < b,
    ;
}

/// Flooring division rounds no higher than any integer `q` with `a < (q + 1) * b`.
pub proof fn lemma_div_upper_bound(a: int, b: int, q: int)
    requires
        0 < b,
        a < (q + 1) * b,
    ensures
        a / b <= q,
{
    vstd::arithmetic::div_mod::lemma_fundamental_div_mod(a, b);
    assert(a / b <= q) by (nonlinear_arith)
        requires
            0 < b,
            a < (q + 1) * b,
            a == b * (a / b) + a % b,
            0 <= a % b < b,
    ;
}

/// A slope that stays within the seed wedge, `-1 <= f <= 1`, keeps the first
/// column of a row at depth `d` at or after column `-d`.
pub proof fn lemma_min_col_lower(d: int, f: Frac)
    requires
        frac_wf(f),
        -f.den <= f.num <= f.den,
        1 <= d,
    ensures
        -d <= floor_half_up(d, f),
{
    assert((-d) * (2 * f.den) <= 2 * d * f.num + f.den) by (nonlinear_arith)
        requires
            0 < f.den,
            -f.den <= f.num,
            1 <= d,
    ;
    lemma_div_lower_bound(2 * d * f.num + f.den, 2 * f.den, -d);
}

/// A slope with `-1 <= f <= 1` keeps the first column of a row at depth `d`
/// at or before column `d`.
pub proof fn lemma_min_col_upper(d: int, f: Frac)
    requires
        frac_wf(f),
        -f.den <= f.num <= f.den,
        1 <= d,
    ensures
        floor_half_up(d, f) <= d,
{
    assert(2 * d * f.num + f.den < (d + 1) * (2 * f.den)) by (nonlinear_arith)
        requires
            0 < f.den,
            f.num <= f.den,
            1 <= d,
    ;
    lemma_div_upper_bound(2 * d * f.num + f.den, 2 * f.den, d);
}

/// A slope with `-1 <= f <= 1` keeps the last column of a row at depth `d`
/// at or before column `d`.
pub proof fn lemma_max_col_upper(d: int, f: Frac)
    requires
        frac_wf(f),
        -f.den <= f.num <= f.den,
        1 <= d,
    ensures
        ceil_half_down(d, f) <= d,
{
    assert((-d) * (2 * f.den) <= f.den - 2 * d * f.num) by (nonlinear_arith)
        requires
            0 < f.den,
            f.num <= f.den,
            1 <= d,
    ;
    lemma_div_lower_bound(f.den - 2 * d * f.num, 2 * f.den, -d);
}

/// A slope with `-1 <= f <= 1` keeps the last column of a row at depth `d`
/// at or after column `-d - 1`.
pub proof fn lemma_max_col_lower(d: int, f: Frac)
    requires
        frac_wf(f),
        -f.den <= f.num <= f.den,
        1 <= d,
    ensures
        -d - 1 <= ceil_half_down(d, f),
{
    assert(f.den - 2 * d * f.num < (d + 2) * (2 * f.den)) by (nonlinear_arith)
        requires
            0 < f.den,
            -f.den <= f.num,
            1 <= d,
    ;
    lemma_div_upper_bound(f.den - 2 * d * f.num, 2 * f.den, d + 1);
}

} // verus!
