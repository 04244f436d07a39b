//! How the errors of several steps add up, for numbers that are not negative.
use crate::accuracy;
use crate::arithmetic;
use crate::double;
use crate::double::{Double, INFINITE};
use crate::order;
use crate::whole;
use vstd::arithmetic::power2::*;
use vstd::prelude::*;

verus! {

/// That two numbers differ by no more than `parts` parts in `2^53`, whichever of them
/// is the larger.
pub open spec fn near(x: int, y: int, parts: int) -> bool {
    &&& 0 <= x
    &&& 0 <= y
    &&& 0x20_0000_0000_0000 * x <= (0x20_0000_0000_0000 + parts) * y
    &&& 0x20_0000_0000_0000 * y <= (0x20_0000_0000_0000 + parts) * x
}

/// What is near to what is near is not far.
pub proof fn law_nearness_adds_up(x: int, y: int, z: int, j: int, k: int)
    requires
        near(x, y, j),
        near(y, z, k),
        0 <= j < 0x10_0000,
        0 <= k < 0x10_0000,
    ensures
        near(x, z, j + k + 1),
{
    lemma_chain(x, y, z, j, k);
    lemma_chain(z, y, x, k, j);
}

proof fn lemma_chain(x: int, y: int, z: int, j: int, k: int)
    requires
        0 <= x,
        0 <= y,
        0 <= z,
        0x20_0000_0000_0000 * x <= (0x20_0000_0000_0000 + j) * y,
        0x20_0000_0000_0000 * y <= (0x20_0000_0000_0000 + k) * z,
        0 <= j < 0x10_0000,
        0 <= k < 0x10_0000,
    ensures
        0x20_0000_0000_0000 * x <= (0x20_0000_0000_0000 + (j + k + 1)) * z,
{
    let m: int = 0x20_0000_0000_0000;
    assert(j * k <= m) by (nonlinear_arith)
        requires
            0 <= j < 0x10_0000,
            0 <= k < 0x10_0000,
            m == 0x20_0000_0000_0000,
    ;
    assert(m * (m * x) <= m * ((m + (j + k + 1)) * z)) by (nonlinear_arith)
        requires
            m * x <= (m + j) * y,
            m * y <= (m + k) * z,
            j * k <= m,
            0 <= j,
            0 <= k,
            0 <= z,
            m == 0x20_0000_0000_0000,
    {
        assert(m * (m * x) <= m * ((m + j) * y));
        assert(m * ((m + j) * y) == (m + j) * (m * y));
        assert((m + j) * (m * y) <= (m + j) * ((m + k) * z));
        assert((m + j) * ((m + k) * z) == (m * m + m * j + m * k + j * k) * z);
        assert((m * m + m * j + m * k + j * k) * z <= (m * m + m * j + m * k + m) * z);
        assert((m * m + m * j + m * k + m) * z == m * ((m + (j + k + 1)) * z));
    }
    assert(m * x <= (m + (j + k + 1)) * z) by (nonlinear_arith)
        requires
            m * (m * x) <= m * ((m + (j + k + 1)) * z),
            m == 0x20_0000_0000_0000,
    ;
}

/// Near factors have near products with the same number.
pub proof fn law_near_multiples(x: int, y: int, factor: int, k: int)
    requires
        near(x, y, k),
        0 <= factor,
        0 <= k,
    ensures
        near(x * factor, y * factor, k),
        near(factor * x, factor * y, k),
{
    let m: int = 0x20_0000_0000_0000;
    assert(m * (x * factor) <= (m + k) * (y * factor) && m * (y * factor) <= (m + k) * (x * factor)
        && 0 <= x * factor && 0 <= y * factor) by (nonlinear_arith)
        requires
            m * x <= (m + k) * y,
            m * y <= (m + k) * x,
            0 <= factor,
            0 <= x,
            0 <= y,
    {
        assert((m * x) * factor <= ((m + k) * y) * factor);
        assert((m * y) * factor <= ((m + k) * x) * factor);
        assert((m * x) * factor == m * (x * factor));
        assert((m * y) * factor == m * (y * factor));
        assert(((m + k) * y) * factor == (m + k) * (y * factor));
        assert(((m + k) * x) * factor == (m + k) * (x * factor));
    }
    assert(x * factor == factor * x && y * factor == factor * y) by (nonlinear_arith);
}

/// Multiples are near only where what they are multiples of is.
pub proof fn law_near_divided(x: int, y: int, factor: int, k: int)
    requires
        near(x * factor, y * factor, k),
        0 < factor,
        0 <= x,
        0 <= y,
        0 <= k,
    ensures
        near(x, y, k),
{
    let m: int = 0x20_0000_0000_0000;
    assert(m * x <= (m + k) * y && m * y <= (m + k) * x) by (nonlinear_arith)
        requires
            m * (x * factor) <= (m + k) * (y * factor),
            m * (y * factor) <= (m + k) * (x * factor),
            0 < factor,
    {
        assert((m * x) * factor <= ((m + k) * y) * factor);
        assert((m * y) * factor <= ((m + k) * x) * factor);
    }
}

/// Near terms have near sums.
pub proof fn law_near_sums(x: int, y: int, z: int, w: int, j: int, k: int)
    requires
        near(x, y, j),
        near(z, w, k),
        0 <= j <= k,
    ensures
        near(x + z, y + w, k),
{
    let m: int = 0x20_0000_0000_0000;
    assert((m + j) * y <= (m + k) * y && (m + j) * x <= (m + k) * x) by (nonlinear_arith)
        requires
            j <= k,
            0 <= x,
            0 <= y,
    ;
    assert((m + k) * (y + w) == (m + k) * y + (m + k) * w) by (nonlinear_arith);
    assert((m + k) * (x + z) == (m + k) * x + (m + k) * z) by (nonlinear_arith);
}

/// Near squares have near roots.
pub proof fn law_near_roots(x: int, y: int, k: int)
    requires
        near(x * x, y * y, k),
        0 <= x,
        0 <= y,
        0 <= k,
    ensures
        near(x, y, k),
{
    lemma_root_below(x, y, k);
    lemma_root_below(y, x, k);
}

proof fn lemma_root_below(x: int, y: int, k: int)
    requires
        0 <= x,
        0 <= y,
        0 <= k,
        0x20_0000_0000_0000 * (x * x) <= (0x20_0000_0000_0000 + k) * (y * y),
    ensures
        0x20_0000_0000_0000 * x <= (0x20_0000_0000_0000 + k) * y,
{
    let m: int = 0x20_0000_0000_0000;
    if m * x > (m + k) * y {
        let p = m * x;
        let q = (m + k) * y;
        assert(q >= 0) by (nonlinear_arith)
            requires
                q == (m + k) * y,
                m == 0x20_0000_0000_0000,
                0 <= k,
                0 <= y,
        ;
        assert(q * q < p * p) by (nonlinear_arith)
            requires
                0 <= q < p,
        ;
        assert(p * p == m * (m * (x * x))) by (nonlinear_arith)
            requires
                p == m * x,
        ;
        assert(m * (m * (x * x)) <= m * ((m + k) * (y * y))) by (nonlinear_arith)
            requires
                m * (x * x) <= (m + k) * (y * y),
                m == 0x20_0000_0000_0000,
        ;
        assert(m * ((m + k) * (y * y)) <= q * q) by (nonlinear_arith)
            requires
                q == (m + k) * y,
                0 <= k,
                0 <= y,
                m == 0x20_0000_0000_0000,
        {
            assert(q * q == (m + k) * ((m + k) * (y * y)));
            assert(0 <= (m + k) * (y * y));
            assert(m * ((m + k) * (y * y)) <= (m + k) * ((m + k) * (y * y)));
        }
    }
}

/// A result that is far from both ends of the range is near to the exact one.
pub proof fn lemma_rounded_near(numerator: nat, denominator: nat)
    requires
        denominator > 0,
        pow2(60) * denominator <= numerator <= pow2(1900) * denominator,
    ensures
        ({
            let pattern = arithmetic::nearest(numerator, denominator);
            let here = double::double_units(pattern);
            &&& pattern < INFINITE
            &&& pow2(53) <= here
            &&& near((here * denominator) as int, numerator as int, 3)
        }),
{
    let m: int = 0x20_0000_0000_0000;
    let pattern = arithmetic::nearest(numerator, denominator);
    let top = whole::lemma_short(1, 1900);
    arithmetic::law_exact_results_are_kept(top, denominator);
    assert(1 * pow2(1900) == pow2(1900));
    arithmetic::law_there_is_a_nearest(numerator, denominator);
    arithmetic::law_there_is_a_nearest(pow2(1900) * denominator, denominator);
    arithmetic::law_nearest_keeps_order(
        numerator,
        pow2(1900) * denominator,
        denominator,
        pattern,
        top,
    );
    accuracy::law_results_are_close(numerator, denominator);
    let here = double::double_units(pattern) as int;
    let d = denominator as int;
    let n = numerator as int;
    lemma2_to64();
    lemma2_to64_rest();
    let half: int = 0x10_0000_0000_0000;
    assert(m <= here) by (nonlinear_arith)
        requires
            m * n <= m * (here * d) + (here + half) * d,
            0x1000_0000_0000_0000 * d <= n,
            0 < d,
            m == 0x20_0000_0000_0000,
            half == 0x10_0000_0000_0000,
    {
        if here < m {
            assert(m * (here * d) <= m * (m * d));
            assert((here + half) * d <= (m + half) * d);
            assert(m * (0x1000_0000_0000_0000 * d) <= m * n);
            assert(m * (m * d) + (m + half) * d < m * (0x1000_0000_0000_0000 * d));
        }
    }
    let product = here * d;
    assert((here + half) * d <= 2 * product) by (nonlinear_arith)
        requires
            half <= here,
            0 < d,
            product == here * d,
    ;
    assert(0 <= product) by (nonlinear_arith)
        requires
            0 <= here,
            0 < d,
            product == here * d,
    ;
    assert(m * product <= m * n + 2 * product);
    assert(m * n <= m * product + 2 * product);
    assert(m * product <= (m + 3) * n);
}

/// A product that is far from both ends of the range.
pub proof fn law_near_products(x: Double, y: Double, low: nat, high: nat)
    requires
        x.finite(),
        y.finite(),
        !x.negative(),
        !y.negative(),
        1134 <= low <= high <= 2974,
        pow2(low) <= x.units() * y.units() <= pow2(high),
    ensures
        ({
            let here = arithmetic::product(x, y);
            &&& here.finite()
            &&& !here.negative()
            &&& near(here.units() * pow2(1074), x.units() * y.units(), 3)
        }),
{
    let unit = pow2(1074);
    let n = (x.units() * y.units()) as nat;
    lemma_range(n, unit, low, high, 1074);
    lemma_pow2_pos(1074);
    lemma_rounded_near(n, unit);
    assert(x.units() * y.units() == double::double_units(x.magnitude()) * double::double_units(
        y.magnitude(),
    ));
}

/// Powers of two that bound a number bound it as multiples of another.
proof fn lemma_range(n: nat, unit: nat, low: nat, high: nat, place: nat)
    requires
        unit == pow2(place),
        place + 60 <= low <= high <= place + 1900,
        pow2(low) <= n <= pow2(high),
    ensures
        pow2(60) * unit <= n <= pow2(1900) * unit,
{
    lemma_pow2_adds(60, place);
    lemma_pow2_adds(1900, place);
    if place + 60 < low {
        lemma_pow2_strictly_increases(place + 60, low);
    }
    if high < place + 1900 {
        lemma_pow2_strictly_increases(high, place + 1900);
    }
}

/// A sum that is far from both ends of the range.
pub proof fn law_near_totals(x: Double, y: Double, low: nat, high: nat)
    requires
        x.finite(),
        y.finite(),
        0 <= x.units(),
        0 <= y.units(),
        60 <= low <= high <= 1900,
        pow2(low) <= x.units() + y.units() <= pow2(high),
    ensures
        ({
            let here = arithmetic::sum(x, y);
            &&& here.finite()
            &&& !here.negative()
            &&& near(here.units(), x.units() + y.units(), 3)
        }),
{
    let n = (x.units() + y.units()) as nat;
    lemma2_to64();
    lemma_range(n, 1, low, high, 0);
    lemma_rounded_near(n, 1);
    lemma_pow2_pos(low);
    let here = double::double_units(arithmetic::nearest(n, 1));
    assert(here * 1 == here);
}

/// A quotient that is far from both ends of the range.
pub proof fn law_near_quotients(x: Double, y: Double)
    requires
        x.finite(),
        y.finite(),
        !x.negative(),
        !y.negative(),
        0 < y.units(),
        pow2(60) * y.units() <= x.units() * pow2(1074) <= pow2(1900) * y.units(),
    ensures
        ({
            let here = arithmetic::quotient(x, y);
            &&& here.finite()
            &&& !here.negative()
            &&& near(here.units() * y.units(), x.units() * pow2(1074), 3)
        }),
{
    order::law_units_follow_rank(y, y);
    lemma_rounded_near((x.units() * pow2(1074)) as nat, y.units() as nat);
}

/// A root that is far from both ends of the range.
pub proof fn law_near_square_roots(x: Double)
    requires
        x.finite(),
        !x.negative(),
        pow2(200) <= x.units() <= pow2(1900),
    ensures
        ({
            let here = arithmetic::root(x);
            &&& here.finite()
            &&& !here.negative()
            &&& near(here.units() * here.units(), x.units() * pow2(1074), 6)
        }),
{
    let m: int = 0x20_0000_0000_0000;
    let unit = pow2(1074);
    let units = double::double_units(x.magnitude());
    let square = units * unit;
    lemma_pow2_pos(200);
    order::law_units_follow_rank(x, x);
    let pattern = arithmetic::nearest_root(square);
    arithmetic::law_there_is_a_nearest_root(square);
    lemma_root_range(units);
    assert(pattern < INFINITE);
    accuracy::law_roots_are_close(square);
    let here = double::double_units(pattern) as int;
    let s = square as int;
    let above = 0x20_0000_0000_0001 * here + 0x10_0000_0000_0000;
    let below = 0x1f_ffff_ffff_ffff * here - 0x10_0000_0000_0000;
    assert(m <= here);
    assert(above <= (m + 2) * here);
    assert((m - 2) * here <= below);
    assert(m * m == 4 * 0x10_0000_0000_0000 * 0x10_0000_0000_0000);
    assert(m * m * s <= ((m + 2) * here) * ((m + 2) * here)) by (nonlinear_arith)
        requires
            m * m * s <= above * above,
            0 <= above <= (m + 2) * here,
    ;
    assert(((m - 2) * here) * ((m - 2) * here) <= m * m * s) by (nonlinear_arith)
        requires
            below * below <= m * m * s,
            0 <= (m - 2) * here <= below,
    ;
    let r = here * here;
    assert(((m + 2) * here) * ((m + 2) * here) == (m * m + 4 * m + 4) * r) by (nonlinear_arith)
        requires
            r == here * here,
    ;
    assert(((m - 2) * here) * ((m - 2) * here) == (m * m - 4 * m + 4) * r) by (nonlinear_arith)
        requires
            r == here * here,
    ;
    assert(0 <= r) by (nonlinear_arith)
        requires
            r == here * here,
    ;
    assert(m * s <= (m + 6) * r) by (nonlinear_arith)
        requires
            m * m * s <= (m * m + 4 * m + 4) * r,
            0 <= r,
            m == 0x20_0000_0000_0000,
    {
        assert((m * m + 4 * m + 4) * r <= (m * (m + 6)) * r);
        assert(m * (m * s) <= m * ((m + 6) * r));
    }
    assert(m * r <= (m + 6) * s) by (nonlinear_arith)
        requires
            (m * m - 4 * m + 4) * r <= m * m * s,
            0 <= r,
            m == 0x20_0000_0000_0000,
    {
        assert((m + 6) * ((m * m - 4 * m + 4) * r) <= (m + 6) * (m * m * s));
        assert((m + 6) * (m * m - 4 * m + 4) >= m * m * m);
        assert((m * m * m) * r <= ((m + 6) * (m * m - 4 * m + 4)) * r);
        assert((m * m) * (m * r) <= (m * m) * ((m + 6) * s));
    }
}

/// Where the root of such a number lies.
proof fn lemma_root_range(units: nat)
    requires
        pow2(200) <= units <= pow2(1900),
    ensures
        ({
            let pattern = arithmetic::nearest_root(units * pow2(1074));
            &&& pattern < INFINITE
            &&& 0x20_0000_0000_0000 <= double::double_units(pattern)
        }),
{
    let unit = pow2(1074);
    let square = units * unit;
    let pattern = arithmetic::nearest_root(square);
    arithmetic::law_there_is_a_nearest_root(square);
    let low = whole::lemma_short(1, 600);
    let high = whole::lemma_short(1, 1500);
    assert(1 * pow2(600) == pow2(600) && 1 * pow2(1500) == pow2(1500));
    assert(double::double_units(0) == 0);
    lemma_pow2_pos(600);
    lemma_pow2_pos(1500);
    arithmetic::law_roots_undo_squares(low);
    arithmetic::law_roots_undo_squares(high);
    lemma_pow2_adds(600, 600);
    lemma_pow2_adds(1500, 1500);
    lemma_pow2_adds(200, 1074);
    lemma_pow2_adds(1900, 1074);
    lemma_pow2_strictly_increases(1200, 1274);
    lemma_pow2_strictly_increases(2974, 3000);
    assert(pow2(200) * unit <= square <= pow2(1900) * unit) by (nonlinear_arith)
        requires
            square == units * unit,
            pow2(200) <= units <= pow2(1900),
    ;
    arithmetic::law_there_is_a_nearest_root(pow2(600) * pow2(600));
    arithmetic::law_there_is_a_nearest_root(pow2(1500) * pow2(1500));
    arithmetic::law_nearest_roots_keep_order(pow2(600) * pow2(600), square, low, pattern);
    arithmetic::law_nearest_roots_keep_order(square, pow2(1500) * pow2(1500), pattern, high);
    double::law_magnitudes_keep_order(low, pattern);
    lemma2_to64_rest();
    lemma_pow2_strictly_increases(53, 600);
}

} // verus!
