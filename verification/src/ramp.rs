//! How fast the setpoint's ramp can move.
use crate::accuracy;
use crate::arithmetic;
use crate::double;
use crate::double::{Double, INFINITE};
use crate::setpoint;
use crate::setpoint::SlewLimiter;
use vstd::arithmetic::power2::*;
use vstd::prelude::*;

verus! {

/// A sum of numbers that are not negative is no smaller than either.
proof fn lemma_sum_covers(left: Double, right: Double)
    requires
        !left.nan(),
        !right.nan(),
        !left.negative(),
        !right.negative(),
    ensures
        !arithmetic::sum(left, right).nan(),
        !arithmetic::sum(left, right).negative(),
        left.magnitude() <= arithmetic::sum(left, right).magnitude(),
        right.magnitude() <= arithmetic::sum(left, right).magnitude(),
{
    if left.finite() && right.finite() {
        let a = double::double_units(left.magnitude());
        let b = double::double_units(right.magnitude());
        arithmetic::law_there_is_a_nearest(a + b, 1);
        arithmetic::law_there_is_a_nearest(a, 1);
        arithmetic::law_there_is_a_nearest(b, 1);
        arithmetic::law_exact_results_are_kept(left.magnitude(), 1);
        arithmetic::law_exact_results_are_kept(right.magnitude(), 1);
        assert(a * 1 == a && b * 1 == b);
        arithmetic::law_nearest_keeps_order(
            a,
            a + b,
            1,
            arithmetic::nearest(a, 1),
            arithmetic::nearest(a + b, 1),
        );
        arithmetic::law_nearest_keeps_order(
            b,
            a + b,
            1,
            arithmetic::nearest(b, 1),
            arithmetic::nearest(a + b, 1),
        );
        assert(double::double_units(0) == 0);
        if left.magnitude() > 0 {
            double::law_larger_patterns_are_larger(0, left.magnitude());
        }
        if right.magnitude() > 0 {
            double::law_larger_patterns_are_larger(0, right.magnitude());
        }
    }
}

/// The square of a number is the nearest to its exact square, and not negative.
proof fn lemma_square(number: Double)
    requires
        number.finite(),
    ensures
        !arithmetic::product(number, number).nan(),
        !arithmetic::product(number, number).negative(),
        arithmetic::product(number, number).magnitude() == arithmetic::nearest(
            double::double_units(number.magnitude()) * double::double_units(number.magnitude()),
            pow2(1074),
        ),
{
    arithmetic::law_products_are_numbers(number, number);
    arithmetic::law_there_is_a_nearest(
        double::double_units(number.magnitude()) * double::double_units(number.magnitude()),
        pow2(1074),
    );
}

/// A length of finite components is a number, and not a negative one.
proof fn lemma_length_is_a_number(vector: Seq<Double>)
    requires
        vector.len() == 3,
        forall|i: int| 0 <= i < 3 ==> (#[trigger] vector[i]).finite(),
    ensures
        !setpoint::length_of(vector).nan(),
        !setpoint::length_of(vector).negative(),
{
    assert(vector[0].finite() && vector[1].finite() && vector[2].finite());
    let x = arithmetic::product(vector[0], vector[0]);
    let y = arithmetic::product(vector[1], vector[1]);
    let z = arithmetic::product(vector[2], vector[2]);
    lemma_square(vector[0]);
    lemma_square(vector[1]);
    lemma_square(vector[2]);
    lemma_sum_covers(x, y);
    lemma_sum_covers(arithmetic::sum(x, y), z);
    let total = arithmetic::sum(arithmetic::sum(x, y), z);
    arithmetic::law_there_is_a_nearest_root(
        double::double_units(total.magnitude()) * pow2(1074),
    );
}

/// So is what a time allows.
proof fn lemma_allowance_is_a_number(limiter: SlewLimiter, dt: Double)
    requires
        setpoint::moves(limiter, dt),
    ensures
        !setpoint::allowance(limiter, dt).nan(),
        !setpoint::allowance(limiter, dt).negative(),
{
    arithmetic::law_products_are_numbers(limiter.rate_nt_per_second.absolute(), dt);
    arithmetic::law_there_is_a_nearest(
        double::double_units(limiter.rate_nt_per_second.absolute().magnitude())
            * double::double_units(dt.magnitude()),
        pow2(1074),
    );
}

/// No step passes its target: where the ramp does not arrive, it moves toward the
/// target in every component, by no more than what is left to go there.
pub proof fn law_no_step_passes_its_target(limiter: SlewLimiter, dt: Double, axis: int)
    requires
        0 <= axis < 3,
        setpoint::moves(limiter, dt),
        !setpoint::arrives(limiter, dt),
        forall|i: int| 0 <= i < 3 ==> (#[trigger] setpoint::remaining(limiter)[i]).finite(),
    ensures
        ({
            let left = setpoint::remaining(limiter)[axis];
            let step = arithmetic::product(
                left,
                arithmetic::quotient(
                    setpoint::allowance(limiter, dt),
                    setpoint::length_of(setpoint::remaining(limiter)),
                ),
            );
            &&& setpoint::advanced(limiter, dt, axis) == arithmetic::sum(limiter.current[axis], step)
            &&& step.absolute().at_most(left.absolute())
            &&& step.negative() == left.negative()
        }),
{
    let left = setpoint::remaining(limiter)[axis];
    let allowed = setpoint::allowance(limiter, dt);
    let distance = setpoint::length_of(setpoint::remaining(limiter));
    lemma_length_is_a_number(setpoint::remaining(limiter));
    lemma_allowance_is_a_number(limiter, dt);
    arithmetic::law_a_smaller_over_a_larger(allowed, distance);
    arithmetic::law_a_fraction_does_not_enlarge(left, arithmetic::quotient(allowed, distance));
}

/// A component against the length that was calculated from it: rounding the
/// square, the sums and the root leaves it no more than a few parts in `2^53`
/// past it.
proof fn lemma_component(r: nat, x: nat, t: nat, u: nat, d: nat, w: nat)
    requires
        accuracy::is_close(r * r, u, x),
        x <= t,
        accuracy::is_close_root(t * u, d),
        0x20_0000_0000_0000 * 0x10_0000_0000_0000 * u <= w * w,
    ensures
        0x20_0000_0000_0000 * 0x20_0000_0000_0000 * r <= 0x20_0000_0000_0001
            * 0x20_0000_0000_0001 * d + 0x20_0000_0000_0001 * 0x10_0000_0000_0000
            + 0x20_0000_0000_0000 * w,
{
    let n: int = 0x20_0000_0000_0000;
    let half: int = 0x10_0000_0000_0000;
    let e = 0x20_0000_0000_0001 * d + 0x10_0000_0000_0000;
    let rr = (r * r) as int;
    let tu = (t * u) as int;
    assert(x * u <= t * u) by (nonlinear_arith)
        requires
            x <= t,
    ;
    assert((x + 0x10_0000_0000_0000) * u == x * u + 0x10_0000_0000_0000 * u) by (nonlinear_arith);
    assert(n * rr <= (n + 1) * tu + half * u);
    let ee = e * e;
    let ww = (w * w) as int;
    assert(n * n * tu <= ee);
    assert(ee >= 0 && ww >= 0) by (nonlinear_arith)
        requires
            ee == e * e,
            ww == w * w,
    ;
    assert(n * n * n * n * rr <= (n + 1) * (n + 1) * ee + n * n * ww) by (nonlinear_arith)
        requires
            n * rr <= (n + 1) * tu + half * u,
            n * n * tu <= ee,
            n * half * u <= ww,
            n == 0x20_0000_0000_0000,
            ee >= 0,
    {
        let k = n * n * n;
        assert(k * (n * rr) <= k * ((n + 1) * tu + half * u));
        assert((n * (n + 1)) * (n * n * tu) <= (n * (n + 1)) * ee);
        assert((n * n) * (n * half * u) <= (n * n) * ww);
        assert(k * ((n + 1) * tu + half * u) == (n * (n + 1)) * (n * n * tu) + (n * n) * (n * half
            * u));
        assert((n * (n + 1)) * ee <= (n + 1) * (n + 1) * ee);
    }
    let left = n * n * r;
    let right = (n + 1) * e + n * w;
    assert(left * left <= right * right) by (nonlinear_arith)
        requires
            left == n * n * r,
            right == (n + 1) * e + n * w,
            rr == r * r,
            ee == e * e,
            ww == w * w,
            n == 0x20_0000_0000_0000,
            e >= 0,
            w >= 0,
            n * n * n * n * rr <= (n + 1) * (n + 1) * ee + n * n * ww,
    {
        assert(left * left == n * n * n * n * rr);
        let a = (n + 1) * e;
        let b = n * w;
        assert(a >= 0 && b >= 0);
        assert((a + b) * (a + b) >= a * a + b * b);
        assert(a * a == (n + 1) * (n + 1) * ee);
        assert(b * b == n * n * ww);
    }
    assert(left <= right) by (nonlinear_arith)
        requires
            left * left <= right * right,
            right >= 0,
    ;
    assert(right == 0x20_0000_0000_0001 * 0x20_0000_0000_0001 * d + 0x20_0000_0000_0001
        * 0x10_0000_0000_0000 + 0x20_0000_0000_0000 * w) by (nonlinear_arith)
        requires
            right == (n + 1) * e + n * w,
            e == 0x20_0000_0000_0001 * d + 0x10_0000_0000_0000,
            n == 0x20_0000_0000_0000,
    ;
    assert(left == 0x20_0000_0000_0000 * 0x20_0000_0000_0000 * r) by (nonlinear_arith)
        requires
            left == n * n * r,
            n == 0x20_0000_0000_0000,
    ;
}

/// What a share `q` of a component `r` comes to, where `q` was calculated as `a`
/// over the length `d`, all of them in units of which `u` make one.
proof fn lemma_share(r: nat, q: nat, s: nat, a: nat, d: nat, u: nat, c: nat, h: nat)
    requires
        u > 0,
        accuracy::is_close(a * u, d, q),
        accuracy::is_close(r * q, u, s),
        q <= u,
        d <= h * u,
        0x20_0000_0000_0000 * 0x20_0000_0000_0000 * r <= 0x20_0000_0000_0001
            * 0x20_0000_0000_0001 * d + c,
    ensures
        ({
            let n: int = 0x20_0000_0000_0000;
            let half: int = 0x10_0000_0000_0000;
            n * (n - 1) * (n - 1) * s <= n * (n + 1) * (n + 1) * a + (n + 1) * (n + 1) * half * h
                + (n - 1) * (c + n * half)
        }),
{
    let n: int = 0x20_0000_0000_0000;
    let half: int = 0x10_0000_0000_0000;
    let qd = (q * d) as int;
    let au = (a * u) as int;
    let su = (s * u) as int;
    let rq = (r * q) as int;
    let hu = (h * u) as int;
    let cu = (c * u) as int;
    assert((q + half) * d == qd + half * d) by (nonlinear_arith)
        requires
            qd == q * d,
    ;
    assert((n - 1) * qd <= n * au + half * hu);
    assert((s + half) * u == su + half * u) by (nonlinear_arith)
        requires
            su == s * u,
    ;
    assert((n - 1) * su <= n * rq + half * u);
    assert(n * n * rq <= (n + 1) * (n + 1) * qd + cu) by (nonlinear_arith)
        requires
            n * n * r <= (n + 1) * (n + 1) * d + c,
            rq == r * q,
            qd == q * d,
            cu == c * u,
            q <= u,
            c >= 0,
            q >= 0,
    {
        assert((n * n * r) * q <= ((n + 1) * (n + 1) * d + c) * q);
        assert(c * q <= c * u);
    }
    let total = n * (n + 1) * (n + 1) * a + (n + 1) * (n + 1) * half * h + (n - 1) * (c + n
        * half);
    assert(n * (n - 1) * (n - 1) * su <= total * u) by (nonlinear_arith)
        requires
            n == 0x20_0000_0000_0000,
            half == 0x10_0000_0000_0000,
            (n - 1) * qd <= n * au + half * hu,
            (n - 1) * su <= n * rq + half * u,
            n * n * rq <= (n + 1) * (n + 1) * qd + cu,
            total == n * (n + 1) * (n + 1) * a + (n + 1) * (n + 1) * half * h + (n - 1) * (c + n
                * half),
            au == a * u,
            hu == h * u,
            cu == c * u,
    {
        assert(n * (n - 1) * ((n - 1) * su) <= n * (n - 1) * (n * rq + half * u));
        assert((n - 1) * (n * n * rq) <= (n - 1) * ((n + 1) * (n + 1) * qd + cu));
        assert((n + 1) * (n + 1) * ((n - 1) * qd) <= (n + 1) * (n + 1) * (n * au + half * hu));
        assert(total * u == n * (n + 1) * (n + 1) * au + (n + 1) * (n + 1) * half * hu + (n - 1)
            * (cu + n * half * u));
    }
    assert(n * (n - 1) * (n - 1) * s <= total) by (nonlinear_arith)
        requires
            n * (n - 1) * (n - 1) * su <= total * u,
            su == s * u,
            u > 0,
    {
        let left = n * (n - 1) * (n - 1) * s;
        assert(left * u == n * (n - 1) * (n - 1) * su);
        if left > total {
            assert(left * u > total * u);
        }
    }
}

/// That `moved` keeps to `allowed`: to within a part in `2^50` of it, and `2^550`
/// units.
pub open spec fn keeps_to(moved: nat, allowed: nat) -> bool {
    pow2(50) * moved <= (pow2(50) + 1) * allowed + pow2(600)
}

proof fn lemma_keeps(s: nat, a: nat, h: nat, w: nat)
    requires
        w == 0x2000 * 0x1_0000_0000_0000_0000 * h,
        h > 0,
        ({
            let n: int = 0x20_0000_0000_0000;
            let half: int = 0x10_0000_0000_0000;
            let c = (n + 1) * half + n * w;
            n * (n - 1) * (n - 1) * s <= n * (n + 1) * (n + 1) * a + (n + 1) * (n + 1) * half * h
                + (n - 1) * (c + n * half)
        }),
    ensures
        0x4_0000_0000_0000 * s <= 0x4_0000_0000_0001 * a + 0x400 * w,
{
    let n: int = 0x20_0000_0000_0000;
    let half: int = 0x10_0000_0000_0000;
    let c = (n + 1) * half + n * w;
    let rest = (n + 1) * (n + 1) * half * h + (n - 1) * (c + n * half);
    let scale = n * (n - 1) * (n - 1);
    let k: int = 0x4_0000_0000_0000;
    assert(k * rest <= scale * (0x400 * w)) by (nonlinear_arith)
        requires
            n == 0x20_0000_0000_0000,
            half == 0x10_0000_0000_0000,
            k == 0x4_0000_0000_0000,
            c == (n + 1) * half + n * w,
            rest == (n + 1) * (n + 1) * half * h + (n - 1) * (c + n * half),
            scale == n * (n - 1) * (n - 1),
            w == 0x2000 * 0x1_0000_0000_0000_0000 * h,
            h > 0,
    ;
    assert(k * (n * (n + 1) * (n + 1) * a) <= scale * ((k + 1) * a)) by (nonlinear_arith)
        requires
            n == 0x20_0000_0000_0000,
            k == 0x4_0000_0000_0000,
            scale == n * (n - 1) * (n - 1),
            a >= 0,
    ;
    assert(k * s <= (k + 1) * a + 0x400 * w) by (nonlinear_arith)
        requires
            scale * s <= n * (n + 1) * (n + 1) * a + rest,
            k * rest <= scale * (0x400 * w),
            k * (n * (n + 1) * (n + 1) * a) <= scale * ((k + 1) * a),
            scale > 0,
            k > 0,
    {
        let most = (k + 1) * a + 0x400 * w;
        assert(k * (scale * s) <= k * (n * (n + 1) * (n + 1) * a) + k * rest);
        assert(scale * (k * s) == k * (scale * s));
        assert(scale * most == scale * ((k + 1) * a) + scale * (0x400 * w));
        if k * s > most {
            assert(scale * (k * s) > scale * most);
        }
    }
}

/// The powers of two that the bounds are made of.
proof fn lemma_bounds()
    ensures
        pow2(1074) > 0,
        pow2(513) > 0,
        pow2(590) == 0x2000 * 0x1_0000_0000_0000_0000 * pow2(513),
        pow2(600) == 0x400 * pow2(590),
        pow2(50) == 0x4_0000_0000_0000,
        0x20_0000_0000_0000 * 0x10_0000_0000_0000 * pow2(1074) <= pow2(590) * pow2(590),
        pow2(513) * pow2(1074) == pow2(1587),
        4 * double::double_units(INFINITE as nat) * pow2(1074) == pow2(1587) * pow2(1587),
{
    lemma2_to64();
    lemma2_to64_rest();
    lemma_pow2_pos(1074);
    lemma_pow2_pos(513);
    lemma_pow2_adds(64, 13);
    lemma_pow2_adds(77, 513);
    lemma_pow2_adds(10, 590);
    lemma_pow2_adds(590, 590);
    lemma_pow2_adds(53, 52);
    lemma_pow2_adds(105, 1074);
    lemma_pow2_unfold(1180);
    lemma_pow2_adds(513, 1074);
    lemma_pow2_adds(1587, 1587);
    let top = INFINITE as nat;
    assert(top / 0x10_0000_0000_0000 == 2047);
    assert(top % 0x10_0000_0000_0000 == 0);
    lemma_pow2_adds(52, 2046);
    lemma_pow2_adds(2, 2098);
    lemma_pow2_adds(2100, 1074);
}

/// A length that does not overflow reaches no further than `2^513`.
proof fn lemma_length_is_bounded(square: nat, pattern: nat, most: nat)
    requires
        arithmetic::is_nearest_root(square, pattern),
        4 * square <= most * most,
    ensures
        double::double_units(pattern) <= most,
{
    let here = double::double_units(pattern);
    if pattern > 0 {
        let last = double::double_units((pattern - 1) as nat);
        assert(here <= most) by (nonlinear_arith)
            requires
                (last + here) * (last + here) <= most * most,
                last >= 0,
                here >= 0,
                most >= 0,
        ;
    } else {
        assert(here == 0);
    }
}

/// The ramp keeps to its rate: however far away a command is, what a step adds to
/// a component is no more than the rate allows for the time, to within rounding.
pub proof fn law_steps_keep_to_the_rate(limiter: SlewLimiter, dt: Double, axis: int)
    requires
        0 <= axis < 3,
        setpoint::moves(limiter, dt),
        !setpoint::arrives(limiter, dt),
        forall|i: int| 0 <= i < 3 ==> (#[trigger] setpoint::remaining(limiter)[i]).finite(),
    ensures
        ({
            let allowed = setpoint::allowance(limiter, dt);
            let step = arithmetic::product(
                setpoint::remaining(limiter)[axis],
                arithmetic::quotient(
                    allowed,
                    setpoint::length_of(setpoint::remaining(limiter)),
                ),
            );
            &&& setpoint::advanced(limiter, dt, axis) == arithmetic::sum(
                limiter.current[axis],
                step,
            )
            &&& step.finite()
            &&& keeps_to(
                double::double_units(step.magnitude()),
                double::double_units(allowed.magnitude()),
            )
        }),
{
    let vector = setpoint::remaining(limiter);
    let left = vector[axis];
    let allowed = setpoint::allowance(limiter, dt);
    let distance = setpoint::length_of(vector);
    let share = arithmetic::quotient(allowed, distance);
    let step = arithmetic::product(left, share);
    law_no_step_passes_its_target(limiter, dt, axis);
    lemma_allowance_is_a_number(limiter, dt);
    assert(vector[0].finite() && vector[1].finite() && vector[2].finite());
    let x = arithmetic::product(vector[0], vector[0]);
    let y = arithmetic::product(vector[1], vector[1]);
    let z = arithmetic::product(vector[2], vector[2]);
    lemma_square(vector[0]);
    lemma_square(vector[1]);
    lemma_square(vector[2]);
    lemma_sum_covers(x, y);
    lemma_sum_covers(arithmetic::sum(x, y), z);
    let total = arithmetic::sum(arithmetic::sum(x, y), z);
    let own = arithmetic::product(left, left);
    assert(own.magnitude() <= total.magnitude());
    let unit = pow2(1074);
    lemma_bounds();
    let t = double::double_units(total.magnitude());
    arithmetic::law_there_is_a_nearest_root(t * unit);
    arithmetic::law_a_smaller_over_a_larger(allowed, distance);
    if total.finite() && distance.finite() && total.magnitude() > 0 {
        let d = double::double_units(distance.magnitude());
        double::law_magnitudes_keep_order(total.magnitude(), INFINITE as nat);
        double::law_magnitudes_keep_order(own.magnitude(), total.magnitude());
        assert(4 * (t * unit) <= 4 * double::double_units(INFINITE as nat) * unit)
            by (nonlinear_arith)
            requires
                t <= double::double_units(INFINITE as nat),
        ;
        lemma_length_is_bounded(t * unit, distance.magnitude(), pow2(1587));
        let r = double::double_units(left.magnitude());
        accuracy::law_results_are_close(r * r, unit);
        accuracy::law_roots_are_close(t * unit);
        lemma_component(r, double::double_units(own.magnitude()), t, unit, d, pow2(590));
        let a = double::double_units(allowed.magnitude());
        let q = double::double_units(share.magnitude());
        double::law_larger_patterns_are_larger(allowed.magnitude(), distance.magnitude());
        arithmetic::law_there_is_a_nearest(a * unit, d);
        assert(share.magnitude() == arithmetic::nearest(a * unit, d));
        accuracy::law_results_are_close(a * unit, d);
        double::law_magnitudes_keep_order(share.magnitude(), 0x3ff0_0000_0000_0000);
        arithmetic::lemma_one();
        arithmetic::law_there_is_a_nearest(r * q, unit);
        assert(step.magnitude() == arithmetic::nearest(r * q, unit));
        accuracy::law_results_are_close(r * q, unit);
        lemma_share(
            r,
            q,
            double::double_units(step.magnitude()),
            a,
            d,
            unit,
            0x20_0000_0000_0001 * 0x10_0000_0000_0000 + 0x20_0000_0000_0000 * pow2(590),
            pow2(513),
        );
        lemma_keeps(double::double_units(step.magnitude()), a, pow2(513), pow2(590));
    } else {
        assert(share.magnitude() == 0);
        arithmetic::law_zero_times_a_number(left, share);
        assert(double::double_units(0) == 0);
    }
}

/// The direction holds while the magnitude moves: every component moves toward
/// the target by one and the same share of what is left to go, to within the
/// rounding of a single multiplication.
pub proof fn law_steps_hold_their_direction(limiter: SlewLimiter, dt: Double, axis: int)
    requires
        0 <= axis < 3,
        setpoint::moves(limiter, dt),
        !setpoint::arrives(limiter, dt),
        forall|i: int| 0 <= i < 3 ==> (#[trigger] setpoint::remaining(limiter)[i]).finite(),
    ensures
        ({
            let left = setpoint::remaining(limiter)[axis];
            let share = arithmetic::quotient(
                setpoint::allowance(limiter, dt),
                setpoint::length_of(setpoint::remaining(limiter)),
            );
            let step = arithmetic::product(left, share);
            &&& setpoint::advanced(limiter, dt, axis) == arithmetic::sum(
                limiter.current[axis],
                step,
            )
            &&& step.negative() == left.negative()
            &&& accuracy::is_close(
                double::double_units(left.magnitude()) * double::double_units(share.magnitude()),
                pow2(1074),
                double::double_units(step.magnitude()),
            )
        }),
{
    let left = setpoint::remaining(limiter)[axis];
    let allowed = setpoint::allowance(limiter, dt);
    let distance = setpoint::length_of(setpoint::remaining(limiter));
    let share = arithmetic::quotient(allowed, distance);
    law_no_step_passes_its_target(limiter, dt, axis);
    lemma_length_is_a_number(setpoint::remaining(limiter));
    lemma_allowance_is_a_number(limiter, dt);
    arithmetic::law_a_smaller_over_a_larger(allowed, distance);
    let exact = double::double_units(left.magnitude()) * double::double_units(share.magnitude());
    lemma_pow2_pos(1074);
    arithmetic::law_there_is_a_nearest(exact, pow2(1074));
    accuracy::law_results_are_close(exact, pow2(1074));
}

} // verus!
