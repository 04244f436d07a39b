//! What a setpoint profile commands between its rows.
use crate::accuracy;
use crate::arithmetic;
use crate::double;
use crate::double::Double;
use crate::order;
use crate::setpoint;
use vstd::arithmetic::power2::*;
use vstd::prelude::*;

verus! {

/// Rows that have a time, in the order of time.
pub open spec fn in_order(points: Seq<(Double, Double, Double, Double)>) -> bool {
    &&& forall|i: int| 0 <= i < points.len() ==> (#[trigger] points[i]).0.finite()
    &&& setpoint::sorted(points)
}

/// That `time` has reached the row before `at` and not yet the one at `at`.
pub open spec fn on_the_way_to(
    points: Seq<(Double, Double, Double, Double)>,
    at: int,
    time: Double,
) -> bool {
    &&& 0 < at < points.len()
    &&& points[0].0.less(time)
    &&& points[at - 1].0.at_most(time)
    &&& time.less(points[at].0)
}

/// That `here` lies between `before` and what the whole way from there to `after`
/// comes to.
pub open spec fn lies_between(before: Double, after: Double, here: Double) -> bool {
    let end = arithmetic::sum(before, arithmetic::difference(after, before));
    &&& before.at_most(after) ==> before.at_most(here) && here.at_most(end)
    &&& after.at_most(before) ==> here.at_most(before) && end.at_most(here)
}

/// That a row's components can be reached from those of another.
pub open spec fn reachable(
    before: (Double, Double, Double, Double),
    after: (Double, Double, Double, Double),
) -> bool {
    &&& before.1.finite() && before.2.finite() && before.3.finite()
    &&& after.1.finite() && after.2.finite() && after.3.finite()
    &&& arithmetic::difference(after.0, before.0).finite()
    &&& arithmetic::difference(after.1, before.1).finite()
    &&& arithmetic::difference(after.2, before.2).finite()
    &&& arithmetic::difference(after.3, before.3).finite()
}

proof fn lemma_rows_reached(points: Seq<(Double, Double, Double, Double)>, at: int, time: Double)
    requires
        0 <= at < points.len(),
        forall|i: int| 0 <= i < at ==> (#[trigger] points[i]).0.at_most(time),
        !points[at].0.at_most(time),
    ensures
        setpoint::reached(points, time) == at,
    decreases points.len(),
{
    if at > 0 {
        let rest = points.skip(1);
        assert(points[0].0.at_most(time));
        assert(rest[at - 1] == points[at]);
        assert forall|i: int| 0 <= i < at - 1 implies (#[trigger] rest[i]).0.at_most(time) by {
            assert(rest[i] == points[i + 1]);
        }
        lemma_rows_reached(rest, at - 1, time);
    }
}

/// On the way from one row to the next, those two rows are all that counts.
proof fn lemma_on_the_way(points: Seq<(Double, Double, Double, Double)>, at: int, time: Double)
    requires
        in_order(points),
        on_the_way_to(points, at, time),
    ensures
        time.finite(),
        points[at - 1].0.less(points[at].0),
        (Double { bits: 0 }).less(arithmetic::difference(points[at].0, points[at - 1].0)),
        setpoint::sampled(points, time) == setpoint::interpolated(
            points[at - 1],
            points[at],
            time,
        ),
{
    let last = points.len() - 1;
    assert(points[0].0.finite() && points[at].0.finite() && points[at - 1].0.finite());
    assert(points[last].0.finite());
    assert(points[at].0.total_rank() <= points[last].0.total_rank());
    assert forall|i: int| 0 <= i < at implies (#[trigger] points[i]).0.at_most(time) by {
        assert(points[i].0.finite());
        assert(points[i].0.total_rank() <= points[at - 1].0.total_rank());
    }
    lemma_rows_reached(points, at, time);
    setpoint::lemma_later_less_earlier(points[at - 1].0, points[at].0);
}

/// What part of the way lies behind, at a time on it.
pub open spec fn part_behind(
    before: (Double, Double, Double, Double),
    after: (Double, Double, Double, Double),
    time: Double,
) -> Double {
    arithmetic::quotient(
        arithmetic::difference(time, before.0),
        arithmetic::difference(after.0, before.0),
    )
}

/// It is at least nothing and at most the whole.
pub proof fn lemma_part_behind(
    before: (Double, Double, Double, Double),
    after: (Double, Double, Double, Double),
    time: Double,
)
    requires
        before.0.finite(),
        after.0.finite(),
        before.0.at_most(time),
        time.less(after.0),
        arithmetic::difference(after.0, before.0).finite(),
    ensures
        (Double { bits: 0 }).at_most(arithmetic::difference(time, before.0)),
        (Double { bits: 0 }).less(arithmetic::difference(after.0, before.0)),
        arithmetic::difference(time, before.0).finite(),
        (Double { bits: 0 }).at_most(part_behind(before, after, time)),
        part_behind(before, after, time).magnitude() <= 0x3ff0_0000_0000_0000,
{
    let gone = arithmetic::difference(time, before.0);
    let whole = arithmetic::difference(after.0, before.0);
    arithmetic::law_sums_are_numbers(time, before.0.negated());
    arithmetic::law_sums_are_numbers(before.0, before.0.negated());
    arithmetic::law_sums_are_numbers(after.0, before.0.negated());
    arithmetic::law_a_number_less_itself_is_zero(before.0);
    order::law_differences_keep_order(before.0, before.0, time, before.0);
    order::law_differences_keep_order(time, before.0, after.0, before.0);
    setpoint::lemma_later_less_earlier(before.0, after.0);
    if gone.magnitude() == 0 {
        arithmetic::law_zero_over_a_number(gone, whole);
    } else if gone.rank() < whole.rank() {
        arithmetic::law_a_smaller_over_a_larger(gone, whole);
    } else {
        arithmetic::law_a_number_over_itself(gone);
    }
}

/// Part of the way ends between the ends of the way.
pub proof fn lemma_part_of_the_way(before: Double, after: Double, fraction: Double)
    requires
        before.finite(),
        after.finite(),
        arithmetic::difference(after, before).finite(),
        (Double { bits: 0 }).at_most(fraction),
        fraction.magnitude() <= 0x3ff0_0000_0000_0000,
    ensures
        lies_between(before, after, setpoint::between(before, after, fraction)),
{
    let zero = Double { bits: 0 };
    let way = arithmetic::difference(after, before);
    let moved = arithmetic::product(way, fraction);
    arithmetic::law_a_fraction_does_not_enlarge(way, fraction);
    if fraction.negative() {
        arithmetic::law_zero_times_a_number(way, fraction);
    }
    arithmetic::law_products_are_numbers(way, fraction);
    arithmetic::law_a_number_less_itself_is_zero(before);
    arithmetic::law_zero_adds_nothing(before, zero);
    arithmetic::law_sums_are_numbers(before, moved);
    arithmetic::law_sums_are_numbers(before, way);
    arithmetic::law_sums_are_numbers(before, zero);
    if before.at_most(after) {
        order::law_differences_keep_order(before, before, after, before);
        assert(zero.at_most(moved) && moved.at_most(way));
        order::law_sums_keep_order(before, zero, before, moved);
        order::law_sums_keep_order(before, moved, before, way);
    }
    if after.at_most(before) {
        order::law_differences_keep_order(after, before, before, before);
        assert(moved.at_most(zero) && way.at_most(moved));
        order::law_sums_keep_order(before, moved, before, zero);
        order::law_sums_keep_order(before, way, before, moved);
    }
}

/// Between two rows every component lies between those of the two rows.
pub proof fn law_components_stay_between_their_rows(
    points: Seq<(Double, Double, Double, Double)>,
    at: int,
    time: Double,
)
    requires
        in_order(points),
        on_the_way_to(points, at, time),
        reachable(points[at - 1], points[at]),
    ensures
        lies_between(points[at - 1].1, points[at].1, setpoint::sampled(points, time).0),
        lies_between(points[at - 1].2, points[at].2, setpoint::sampled(points, time).1),
        lies_between(points[at - 1].3, points[at].3, setpoint::sampled(points, time).2),
{
    let before = points[at - 1];
    let after = points[at];
    lemma_on_the_way(points, at, time);
    assert(before.0.finite() && after.0.finite());
    lemma_part_behind(before, after, time);
    let fraction = part_behind(before, after, time);
    lemma_part_of_the_way(before.1, after.1, fraction);
    lemma_part_of_the_way(before.2, after.2, fraction);
    lemma_part_of_the_way(before.3, after.3, fraction);
}

/// That `later` is no nearer to `before` than `sooner` is, on the way to `after`.
pub open spec fn further_along(
    before: Double,
    after: Double,
    sooner: Double,
    later: Double,
) -> bool {
    &&& before.at_most(after) ==> sooner.at_most(later)
    &&& after.at_most(before) ==> later.at_most(sooner)
}

proof fn lemma_larger_part(before: Double, after: Double, less: Double, more: Double)
    requires
        before.finite(),
        after.finite(),
        arithmetic::difference(after, before).finite(),
        (Double { bits: 0 }).at_most(less),
        less.at_most(more),
        more.magnitude() <= 0x3ff0_0000_0000_0000,
    ensures
        further_along(
            before,
            after,
            setpoint::between(before, after, less),
            setpoint::between(before, after, more),
        ),
{
    let way = arithmetic::difference(after, before);
    arithmetic::law_a_number_less_itself_is_zero(before);
    arithmetic::law_a_fraction_does_not_enlarge(way, less);
    arithmetic::law_a_fraction_does_not_enlarge(way, more);
    let little = arithmetic::product(way, less);
    let much = arithmetic::product(way, more);
    arithmetic::law_products_are_numbers(way, less);
    arithmetic::law_products_are_numbers(way, more);
    arithmetic::law_sums_are_numbers(before, little);
    arithmetic::law_sums_are_numbers(before, much);
    arithmetic::law_factors_may_change_places(way, less);
    arithmetic::law_factors_may_change_places(way, more);
    if before.at_most(after) {
        order::law_differences_keep_order(before, before, after, before);
        order::law_products_keep_order(less, more, way);
        order::law_sums_keep_order(before, little, before, much);
    }
    if after.at_most(before) {
        order::law_differences_keep_order(after, before, before, before);
        let back = way.negated();
        order::law_negatives_are_opposite(way);
        order::law_opposite_products(way, less, back, less);
        order::law_opposite_products(way, more, back, more);
        order::law_products_keep_order(less, more, back);
        order::law_sums_keep_order(before, much, before, little);
    }
}

/// Between two rows every component keeps moving towards the later row, as long as
/// time does.
pub proof fn law_components_move_with_time(
    points: Seq<(Double, Double, Double, Double)>,
    at: int,
    sooner: Double,
    later: Double,
)
    requires
        in_order(points),
        on_the_way_to(points, at, sooner),
        on_the_way_to(points, at, later),
        sooner.at_most(later),
        reachable(points[at - 1], points[at]),
    ensures
        ({
            let first = setpoint::sampled(points, sooner);
            let second = setpoint::sampled(points, later);
            &&& further_along(points[at - 1].1, points[at].1, first.0, second.0)
            &&& further_along(points[at - 1].2, points[at].2, first.1, second.1)
            &&& further_along(points[at - 1].3, points[at].3, first.2, second.2)
        }),
{
    let before = points[at - 1];
    let after = points[at];
    lemma_on_the_way(points, at, sooner);
    lemma_on_the_way(points, at, later);
    assert(before.0.finite() && after.0.finite());
    lemma_part_behind(before, after, sooner);
    lemma_part_behind(before, after, later);
    let less = part_behind(before, after, sooner);
    let more = part_behind(before, after, later);
    order::law_differences_keep_order(sooner, before.0, later, before.0);
    order::law_quotients_keep_order(
        arithmetic::difference(sooner, before.0),
        arithmetic::difference(later, before.0),
        arithmetic::difference(after.0, before.0),
    );
    lemma_larger_part(before.1, after.1, less, more);
    lemma_larger_part(before.2, after.2, less, more);
    lemma_larger_part(before.3, after.3, less, more);
}

/// Half of the way from `before` to `after`.
pub open spec fn half_way(before: Double, after: Double) -> Double {
    arithmetic::sum(
        before,
        arithmetic::product(
            arithmetic::difference(after, before),
            Double { bits: 0x3fe0_0000_0000_0000 },
        ),
    )
}

/// Half way in time is half way on every component: where as much time has gone by
/// as is still to come, so has the way.
pub proof fn law_half_the_time_is_half_the_way(
    points: Seq<(Double, Double, Double, Double)>,
    at: int,
    time: Double,
)
    requires
        in_order(points),
        on_the_way_to(points, at, time),
        arithmetic::difference(time, points[at - 1].0).magnitude() < 0x7fe0_0000_0000_0000,
        arithmetic::difference(points[at].0, points[at - 1].0) == arithmetic::sum(
            arithmetic::difference(time, points[at - 1].0),
            arithmetic::difference(time, points[at - 1].0),
        ),
    ensures
        setpoint::sampled(points, time) == (
            half_way(points[at - 1].1, points[at].1),
            half_way(points[at - 1].2, points[at].2),
            half_way(points[at - 1].3, points[at].3),
        ),
{
    let before = points[at - 1];
    let after = points[at];
    lemma_on_the_way(points, at, time);
    assert(before.0.finite() && after.0.finite());
    let gone = arithmetic::difference(time, before.0);
    let whole = arithmetic::difference(after.0, before.0);
    arithmetic::law_sums_are_numbers(time, before.0.negated());
    arithmetic::law_sums_are_numbers(gone, gone);
    if before.0.less(time) {
        setpoint::lemma_later_less_earlier(before.0, time);
    } else {
        order::law_units_follow_rank(time, before.0);
        assert(before.0.negated().units() == -before.0.units());
        assert(gone == (Double { bits: 0 }));
        arithmetic::law_zero_adds_nothing(gone, gone);
        assert(whole.magnitude() == 0);
    }
    order::law_a_number_over_its_double(gone);
}

/// That a number stands for the share that `gone` has in `whole`, as closely as
/// numbers can tell.
pub open spec fn is_share(gone: Double, whole: Double, here: Double) -> bool {
    &&& 0 <= here.units()
    &&& 0 <= gone.units()
    &&& 0 < whole.units()
    &&& accuracy::is_close(
        (gone.units() * pow2(1074)) as nat,
        whole.units() as nat,
        here.units() as nat,
    )
}

/// From zero to one, part of the way is the part itself.
pub proof fn lemma_unit_way(fraction: Double)
    requires
        (Double { bits: 0 }).at_most(fraction),
        fraction.magnitude() <= 0x3ff0_0000_0000_0000,
    ensures
        setpoint::between(
            Double { bits: 0 },
            Double { bits: 0x3ff0_0000_0000_0000 },
            fraction,
        ).units() == fraction.units(),
{
    let zero = Double { bits: 0 };
    let one = Double { bits: 0x3ff0_0000_0000_0000 };
    arithmetic::law_zero_adds_nothing(one, zero.negated());
    assert(arithmetic::difference(one, zero) == one);
    arithmetic::law_one_times_a_number(fraction);
    arithmetic::law_terms_may_change_places(zero, fraction);
    arithmetic::law_zero_adds_nothing(fraction, zero);
    order::law_units_follow_rank(setpoint::between(zero, one, fraction), fraction);
}

/// Every component moves in proportion to time: one that goes from zero to one
/// between two rows is, on the way, what part of the time between them has gone by.
pub proof fn law_components_keep_pace_with_time(
    points: Seq<(Double, Double, Double, Double)>,
    at: int,
    time: Double,
)
    requires
        in_order(points),
        on_the_way_to(points, at, time),
        arithmetic::difference(points[at].0, points[at - 1].0).finite(),
    ensures
        ({
            let before = points[at - 1];
            let after = points[at];
            let zero = Double { bits: 0 };
            let one = Double { bits: 0x3ff0_0000_0000_0000 };
            let gone = arithmetic::difference(time, before.0);
            let whole = arithmetic::difference(after.0, before.0);
            let field = setpoint::sampled(points, time);
            &&& before.1 == zero && after.1 == one ==> is_share(gone, whole, field.0)
            &&& before.2 == zero && after.2 == one ==> is_share(gone, whole, field.1)
            &&& before.3 == zero && after.3 == one ==> is_share(gone, whole, field.2)
        }),
{
    let before = points[at - 1];
    let after = points[at];
    lemma_on_the_way(points, at, time);
    assert(before.0.finite() && after.0.finite());
    lemma_part_behind(before, after, time);
    let fraction = part_behind(before, after, time);
    lemma_unit_way(fraction);
    let gone = arithmetic::difference(time, before.0);
    let whole = arithmetic::difference(after.0, before.0);
    let x = double::double_units(gone.magnitude());
    let y = double::double_units(whole.magnitude());
    assert(double::double_units(0) == 0);
    double::law_larger_patterns_are_larger(0, whole.magnitude());
    arithmetic::law_there_is_a_nearest(x * pow2(1074), y);
    accuracy::law_results_are_close(x * pow2(1074), y);
}

/// The same rows with their components passed on, X to the place of Z, Y to that of
/// X and Z to that of Y.
pub open spec fn passed_on(points: Seq<(Double, Double, Double, Double)>) -> Seq<
    (Double, Double, Double, Double),
> {
    Seq::new(points.len(), |i: int| (points[i].0, points[i].2, points[i].3, points[i].1))
}

proof fn lemma_passed_on(points: Seq<(Double, Double, Double, Double)>, time: Double)
    ensures
        setpoint::reached(passed_on(points), time) == setpoint::reached(points, time),
        0 <= setpoint::reached(points, time) <= points.len(),
    decreases points.len(),
{
    if points.len() > 0 {
        assert(passed_on(points).skip(1) =~= passed_on(points.skip(1)));
        lemma_passed_on(points.skip(1), time);
    }
}

/// A profile treats its components alike: passed on in every row, they come out
/// passed on, at every time.
pub proof fn law_components_are_treated_alike(
    points: Seq<(Double, Double, Double, Double)>,
    time: Double,
)
    requires
        points.len() > 0,
        in_order(points),
    ensures
        ({
            let field = setpoint::sampled(points, time);
            setpoint::sampled(passed_on(points), time) == (field.1, field.2, field.0)
        }),
{
    let turned = passed_on(points);
    let at = setpoint::reached(points, time);
    lemma_passed_on(points, time);
    let last = points.len() - 1;
    if time.finite() && !time.at_most(points[0].0) && !points[last].0.at_most(time) {
        assert(points[0].0.finite());
        lemma_some_reached(points, time);
        assert(turned[at - 1] == (
            points[at - 1].0,
            points[at - 1].2,
            points[at - 1].3,
            points[at - 1].1,
        ));
        assert(turned[at] == (points[at].0, points[at].2, points[at].3, points[at].1));
    }
}

proof fn lemma_some_reached(points: Seq<(Double, Double, Double, Double)>, time: Double)
    requires
        points.len() > 0,
        points[0].0.at_most(time),
        !points.last().0.at_most(time),
    ensures
        0 < setpoint::reached(points, time) < points.len(),
    decreases points.len(),
{
    let rest = points.skip(1);
    assert(points.len() > 1);
    assert(rest.last() == points.last());
    if rest[0].0.at_most(time) {
        lemma_some_reached(rest, time);
    } else {
        assert(setpoint::reached(rest, time) == 0);
    }
}

/// Outside its range a profile is held flat: before its first row, or at a time that
/// is none, it gives the first row, and from its last row on the last.
pub proof fn law_the_ends_are_held(points: Seq<(Double, Double, Double, Double)>, time: Double)
    requires
        points.len() > 0,
        in_order(points),
    ensures
        !time.finite() || time.at_most(points[0].0) ==> setpoint::sampled(points, time) == (
            points[0].1,
            points[0].2,
            points[0].3,
        ),
        time.finite() && points[0].0.less(time) && points.last().0.at_most(time)
            ==> setpoint::sampled(points, time) == (
            points.last().1,
            points.last().2,
            points.last().3,
        ),
{
}

/// Rows at one time are a step: at that time the last of them holds.
pub proof fn law_the_last_of_rows_at_one_time_holds(
    points: Seq<(Double, Double, Double, Double)>,
    at: int,
)
    requires
        in_order(points),
        0 < at < points.len(),
        points[0].0.less(points[at].0),
        at + 1 < points.len() ==> points[at].0.less(points[at + 1].0) && reachable(
            points[at],
            points[at + 1],
        ),
    ensures
        ({
            let field = setpoint::sampled(points, points[at].0);
            &&& order::alike(field.0, points[at].1)
            &&& order::alike(field.1, points[at].2)
            &&& order::alike(field.2, points[at].3)
        }),
{
    let here = points[at];
    assert(here.0.finite());
    if at + 1 < points.len() {
        let next = points[at + 1];
        lemma_on_the_way(points, at + 1, here.0);
        arithmetic::law_a_number_less_itself_is_zero(here.0);
        let whole = arithmetic::difference(next.0, here.0);
        arithmetic::law_zero_over_a_number(Double { bits: 0 }, whole);
        let fraction = arithmetic::quotient(Double { bits: 0 }, whole);
        setpoint::lemma_no_part_of_the_way(here.1, next.1, fraction);
        setpoint::lemma_no_part_of_the_way(here.2, next.2, fraction);
        setpoint::lemma_no_part_of_the_way(here.3, next.3, fraction);
    }
}

} // verus!
