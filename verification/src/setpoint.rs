//! Commanded field vector: where the setpoint comes from and how fast it may
//! move. Every value is nanotesla.
use crate::angle;
use crate::angle::Turn;
use crate::arithmetic;
use crate::decimal;
use crate::double;
use crate::double::Double;
use crate::order;
use crate::text;
use vstd::prelude::*;
use vstd::utf8::{decode_utf8, valid_utf8};

verus! {

/// Rate-limits a commanded setpoint: any command becomes a ramp that the coils
/// can follow.
#[derive(Debug, Clone, Copy, PartialEq)]
pub struct SlewLimiter {
    /// Maximum change per second, in nT.
    pub rate_nt_per_second: Double,
    pub current: [Double; 3],
    pub target: [Double; 3],
}

/// How far a vector reaches.
pub open spec fn length_of(vector: Seq<Double>) -> Double {
    arithmetic::root(
        arithmetic::sum(
            arithmetic::sum(
                arithmetic::product(vector[0], vector[0]),
                arithmetic::product(vector[1], vector[1]),
            ),
            arithmetic::product(vector[2], vector[2]),
        ),
    )
}

/// The magnitude of a field vector.
pub fn magnitude(vector: [Double; 3]) -> (result: Double)
    ensures
        result == length_of(vector@),
{
    vector[0].times(vector[0]).plus(vector[1].times(vector[1])).plus(
        vector[2].times(vector[2]),
    ).sqrt()
}

/// That a step of `dt` seconds moves the ramp at all.
pub open spec fn moves(limiter: SlewLimiter, dt: Double) -> bool {
    dt.finite() && dt.rank() > 0 && limiter.rate_nt_per_second.finite()
}

/// What is left to go.
pub open spec fn remaining(limiter: SlewLimiter) -> Seq<Double> {
    seq![
        arithmetic::difference(limiter.target[0], limiter.current[0]),
        arithmetic::difference(limiter.target[1], limiter.current[1]),
        arithmetic::difference(limiter.target[2], limiter.current[2]),
    ]
}

/// How far `dt` seconds may take the ramp.
pub open spec fn allowance(limiter: SlewLimiter, dt: Double) -> Double {
    arithmetic::product(limiter.rate_nt_per_second.absolute(), dt)
}

/// That the ramp arrives within `dt` seconds.
pub open spec fn arrives(limiter: SlewLimiter, dt: Double) -> bool {
    let distance = length_of(remaining(limiter));
    distance.at_most(allowance(limiter, dt)) || distance.equals(Double { bits: 0 })
}

/// Where the ramp stands on `axis` after a step that does not arrive: the same
/// fraction of every axis, so that the direction holds while the magnitude
/// moves.
pub open spec fn advanced(limiter: SlewLimiter, dt: Double, axis: int) -> Double {
    let fraction = arithmetic::quotient(
        allowance(limiter, dt),
        length_of(remaining(limiter)),
    );
    arithmetic::sum(
        limiter.current[axis],
        arithmetic::product(remaining(limiter)[axis], fraction),
    )
}

/// Where the ramp stands after a step.
pub open spec fn stepped(limiter: SlewLimiter, dt: Double) -> Seq<Double> {
    if !moves(limiter, dt) {
        limiter.current@
    } else if arrives(limiter, dt) {
        limiter.target@
    } else {
        seq![
            advanced(limiter, dt, 0),
            advanced(limiter, dt, 1),
            advanced(limiter, dt, 2),
        ]
    }
}

/// A component of a new target: what cannot be a field changes nothing.
pub open spec fn commanded(before: Double, value: Double) -> Double {
    if value.finite() {
        value
    } else {
        before
    }
}

impl SlewLimiter {
    pub fn new(rate_nt_per_second: Double, initial: [Double; 3]) -> (result: Self)
        ensures
            result == (SlewLimiter { rate_nt_per_second, current: initial, target: initial }),
    {
        SlewLimiter { rate_nt_per_second, current: initial, target: initial }
    }

    /// Where the ramp is headed.
    pub fn target(&self) -> (result: [Double; 3])
        ensures
            result == self.target,
    {
        self.target
    }

    /// What the control loop should be chasing right now.
    pub fn current(&self) -> (result: [Double; 3])
        ensures
            result == self.current,
    {
        self.current
    }

    /// True once the ramp has arrived.
    pub fn is_settled(&self) -> (result: bool)
        ensures
            result == (self.current[0].equals(self.target[0]) && self.current[1].equals(
                self.target[1],
            ) && self.current[2].equals(self.target[2])),
    {
        self.current[0].same(self.target[0]) && self.current[1].same(self.target[1])
            && self.current[2].same(self.target[2])
    }

    /// Commands a new target. Components that are not finite are ignored, so
    /// that a bad profile row or datagram cannot poison the ramp.
    pub fn command(&mut self, target: [Double; 3])
        ensures
            final(self).rate_nt_per_second == old(self).rate_nt_per_second,
            final(self).current == old(self).current,
            final(self).target@ == seq![
                commanded(old(self).target[0], target[0]),
                commanded(old(self).target[1], target[1]),
                commanded(old(self).target[2], target[2]),
            ],
    {
        let x: Double = if target[0].is_finite() {
            target[0]
        } else {
            self.target[0]
        };
        let y: Double = if target[1].is_finite() {
            target[1]
        } else {
            self.target[1]
        };
        let z: Double = if target[2].is_finite() {
            target[2]
        } else {
            self.target[2]
        };
        self.target = [x, y, z];
        assert(self.target@ =~= seq![x, y, z]);
    }

    /// Jumps straight to `value` with no ramp. For loading a starting point, not
    /// for a live command.
    pub fn snap(&mut self, value: [Double; 3])
        ensures
            *final(self) == (SlewLimiter { current: value, target: value, ..*old(self) }),
    {
        self.current = value;
        self.target = value;
    }

    /// Advances the ramp by `dt` seconds and returns where it stands.
    ///
    /// The step is applied along the vector rather than per axis, so that the
    /// commanded direction is held while the magnitude ramps.
    pub fn step(&mut self, dt: Double) -> (result: [Double; 3])
        ensures
            final(self).rate_nt_per_second == old(self).rate_nt_per_second,
            final(self).target == old(self).target,
            final(self).current@ == stepped(*old(self), dt),
            result == final(self).current,
    {
        if !dt.is_finite() || dt.le(Double::zero()) || !self.rate_nt_per_second.is_finite() {
            return self.current;
        }
        let delta: [Double; 3] = [
            self.target[0].minus(self.current[0]),
            self.target[1].minus(self.current[1]),
            self.target[2].minus(self.current[2]),
        ];
        assert(delta@ =~= remaining(*self));
        let distance: Double = magnitude(delta);
        let allowed: Double = self.rate_nt_per_second.abs().times(dt);
        if distance.le(allowed) || distance.same(Double::zero()) {
            self.current = self.target;
            return self.current;
        }
        let fraction: Double = allowed.over(distance);
        let current: [Double; 3] = [
            self.current[0].plus(delta[0].times(fraction)),
            self.current[1].plus(delta[1].times(fraction)),
            self.current[2].plus(delta[2].times(fraction)),
        ];
        assert(current@ =~= stepped(*self, dt));
        self.current = current;
        self.current
    }
}

/// A target always stays finite: whatever is commanded, no component of it ever
/// becomes an infinity or a NaN.
pub proof fn law_targets_stay_finite(before: Double, value: Double)
    requires
        before.finite(),
    ensures
        commanded(before, value).finite(),
{
}

/// One row of a setpoint profile: the field vector to command at `time_s`
/// seconds after the profile starts.
#[derive(Debug, Clone, Copy, PartialEq)]
pub struct ProfilePoint {
    pub time_s: Double,
    pub field_nt: [Double; 3],
}

/// A time series of commanded field vectors, sorted by time.
#[derive(Debug, Clone, PartialEq)]
pub struct SetpointProfile {
    pub points: Vec<ProfilePoint>,
}

/// That every point has a time.
pub open spec fn all_timed(points: Seq<ProfilePoint>) -> bool {
    forall|i: int| 0 <= i < points.len() ==> (#[trigger] points[i]).time_s.finite()
}

impl SetpointProfile {
    pub open spec fn wf(self) -> bool {
        all_timed(self.points@)
    }
}

/// What one line of a profile says.
pub enum Row {
    /// Blank, or a comment.
    Skipped,
    /// Fewer than four fields.
    Short,
    /// None of the first four fields spells a number at all.
    Heading,
    /// A field among the first four that is no finite number.
    Unreadable,
    /// A time and the three components.
    Point(Double, Double, Double, Double),
}

/// The finite number in the field `at` of a line, white space aside.
pub open spec fn field_number(fields: Seq<Seq<char>>, at: int) -> Option<Double> {
    decimal::finite_number(text::trim(fields[at]))
}

/// That a field spells a number, be it finite or not.
pub open spec fn is_numeric(fields: Seq<Seq<char>>, at: int) -> bool {
    decimal::number(text::trim(fields[at])) is Some
}

pub open spec fn row_of(line: Seq<char>) -> Row {
    let trimmed = text::trim(line);
    let fields = text::split(trimmed, ',');
    if trimmed.len() == 0 || trimmed[0] == '#' {
        Row::Skipped
    } else if fields.len() < 4 {
        Row::Short
    } else {
        match (
            field_number(fields, 0),
            field_number(fields, 1),
            field_number(fields, 2),
            field_number(fields, 3),
        ) {
            (Some(time), Some(x), Some(y), Some(z)) => Row::Point(time, x, y, z),
            _ => if is_numeric(fields, 0) || is_numeric(fields, 1) || is_numeric(fields, 2)
                || is_numeric(fields, 3) {
                Row::Unreadable
            } else {
                Row::Heading
            },
        }
    }
}

/// Why a line cannot be used.
pub open spec fn line_fault(line: nat, reason: Seq<char>) -> Seq<char> {
    "line "@ + text::decimal(line) + ": "@ + reason
}

/// A profile point as it is compared: time and components.
pub open spec fn tuple_of(point: ProfilePoint) -> (Double, Double, Double, Double) {
    (point.time_s, point.field_nt[0], point.field_nt[1], point.field_nt[2])
}

/// The points on `lines`, in the order of the lines, or the first fault. A heading
/// gets a pass in first position, and nowhere else.
pub open spec fn rows(lines: Seq<Seq<char>>) -> Result<
    Seq<(Double, Double, Double, Double)>,
    Seq<char>,
>
    decreases lines.len(),
{
    if lines.len() == 0 {
        Ok(Seq::empty())
    } else {
        match rows(lines.drop_last()) {
            Err(fault) => Err(fault),
            Ok(points) => match row_of(lines.last()) {
                Row::Skipped => Ok(points),
                Row::Short => Err(
                    line_fault(lines.len(), "expected time_s,bx_nt,by_nt,bz_nt"@),
                ),
                Row::Heading => if lines.len() == 1 {
                    Ok(points)
                } else {
                    Err(line_fault(lines.len(), "values must be finite numbers"@))
                },
                Row::Unreadable => Err(
                    line_fault(lines.len(), "values must be finite numbers"@),
                ),
                Row::Point(time, x, y, z) => Ok(points.push((time, x, y, z))),
            },
        }
    }
}

/// No command is dropped: where lines can be read, each of them is blank, a
/// comment, a heading in first position, or a point that is kept.
pub proof fn law_no_command_is_dropped(lines: Seq<Seq<char>>, at: int)
    requires
        0 <= at < lines.len(),
        rows(lines) is Ok,
    ensures
        match row_of(lines[at]) {
            Row::Skipped => true,
            Row::Heading => at == 0,
            Row::Point(time, x, y, z) => rows(lines)->Ok_0.contains((time, x, y, z)),
            Row::Short => false,
            Row::Unreadable => false,
        },
    decreases lines.len(),
{
    let before = rows(lines.drop_last())->Ok_0;
    let kept = rows(lines)->Ok_0;
    if at == lines.len() - 1 {
        assert(row_of(lines.last()) is Point ==> kept.last() == kept[kept.len() - 1]);
    } else {
        law_no_command_is_dropped(lines.drop_last(), at);
        assert(lines.drop_last()[at] == lines[at]);
        match row_of(lines[at]) {
            Row::Point(time, x, y, z) => {
                let point = (time, x, y, z);
                let i = choose|i: int| 0 <= i < before.len() && before[i] == point;
                assert(kept[i] == point);
            },
            _ => {},
        }
    }
}

/// `points` with one more put behind all that do not come later.
pub open spec fn inserted(
    points: Seq<(Double, Double, Double, Double)>,
    point: (Double, Double, Double, Double),
) -> Seq<(Double, Double, Double, Double)>
    decreases points.len(),
{
    if points.len() == 0 || points.last().0.total_rank() <= point.0.total_rank() {
        points.push(point)
    } else {
        inserted(points.drop_last(), point).push(points.last())
    }
}

/// `points` in order of time; those of one time keep their order.
pub open spec fn in_time_order(points: Seq<(Double, Double, Double, Double)>) -> Seq<
    (Double, Double, Double, Double),
>
    decreases points.len(),
{
    if points.len() == 0 {
        points
    } else {
        inserted(in_time_order(points.drop_last()), points.last())
    }
}

/// What a profile's text says: its points in order of time, or why it cannot be
/// used.
pub open spec fn profile_of(text: Seq<char>) -> Result<
    Seq<(Double, Double, Double, Double)>,
    Seq<char>,
> {
    match rows(text::lines(text)) {
        Err(fault) => Err(fault),
        Ok(points) => if points.len() == 0 {
            Err("profile has no rows"@)
        } else {
            Ok(in_time_order(points))
        },
    }
}

/// The points that a list holds.
pub open spec fn tuples(points: Seq<ProfilePoint>) -> Seq<(Double, Double, Double, Double)> {
    points.map_values(|point: ProfilePoint| tuple_of(point))
}

/// That no point comes before an earlier one.
pub open spec fn sorted(points: Seq<(Double, Double, Double, Double)>) -> bool {
    forall|i: int, j: int|
        0 <= i <= j < points.len() ==> (#[trigger] points[i]).0.total_rank() <= (
        #[trigger] points[j]).0.total_rank()
}

proof fn lemma_inserted(
    points: Seq<(Double, Double, Double, Double)>,
    point: (Double, Double, Double, Double),
)
    requires
        sorted(points),
    ensures
        sorted(inserted(points, point)),
        inserted(points, point).len() == points.len() + 1,
        inserted(points, point).to_multiset() == points.to_multiset().insert(point),
        inserted(points, point).last().0.total_rank() == (if points.len() == 0
            || points.last().0.total_rank() <= point.0.total_rank() {
            point.0.total_rank()
        } else {
            points.last().0.total_rank()
        }),
    decreases points.len(),
{
    broadcast use vstd::seq_lib::group_to_multiset_ensures;

    if points.len() == 0 || points.last().0.total_rank() <= point.0.total_rank() {
        let all = points.push(point);
        assert forall|i: int, j: int| 0 <= i <= j < all.len() implies (
        #[trigger] all[i]).0.total_rank() <= (#[trigger] all[j]).0.total_rank() by {
            if i < points.len() {
                assert(points[i].0.total_rank() <= points[points.len() - 1].0.total_rank());
            }
        }
    } else {
        let rest = points.drop_last();
        let last = points.last();
        assert(sorted(rest)) by {
            assert forall|i: int, j: int| 0 <= i <= j < rest.len() implies (
            #[trigger] rest[i]).0.total_rank() <= (#[trigger] rest[j]).0.total_rank() by {
                assert(points[i].0.total_rank() <= points[j].0.total_rank());
            }
        }
        lemma_inserted(rest, point);
        let before = inserted(rest, point);
        let all = before.push(last);
        assert forall|i: int, j: int| 0 <= i <= j < all.len() implies (
        #[trigger] all[i]).0.total_rank() <= (#[trigger] all[j]).0.total_rank() by {
            if j == before.len() && i < before.len() {
                assert(before[i].0.total_rank() <= before[before.len() - 1].0.total_rank());
                if rest.len() > 0 {
                    assert(points[rest.len() - 1].0.total_rank() <= points[points.len()
                        - 1].0.total_rank());
                }
            }
        }
        assert(rest.push(last) =~= points);
        assert(points.to_multiset() =~= rest.to_multiset().insert(last));
        assert(all.to_multiset() =~= before.to_multiset().insert(last));
        assert(rest.to_multiset().insert(point).insert(last) =~= rest.to_multiset().insert(
            last,
        ).insert(point));
    }
}

/// Putting points in order of time keeps every one of them and adds none.
pub proof fn law_ordering_keeps_every_point(points: Seq<(Double, Double, Double, Double)>)
    ensures
        sorted(in_time_order(points)),
        in_time_order(points).to_multiset() == points.to_multiset(),
        in_time_order(points).len() == points.len(),
    decreases points.len(),
{
    broadcast use vstd::seq_lib::group_to_multiset_ensures;

    if points.len() > 0 {
        law_ordering_keeps_every_point(points.drop_last());
        lemma_inserted(in_time_order(points.drop_last()), points.last());
        assert(points.drop_last().push(points.last()) =~= points);
    }
}

fn inner_text(field: &Vec<char>) -> (result: Vec<char>)
    ensures
        result@ == text::trim(field@),
{
    let (from, to) = text::trim_range(field.as_slice(), 0, field.len());
    assert(field@.subrange(0, field.len() as int) =~= field@);
    text::copy_range(field.as_slice(), from, to)
}

fn read_field(fields: &Vec<Vec<char>>, at: usize) -> (result: Option<Double>)
    requires
        at < fields.len(),
    ensures
        result == decimal::finite_number(text::trim(fields[at as int]@)),
{
    decimal::read_finite(inner_text(&fields[at]).as_slice())
}

fn spells_number(fields: &Vec<Vec<char>>, at: usize) -> (result: bool)
    requires
        at < fields.len(),
    ensures
        result == decimal::number(text::trim(fields[at as int]@)) is Some,
{
    decimal::read(inner_text(&fields[at]).as_slice()).is_some()
}

fn read_row(line: &Vec<char>) -> (result: Row)
    ensures
        result == row_of(line@),
{
    let inner: Vec<char> = inner_text(line);
    if inner.len() == 0 || inner[0] == '#' {
        return Row::Skipped;
    }
    let fields: Vec<Vec<char>> = text::split_list(inner.as_slice(), ',');
    if fields.len() < 4 {
        return Row::Short;
    }
    match (
        read_field(&fields, 0),
        read_field(&fields, 1),
        read_field(&fields, 2),
        read_field(&fields, 3),
    ) {
        (Some(time), Some(x), Some(y), Some(z)) => Row::Point(time, x, y, z),
        _ => if spells_number(&fields, 0) || spells_number(&fields, 1) || spells_number(&fields, 2)
            || spells_number(&fields, 3) {
            Row::Unreadable
        } else {
            Row::Heading
        },
    }
}

fn report(line: usize, reason: &str) -> (result: String)
    ensures
        result@ == line_fault(line as nat, reason@),
{
    let mut message: String = "line ".to_owned();
    message.append(text::print(line as u64).as_str());
    message.append(": ");
    message.append(reason);
    message
}

/// Puts a point behind all that do not come later.
fn insert_point(points: &mut Vec<ProfilePoint>, point: ProfilePoint)
    ensures
        all_timed(old(points)@) && point.time_s.finite() ==> all_timed(final(points)@),
        tuples(final(points)@) == inserted(tuples(old(points)@), tuple_of(point)),
{
    let ghost all = tuples(points@);
    let ghost new = tuple_of(point);
    let mut at: usize = points.len();
    assert(all.take(at as int) =~= all);
    assert(all.skip(at as int) =~= Seq::empty());
    assert(inserted(all, new) + Seq::empty() =~= inserted(all, new));
    while at > 0 && !points[at - 1].time_s.total_le(point.time_s)
        invariant
            at <= points.len(),
            all == tuples(points@),
            new == tuple_of(point),
            inserted(all, new) == inserted(all.take(at as int), new) + all.skip(at as int),
        decreases at,
    {
        assert(all.take(at as int).drop_last() =~= all.take(at - 1));
        assert(all.take(at as int).last() == all[at - 1]);
        assert(inserted(all.take(at - 1), new).push(all[at - 1]) + all.skip(at as int) =~= inserted(
            all.take(at - 1),
            new,
        ) + all.skip(at - 1));
        at = at - 1;
    }
    assert(at > 0 ==> all.take(at as int).last() == all[at - 1]);
    assert(inserted(all.take(at as int), new) =~= all.take(at as int).push(new));
    points.insert(at, point);
    assert(tuples(points@) =~= all.take(at as int).push(new) + all.skip(at as int));
}

impl Default for SetpointProfile {
    fn default() -> (result: Self)
        ensures
            result.points@.len() == 0,
            result.wf(),
    {
        SetpointProfile { points: Vec::new() }
    }
}

/// How many points, from the first on, `time` has reached.
pub open spec fn reached(points: Seq<(Double, Double, Double, Double)>, time: Double) -> int
    decreases points.len(),
{
    if points.len() == 0 || !points[0].0.at_most(time) {
        0
    } else {
        1 + reached(points.skip(1), time)
    }
}

/// A component between two points.
pub open spec fn between(before: Double, after: Double, fraction: Double) -> Double {
    arithmetic::sum(
        before,
        arithmetic::product(arithmetic::difference(after, before), fraction),
    )
}

/// The field between the points before and behind `time`.
pub open spec fn interpolated(
    before: (Double, Double, Double, Double),
    after: (Double, Double, Double, Double),
    time: Double,
) -> (Double, Double, Double) {
    let span = arithmetic::difference(after.0, before.0);
    if span.at_most(Double { bits: 0 }) {
        (after.1, after.2, after.3)
    } else {
        let fraction = arithmetic::quotient(arithmetic::difference(time, before.0), span);
        (
            between(before.1, after.1, fraction),
            between(before.2, after.2, fraction),
            between(before.3, after.3, fraction),
        )
    }
}

/// The field at `time`: interpolated between points, and held flat outside the
/// profile's range. A time that is not finite counts as before it.
pub open spec fn sampled(points: Seq<(Double, Double, Double, Double)>, time: Double) -> (
    Double,
    Double,
    Double,
) {
    let first = points[0];
    let last = points.last();
    let at = reached(points, time);
    if !time.finite() || time.at_most(first.0) {
        (first.1, first.2, first.3)
    } else if last.0.at_most(time) {
        (last.1, last.2, last.3)
    } else {
        interpolated(points[at - 1], points[at], time)
    }
}

/// Until a point that `time` has not reached there is always one.
proof fn lemma_reached(points: Seq<(Double, Double, Double, Double)>, time: Double)
    requires
        points.len() > 0,
        !points.last().0.at_most(time),
    ensures
        0 <= reached(points, time) < points.len(),
    decreases points.len(),
{
    if points[0].0.at_most(time) {
        assert(points.len() > 1);
        assert(points.skip(1).last() == points.last());
        lemma_reached(points.skip(1), time);
    }
}

/// The points up to the one at `at` are reached at its time, and no later one.
proof fn lemma_reached_at(points: Seq<(Double, Double, Double, Double)>, at: int)
    requires
        0 <= at < points.len(),
        forall|i: int| 0 <= i < points.len() ==> (#[trigger] points[i]).0.finite(),
        forall|i: int, j: int|
            0 <= i < j < points.len() ==> (#[trigger] points[i]).0.less((#[trigger] points[j]).0),
    ensures
        reached(points, points[at].0) == at + 1,
    decreases points.len(),
{
    let rest = points.skip(1);
    assert(points[0].0.finite() && points[at].0.finite());
    if at > 0 {
        assert(points[0].0.less(points[at].0));
        assert(points[0].0.at_most(points[at].0));
        assert(rest[at - 1] == points[at]);
        lemma_reached_at(rest, at - 1);
        assert(reached(points, points[at].0) == 1 + reached(rest, points[at].0));
    } else {
        if points.len() > 1 {
            assert(points[0].0.less(points[1].0));
            assert(rest[0] == points[1]);
        }
        assert(reached(rest, points[0].0) == 0);
        assert(points[0].0.at_most(points[0].0));
        assert(reached(points, points[0].0) == 1 + reached(rest, points[0].0));
    }
}

/// A profile passes through its rows: at the time of a row it gives the field of
/// that row.
pub proof fn law_profiles_pass_through_their_rows(
    points: Seq<(Double, Double, Double, Double)>,
    at: int,
)
    requires
        0 <= at < points.len(),
        forall|i: int| 0 <= i < points.len() ==> (#[trigger] points[i]).0.finite(),
        forall|i: int, j: int|
            0 <= i < j < points.len() ==> (#[trigger] points[i]).0.less((#[trigger] points[j]).0),
        points[at].1.finite(),
        points[at].2.finite(),
        points[at].3.finite(),
        at + 1 < points.len() ==> {
            &&& arithmetic::difference(points[at + 1].1, points[at].1).finite()
            &&& arithmetic::difference(points[at + 1].2, points[at].2).finite()
            &&& arithmetic::difference(points[at + 1].3, points[at].3).finite()
        },
    ensures
        sampled(points, points[at].0).0.equals(points[at].1),
        sampled(points, points[at].0).1.equals(points[at].2),
        sampled(points, points[at].0).2.equals(points[at].3),
{
    let here = points[at];
    assert(here.0.finite() && points[0].0.finite() && points.last().0.finite());
    if 0 < at < points.len() - 1 {
        assert(points[0].0.less(here.0));
        assert(here.0.less(points[points.len() - 1].0));
        let next = points[at + 1];
        assert(here.0.less(next.0));
        lemma_reached_at(points, at);
        let span = arithmetic::difference(next.0, here.0);
        lemma_later_less_earlier(here.0, next.0);
        arithmetic::law_a_number_less_itself_is_zero(here.0);
        let fraction = arithmetic::quotient(Double { bits: 0 }, span);
        lemma_nothing_over(span);
        lemma_no_part_of_the_way(here.1, next.1, fraction);
        lemma_no_part_of_the_way(here.2, next.2, fraction);
        lemma_no_part_of_the_way(here.3, next.3, fraction);
    } else if at > 0 {
        assert(points[0].0.less(here.0));
    }
}

/// What is later, less what is earlier, is more than nothing.
pub proof fn lemma_later_less_earlier(earlier: Double, later: Double)
    requires
        earlier.finite(),
        later.finite(),
        earlier.less(later),
    ensures
        (Double { bits: 0 }).less(arithmetic::difference(later, earlier)),
{
    double::law_rank_is_the_order_of_the_numbers(earlier, later);
    let total = later.units() - earlier.units();
    assert(earlier.negated().units() == -earlier.units());
    arithmetic::law_there_is_a_nearest(total as nat, 1);
    arithmetic::law_exact_results_are_kept(1, 1);
    assert(double::double_units(1) == 1);
    arithmetic::law_there_is_a_nearest(1, 1);
    arithmetic::law_nearest_keeps_order(
        1,
        total as nat,
        1,
        arithmetic::nearest(1, 1),
        arithmetic::nearest(total as nat, 1),
    );
}

proof fn lemma_nothing_over(span: Double)
    requires
        (Double { bits: 0 }).less(span),
    ensures
        arithmetic::quotient(Double { bits: 0 }, span).magnitude() == 0,
{
    if !arithmetic::infinite(span) {
        assert(double::double_units(0) == 0);
        double::law_larger_patterns_are_larger(0, span.magnitude());
        arithmetic::lemma_nothing(double::double_units(span.magnitude()));
        assert(0 * vstd::arithmetic::power2::pow2(1074) == 0);
    }
}

/// No part of the way leads nowhere.
pub proof fn lemma_no_part_of_the_way(before: Double, after: Double, fraction: Double)
    requires
        before.finite(),
        arithmetic::difference(after, before).finite(),
        fraction.magnitude() == 0,
    ensures
        between(before, after, fraction).equals(before),
{
    let way = arithmetic::difference(after, before);
    arithmetic::law_zero_times_a_number(way, fraction);
    arithmetic::law_zero_adds_nothing(before, arithmetic::product(way, fraction));
}

impl SetpointProfile {
    /// Parses `time_s,bx_nt,by_nt,bz_nt` rows. Blank lines, `#` comments and a
    /// non-numeric header row are skipped; any other malformed row is an error
    /// rather than a silently dropped command.
    pub fn parse(text: &str) -> (result: Result<Self, String>)
        ensures
            match profile_of(text@) {
                Ok(points) => result is Ok && tuples(result->Ok_0.points@) == points,
                Err(reason) => result is Err && result->Err_0@ == reason,
            },
            result is Ok ==> result->Ok_0.points.len() > 0 && result->Ok_0.wf(),
    {
        let lines: Vec<Vec<char>> = text::line_list(text);
        let ghost all = text::lines(text@);
        let mut points: Vec<ProfilePoint> = Vec::new();
        let mut at: usize = 0;
        let ghost mut read: Seq<(Double, Double, Double, Double)> = Seq::empty();
        assert(all.take(0) =~= Seq::empty());
        assert(tuples(points@) =~= in_time_order(read));
        while at < lines.len()
            invariant
                at <= lines.len() == all.len(),
                all == text::lines(text@),
                forall|i: int| 0 <= i < lines.len() ==> (#[trigger] lines[i])@ == all[i],
                rows(all.take(at as int)) == Ok::<_, Seq<char>>(read),
                tuples(points@) == in_time_order(read),
                points.len() == read.len(),
                all_timed(points@),
            decreases lines.len() - at,
        {
            proof {
                assert(all.take(at + 1).drop_last() =~= all.take(at as int));
                assert(all.take(at + 1).last() == lines[at as int]@);
                lemma_first_fault(all, at + 1);
            }
            match read_row(&lines[at]) {
                Row::Skipped => {},
                Row::Short => {
                    return Err(report(at + 1, "expected time_s,bx_nt,by_nt,bz_nt"));
                },
                Row::Heading => {
                    if at != 0 {
                        return Err(report(at + 1, "values must be finite numbers"));
                    }
                },
                Row::Unreadable => {
                    return Err(report(at + 1, "values must be finite numbers"));
                },
                Row::Point(time_s, x, y, z) => {
                    let point: ProfilePoint = ProfilePoint { time_s, field_nt: [x, y, z] };
                    proof {
                        let next = read.push((time_s, x, y, z));
                        assert(next.drop_last() =~= read);
                        law_ordering_keeps_every_point(read);
                        lemma_inserted(in_time_order(read), tuple_of(point));
                        read = next;
                    }
                    insert_point(&mut points, point);
                    assert(tuples(points@).len() == points.len());
                },
            }
            at = at + 1;
        }
        assert(all.take(all.len() as int) =~= all);
        if points.len() == 0 {
            return Err("profile has no rows".to_owned());
        }
        Ok(SetpointProfile { points })
    }

    pub fn len(&self) -> (result: usize)
        ensures
            result == self.points@.len(),
    {
        self.points.len()
    }

    pub fn is_empty(&self) -> (result: bool)
        ensures
            result == (self.points@.len() == 0),
    {
        self.points.len() == 0
    }

    /// Last timestamp in the profile.
    pub fn duration_s(&self) -> (result: Double)
        ensures
            result == (if self.points@.len() == 0 {
                Double { bits: 0 }
            } else {
                self.points@.last().time_s
            }),
    {
        if self.points.len() == 0 {
            Double::zero()
        } else {
            self.points[self.points.len() - 1].time_s
        }
    }

    /// Field vector at `time_s`, linearly interpolated between rows and held
    /// flat outside the profile's range.
    pub fn sample(&self, time_s: Double) -> (result: Option<[Double; 3]>)
        requires
            self.wf(),
        ensures
            result is None == (self.points@.len() == 0),
            result matches Some(field) ==> (field[0], field[1], field[2]) == sampled(
                tuples(self.points@),
                time_s,
            ),
    {
        if self.points.len() == 0 {
            return None;
        }
        let ghost points = tuples(self.points@);
        let first: ProfilePoint = self.points[0];
        let last: ProfilePoint = self.points[self.points.len() - 1];
        if !time_s.is_finite() || time_s.le(first.time_s) {
            return Some(first.field_nt);
        }
        if last.time_s.le(time_s) {
            return Some(last.field_nt);
        }
        let mut at: usize = 0;
        proof {
            lemma_reached(points, time_s);
            assert(points.skip(0) =~= points);
        }
        while at < self.points.len() && self.points[at].time_s.le(time_s)
            invariant
                at <= self.points.len(),
                points == tuples(self.points@),
                reached(points, time_s) == at + reached(points.skip(at as int), time_s),
            decreases self.points.len() - at,
        {
            assert(points.skip(at as int)[0] == points[at as int]);
            assert(points.skip(at as int).skip(1) =~= points.skip(at + 1));
            at = at + 1;
        }
        assert(at < self.points.len() ==> points.skip(at as int)[0] == points[at as int]);
        assert(reached(points, time_s) == at);
        assert(at > 0) by {
            if at == 0 {
                assert(!points[0].0.at_most(time_s));
                assert(!time_s.at_most(points[0].0));
            }
        }
        let before: ProfilePoint = self.points[at - 1];
        let after: ProfilePoint = self.points[at];
        let span: Double = after.time_s.minus(before.time_s);
        if span.le(Double::zero()) {
            return Some(after.field_nt);
        }
        let fraction: Double = time_s.minus(before.time_s).over(span);
        Some(
            [
                blend(before.field_nt[0], after.field_nt[0], fraction),
                blend(before.field_nt[1], after.field_nt[1], fraction),
                blend(before.field_nt[2], after.field_nt[2], fraction),
            ],
        )
    }
}

fn blend(before: Double, after: Double, fraction: Double) -> (result: Double)
    ensures
        result == between(before, after, fraction),
{
    before.plus(after.minus(before).times(fraction))
}

/// The first fault on a list of lines is the fault of the whole list.
proof fn lemma_first_fault(lines: Seq<Seq<char>>, count: int)
    requires
        0 <= count <= lines.len(),
    ensures
        rows(lines.take(count)) is Err ==> rows(lines) == rows(lines.take(count)),
    decreases lines.len() - count,
{
    if count < lines.len() {
        assert(lines.take(count + 1).drop_last() =~= lines.take(count));
        lemma_first_fault(lines, count + 1);
    } else {
        assert(lines.take(count) =~= lines);
    }
}

/// `std::str::from_utf8`: the text that `bytes` encode, if they are UTF-8.
#[verifier::external_body]
fn utf8_text(bytes: &[u8]) -> (result: Option<String>)
    ensures
        result is Some == valid_utf8(bytes@),
        result matches Some(text) ==> text@ == decode_utf8(bytes@),
{
    match std::str::from_utf8(bytes) {
        Ok(text) => Some(text.to_owned()),
        Err(_) => None,
    }
}

/// What a command text says: `bx,by,bz` in nT. Further fields are ignored; a
/// component that is missing or not finite spoils all of it.
pub open spec fn command_of(text: Seq<char>) -> Option<(Double, Double, Double)> {
    let fields = text::split(text::trim(text), ',');
    if fields.len() < 3 {
        None
    } else {
        match (field_number(fields, 0), field_number(fields, 1), field_number(fields, 2)) {
            (Some(x), Some(y), Some(z)) => Some((x, y, z)),
            _ => None,
        }
    }
}

/// Parses `bx,by,bz` in nT. Extra fields are ignored so that a propagator can
/// append its own columns; any non-finite or missing component rejects the
/// datagram, and so does anything that is not UTF-8.
pub fn parse_setpoint_datagram(bytes: &[u8]) -> (result: Option<[Double; 3]>)
    ensures
        match result {
            Some(field) => valid_utf8(bytes@) && command_of(decode_utf8(bytes@)) == Some(
                (field[0], field[1], field[2]),
            ),
            None => !valid_utf8(bytes@) || command_of(decode_utf8(bytes@)) is None,
        },
{
    let text: String = match utf8_text(bytes) {
        Some(text) => text,
        None => return None,
    };
    let characters: Vec<char> = text::chars_of(text.as_str());
    let (from, to) = text::trim_range(characters.as_slice(), 0, characters.len());
    assert(characters@.subrange(0, characters.len() as int) =~= text@);
    let inner: Vec<char> = text::copy_range(characters.as_slice(), from, to);
    let fields: Vec<Vec<char>> = text::split_list(inner.as_slice(), ',');
    if fields.len() < 3 {
        return None;
    }
    match (read_field(&fields, 0), read_field(&fields, 1), read_field(&fields, 2)) {
        (Some(x), Some(y), Some(z)) => Some([x, y, z]),
        _ => None,
    }
}

/// The number in a field of a panel, or why there is none.
pub open spec fn field_text(value: Seq<char>, label: Seq<char>) -> Result<Double, Seq<char>> {
    match decimal::number(text::trim(value)) {
        None => Err(label + " must be a number"@),
        Some(number) => if number.finite() {
            Ok(number)
        } else {
            Err(label + " must be finite"@)
        },
    }
}

/// The number in a field of a panel, or why there is none.
pub fn parse_f64(value: &str, label: &str) -> (result: Result<Double, String>)
    ensures
        match field_text(value@, label@) {
            Ok(number) => result == Ok::<Double, String>(number),
            Err(reason) => result is Err && result->Err_0@ == reason,
        },
{
    let value: String = text::trimmed(value);
    match decimal::read_text(value.as_str()) {
        None => {
            let mut reason: String = label.to_owned();
            reason.append(" must be a number");
            Err(reason)
        },
        Some(number) => if number.is_finite() {
            Ok(number)
        } else {
            let mut reason: String = label.to_owned();
            reason.append(" must be finite");
            Err(reason)
        },
    }
}

/// The components of a field of a given size along a declination and an
/// inclination.
pub open spec fn along(magnitude_nt: Double, declination: Turn, inclination: Turn) -> Seq<Double> {
    let horizontal = arithmetic::product(magnitude_nt, inclination.cosine);
    seq![
        arithmetic::product(horizontal, declination.cosine),
        arithmetic::product(horizontal, declination.sine),
        arithmetic::product(magnitude_nt, inclination.sine),
    ]
}

/// The components of a field of a given size along two turns.
pub fn components(magnitude_nt: Double, declination: Turn, inclination: Turn) -> (result: [Double; 3])
    ensures
        result@ == along(magnitude_nt, declination, inclination),
{
    let horizontal: Double = magnitude_nt.times(inclination.cosine);
    let result: [Double; 3] = [
        horizontal.times(declination.cosine),
        horizontal.times(declination.sine),
        magnitude_nt.times(inclination.sine),
    ];
    assert(result@ =~= along(magnitude_nt, declination, inclination));
    result
}

/// Builds a field vector from a magnitude and the pair of declination and
/// inclination, in degrees, that a geomagnetic model reports. X is north, Y is
/// east, Z is down.
pub fn field_from_magnitude<S: Fn(Double) -> (Double, Double)>(
    magnitude_nt: Double,
    declination_deg: Double,
    inclination_deg: Double,
    sine_cosine: &S,
) -> (result: [Double; 3])
    requires
        angle::answers_angles(*sine_cosine),
    ensures
        exists|declination: Turn, inclination: Turn|
            {
                &&& #[trigger] angle::turned(
                    *sine_cosine,
                    angle::in_radians(declination_deg),
                    declination,
                )
                &&& #[trigger] angle::turned(
                    *sine_cosine,
                    angle::in_radians(inclination_deg),
                    inclination,
                )
                &&& result@ == along(magnitude_nt, declination, inclination)
            },
{
    let declination: Turn = angle::turn_by(sine_cosine, declination_deg.to_radians());
    let inclination: Turn = angle::turn_by(sine_cosine, inclination_deg.to_radians());
    components(magnitude_nt, declination, inclination)
}

/// X is north, Y is east and Z is down: a declination to the other side turns Y round,
/// an inclination to the other side Z, and neither touches another component.
pub proof fn law_sides_turn_their_components(
    magnitude_nt: Double,
    declination: Turn,
    inclination: Turn,
    west: Turn,
    up: Turn,
)
    requires
        west.sine == declination.sine.negated(),
        west.cosine == declination.cosine,
        up.sine == inclination.sine.negated(),
        up.cosine == inclination.cosine,
    ensures
        ({
            let field = along(magnitude_nt, declination, inclination);
            let westward = along(magnitude_nt, west, inclination);
            let upward = along(magnitude_nt, declination, up);
            &&& westward[0] == field[0] && westward[2] == field[2]
            &&& order::opposite(field[1], westward[1])
            &&& upward[0] == field[0] && upward[1] == field[1]
            &&& order::opposite(field[2], upward[2])
        }),
{
    let horizontal = arithmetic::product(magnitude_nt, inclination.cosine);
    order::law_negatives_are_opposite(declination.sine);
    order::law_negatives_are_opposite(inclination.sine);
    order::law_opposite_products(declination.sine, horizontal, west.sine, horizontal);
    order::law_opposite_products(inclination.sine, magnitude_nt, up.sine, magnitude_nt);
}

/// A level field to the north is all X, to the east all Y, and one straight down is all
/// Z: each of them is the magnitude itself.
pub proof fn law_fields_lie_along_their_axes(
    magnitude_nt: Double,
    declination: Turn,
    inclination: Turn,
)
    requires
        magnitude_nt.finite(),
        declination.sine.finite(),
        declination.cosine.finite(),
    ensures
        ({
            let zero = Double { bits: 0 };
            let one = Double { bits: 0x3ff0_0000_0000_0000 };
            let field = along(magnitude_nt, declination, inclination);
            let level = inclination.sine == zero && inclination.cosine == one;
            &&& level && declination.sine == zero && declination.cosine == one ==> field[0]
                == magnitude_nt && field[1].magnitude() == 0 && field[2].magnitude() == 0
            &&& level && declination.sine == one && declination.cosine == zero ==> field[1]
                == magnitude_nt && field[0].magnitude() == 0 && field[2].magnitude() == 0
            &&& inclination.sine == one && inclination.cosine == zero ==> field[2]
                == magnitude_nt && field[0].magnitude() == 0 && field[1].magnitude() == 0
        }),
{
    let zero = Double { bits: 0 };
    arithmetic::law_times_one(magnitude_nt);
    arithmetic::law_zero_times_a_number(magnitude_nt, zero);
    let none = arithmetic::product(magnitude_nt, zero);
    arithmetic::law_zero_times_a_number(declination.cosine, none);
    arithmetic::law_factors_may_change_places(declination.cosine, none);
    arithmetic::law_zero_times_a_number(declination.sine, none);
    arithmetic::law_factors_may_change_places(declination.sine, none);
}

} // verus!
