//! Contour lines through a [`MapGrid`], by marching squares: the lines of equal
//! value are traced through the cells of the grid.
use crate::accuracy;
use crate::arithmetic;
use crate::double;
use crate::double::{Double, INFINITE, SIGN};
use crate::geomagnetism::expansion::EPSILON;
use crate::map_grid::MapGrid;
use crate::order;
use crate::profile;
use crate::setpoint;
use crate::whole;
use vstd::arithmetic::power2::*;
use vstd::prelude::*;

verus! {

/// How many levels are traced at most.
pub const MAX_LEVELS: usize = 200;

/// One traced piece of a contour line, in longitude and latitude. A whole line
/// is the union of all pieces of one level.
#[derive(Debug, Clone, Copy, PartialEq)]
pub struct ContourSegment {
    pub level: Double,
    pub start: [Double; 2],
    pub end: [Double; 2],
}

/// A point of the map.
pub struct Spot {
    pub longitude: Double,
    pub latitude: Double,
}

/// A side of a cell.
pub enum Edge {
    Bottom,
    Right,
    Top,
    Left,
}

/// A piece of a line as it is compared: the level and the two ends.
pub open spec fn piece(segment: ContourSegment) -> (Double, Spot, Spot) {
    (
        segment.level,
        Spot { longitude: segment.start[0], latitude: segment.start[1] },
        Spot { longitude: segment.end[0], latitude: segment.end[1] },
    )
}

pub open spec fn pieces(segments: Seq<ContourSegment>) -> Seq<(Double, Spot, Spot)> {
    segments.map_values(|segment: ContourSegment| piece(segment))
}

/// Which sides of a cell the line joins, by which corners are not below it:
/// bottom left, bottom right, top right, top left. Where two diagonal corners
/// agree, the middle of the cell decides which of them stay connected.
pub open spec fn joined(
    bottom_left: bool,
    bottom_right: bool,
    top_right: bool,
    top_left: bool,
    middle: bool,
) -> Seq<(Edge, Edge)> {
    let around_left = seq![(Edge::Left, Edge::Top), (Edge::Bottom, Edge::Right)];
    let around_right = seq![(Edge::Left, Edge::Bottom), (Edge::Top, Edge::Right)];
    match (bottom_left, bottom_right, top_right, top_left) {
        (false, false, false, false) | (true, true, true, true) => Seq::empty(),
        (true, false, false, false) | (false, true, true, true) => seq![(Edge::Left, Edge::Bottom)],
        (false, true, false, false) | (true, false, true, true) => seq![(Edge::Bottom, Edge::Right)],
        (true, true, false, false) | (false, false, true, true) => seq![(Edge::Left, Edge::Right)],
        (false, false, true, false) | (true, true, false, true) => seq![(Edge::Right, Edge::Top)],
        (false, true, true, false) | (true, false, false, true) => seq![(Edge::Bottom, Edge::Top)],
        (true, true, true, false) | (false, false, false, true) => seq![(Edge::Left, Edge::Top)],
        (true, false, true, false) => if middle {
            around_left
        } else {
            around_right
        },
        (false, true, false, true) => if middle {
            around_right
        } else {
            around_left
        },
    }
}

/// How often a side of the cell is an end of a line.
pub open spec fn ends_on(pairs: Seq<(Edge, Edge)>, edge: Edge) -> int
    decreases pairs.len(),
{
    if pairs.len() == 0 {
        0
    } else {
        ends_on(pairs.drop_last(), edge) + (if pairs.last().0 == edge {
            1int
        } else {
            0
        }) + (if pairs.last().1 == edge {
            1int
        } else {
            0
        })
    }
}

/// A line crosses a side of a cell exactly once where the corners of that side
/// stand on different sides of the level, and not at all elsewhere. So what
/// leaves one cell enters the next: no line ends inside the map.
pub proof fn law_lines_cross_between_unlike_corners(
    bottom_left: bool,
    bottom_right: bool,
    top_right: bool,
    top_left: bool,
    middle: bool,
)
    ensures
        ({
            let pairs = joined(bottom_left, bottom_right, top_right, top_left, middle);
            &&& ends_on(pairs, Edge::Bottom) == (if bottom_left != bottom_right {
                1int
            } else {
                0
            })
            &&& ends_on(pairs, Edge::Right) == (if bottom_right != top_right {
                1int
            } else {
                0
            })
            &&& ends_on(pairs, Edge::Top) == (if top_left != top_right {
                1int
            } else {
                0
            })
            &&& ends_on(pairs, Edge::Left) == (if bottom_left != top_left {
                1int
            } else {
                0
            })
        }),
{
    reveal_with_fuel(ends_on, 3);
    let pairs = joined(bottom_left, bottom_right, top_right, top_left, middle);
    if pairs.len() == 1 {
        assert(pairs.drop_last() =~= Seq::empty());
    } else if pairs.len() == 2 {
        assert(pairs.drop_last() =~= seq![pairs[0]]);
        assert(pairs.drop_last().drop_last() =~= Seq::empty());
    }
}

/// Where the level lies between `a` and `b`, that have the values `va` and `vb`.
pub open spec fn between(a: Double, b: Double, va: Double, vb: Double, level: Double) -> Double {
    let span = arithmetic::difference(vb, va);
    if span.absolute().less(Double { bits: EPSILON }) {
        arithmetic::product(Double { bits: 0x3fe0_0000_0000_0000 }, arithmetic::sum(a, b))
    } else {
        arithmetic::sum(
            a,
            arithmetic::product(
                arithmetic::quotient(arithmetic::difference(level, va), span),
                arithmetic::difference(b, a),
            ),
        )
    }
}

/// Where the level crosses a side of the cell at a column and a row.
pub open spec fn crossing(
    grid: MapGrid,
    column: int,
    row: int,
    level: Double,
    edge: Edge,
) -> Spot {
    let x0 = grid.longitudes@[column];
    let x1 = grid.longitudes@[column + 1];
    let y0 = grid.latitudes@[row];
    let y1 = grid.latitudes@[row + 1];
    match edge {
        Edge::Bottom => Spot {
            longitude: between(x0, x1, grid.at(column, row), grid.at(column + 1, row), level),
            latitude: y0,
        },
        Edge::Right => Spot {
            longitude: x1,
            latitude: between(
                y0,
                y1,
                grid.at(column + 1, row),
                grid.at(column + 1, row + 1),
                level,
            ),
        },
        Edge::Top => Spot {
            longitude: between(
                x0,
                x1,
                grid.at(column, row + 1),
                grid.at(column + 1, row + 1),
                level,
            ),
            latitude: y1,
        },
        Edge::Left => Spot {
            longitude: x0,
            latitude: between(y0, y1, grid.at(column, row), grid.at(column, row + 1), level),
        },
    }
}

/// Two cells that share a side put the crossing in one place.
pub proof fn law_neighbours_share_their_crossings(
    grid: MapGrid,
    column: int,
    row: int,
    level: Double,
)
    ensures
        crossing(grid, column, row, level, Edge::Top) == crossing(
            grid,
            column,
            row + 1,
            level,
            Edge::Bottom,
        ),
        crossing(grid, column, row, level, Edge::Right) == crossing(
            grid,
            column + 1,
            row,
            level,
            Edge::Left,
        ),
{
}

/// The value in the middle of a cell.
pub open spec fn middle_of(grid: MapGrid, column: int, row: int) -> Double {
    arithmetic::quotient(
        arithmetic::sum(
            arithmetic::sum(
                arithmetic::sum(grid.at(column, row), grid.at(column + 1, row)),
                grid.at(column + 1, row + 1),
            ),
            grid.at(column, row + 1),
        ),
        Double { bits: 0x4010_0000_0000_0000 },
    )
}

/// The pairs of sides that the line joins in one cell.
pub open spec fn cell_pairs(grid: MapGrid, column: int, row: int, level: Double) -> Seq<
    (Edge, Edge),
> {
    joined(
        level.at_most(grid.at(column, row)),
        level.at_most(grid.at(column + 1, row)),
        level.at_most(grid.at(column + 1, row + 1)),
        level.at_most(grid.at(column, row + 1)),
        level.at_most(middle_of(grid, column, row)),
    )
}

/// The pieces in one cell.
pub open spec fn cell_pieces(grid: MapGrid, column: int, row: int, level: Double) -> Seq<
    (Double, Spot, Spot),
> {
    cell_pairs(grid, column, row, level).map_values(
        |pair: (Edge, Edge)|
            (
                level,
                crossing(grid, column, row, level, pair.0),
                crossing(grid, column, row, level, pair.1),
            ),
    )
}

/// The pieces in the first `count` cells of a row.
pub open spec fn row_pieces(grid: MapGrid, row: int, level: Double, count: int) -> Seq<
    (Double, Spot, Spot),
>
    decreases count,
{
    if count <= 0 {
        Seq::empty()
    } else {
        row_pieces(grid, row, level, count - 1) + cell_pieces(grid, count - 1, row, level)
    }
}

/// The pieces of one level in the first `count` rows of cells.
pub open spec fn level_pieces(grid: MapGrid, level: Double, count: int) -> Seq<
    (Double, Spot, Spot),
>
    decreases count,
{
    if count <= 0 {
        Seq::empty()
    } else {
        level_pieces(grid, level, count - 1) + row_pieces(
            grid,
            count - 1,
            level,
            grid.longitudes@.len() - 1,
        )
    }
}

/// The pieces of the levels from `level` up to `top`, `left` of them at most.
pub open spec fn traced(
    grid: MapGrid,
    level: Double,
    step: Double,
    top: Double,
    left: nat,
) -> Seq<(Double, Spot, Spot)>
    decreases left,
{
    if left == 0 || !level.at_most(top) {
        Seq::empty()
    } else {
        level_pieces(grid, level, grid.latitudes@.len() - 1) + traced(
            grid,
            arithmetic::sum(level, step),
            step,
            top,
            (left - 1) as nat,
        )
    }
}

/// The smaller of what has been seen and a finite value.
pub open spec fn lower(seen: Double, value: Double) -> Double {
    if value.finite() && value.less(seen) {
        value
    } else {
        seen
    }
}

pub open spec fn higher(seen: Double, value: Double) -> Double {
    if value.finite() && seen.less(value) {
        value
    } else {
        seen
    }
}

/// The finite values' range in one column, beginning with what has been seen.
pub open spec fn column_range(values: Seq<Double>, seen: (Double, Double)) -> (Double, Double)
    decreases values.len(),
{
    if values.len() == 0 {
        seen
    } else {
        let (low, high) = column_range(values.drop_last(), seen);
        (lower(low, values.last()), higher(high, values.last()))
    }
}

/// The range of all finite values; from infinity to minus infinity, where there
/// are none.
pub open spec fn range_of(columns: Seq<Vec<Double>>) -> (Double, Double)
    decreases columns.len(),
{
    if columns.len() == 0 {
        (Double { bits: INFINITE }, Double { bits: (INFINITE + SIGN) as u64 })
    } else {
        column_range(columns.last()@, range_of(columns.drop_last()))
    }
}

/// The lowest multiple of the step inside the range.
pub open spec fn first_level(low: Double, step: Double) -> Double {
    let level = arithmetic::product(whole::floored(arithmetic::quotient(low, step)), step);
    if level.less(low) {
        arithmetic::sum(level, step)
    } else {
        level
    }
}

/// All pieces of all levels.
pub open spec fn contours(grid: MapGrid, step: Double) -> Seq<(Double, Spot, Spot)> {
    let (low, high) = range_of(grid.data@);
    if !step.finite() || step.at_most(Double { bits: 0 }) || grid.longitudes@.len() < 2
        || grid.latitudes@.len() < 2 || !low.finite() || !high.finite() || high.at_most(low) {
        Seq::empty()
    } else {
        traced(grid, first_level(low, step), step, high, MAX_LEVELS as nat)
    }
}

fn lerp(a: Double, b: Double, va: Double, vb: Double, level: Double) -> (result: Double)
    ensures
        result == between(a, b, va, vb, level),
{
    let span: Double = vb.minus(va);
    if span.abs().lt(Double::from_bits(EPSILON)) {
        Double::from_bits(0x3fe0_0000_0000_0000).times(a.plus(b))
    } else {
        a.plus(level.minus(va).over(span).times(b.minus(a)))
    }
}

/// Adds one piece.
fn push_piece(
    segments: &mut Vec<ContourSegment>,
    level: Double,
    start: [Double; 2],
    end: [Double; 2],
)
    ensures
        pieces(final(segments)@) == pieces(old(segments)@).push(
            (
                level,
                (Spot { longitude: start[0], latitude: start[1] }),
                (Spot { longitude: end[0], latitude: end[1] }),
            ),
        ),
{
    let ghost before = segments@;
    segments.push(ContourSegment { level, start, end });
    assert(pieces(segments@) =~= pieces(before).push(piece(ContourSegment { level, start, end })));
}

/// That a grid has a value for every longitude and latitude.
pub open spec fn filled(grid: MapGrid) -> bool {
    &&& grid.longitudes@.len() <= grid.data@.len()
    &&& forall|column: int|
        0 <= column < grid.longitudes@.len() ==> grid.latitudes@.len() <= (
        #[trigger] grid.data@[column])@.len()
}

/// Marching squares for one cell at one level.
fn push_cell_segments(
    grid: &MapGrid,
    col: usize,
    row: usize,
    level: Double,
    segments: &mut Vec<ContourSegment>,
)
    requires
        filled(*grid),
        col + 1 < grid.longitudes.len(),
        row + 1 < grid.latitudes.len(),
    ensures
        pieces(final(segments)@) == pieces(old(segments)@) + cell_pieces(
            *grid,
            col as int,
            row as int,
            level,
        ),
{
    let ghost before = pieces(segments@);
    let ghost added = cell_pieces(*grid, col as int, row as int, level);
    let x0: Double = grid.longitudes[col];
    let x1: Double = grid.longitudes[col + 1];
    let y0: Double = grid.latitudes[row];
    let y1: Double = grid.latitudes[row + 1];

    let v00: Double = grid.data[col][row];
    let v10: Double = grid.data[col + 1][row];
    let v11: Double = grid.data[col + 1][row + 1];
    let v01: Double = grid.data[col][row + 1];

    let bottom: [Double; 2] = [lerp(x0, x1, v00, v10, level), y0];
    let right: [Double; 2] = [x1, lerp(y0, y1, v10, v11, level)];
    let top: [Double; 2] = [lerp(x0, x1, v01, v11, level), y1];
    let left: [Double; 2] = [x0, lerp(y0, y1, v00, v01, level)];

    let middle: bool = level.le(
        v00.plus(v10).plus(v11).plus(v01).over(Double::from_bits(0x4010_0000_0000_0000)),
    );
    match (level.le(v00), level.le(v10), level.le(v11), level.le(v01)) {
        (false, false, false, false) | (true, true, true, true) => {},
        (true, false, false, false) | (false, true, true, true) => {
            push_piece(segments, level, left, bottom);
        },
        (false, true, false, false) | (true, false, true, true) => {
            push_piece(segments, level, bottom, right);
        },
        (true, true, false, false) | (false, false, true, true) => {
            push_piece(segments, level, left, right);
        },
        (false, false, true, false) | (true, true, false, true) => {
            push_piece(segments, level, right, top);
        },
        (false, true, true, false) | (true, false, false, true) => {
            push_piece(segments, level, bottom, top);
        },
        (true, true, true, false) | (false, false, false, true) => {
            push_piece(segments, level, left, top);
        },
        (true, false, true, false) => {
            if middle {
                push_piece(segments, level, left, top);
                push_piece(segments, level, bottom, right);
            } else {
                push_piece(segments, level, left, bottom);
                push_piece(segments, level, top, right);
            }
        },
        (false, true, false, true) => {
            if middle {
                push_piece(segments, level, left, bottom);
                push_piece(segments, level, top, right);
            } else {
                push_piece(segments, level, left, top);
                push_piece(segments, level, bottom, right);
            }
        },
    }
    assert(pieces(segments@) =~= before + added);
}

/// The range of all finite values.
fn value_range(data: &Vec<Vec<Double>>) -> (result: (Double, Double))
    ensures
        result == range_of(data@),
{
    let mut low: Double = Double::from_bits(INFINITE);
    let mut high: Double = Double::from_bits(INFINITE + SIGN);
    let mut column: usize = 0;
    assert(data@.take(0) =~= Seq::empty());
    while column < data.len()
        invariant
            column <= data.len(),
            (low, high) == range_of(data@.take(column as int)),
        decreases data.len() - column,
    {
        let values: &Vec<Double> = &data[column];
        let ghost seen = (low, high);
        let mut at: usize = 0;
        assert(values@.take(0) =~= Seq::empty());
        while at < values.len()
            invariant
                at <= values.len(),
                (low, high) == column_range(values@.take(at as int), seen),
            decreases values.len() - at,
        {
            assert(values@.take(at + 1).drop_last() =~= values@.take(at as int));
            let value: Double = values[at];
            if value.is_finite() {
                if value.lt(low) {
                    low = value;
                }
                if high.lt(value) {
                    high = value;
                }
            }
            at = at + 1;
        }
        assert(values@.take(values.len() as int) =~= values@);
        assert(data@.take(column + 1).drop_last() =~= data@.take(column as int));
        column = column + 1;
    }
    assert(data@.take(data.len() as int) =~= data@);
    (low, high)
}

/// Traces one level through every cell.
fn push_level(grid: &MapGrid, level: Double, segments: &mut Vec<ContourSegment>)
    requires
        filled(*grid),
        grid.longitudes@.len() >= 2,
        grid.latitudes@.len() >= 2,
    ensures
        pieces(final(segments)@) == pieces(old(segments)@) + level_pieces(
            *grid,
            level,
            grid.latitudes@.len() - 1,
        ),
{
    let ghost before = pieces(segments@);
    let mut row: usize = 0;
    assert(before + level_pieces(*grid, level, 0) =~= before);
    while row < grid.latitudes.len() - 1
        invariant
            filled(*grid),
            grid.longitudes@.len() >= 2,
            grid.latitudes@.len() >= 2,
            row <= grid.latitudes@.len() - 1,
            pieces(segments@) == before + level_pieces(*grid, level, row as int),
        decreases grid.latitudes@.len() - row,
    {
        let ghost above = pieces(segments@);
        let mut col: usize = 0;
        assert(above + row_pieces(*grid, row as int, level, 0) =~= above);
        while col < grid.longitudes.len() - 1
            invariant
                filled(*grid),
                grid.longitudes@.len() >= 2,
                row + 1 < grid.latitudes@.len(),
                col <= grid.longitudes@.len() - 1,
                pieces(segments@) == above + row_pieces(*grid, row as int, level, col as int),
            decreases grid.longitudes@.len() - col,
        {
            push_cell_segments(grid, col, row, level, segments);
            assert(pieces(segments@) =~= above + row_pieces(*grid, row as int, level, col + 1));
            col = col + 1;
        }
        assert(pieces(segments@) =~= before + level_pieces(*grid, level, row + 1));
        row = row + 1;
    }
}

/// Traces the lines of equal value through `grid` at every multiple of
/// `level_step` inside the range of its values, 200 levels at most. There are
/// none in a grid of fewer than two rows or columns, in one without two
/// different finite values, and at a step that is not above zero.
pub fn contour_segments(grid: &MapGrid, level_step: Double) -> (result: Vec<ContourSegment>)
    requires
        grid.longitudes@.len() >= 2 && grid.latitudes@.len() >= 2 ==> filled(*grid),
    ensures
        pieces(result@) == contours(*grid, level_step),
{
    let mut segments: Vec<ContourSegment> = Vec::new();
    assert(pieces(segments@) =~= Seq::empty());
    if !level_step.is_finite() || level_step.le(Double::zero()) {
        return segments;
    }
    if grid.longitudes.len() < 2 || grid.latitudes.len() < 2 {
        return segments;
    }
    let (low, high): (Double, Double) = value_range(&grid.data);
    if !low.is_finite() || !high.is_finite() || high.le(low) {
        return segments;
    }
    let mut level: Double = low.over(level_step).floor().times(level_step);
    if level.lt(low) {
        level = level.plus(level_step);
    }
    let mut left: usize = MAX_LEVELS;
    let ghost all = contours(*grid, level_step);
    assert(pieces(segments@) + traced(*grid, level, level_step, high, left as nat) =~= all);
    while left > 0 && level.le(high)
        invariant
            filled(*grid),
            grid.longitudes@.len() >= 2,
            grid.latitudes@.len() >= 2,
            pieces(segments@) + traced(*grid, level, level_step, high, left as nat) == all,
        decreases left,
    {
        let ghost before = pieces(segments@);
        let ghost rest = traced(
            *grid,
            arithmetic::sum(level, level_step),
            level_step,
            high,
            (left - 1) as nat,
        );
        let ghost here = level_pieces(*grid, level, grid.latitudes@.len() - 1);
        push_level(grid, level, &mut segments);
        assert((before + here) + rest =~= before + (here + rest));
        level = level.plus(level_step);
        left = left - 1;
    }
    assert(pieces(segments@) + Seq::empty() =~= pieces(segments@));
    segments
}

/// The middle of a piece.
pub open spec fn middle_of_piece(segment: ContourSegment) -> Spot {
    let two = Double { bits: 0x4000_0000_0000_0000 };
    Spot {
        longitude: arithmetic::quotient(arithmetic::sum(segment.start[0], segment.end[0]), two),
        latitude: arithmetic::quotient(arithmetic::sum(segment.start[1], segment.end[1]), two),
    }
}

/// That a level is among the labels already.
pub open spec fn labelled(labels: Seq<(Double, Spot)>, level: Double) -> bool {
    exists|i: int|
        0 <= i < labels.len() && arithmetic::difference(
            (#[trigger] labels[i]).0,
            level,
        ).absolute().less(Double { bits: EPSILON })
}

/// One label for each level, in the middle of its first piece.
pub open spec fn labels_of(segments: Seq<ContourSegment>) -> Seq<(Double, Spot)>
    decreases segments.len(),
{
    if segments.len() == 0 {
        Seq::empty()
    } else {
        let before = labels_of(segments.drop_last());
        let last = segments.last();
        if labelled(before, last.level) {
            before
        } else {
            before.push((last.level, middle_of_piece(last)))
        }
    }
}

/// A label as it is compared.
pub open spec fn label_of(label: (Double, [Double; 2])) -> (Double, Spot) {
    (label.0, Spot { longitude: label.1[0], latitude: label.1[1] })
}

fn is_labelled(labels: &Vec<(Double, [Double; 2])>, level: Double) -> (result: bool)
    ensures
        result == labelled(
            labels@.map_values(|label: (Double, [Double; 2])| label_of(label)),
            level,
        ),
{
    let ghost all = labels@.map_values(|label: (Double, [Double; 2])| label_of(label));
    let mut at: usize = 0;
    while at < labels.len()
        invariant
            at <= labels.len(),
            all == labels@.map_values(|label: (Double, [Double; 2])| label_of(label)),
            forall|i: int|
                0 <= i < at ==> !arithmetic::difference(
                    (#[trigger] all[i]).0,
                    level,
                ).absolute().less(Double { bits: EPSILON }),
        decreases labels.len() - at,
    {
        assert(all[at as int].0 == labels@[at as int].0);
        if labels[at].0.minus(level).abs().lt(Double::from_bits(EPSILON)) {
            return true;
        }
        at = at + 1;
    }
    false
}

/// The labels of a map: one for each level, in the middle of its first piece.
pub fn labels(segments: &Vec<ContourSegment>) -> (result: Vec<(Double, [Double; 2])>)
    ensures
        result@.map_values(|label: (Double, [Double; 2])| label_of(label)) == labels_of(segments@),
{
    let mut result: Vec<(Double, [Double; 2])> = Vec::new();
    let ghost view = |label: (Double, [Double; 2])| label_of(label);
    let mut at: usize = 0;
    assert(segments@.take(0) =~= Seq::empty());
    assert(result@.map_values(view) =~= Seq::empty());
    while at < segments.len()
        invariant
            at <= segments.len(),
            view == (|label: (Double, [Double; 2])| label_of(label)),
            result@.map_values(view) == labels_of(segments@.take(at as int)),
        decreases segments.len() - at,
    {
        assert(segments@.take(at + 1).drop_last() =~= segments@.take(at as int));
        let segment: ContourSegment = segments[at];
        let ghost before = result@.map_values(view);
        let known: bool = is_labelled(&result, segment.level);
        if !known {
            let two: Double = Double::from_bits(0x4000_0000_0000_0000);
            let middle: [Double; 2] = [
                segment.start[0].plus(segment.end[0]).over(two),
                segment.start[1].plus(segment.end[1]).over(two),
            ];
            result.push((segment.level, middle));
            assert(result@.map_values(view) =~= before.push(
                (segment.level, middle_of_piece(segment)),
            ));
        }
        at = at + 1;
    }
    assert(segments@.take(segments.len() as int) =~= segments@);
    result
}

/// That the level lies on the way up from one value to another, which are far enough
/// apart to tell where.
pub open spec fn on_the_way_up(va: Double, vb: Double, level: Double) -> bool {
    &&& va.finite()
    &&& vb.finite()
    &&& va.at_most(level)
    &&& level.less(vb)
    &&& arithmetic::difference(vb, va).finite()
    &&& (Double { bits: EPSILON }).at_most(arithmetic::difference(vb, va))
}

/// A crossing is where a profile stands that has gone the same part of its way.
proof fn lemma_crossing(a: Double, b: Double, va: Double, vb: Double, level: Double)
    requires
        on_the_way_up(va, vb, level),
    ensures
        ({
            let zero = Double { bits: 0 };
            let part = profile::part_behind(
                (va, zero, zero, zero),
                (vb, zero, zero, zero),
                level,
            );
            &&& zero.at_most(part)
            &&& part.magnitude() <= 0x3ff0_0000_0000_0000
            &&& (Double { bits: 0 }).less(arithmetic::difference(vb, va))
            &&& arithmetic::difference(level, va).finite()
            &&& zero.at_most(arithmetic::difference(level, va))
            &&& between(a, b, va, vb, level) == setpoint::between(a, b, part)
        }),
{
    let zero = Double { bits: 0 };
    profile::lemma_part_behind((va, zero, zero, zero), (vb, zero, zero, zero), level);
    let part = profile::part_behind((va, zero, zero, zero), (vb, zero, zero, zero), level);
    arithmetic::law_factors_may_change_places(part, arithmetic::difference(b, a));
}

/// A line crosses a side of a cell between its ends.
pub proof fn law_crossings_lie_between_the_corners(
    a: Double,
    b: Double,
    va: Double,
    vb: Double,
    level: Double,
)
    requires
        on_the_way_up(va, vb, level),
        a.finite(),
        b.finite(),
        arithmetic::difference(b, a).finite(),
    ensures
        profile::lies_between(a, b, between(a, b, va, vb, level)),
{
    let zero = Double { bits: 0 };
    lemma_crossing(a, b, va, vb, level);
    profile::lemma_part_of_the_way(
        a,
        b,
        profile::part_behind((va, zero, zero, zero), (vb, zero, zero, zero), level),
    );
}

/// A crossing is as far along its side as the level is from one value to the other, as
/// closely as numbers can tell: on a side from zero to one it is that share.
pub proof fn law_crossings_keep_pace_with_the_level(va: Double, vb: Double, level: Double)
    requires
        on_the_way_up(va, vb, level),
    ensures
        profile::is_share(
            arithmetic::difference(level, va),
            arithmetic::difference(vb, va),
            between(
                Double { bits: 0 },
                Double { bits: 0x3ff0_0000_0000_0000 },
                va,
                vb,
                level,
            ),
        ),
{
    let zero = Double { bits: 0 };
    let one = Double { bits: 0x3ff0_0000_0000_0000 };
    lemma_crossing(zero, one, va, vb, level);
    let part = profile::part_behind((va, zero, zero, zero), (vb, zero, zero, zero), level);
    profile::lemma_unit_way(part);
    let gone = arithmetic::difference(level, va);
    let whole = arithmetic::difference(vb, va);
    let x = double::double_units(gone.magnitude());
    let y = double::double_units(whole.magnitude());
    assert(double::double_units(0) == 0);
    double::law_larger_patterns_are_larger(0, whole.magnitude());
    arithmetic::law_there_is_a_nearest(x * pow2(1074), y);
    accuracy::law_results_are_close(x * pow2(1074), y);
}

/// A level half way between two values crosses half way between their corners.
pub proof fn law_half_way_levels_cross_half_way(
    a: Double,
    b: Double,
    va: Double,
    vb: Double,
    level: Double,
)
    requires
        on_the_way_up(va, vb, level),
        arithmetic::difference(level, va).magnitude() < 0x7fe0_0000_0000_0000,
        arithmetic::difference(vb, va) == arithmetic::sum(
            arithmetic::difference(level, va),
            arithmetic::difference(level, va),
        ),
    ensures
        between(a, b, va, vb, level) == profile::half_way(a, b),
{
    lemma_crossing(a, b, va, vb, level);
    let gone = arithmetic::difference(level, va);
    if gone.magnitude() == 0 {
        arithmetic::law_zero_adds_nothing(gone, gone);
    }
    order::law_a_number_over_its_double(gone);
}

/// Hills and hollows are crossed alike: with the values and the level turned round, the
/// crossing is where it was.
pub proof fn law_hollows_are_crossed_like_hills(
    a: Double,
    b: Double,
    va: Double,
    vb: Double,
    level: Double,
)
    ensures
        order::alike(
            between(a, b, va.negated(), vb.negated(), level.negated()),
            between(a, b, va, vb, level),
        ),
{
    let span = arithmetic::difference(vb, va);
    let other = arithmetic::difference(vb.negated(), va.negated());
    let above = arithmetic::difference(level, va);
    let below = arithmetic::difference(level.negated(), va.negated());
    order::law_negatives_are_opposite(va);
    order::law_negatives_are_opposite(vb);
    order::law_negatives_are_opposite(level);
    order::law_opposite_differences(vb, va, vb.negated(), va.negated());
    order::law_opposite_differences(level, va, level.negated(), va.negated());
    let middle = arithmetic::product(
        Double { bits: 0x3fe0_0000_0000_0000 },
        arithmetic::sum(a, b),
    );
    order::law_opposites_turn_twice(middle, middle, middle);
    order::law_opposites_turn_twice(a, a, a);
    let way = arithmetic::difference(b, a);
    order::law_opposites_turn_twice(way, way, way);
    if !span.absolute().less(Double { bits: EPSILON }) {
        assert(span.magnitude() > 0);
        order::lemma_plain_quotient(above, span);
        order::lemma_plain_quotient(below, other);
        arithmetic::law_quotients_are_numbers(above, span);
        arithmetic::law_quotients_are_numbers(below, other);
        let p = arithmetic::quotient(above, span);
        let q = arithmetic::quotient(below, other);
        assert(order::alike(q, p));
        order::law_alike_products(q, way, p, way);
        order::law_alike_sums(a, arithmetic::product(q, way), a, arithmetic::product(p, way));
    }
}

/// A map on its side: columns for rows, longitudes for latitudes.
pub open spec fn on_its_side(grid: MapGrid, other: MapGrid) -> bool {
    &&& other.longitudes@ == grid.latitudes@
    &&& other.latitudes@ == grid.longitudes@
    &&& forall|column: int, row: int| #[trigger] other.at(row, column) == grid.at(column, row)
}

/// Longitudes and latitudes are treated alike: on a map that lies on its side, every
/// crossing lies on its side.
pub proof fn law_crossings_lie_on_their_side(
    grid: MapGrid,
    other: MapGrid,
    column: int,
    row: int,
    level: Double,
)
    requires
        on_its_side(grid, other),
    ensures
        ({
            let bottom = crossing(grid, column, row, level, Edge::Bottom);
            let right = crossing(grid, column, row, level, Edge::Right);
            let left = crossing(other, row, column, level, Edge::Left);
            let top = crossing(other, row, column, level, Edge::Top);
            &&& left == (Spot { longitude: bottom.latitude, latitude: bottom.longitude })
            &&& top == (Spot { longitude: right.latitude, latitude: right.longitude })
        }),
{
    assert(other.at(row, column) == grid.at(column, row));
    assert(other.at(row, column + 1) == grid.at(column + 1, row));
    assert(other.at(row + 1, column + 1) == grid.at(column + 1, row + 1));
}

} // verus!
