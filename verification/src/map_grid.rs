//! World maps of the field, read from comma-separated rows of degrees.
use crate::arithmetic;
use crate::decimal;
use crate::double::Double;
use crate::text;
use crate::whole;
use vstd::arithmetic::power2::*;
use vstd::prelude::*;

verus! {

/// Why a map cannot be read at a step of none.
pub const NO_STEP: &'static str = "grid downsample step must be greater than zero";

/// The step that maps are read with, in degrees.
pub const DEFAULT_STEP: usize = 2;

#[derive(Debug, Clone, PartialEq)]
pub struct MapGrid {
    pub latitudes: Vec<Double>,
    pub longitudes: Vec<Double>,
    /// Values are indexed as `data[longitude_index][latitude_index]`.
    pub data: Vec<Vec<Double>>,
    pub step: usize,
}

impl MapGrid {
    /// That every longitude has a column, and every column a value for each
    /// latitude.
    pub open spec fn wf(self) -> bool {
        &&& self.data@.len() == self.longitudes@.len()
        &&& forall|column: int|
            0 <= column < self.data@.len() ==> (#[trigger] self.data@[column])@.len()
                == self.latitudes@.len()
    }

    pub open spec fn at(self, column: int, row: int) -> Double {
        self.data@[column]@[row]
    }
}

/// The fields of a row, the empty ones left out.
pub open spec fn filled(fields: Seq<Seq<char>>) -> Seq<Seq<char>>
    decreases fields.len(),
{
    if fields.len() == 0 {
        fields
    } else {
        let before = filled(fields.drop_last());
        if fields.last().len() == 0 {
            before
        } else {
            before.push(fields.last())
        }
    }
}

/// The number in a field; zero, where there is none.
pub open spec fn value_of(field: Seq<char>) -> Double {
    match decimal::number(text::trim(field)) {
        Some(number) => number,
        None => Double { bits: 0 },
    }
}

/// What stands at a place of the lines; zero, where the lines do not reach.
pub open spec fn cell(lines: Seq<Seq<char>>, row: int, column: int) -> Double {
    if row < lines.len() && column < filled(text::split(lines[row], ',')).len() {
        value_of(filled(text::split(lines[row], ','))[column])
    } else {
        Double { bits: 0 }
    }
}

/// The degrees from `start` on, one for every step.
pub open spec fn degrees(start: Double, step: int, index: int) -> Double {
    arithmetic::sum(start, arithmetic::whole_number(index * step))
}

fn read_value(field: &Vec<char>) -> (result: Double)
    ensures
        result == value_of(field@),
{
    let (from, to) = text::trim_range(field.as_slice(), 0, field.len());
    assert(field@.subrange(0, field.len() as int) =~= field@);
    let inner: Vec<char> = text::copy_range(field.as_slice(), from, to);
    match decimal::read(inner.as_slice()) {
        Some(number) => number,
        None => Double::zero(),
    }
}

/// The fields of a row that hold something.
fn filled_fields(line: &str) -> (result: Vec<Vec<char>>)
    ensures
        result@.len() == filled(text::split(line@, ',')).len(),
        forall|i: int|
            0 <= i < result@.len() ==> (#[trigger] result@[i])@ == filled(text::split(line@, ','))[i],
{
    let characters: Vec<char> = text::chars_of(line);
    let fields: Vec<Vec<char>> = text::split_list(characters.as_slice(), ',');
    let ghost all = text::split(line@, ',');
    let mut kept: Vec<Vec<char>> = Vec::new();
    let mut at: usize = 0;
    assert(all.take(0) =~= Seq::empty());
    while at < fields.len()
        invariant
            at <= fields.len() == all.len(),
            forall|i: int| 0 <= i < fields.len() ==> (#[trigger] fields[i])@ == all[i],
            kept@.len() == filled(all.take(at as int)).len(),
            forall|i: int|
                0 <= i < kept@.len() ==> (#[trigger] kept@[i])@ == filled(all.take(at as int))[i],
        decreases fields.len() - at,
    {
        assert(all.take(at + 1).drop_last() =~= all.take(at as int));
        let field: &Vec<char> = &fields[at];
        if field.len() > 0 {
            kept.push(text::copy_range(field.as_slice(), 0, field.len()));
            assert(field@.subrange(0, field.len() as int) =~= field@);
        }
        at = at + 1;
    }
    assert(all.take(all.len() as int) =~= all);
    kept
}

/// One row of the map, taken at every step.
fn read_row(line: &str, columns: usize, step: usize, Ghost(lines): Ghost<Seq<Seq<char>>>, Ghost(
    row,
): Ghost<int>) -> (result: Vec<Double>)
    requires
        0 <= row < lines.len(),
        line@ == lines[row],
        columns * step <= 360,
    ensures
        result@.len() == columns,
        forall|i: int| 0 <= i < columns ==> #[trigger] result@[i] == cell(lines, row, i * step),
{
    let fields: Vec<Vec<char>> = filled_fields(line);
    let mut values: Vec<Double> = Vec::new();
    let mut column: usize = 0;
    while column < columns
        invariant
            0 <= row < lines.len(),
            line@ == lines[row],
            columns * step <= 360,
            column <= columns,
            fields@.len() == filled(text::split(line@, ',')).len(),
            forall|i: int|
                0 <= i < fields@.len() ==> (#[trigger] fields@[i])@ == filled(
                    text::split(line@, ','),
                )[i],
            values@.len() == column,
            forall|i: int| 0 <= i < column ==> #[trigger] values@[i] == cell(lines, row, i * step),
        decreases columns - column,
    {
        assert(column * step <= columns * step) by (nonlinear_arith)
            requires
                column < columns,
        ;
        let place: usize = column * step;
        if place < fields.len() {
            values.push(read_value(&fields[place]));
        } else {
            values.push(Double::zero());
        }
        column = column + 1;
    }
    values
}

/// `count` degrees from `start` on.
fn scale(start: Double, count: usize, step: usize) -> (result: Vec<Double>)
    requires
        count * step <= 360,
    ensures
        result@.len() == count,
        forall|i: int| 0 <= i < count ==> #[trigger] result@[i] == degrees(start, step as int, i),
{
    let mut values: Vec<Double> = Vec::new();
    let mut index: usize = 0;
    while index < count
        invariant
            count * step <= 360,
            index <= count,
            values@.len() == index,
            forall|i: int|
                0 <= i < index ==> #[trigger] values@[i] == degrees(start, step as int, i),
        decreases count - index,
    {
        assert(index * step <= count * step) by (nonlinear_arith)
            requires
                index < count,
        ;
        values.push(start.plus(Double::whole((index * step) as i64)));
        index = index + 1;
    }
    values
}

impl MapGrid {
    /// Reads a map from its lines, keeping every `step`-th row and column. What
    /// is missing or is no number reads as zero.
    pub fn from_lines(lines: &Vec<String>, step: usize) -> (result: Result<Self, String>)
        ensures
            result is Err <==> step == 0,
            result matches Err(reason) ==> reason@ == NO_STEP@,
            result matches Ok(grid) ==> {
                &&& grid.wf()
                &&& grid.step == step
                &&& grid.latitudes@.len() == 180int / step as int
                &&& grid.longitudes@.len() == 360int / step as int
                &&& forall|row: int|
                    0 <= row < grid.latitudes@.len() ==> #[trigger] grid.latitudes@[row]
                        == degrees(Double { bits: 0xc056_8000_0000_0000 }, step as int, row)
                &&& forall|column: int|
                    0 <= column < grid.longitudes@.len() ==> #[trigger] grid.longitudes@[column]
                        == degrees(Double { bits: 0xc066_8000_0000_0000 }, step as int, column)
                &&& forall|column: int, row: int|
                    0 <= column < grid.longitudes@.len() && 0 <= row < grid.latitudes@.len()
                        ==> #[trigger] grid.at(column, row) == cell(
                        text::texts(lines@),
                        row * step,
                        column * step,
                    )
            },
    {
        if step == 0 {
            return Err(NO_STEP.to_owned());
        }
        let rows: usize = 180 / step;
        let columns: usize = 360 / step;
        assert(rows * step <= 180 && columns * step <= 360) by (nonlinear_arith)
            requires
                step > 0,
                rows == 180usize / step,
                columns == 360usize / step,
        ;
        let ghost all = text::texts(lines@);
        let mut read: Vec<Vec<Double>> = Vec::new();
        let mut row: usize = 0;
        while row < rows
            invariant
                row <= rows,
                rows * step <= 180,
                columns * step <= 360,
                all == text::texts(lines@),
                read@.len() == row,
                forall|r: int|
                    0 <= r < row ==> {
                        &&& (#[trigger] read@[r])@.len() == columns
                        &&& forall|c: int|
                            0 <= c < columns ==> #[trigger] read@[r]@[c] == cell(
                                all,
                                r * step,
                                c * step,
                            )
                    },
            decreases rows - row,
        {
            assert(row * step <= rows * step) by (nonlinear_arith)
                requires
                    row < rows,
            ;
            let place: usize = row * step;
            if place < lines.len() {
                read.push(
                    read_row(
                        lines[place].as_str(),
                        columns,
                        step,
                        Ghost(all),
                        Ghost(place as int),
                    ),
                );
            } else {
                let mut values: Vec<Double> = Vec::new();
                let mut column: usize = 0;
                while column < columns
                    invariant
                        column <= columns,
                        place == row * step,
                        place >= all.len(),
                        values@.len() == column,
                        forall|c: int|
                            0 <= c < column ==> #[trigger] values@[c] == cell(
                                all,
                                row * step,
                                c * step,
                            ),
                    decreases columns - column,
                {
                    values.push(Double::zero());
                    column = column + 1;
                }
                read.push(values);
            }
            row = row + 1;
        }
        let mut data: Vec<Vec<Double>> = Vec::new();
        let mut column: usize = 0;
        while column < columns
            invariant
                column <= columns,
                read@.len() == rows,
                forall|r: int|
                    0 <= r < rows ==> {
                        &&& (#[trigger] read@[r])@.len() == columns
                        &&& forall|c: int|
                            0 <= c < columns ==> #[trigger] read@[r]@[c] == cell(
                                all,
                                r * step,
                                c * step,
                            )
                    },
                data@.len() == column,
                forall|c: int|
                    0 <= c < column ==> {
                        &&& (#[trigger] data@[c])@.len() == rows
                        &&& forall|r: int|
                            0 <= r < rows ==> #[trigger] data@[c]@[r] == cell(
                                all,
                                r * step,
                                c * step,
                            )
                    },
            decreases columns - column,
        {
            let mut values: Vec<Double> = Vec::new();
            let mut at: usize = 0;
            while at < rows
                invariant
                    at <= rows,
                    column < columns,
                    read@.len() == rows,
                    forall|r: int|
                        0 <= r < rows ==> {
                            &&& (#[trigger] read@[r])@.len() == columns
                            &&& forall|c: int|
                                0 <= c < columns ==> #[trigger] read@[r]@[c] == cell(
                                    all,
                                    r * step,
                                    c * step,
                                )
                        },
                    values@.len() == at,
                    forall|r: int|
                        0 <= r < at ==> #[trigger] values@[r] == cell(all, r * step, column * step),
                decreases rows - at,
            {
                values.push(read[at][column]);
                at = at + 1;
            }
            data.push(values);
            column = column + 1;
        }
        Ok(
            MapGrid {
                latitudes: scale(Double::from_bits(0xc056_8000_0000_0000), rows, step),
                longitudes: scale(Double::from_bits(0xc066_8000_0000_0000), columns, step),
                data,
                step,
            },
        )
    }
}

/// The degrees of a map are whole ones: they start at their start, and go on by the
/// step from one to the next.
pub proof fn law_degrees_go_on_by_their_step(start: int, number: Double, step: int, index: int)
    requires
        -180 <= start <= 180,
        number.finite(),
        number.units() == start * pow2(1074),
        0 <= step,
        0 <= index,
        0 <= index * step <= 360,
    ensures
        degrees(number, step, index).finite(),
        degrees(number, step, index).units() == (start + index * step) * pow2(1074),
{
    whole::law_whole_numbers_are_exact(index * step);
    whole::law_short_sums_are_exact(
        number,
        arithmetic::whole_number(index * step),
        start,
        index * step,
        1074,
    );
}

/// A map starts at the South Pole and at the date line: its first latitude is -90
/// degrees, its first longitude -180.
pub proof fn law_maps_start_in_the_south_west()
    ensures
        (Double { bits: 0xc056_8000_0000_0000 }).units() == -90 * pow2(1074),
        (Double { bits: 0xc066_8000_0000_0000 }).units() == -180 * pow2(1074),
{
    lemma2_to64_rest();
    lemma_pow2_adds(46, 1028);
    lemma_pow2_adds(45, 1029);
    let latitude: nat = 0x4056_8000_0000_0000;
    assert(latitude / 0x10_0000_0000_0000 == 1029);
    assert(latitude % 0x10_0000_0000_0000 == 0x6_8000_0000_0000);
    let longitude: nat = 0x4066_8000_0000_0000;
    assert(longitude / 0x10_0000_0000_0000 == 1030);
    assert(longitude % 0x10_0000_0000_0000 == 0x6_8000_0000_0000);
    assert(crate::double::double_units(latitude) == 0x16_8000_0000_0000 * pow2(1028));
    assert(pow2(1074) == 0x4000_0000_0000 * pow2(1028));
    assert(crate::double::double_units(longitude) == 0x16_8000_0000_0000 * pow2(1029));
    assert(pow2(1074) == 0x2000_0000_0000 * pow2(1029));
}

} // verus!
