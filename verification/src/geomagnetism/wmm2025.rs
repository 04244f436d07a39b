//! The coefficients of the World Magnetic Model 2025, in tenths of a nanotesla
//! and tenths of a nanotesla per year. The one of degree `n` and order `m` stands
//! at `13 * n + m`.
use crate::arithmetic;
use crate::double::Double;
use crate::geomagnetism::expansion::Coefficients;
use crate::geomagnetism::Wmm2025;
use vstd::prelude::*;

verus! {

/// The cosine coefficients at the start of 2025.
pub const MAIN_G: [i32; 169] = [
    0, 0, 0, 0, 0, 0, 0, 0, 0, 0, 0, 0, 0,
    -293518, -14108, 0, 0, 0, 0, 0, 0, 0, 0, 0, 0, 0,
    -25566, 29511, 16493, 0, 0, 0, 0, 0, 0, 0, 0, 0, 0,
    13610, -24041, 12438, 4536, 0, 0, 0, 0, 0, 0, 0, 0, 0,
    8950, 7995, 557, -2811, 121, 0, 0, 0, 0, 0, 0, 0, 0,
    -2332, 3689, 1872, -1387, -1420, 209, 0, 0, 0, 0, 0, 0, 0,
    644, 638, 769, -1157, -409, 149, -607, 0, 0, 0, 0, 0, 0,
    795, -770, -88, 593, 158, 25, -111, 142, 0, 0, 0, 0, 0,
    232, 108, -175, 20, -217, 169, 150, -168, 9, 0, 0, 0, 0,
    46, 78, 30, -2, -25, -131, 24, 86, -87, -129, 0, 0, 0,
    -13, -64, 2, 20, -10, -6, -9, 15, 9, -27, -39, 0, 0,
    29, -15, -25, 24, -6, -1, -6, -1, 11, -10, -2, 26, 0,
    -20, -2, 3, 12, -13, 6, 6, 5, -1, -4, -2, -13, -7,
];

/// The sine coefficients at the start of 2025.
pub const MAIN_H: [i32; 169] = [
    0, 0, 0, 0, 0, 0, 0, 0, 0, 0, 0, 0, 0,
    0, 45454, 0, 0, 0, 0, 0, 0, 0, 0, 0, 0, 0,
    0, -31336, -8151, 0, 0, 0, 0, 0, 0, 0, 0, 0, 0,
    0, -566, 2375, -5495, 0, 0, 0, 0, 0, 0, 0, 0, 0,
    0, 2786, -1339, 2120, -3756, 0, 0, 0, 0, 0, 0, 0, 0,
    0, 454, 2202, -1229, 430, 1061, 0, 0, 0, 0, 0, 0, 0,
    0, -184, 168, 488, -598, 109, 727, 0, 0, 0, 0, 0, 0,
    0, -489, -144, -10, 234, -74, -251, -23, 0, 0, 0, 0, 0,
    0, 71, -126, 114, -97, 127, 7, -52, 39, 0, 0, 0, 0,
    0, -248, 122, 83, -33, -52, 72, -6, 8, 100, 0, 0, 0,
    0, 33, 0, 24, 53, -91, 4, -42, -38, 9, -91, 0, 0,
    0, 0, 29, -6, 2, 5, -3, -12, -17, -29, -18, -23, 0,
    0, -13, 7, 10, -14, 0, 6, -1, 8, 1, -10, 1, 2,
];

/// How the cosine coefficients change in a year.
pub const SECULAR_G: [i32; 169] = [
    0, 0, 0, 0, 0, 0, 0, 0, 0, 0, 0, 0, 0,
    120, 97, 0, 0, 0, 0, 0, 0, 0, 0, 0, 0, 0,
    -116, -52, -80, 0, 0, 0, 0, 0, 0, 0, 0, 0, 0,
    -13, -42, 4, -156, 0, 0, 0, 0, 0, 0, 0, 0, 0,
    -16, -24, -60, 56, -70, 0, 0, 0, 0, 0, 0, 0, 0,
    6, 14, 0, 6, 22, 9, 0, 0, 0, 0, 0, 0, 0,
    -2, -4, 9, 12, -9, 3, 9, 0, 0, 0, 0, 0, 0,
    0, -1, -1, 5, -1, -8, -8, 8, 0, 0, 0, 0, 0,
    -1, 2, 0, 5, -1, 3, 2, 0, 2, 0, 0, 0, 0,
    0, -1, 1, 3, -3, 0, 3, -1, 1, -1, 0, 0, 0,
    1, 0, 1, 1, 0, -3, 0, -1, -1, 0, 0, 0, 0,
    0, 0, 0, 0, 0, -1, 0, 0, -1, -1, -1, -1, 0,
    0, 0, 0, 0, 0, 0, 1, 0, 0, 0, -1, 0, -1,
];

/// How the sine coefficients change in a year.
pub const SECULAR_H: [i32; 169] = [
    0, 0, 0, 0, 0, 0, 0, 0, 0, 0, 0, 0, 0,
    0, -215, 0, 0, 0, 0, 0, 0, 0, 0, 0, 0, 0,
    0, -277, -121, 0, 0, 0, 0, 0, 0, 0, 0, 0, 0,
    0, 40, -3, -41, 0, 0, 0, 0, 0, 0, 0, 0, 0,
    0, -11, 41, 16, -44, 0, 0, 0, 0, 0, 0, 0, 0,
    0, -5, 22, 4, 17, 19, 0, 0, 0, 0, 0, 0, 0,
    0, 3, -16, -4, 9, 7, 9, 0, 0, 0, 0, 0, 0,
    0, 6, 5, -8, 0, -10, 6, -2, 0, 0, 0, 0, 0,
    0, -2, 5, -4, 4, -5, -6, 3, 2, 0, 0, 0, 0,
    0, -3, 3, -3, 3, 2, -1, -2, 4, 1, 0, 0, 0,
    0, 0, 0, -2, 1, -1, 1, 0, -1, 2, 0, 0, 0,
    0, 0, 1, 0, 1, 0, 0, 1, 0, 0, 0, 0, 0,
    0, 0, 0, -1, 1, 0, 0, 0, 0, 0, 0, 0, -1,
];

/// A number of tenths.
pub open spec fn tenths(count: i32) -> Double {
    arithmetic::quotient(
        arithmetic::whole_number(count as int),
        Double { bits: 0x4024_0000_0000_0000 },
    )
}

/// That `values` are the tenths in a table.
pub open spec fn read_from(values: [Double; 169], table: [i32; 169]) -> bool {
    forall|at: int| 0 <= at < 169 ==> #[trigger] values[at] == tenths(table[at])
}

fn read_table(table: [i32; 169]) -> (result: [Double; 169])
    ensures
        read_from(result, table),
{
    let mut values: [Double; 169] = [Double { bits: 0 }; 169];
    let mut at: usize = 0;
    while at < 169
        invariant
            at <= 169,
            forall|i: int| 0 <= i < at ==> #[trigger] values[i] == tenths(table[i]),
        decreases 169 - at,
    {
        values[at] = Double::whole(table[at] as i64).over(
            Double::from_bits(0x4024_0000_0000_0000),
        );
        at = at + 1;
    }
    values
}

impl Wmm2025 {
    /// The model's coefficients.
    pub fn coefficients() -> (result: Coefficients)
        ensures
            read_from(result.main_g, MAIN_G),
            read_from(result.main_h, MAIN_H),
            read_from(result.secular_g, SECULAR_G),
            read_from(result.secular_h, SECULAR_H),
    {
        Coefficients {
            main_g: read_table(MAIN_G),
            main_h: read_table(MAIN_H),
            secular_g: read_table(SECULAR_G),
            secular_h: read_table(SECULAR_H),
        }
    }
}

} // verus!
