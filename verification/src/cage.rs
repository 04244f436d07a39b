//! The shape of the coil cage: three nested pairs of square coils, inner on Y,
//! medium on X, external on Z.
use crate::double::Double;
use vstd::prelude::*;

verus! {

/// Half side length per pair, so that the Y pair nests inside X inside Z: 0.86,
/// 0.72 and 1.
pub const HALF_SIDE: [u64; 3] = [
    0x3feb_851e_b851_eb85,
    0x3fe7_0a3d_70a3_d70a,
    0x3ff0_0000_0000_0000,
];

/// A square Helmholtz pair is separated by 0.5445 of its side length.
pub const SEPARATION: u64 = 0x3fe1_6c8b_4395_8106;

/// The two directions in which a coil extends, by its normal.
pub open spec fn directions(axis: int) -> (int, int) {
    if axis == 0 {
        (1, 2)
    } else if axis == 1 {
        (0, 2)
    } else {
        (0, 1)
    }
}

/// Where the corners of a square of half side `half` lie, going once around it.
pub open spec fn corner(at: int, half: Double) -> (Double, Double) {
    if at == 1 {
        (half.negated(), half)
    } else if at == 2 {
        (half.negated(), half.negated())
    } else if at == 3 {
        (half, half.negated())
    } else {
        (half, half)
    }
}

fn point_of(axis: usize, offset: Double, u: Double, v: Double) -> (result: [Double; 3])
    requires
        axis < 3,
    ensures
        result@[axis as int] == offset,
        result@[directions(axis as int).0] == u,
        result@[directions(axis as int).1] == v,
{
    if axis == 0 {
        [offset, u, v]
    } else if axis == 1 {
        [u, offset, v]
    } else {
        [u, v, offset]
    }
}

/// The corners of one square coil, the first one again at the end. `axis` is the
/// coil's normal, `offset` its position along that normal, `half` half its side
/// length. The loop is closed, and flat on its normal.
pub fn square_loop(axis: usize, offset: Double, half: Double) -> (result: [[Double; 3]; 5])
    requires
        axis < 3,
    ensures
        forall|at: int|
            0 <= at < 5 ==> {
                &&& (#[trigger] result@[at])@[axis as int] == offset
                &&& result@[at]@[directions(axis as int).0] == corner(at, half).0
                &&& result@[at]@[directions(axis as int).1] == corner(at, half).1
            },
{
    [
        point_of(axis, offset, half, half),
        point_of(axis, offset, half.neg(), half),
        point_of(axis, offset, half.neg(), half.neg()),
        point_of(axis, offset, half, half.neg()),
        point_of(axis, offset, half, half),
    ]
}

} // verus!
