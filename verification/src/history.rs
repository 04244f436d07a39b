//! The points that the live plots show.
use crate::double::Double;
use vstd::prelude::*;

verus! {

/// How many points a plot keeps.
pub const HISTORY_LIMIT: usize = 500;

/// The newest points of one plotted line.
pub struct History {
    pub points: Vec<[Double; 2]>,
}

impl Default for History {
    fn default() -> (result: Self)
        ensures
            result.points@.len() == 0,
    {
        History { points: Vec::new() }
    }
}

/// The newest of some points, as many as a plot keeps.
pub open spec fn newest(points: Seq<[Double; 2]>) -> Seq<[Double; 2]> {
    if points.len() > HISTORY_LIMIT {
        points.skip(points.len() - HISTORY_LIMIT)
    } else {
        points
    }
}

impl History {
    /// Adds a point, and drops the oldest ones where there are too many. A point
    /// that is not finite is left out.
    pub fn push(&mut self, x: Double, y: Double)
        ensures
            if x.finite() && y.finite() {
                exists|point: [Double; 2]|
                    #![trigger old(self).points@.push(point)]
                    point[0] == x && point[1] == y && final(self).points@ == newest(
                        old(self).points@.push(point),
                    )
            } else {
                final(self).points@ == old(self).points@
            },
    {
        if !x.is_finite() || !y.is_finite() {
            return;
        }
        let point: [Double; 2] = [x, y];
        self.points.push(point);
        let ghost all = old(self).points@.push(point);
        assert(self.points@ == all);
        let ghost mut dropped: int = 0;
        assert(all.skip(0) =~= all);
        while self.points.len() > HISTORY_LIMIT
            invariant
                0 <= dropped <= all.len(),
                self.points@ == all.skip(dropped),
                all.len() > HISTORY_LIMIT ==> self.points.len() >= HISTORY_LIMIT,
                all.len() <= HISTORY_LIMIT ==> dropped == 0,
            decreases self.points.len(),
        {
            self.points.remove(0);
            proof {
                assert(self.points@ =~= all.skip(dropped + 1));
                dropped = dropped + 1;
            }
        }
        assert(self.points@ =~= newest(all));
    }

    pub fn clear(&mut self)
        ensures
            final(self).points@.len() == 0,
    {
        self.points = Vec::new();
    }
}

/// However many points come in, no plot keeps more than it may.
pub proof fn law_plots_stay_short(points: Seq<[Double; 2]>)
    ensures
        newest(points).len() <= HISTORY_LIMIT,
        points.len() > 0 ==> newest(points).last() == points.last(),
{
}

} // verus!
