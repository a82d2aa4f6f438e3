//! Zones that share a row or a column.

use vstd::prelude::*;
use crate::zone::Zone;

verus! {

impl Zone {
    /// Whether `other` lies in the row or in the column of `self`.
    pub open spec fn axis_aligned(self, other: Zone) -> bool {
        self.y == other.y || self.x == other.x
    }

    /// `axis_aligned` as a test on candidates.
    pub open spec fn aligned_with(self) -> spec_fn(Zone) -> bool {
        |other: Zone| self.axis_aligned(other)
    }

    /// Whether the two zones share a row: the plane that stands on row `y`.
    pub fn is_on_vertical_plane(&self, other: &Zone) -> (b: bool)
        ensures
            b == (self.y == other.y),
    {
        self.y == other.y
    }

    /// Whether the two zones share a column: the plane that lies along
    /// column `x`.
    pub fn is_on_horizontal_plane(&self, other: &Zone) -> (b: bool)
        ensures
            b == (self.x == other.x),
    {
        self.x == other.x
    }

    /// The candidates that share a row or a column with `self`, in the order
    /// in which they were given. A candidate at the position of `self` is one
    /// of them, and a candidate given twice is returned twice.
    pub fn climbing_wall_o1(&self, zones: &Vec<Zone>) -> (r: Vec<Zone>)
        ensures
            r@ == zones@.filter(self.aligned_with()),
            forall|k: int|
                0 <= k < r@.len() ==> zones@.contains(#[trigger] r@[k]) && self.axis_aligned(
                    r@[k],
                ),
    {
        let mut r: Vec<Zone> = Vec::with_capacity(zones.len());
        let mut i: usize = 0;
        assert(zones@.take(0).filter(self.aligned_with()) =~= Seq::<Zone>::empty()) by {
            reveal(Seq::filter);
        }
        while i < zones.len()
            invariant
                i <= zones@.len(),
                r@ == zones@.take(i as int).filter(self.aligned_with()),
            decreases zones@.len() - i,
        {
            proof {
                zones@.lemma_take_succ_push(i as int);
                zones@.take(i as int).lemma_filter_push(zones@[i as int], self.aligned_with());
            }
            if self.is_on_vertical_plane(&zones[i]) || self.is_on_horizontal_plane(&zones[i]) {
                r.push(zones[i]);
            }
            i = i + 1;
        }
        proof {
            assert(zones@.take(i as int) =~= zones@);
            assert forall|k: int| 0 <= k < r@.len() implies zones@.contains(#[trigger] r@[k])
                && self.axis_aligned(r@[k]) by {
                zones@.lemma_filter_pred(self.aligned_with(), k);
                zones@.lemma_filter_contains_rev(self.aligned_with(), r@[k]);
            }
        }
        r
    }
}

/// Whether all the zones lie in one column. No zones do.
pub open spec fn in_one_column(zones: Seq<Zone>) -> bool {
    forall|i: int, j: int|
        0 <= i < zones.len() && 0 <= j < zones.len() ==> zones[i].x == zones[j].x
}

/// Whether all the zones lie in one row. No zones do.
pub open spec fn in_one_row(zones: Seq<Zone>) -> bool {
    forall|i: int, j: int|
        0 <= i < zones.len() && 0 <= j < zones.len() ==> zones[i].y == zones[j].y
}

/// Whether the zones form a vertical line: all of them share one `x`.
pub fn is_line_vertical(zones: &Vec<Zone>) -> (b: bool)
    ensures
        b == in_one_column(zones@),
{
    if zones.len() == 0 {
        return true;
    }
    let x_val: i32 = zones[0].x;
    let mut i: usize = 1;
    while i < zones.len()
        invariant
            1 <= i <= zones@.len(),
            x_val == zones@[0].x,
            forall|j: int| 0 <= j < i ==> (#[trigger] zones@[j]).x == x_val,
        decreases zones@.len() - i,
    {
        if zones[i].x != x_val {
            return false;
        }
        i = i + 1;
    }
    true
}

/// Whether the zones form a horizontal line: all of them share one `y`.
pub fn is_line_horizontal(zones: &Vec<Zone>) -> (b: bool)
    ensures
        b == in_one_row(zones@),
{
    if zones.len() == 0 {
        return true;
    }
    let y_val: i32 = zones[0].y;
    let mut i: usize = 1;
    while i < zones.len()
        invariant
            1 <= i <= zones@.len(),
            y_val == zones@[0].y,
            forall|j: int| 0 <= j < i ==> (#[trigger] zones@[j]).y == y_val,
        decreases zones@.len() - i,
    {
        if zones[i].y != y_val {
            return false;
        }
        i = i + 1;
    }
    true
}

} // verus!
