//! Distances between zones, and the zone furthest from a reference.
//!
//! Distances are Euclidean. They are held and compared as their squares,
//! which are whole numbers and order zones exactly as the distances do.

use vstd::prelude::*;
use crate::slope::magnitude;
use crate::zone::Zone;

verus! {

impl Zone {
    /// The square of the Euclidean distance between two zones.
    pub open spec fn squared_distance_to(self, other: Zone) -> nat {
        self.run_to(other) * self.run_to(other) + self.rise_to(other) * self.rise_to(other)
    }

    /// The square of the Euclidean distance between `self` and `other`.
    pub fn get_squared_distance(&self, other: &Zone) -> (d: u128)
        ensures
            d == self.squared_distance_to(*other),
    {
        let run: u64 = magnitude(other.x, self.x) as u64;
        let rise: u64 = magnitude(other.y, self.y) as u64;
        assert(run * run <= 0xffff_ffff * 0xffff_ffff) by (nonlinear_arith)
            requires
                run <= 0xffff_ffff,
        ;
        assert(rise * rise <= 0xffff_ffff * 0xffff_ffff) by (nonlinear_arith)
            requires
                rise <= 0xffff_ffff,
        ;
        (run * run) as u128 + (rise * rise) as u128
    }

    /// The square of the distance between `self` and the origin.
    pub fn get_squared_length_from_origin(&self) -> (d: u128)
        ensures
            d == self.squared_distance_to(Zone::sentinel()),
    {
        let origin = Zone::default();
        self.get_squared_distance(&origin)
    }

    /// The candidate furthest from `self`; among several equally far, the
    /// first. With no candidates, the neutral zone `Zone::sentinel()`: so a
    /// result at the origin says that a candidate was found only where
    /// `zones` is known not to be empty.
    pub fn bungee_slingshow_o2(&self, zones: &Vec<Zone>) -> (r: Zone)
        ensures
            zones@.len() == 0 ==> r == Zone::sentinel(),
            zones@.len() > 0 ==> r == zones@[furthest_index(*self, zones@)],
            zones@.len() > 0 ==> is_furthest(*self, zones@, furthest_index(*self, zones@)),
            zones@.len() > 0 ==> zones@.contains(r),
    {
        if zones.len() == 0 {
            return Zone::default();
        }
        let mut best: usize = 0;
        let mut max_dist: u128 = self.get_squared_distance(&zones[0]);
        let mut i: usize = 1;
        while i < zones.len()
            invariant
                1 <= i <= zones@.len(),
                best == furthest_index(*self, zones@.take(i as int)),
                best < i,
                max_dist == self.squared_distance_to(zones@[best as int]),
            decreases zones@.len() - i,
        {
            let cur_dist: u128 = self.get_squared_distance(&zones[i]);
            proof {
                let grown = zones@.take(i + 1);
                assert(grown.drop_last() =~= zones@.take(i as int));
            }
            if cur_dist > max_dist {
                max_dist = cur_dist;
                best = i;
            }
            i = i + 1;
        }
        proof {
            assert(zones@.take(i as int) =~= zones@);
            lemma_furthest_index_is_furthest(*self, zones@);
        }
        zones[best]
    }
}

/// Whether `zones[i]` is the furthest zone from `reference`: no zone is
/// further, and every zone before it is nearer.
pub open spec fn is_furthest(reference: Zone, zones: Seq<Zone>, i: int) -> bool {
    &&& 0 <= i < zones.len()
    &&& forall|j: int|
        0 <= j < zones.len() ==> reference.squared_distance_to(#[trigger] zones[j])
            <= reference.squared_distance_to(zones[i])
    &&& forall|j: int|
        0 <= j < i ==> reference.squared_distance_to(#[trigger] zones[j])
            < reference.squared_distance_to(zones[i])
}

/// The index of the furthest zone from `reference`, found by going through
/// `zones` once and keeping a zone until a further one comes.
pub open spec fn furthest_index(reference: Zone, zones: Seq<Zone>) -> int
    decreases zones.len(),
{
    if zones.len() <= 1 {
        0
    } else {
        let best = furthest_index(reference, zones.drop_last());
        if reference.squared_distance_to(zones.last()) > reference.squared_distance_to(
            zones[best],
        ) {
            zones.len() - 1
        } else {
            best
        }
    }
}

/// The index that `furthest_index` gives is that of the furthest zone.
pub proof fn lemma_furthest_index_is_furthest(reference: Zone, zones: Seq<Zone>)
    requires
        zones.len() > 0,
    ensures
        is_furthest(reference, zones, furthest_index(reference, zones)),
    decreases zones.len(),
{
    if zones.len() > 1 {
        let front = zones.drop_last();
        lemma_furthest_index_is_furthest(reference, front);
        let i = furthest_index(reference, zones);
        assert forall|j: int| 0 <= j < zones.len() implies reference.squared_distance_to(
            #[trigger] zones[j],
        ) <= reference.squared_distance_to(zones[i]) by {
            if j < front.len() {
                assert(front[j] == zones[j]);
            }
        }
        assert forall|j: int| 0 <= j < i implies reference.squared_distance_to(
            #[trigger] zones[j],
        ) < reference.squared_distance_to(zones[i]) by {
            assert(front[j] == zones[j]);
        }
    }
}

/// At most one index is that of the furthest zone.
pub proof fn lemma_furthest_is_unique(reference: Zone, zones: Seq<Zone>, i: int, j: int)
    requires
        is_furthest(reference, zones, i),
        is_furthest(reference, zones, j),
    ensures
        i == j,
{
    let far_i = reference.squared_distance_to(zones[i]);
    let far_j = reference.squared_distance_to(zones[j]);
    assert(far_i <= far_j && far_j <= far_i);
}

/// The distance from `a` to `b` is the distance from `b` to `a`.
pub proof fn lemma_distance_symmetric(a: Zone, b: Zone)
    ensures
        a.squared_distance_to(b) == b.squared_distance_to(a),
{
}

/// The distance from a zone to itself is zero, and so is the distance between
/// any two zones at one position; no other distance is.
pub proof fn lemma_distance_zero(a: Zone, b: Zone)
    ensures
        a.squared_distance_to(a) == 0,
        a.squared_distance_to(b) == 0 <==> a.same_position(b),
{
    let run = a.run_to(b);
    let rise = a.rise_to(b);
    assert(a.run_to(a) == 0 && a.rise_to(a) == 0);
    assert(run * run >= 0 && rise * rise >= 0 && (run > 0 ==> run * run > 0) && (rise > 0
        ==> rise * rise > 0) && (run == 0 ==> run * run == 0) && (rise == 0 ==> rise * rise
        == 0)) by (nonlinear_arith);
}

} // verus!
