//! Zones in the order in which they lie along a line.
//!
//! Zones on a line are ordered by `x`, or by `y` where the line runs along a
//! column. Zones that share the ordering coordinate keep the order in which
//! they were given.

use vstd::prelude::*;
use crate::zone::Zone;

verus! {

/// The coordinate by which a zone is ordered.
pub open spec fn sort_key(z: Zone, by_y: bool) -> int {
    if by_y {
        z.y as int
    } else {
        z.x as int
    }
}

/// No zone comes before one with a smaller ordering coordinate.
pub open spec fn ordered(line: Seq<Zone>, by_y: bool) -> bool {
    forall|i: int, j: int|
        0 <= i <= j < line.len() ==> sort_key(line[i], by_y) <= sort_key(line[j], by_y)
}

/// `line` with `z` put in front of the first zone that does not come before
/// it, or at the end where every zone does.
pub open spec fn inserted(z: Zone, line: Seq<Zone>, by_y: bool) -> Seq<Zone>
    decreases line.len(),
{
    if line.len() == 0 || sort_key(z, by_y) <= sort_key(line[0], by_y) {
        seq![z] + line
    } else {
        seq![line[0]] + inserted(z, line.skip(1), by_y)
    }
}

/// The zones in line order: each zone is put into the ordered rest.
///
/// The result is ordered, holds every zone as often as it was given, and
/// keeps the given order among zones that share an ordering coordinate; the
/// three lemmas `lemma_sorted_along_is_ordered`,
/// `lemma_sorted_along_keeps_zones` and `lemma_sorted_along_is_stable` say so.
pub open spec fn sorted_along(zones: Seq<Zone>, by_y: bool) -> Seq<Zone>
    decreases zones.len(),
{
    if zones.len() == 0 {
        Seq::empty()
    } else {
        inserted(zones[0], sorted_along(zones.skip(1), by_y), by_y)
    }
}

/// How many zones come strictly before the ordering coordinate `key`.
pub open spec fn places_before(zones: Seq<Zone>, key: int, by_y: bool) -> nat
    decreases zones.len(),
{
    if zones.len() == 0 {
        0
    } else {
        let first: nat = if sort_key(zones[0], by_y) < key {
            1
        } else {
            0
        };
        first + places_before(zones.skip(1), key, by_y)
    }
}

/// Two runs of zones woven into one: the front zone with the smaller ordering
/// coordinate goes first, the one of `a` where they are equal.
spec fn merged(a: Seq<Zone>, b: Seq<Zone>, by_y: bool) -> Seq<Zone>
    decreases a.len() + b.len(),
{
    if a.len() == 0 {
        b
    } else if b.len() == 0 {
        a
    } else if sort_key(a[0], by_y) <= sort_key(b[0], by_y) {
        seq![a[0]] + merged(a.skip(1), b, by_y)
    } else {
        seq![b[0]] + merged(a, b.skip(1), by_y)
    }
}

/// Putting a zone into a line makes the line one zone longer.
proof fn lemma_inserted_len(z: Zone, line: Seq<Zone>, by_y: bool)
    ensures
        inserted(z, line, by_y).len() == line.len() + 1,
    decreases line.len(),
{
    if line.len() > 0 && sort_key(z, by_y) > sort_key(line[0], by_y) {
        lemma_inserted_len(z, line.skip(1), by_y);
    }
}

/// Line order keeps every zone, as often as it was given.
pub proof fn lemma_sorted_along_keeps_zones(zones: Seq<Zone>, by_y: bool)
    ensures
        sorted_along(zones, by_y).len() == zones.len(),
        sorted_along(zones, by_y).to_multiset() == zones.to_multiset(),
    decreases zones.len(),
{
    broadcast use vstd::seq_lib::group_to_multiset_ensures;

    if zones.len() > 0 {
        let rest = sorted_along(zones.skip(1), by_y);
        lemma_sorted_along_keeps_zones(zones.skip(1), by_y);
        lemma_inserted_keeps_zones(zones[0], rest, by_y);
        lemma_inserted_len(zones[0], rest, by_y);
        assert(zones =~= seq![zones[0]] + zones.skip(1));
        vstd::seq_lib::lemma_multiset_commutative(seq![zones[0]], zones.skip(1));
    }
}

/// Putting a zone into a line adds that zone and keeps the others.
proof fn lemma_inserted_keeps_zones(z: Zone, line: Seq<Zone>, by_y: bool)
    ensures
        inserted(z, line, by_y).to_multiset() == line.to_multiset().insert(z),
    decreases line.len(),
{
    broadcast use vstd::seq_lib::group_to_multiset_ensures;

    if line.len() == 0 || sort_key(z, by_y) <= sort_key(line[0], by_y) {
        vstd::seq_lib::lemma_multiset_commutative(seq![z], line);
    } else {
        let head = seq![line[0]];
        lemma_inserted_keeps_zones(z, line.skip(1), by_y);
        vstd::seq_lib::lemma_multiset_commutative(head, inserted(z, line.skip(1), by_y));
        assert(line =~= head + line.skip(1));
        vstd::seq_lib::lemma_multiset_commutative(head, line.skip(1));
    }
}

/// Putting a zone into an ordered line leaves the line ordered, and every
/// zone of the result is the new zone or a zone of the line.
proof fn lemma_inserted_ordered(z: Zone, line: Seq<Zone>, by_y: bool)
    requires
        ordered(line, by_y),
    ensures
        ordered(inserted(z, line, by_y), by_y),
        forall|k: int|
            0 <= k < inserted(z, line, by_y).len() ==> #[trigger] inserted(z, line, by_y)[k] == z
                || line.contains(inserted(z, line, by_y)[k]),
    decreases line.len(),
{
    let out = inserted(z, line, by_y);
    if line.len() == 0 || sort_key(z, by_y) <= sort_key(line[0], by_y) {
        assert forall|k: int| 0 < k < out.len() implies line.contains(#[trigger] out[k]) by {
            assert(out[k] == line[k - 1]);
        }
    } else {
        let rest = line.skip(1);
        let tail = inserted(z, rest, by_y);
        lemma_inserted_ordered(z, rest, by_y);
        assert forall|k: int| 0 <= k < tail.len() && tail[k] != z implies line.contains(
            #[trigger] tail[k],
        ) && sort_key(line[0], by_y) <= sort_key(tail[k], by_y) by {
            let w = choose|w: int| 0 <= w < rest.len() && rest[w] == tail[k];
            assert(line[w + 1] == tail[k]);
        }
        assert forall|k: int| 0 < k < out.len() implies out[k] == #[trigger] tail[k - 1] by {}
    }
}

/// Line order is ordered.
pub proof fn lemma_sorted_along_is_ordered(zones: Seq<Zone>, by_y: bool)
    ensures
        ordered(sorted_along(zones, by_y), by_y),
    decreases zones.len(),
{
    if zones.len() > 0 {
        lemma_sorted_along_is_ordered(zones.skip(1), by_y);
        lemma_inserted_ordered(zones[0], sorted_along(zones.skip(1), by_y), by_y);
    }
}

/// The test for the zones whose ordering coordinate is `key`.
pub open spec fn at_coordinate(key: int, by_y: bool) -> spec_fn(Zone) -> bool {
    |z: Zone| sort_key(z, by_y) == key
}

/// Putting a zone into a line puts it in front of the zones that share its
/// ordering coordinate, and leaves those in their order.
proof fn lemma_inserted_is_stable(z: Zone, line: Seq<Zone>, by_y: bool, key: int)
    ensures
        inserted(z, line, by_y).filter(at_coordinate(key, by_y)) == (seq![z] + line).filter(
            at_coordinate(key, by_y),
        ),
    decreases line.len(),
{
    let same = at_coordinate(key, by_y);
    if line.len() > 0 && sort_key(z, by_y) > sort_key(line[0], by_y) {
        let rest = line.skip(1);
        lemma_inserted_is_stable(z, rest, by_y, key);
        inserted(z, rest, by_y).lemma_filter_prepend(line[0], same);
        rest.lemma_filter_prepend(z, same);
        rest.lemma_filter_prepend(line[0], same);
        assert(line =~= seq![line[0]] + rest);
        line.lemma_filter_prepend(z, same);
    }
}

/// Line order is stable: the zones that share an ordering coordinate stand in
/// the order in which they were given.
pub proof fn lemma_sorted_along_is_stable(zones: Seq<Zone>, by_y: bool, key: int)
    ensures
        sorted_along(zones, by_y).filter(at_coordinate(key, by_y)) == zones.filter(
            at_coordinate(key, by_y),
        ),
    decreases zones.len(),
{
    let same = at_coordinate(key, by_y);
    if zones.len() > 0 {
        let rest = zones.skip(1);
        lemma_sorted_along_is_stable(rest, by_y, key);
        lemma_inserted_is_stable(zones[0], sorted_along(rest, by_y), by_y, key);
        sorted_along(rest, by_y).lemma_filter_prepend(zones[0], same);
        rest.lemma_filter_prepend(zones[0], same);
        assert(zones =~= seq![zones[0]] + rest);
    }
}

/// The place of a coordinate is at most the number of zones.
pub proof fn lemma_places_before_bound(zones: Seq<Zone>, key: int, by_y: bool)
    ensures
        places_before(zones, key, by_y) <= zones.len(),
    decreases zones.len(),
{
    if zones.len() > 0 {
        lemma_places_before_bound(zones.skip(1), key, by_y);
    }
}

/// Putting a zone into a woven run is putting it into the first of the two
/// runs before weaving.
proof fn lemma_inserted_merged(z: Zone, a: Seq<Zone>, b: Seq<Zone>, by_y: bool)
    ensures
        inserted(z, merged(a, b, by_y), by_y) == merged(inserted(z, a, by_y), b, by_y),
    decreases a.len() + b.len(),
{
    let za = inserted(z, a, by_y);
    let m = merged(a, b, by_y);
    lemma_inserted_len(z, a, by_y);
    if b.len() == 0 {
    } else if a.len() == 0 {
        if sort_key(z, by_y) > sort_key(b[0], by_y) {
            lemma_inserted_merged(z, a, b.skip(1), by_y);
        } else {
            assert(merged(za.skip(1), b, by_y) == b);
        }
    } else if sort_key(a[0], by_y) <= sort_key(b[0], by_y) {
        assert(m.skip(1) =~= merged(a.skip(1), b, by_y));
        if sort_key(z, by_y) <= sort_key(a[0], by_y) {
            assert(za.skip(1) =~= a);
        } else {
            assert(za.skip(1) =~= inserted(z, a.skip(1), by_y));
            lemma_inserted_merged(z, a.skip(1), b, by_y);
        }
    } else {
        assert(m.skip(1) =~= merged(a, b.skip(1), by_y));
        if sort_key(z, by_y) <= sort_key(b[0], by_y) {
            assert(za.skip(1) =~= a);
        } else {
            lemma_inserted_merged(z, a, b.skip(1), by_y);
        }
    }
}

/// The line order of two runs put end to end is their line orders woven.
proof fn lemma_sorted_along_concat(a: Seq<Zone>, b: Seq<Zone>, by_y: bool)
    ensures
        sorted_along(a + b, by_y) == merged(sorted_along(a, by_y), sorted_along(b, by_y), by_y),
    decreases a.len(),
{
    if a.len() > 0 {
        assert((a + b).skip(1) =~= a.skip(1) + b);
        lemma_sorted_along_concat(a.skip(1), b, by_y);
        lemma_inserted_merged(
            a[0],
            sorted_along(a.skip(1), by_y),
            sorted_along(b, by_y),
            by_y,
        );
    }
}

/// In a run that `key` splits at `p`, exactly `p` zones come before `key`.
proof fn lemma_places_before_split(line: Seq<Zone>, key: int, by_y: bool, p: int)
    requires
        0 <= p <= line.len(),
        forall|i: int| 0 <= i < p ==> sort_key(#[trigger] line[i], by_y) < key,
        forall|i: int| p <= i < line.len() ==> sort_key(#[trigger] line[i], by_y) >= key,
    ensures
        places_before(line, key, by_y) == p,
    decreases line.len(),
{
    if line.len() > 0 {
        let rest = line.skip(1);
        let q = if p == 0 {
            0
        } else {
            p - 1
        };
        assert forall|i: int| 0 <= i < rest.len() implies #[trigger] rest[i] == line[i + 1] by {}
        lemma_places_before_split(rest, key, by_y, q);
    }
}

/// The ordering coordinate of a zone.
pub fn key_of(z: &Zone, by_y: bool) -> (key: i32)
    ensures
        key == sort_key(*z, by_y),
{
    if by_y {
        z.y
    } else {
        z.x
    }
}

/// Weaves two runs into one.
fn merge(a: &Vec<Zone>, b: &Vec<Zone>, by_y: bool) -> (r: Vec<Zone>)
    requires
        a@.len() + b@.len() <= usize::MAX,
    ensures
        r@ == merged(a@, b@, by_y),
{
    let mut r: Vec<Zone> = Vec::with_capacity(a.len() + b.len());
    let mut i: usize = 0;
    let mut j: usize = 0;
    assert(a@.skip(0) =~= a@ && b@.skip(0) =~= b@);
    while i < a.len() || j < b.len()
        invariant
            i <= a@.len(),
            j <= b@.len(),
            r@ + merged(a@.skip(i as int), b@.skip(j as int), by_y) == merged(a@, b@, by_y),
        decreases a@.len() - i + b@.len() - j,
    {
        if j == b.len() || (i < a.len() && key_of(&a[i], by_y) <= key_of(&b[j], by_y)) {
            assert(a@.skip(i as int).skip(1) =~= a@.skip(i + 1));
            r.push(a[i]);
            i = i + 1;
        } else {
            assert(b@.skip(j as int).skip(1) =~= b@.skip(j + 1));
            r.push(b[j]);
            j = j + 1;
        }
    }
    r
}

/// Puts `zones[lo..hi]` into line order, by halving and weaving.
fn sort_range(zones: &Vec<Zone>, lo: usize, hi: usize, by_y: bool) -> (r: Vec<Zone>)
    requires
        lo <= hi <= zones@.len(),
    ensures
        r@ == sorted_along(zones@.subrange(lo as int, hi as int), by_y),
        r@.len() == hi - lo,
    decreases hi - lo,
{
    let ghost part = zones@.subrange(lo as int, hi as int);
    proof {
        lemma_sorted_along_keeps_zones(part, by_y);
    }
    if hi - lo == 0 {
        Vec::new()
    } else if hi - lo == 1 {
        let mut r: Vec<Zone> = Vec::with_capacity(1);
        r.push(zones[lo]);
        assert(sorted_along(part.skip(1), by_y) =~= Seq::<Zone>::empty());
        r
    } else {
        let mid: usize = lo + (hi - lo) / 2;
        let left = sort_range(zones, lo, mid, by_y);
        let right = sort_range(zones, mid, hi, by_y);
        proof {
            assert(part =~= zones@.subrange(lo as int, mid as int) + zones@.subrange(
                mid as int,
                hi as int,
            ));
            lemma_sorted_along_concat(
                zones@.subrange(lo as int, mid as int),
                zones@.subrange(mid as int, hi as int),
                by_y,
            );
        }
        merge(&left, &right, by_y)
    }
}

/// The zones in line order.
pub fn sort_along_line(zones: &Vec<Zone>, by_y: bool) -> (line: Vec<Zone>)
    ensures
        line@ == sorted_along(zones@, by_y),
        line@.len() == zones@.len(),
        ordered(line@, by_y),
{
    proof {
        assert(zones@.subrange(0, zones@.len() as int) =~= zones@);
        lemma_sorted_along_keeps_zones(zones@, by_y);
        lemma_sorted_along_is_ordered(zones@, by_y);
    }
    sort_range(zones, 0, zones.len(), by_y)
}

/// The place of the ordering coordinate `key` in an ordered line: the number
/// of zones that come strictly before it, found by halving.
pub fn find_position(line: &Vec<Zone>, key: i32, by_y: bool) -> (p: usize)
    requires
        ordered(line@, by_y),
    ensures
        p == places_before(line@, key as int, by_y),
        p <= line@.len(),
{
    let mut lo: usize = 0;
    let mut hi: usize = line.len();
    while lo < hi
        invariant
            lo <= hi <= line@.len(),
            ordered(line@, by_y),
            forall|i: int| 0 <= i < lo ==> sort_key(#[trigger] line@[i], by_y) < key,
            forall|i: int| hi <= i < line@.len() ==> sort_key(#[trigger] line@[i], by_y) >= key,
        decreases hi - lo,
    {
        let mid: usize = lo + (hi - lo) / 2;
        if key_of(&line[mid], by_y) < key {
            lo = mid + 1;
        } else {
            hi = mid;
        }
    }
    proof {
        lemma_places_before_split(line@, key as int, by_y, lo as int);
    }
    lo
}

} // verus!
