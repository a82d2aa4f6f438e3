//! Zones on a line through a reference zone, and those two places from it.
//!
//! The candidates are grouped by the key of the line that joins each to the
//! reference zone. A group of at least three candidates is a line. Its zones
//! are put in line order; the place of the reference zone among them is the
//! number of zones that come strictly before it; and the zones two places
//! before and two places after that place are selected.

use vstd::prelude::*;
use std::collections::HashMap;
use crate::alignment::{in_one_column, is_line_vertical};
use crate::line::{
    find_position, key_of, lemma_places_before_bound, lemma_sorted_along_keeps_zones, places_before,
    sort_along_line, sort_key, sorted_along,
};
use crate::zone::Zone;

verus! {

/// The fewest candidates that make a line.
pub const LINE_SIZE: usize = 3;

/// How many places lie between the reference zone and a selected zone.
pub const OFFSET: usize = 2;

/// The zones of `zones` that lie two places from `reference`: first the one
/// two places before it in line order, then the one two places after it, each
/// as far as there is one.
///
/// The zones are ordered by `y` where they share one column, and by `x`
/// otherwise. The place of `reference` is the number of zones that come
/// strictly before it; `reference` need not be one of `zones`.
pub open spec fn two_places_away(reference: Zone, zones: Seq<Zone>) -> Seq<Zone> {
    let by_y = in_one_column(zones);
    let line = sorted_along(zones, by_y);
    let place = places_before(line, sort_key(reference, by_y), by_y) as int;
    let before = if place >= OFFSET {
        seq![line[place - OFFSET]]
    } else {
        Seq::empty()
    };
    let after = if place + OFFSET < line.len() {
        seq![line[place + OFFSET]]
    } else {
        Seq::empty()
    };
    before + after
}

/// The candidates joined to `reference` by a line of key `key`, in the order
/// in which they were given.
pub open spec fn bucket(reference: Zone, zones: Seq<Zone>, key: u64) -> Seq<Zone> {
    zones.filter(reference.on_line(key))
}

/// The keys of the lines that join `reference` to the candidates, each once,
/// in the order in which the candidates first show them.
pub open spec fn line_keys(reference: Zone, zones: Seq<Zone>) -> Seq<u64>
    decreases zones.len(),
{
    if zones.len() == 0 {
        Seq::empty()
    } else {
        let before = line_keys(reference, zones.drop_last());
        let key = reference.line_key(zones.last());
        if before.contains(key) {
            before
        } else {
            before.push(key)
        }
    }
}

/// What one group of candidates contributes: its zones two places from
/// `reference` where the group is a line, and nothing where it is not.
pub open spec fn bucket_selection(reference: Zone, members: Seq<Zone>) -> Seq<Zone> {
    if members.len() >= LINE_SIZE {
        two_places_away(reference, members)
    } else {
        Seq::empty()
    }
}

/// What the groups with the keys `keys` contribute, one group after another.
pub open spec fn selection(reference: Zone, zones: Seq<Zone>, keys: Seq<u64>) -> Seq<Zone>
    decreases keys.len(),
{
    if keys.len() == 0 {
        Seq::empty()
    } else {
        selection(reference, zones, keys.drop_last()) + bucket_selection(
            reference,
            bucket(reference, zones, keys.last()),
        )
    }
}

/// Every candidate's key is one of the keys.
proof fn lemma_line_keys_complete(reference: Zone, zones: Seq<Zone>, j: int)
    requires
        0 <= j < zones.len(),
    ensures
        line_keys(reference, zones).contains(reference.line_key(zones[j])),
    decreases zones.len(),
{
    let before = line_keys(reference, zones.drop_last());
    let key = reference.line_key(zones.last());
    if j == zones.len() - 1 {
        if before.contains(key) {
        } else {
            assert(before.push(key)[before.len() as int] == key);
        }
    } else {
        lemma_line_keys_complete(reference, zones.drop_last(), j);
        let w = choose|w: int|
            0 <= w < before.len() && before[w] == reference.line_key(zones.drop_last()[j]);
        assert(line_keys(reference, zones)[w] == reference.line_key(zones[j]));
    }
}

/// A key that no candidate has groups no candidates.
proof fn lemma_bucket_of_new_key(reference: Zone, zones: Seq<Zone>, key: u64)
    requires
        !line_keys(reference, zones).contains(key),
    ensures
        bucket(reference, zones, key) == Seq::<Zone>::empty(),
    decreases zones.len(),
{
    reveal(Seq::filter);
    if zones.len() > 0 {
        lemma_line_keys_complete(reference, zones, zones.len() - 1);
        let before = line_keys(reference, zones.drop_last());
        if before.contains(key) {
            let w = choose|w: int| 0 <= w < before.len() && before[w] == key;
            assert(line_keys(reference, zones)[w] == key);
        }
        lemma_bucket_of_new_key(reference, zones.drop_last(), key);
    }
}

/// The zones two places away are zones of the line, and at most two.
pub proof fn lemma_two_places_away_are_members(reference: Zone, zones: Seq<Zone>)
    ensures
        two_places_away(reference, zones).len() <= 2,
        forall|k: int|
            0 <= k < two_places_away(reference, zones).len() ==> zones.contains(
                #[trigger] two_places_away(reference, zones)[k],
            ),
{
    broadcast use vstd::seq_lib::group_to_multiset_ensures;

    let by_y = in_one_column(zones);
    let line = sorted_along(zones, by_y);
    let place = places_before(line, sort_key(reference, by_y), by_y) as int;
    let away = two_places_away(reference, zones);
    lemma_places_before_bound(line, sort_key(reference, by_y), by_y);
    lemma_sorted_along_keeps_zones(zones, by_y);
    assert forall|k: int| 0 <= k < away.len() implies zones.contains(#[trigger] away[k]) by {
        let at = if k == 0 && place >= OFFSET {
            place - OFFSET
        } else {
            place + OFFSET
        };
        assert(away[k] == line[at]);
        assert(line.to_multiset().count(away[k]) > 0);
    }
}

/// Every zone selected is one of the candidates.
pub proof fn lemma_selection_are_candidates(reference: Zone, zones: Seq<Zone>, keys: Seq<u64>)
    ensures
        forall|k: int|
            0 <= k < selection(reference, zones, keys).len() ==> zones.contains(
                #[trigger] selection(reference, zones, keys)[k],
            ),
    decreases keys.len(),
{
    if keys.len() > 0 {
        let front = selection(reference, zones, keys.drop_last());
        let members = bucket(reference, zones, keys.last());
        let last = bucket_selection(reference, members);
        lemma_selection_are_candidates(reference, zones, keys.drop_last());
        lemma_two_places_away_are_members(reference, members);
        assert forall|k: int| 0 <= k < (front + last).len() implies zones.contains(
            #[trigger] (front + last)[k],
        ) by {
            if k >= front.len() {
                zones.lemma_filter_contains_rev(reference.on_line(keys.last()), (front + last)[k]);
            }
        }
    }
}

impl Zone {
    /// The test that groups candidates: being joined to `self` by a line of
    /// key `key`.
    pub open spec fn on_line(self, key: u64) -> spec_fn(Zone) -> bool {
        |other: Zone| self.line_key(other) == key
    }

    /// Appends to `result` the zones of `zones` that lie two places from
    /// `self` along the line that they form, and leaves what `result` held in
    /// front of them. Where no zone lies two places away, `result` is
    /// unchanged.
    pub fn get_zones_after_two_zone_on_same_line(&self, zones: &Vec<Zone>, result: &mut Vec<Zone>)
        ensures
            final(result)@ == old(result)@ + two_places_away(*self, zones@),
    {
        let by_y: bool = is_line_vertical(zones);
        let line: Vec<Zone> = sort_along_line(zones, by_y);
        let place: usize = find_position(&line, key_of(self, by_y), by_y);
        if place >= OFFSET {
            result.push(line[place - OFFSET]);
        }
        if line.len() - place > OFFSET {
            result.push(line[place + OFFSET]);
        }
    }

    /// The candidates that lie two places from `self` on a line through it.
    ///
    /// The candidates are grouped by the key of the line that joins them to
    /// `self`; the groups are taken in the order in which the candidates first
    /// show their keys; and each group of at least `LINE_SIZE` candidates
    /// gives its zones two places from `self`, in line order. Every zone
    /// given is one of the candidates, and no candidates give no zones.
    pub fn salmon_ladder_slide_o3(&self, zones: &Vec<Zone>) -> (r: Vec<Zone>)
        ensures
            r@ == selection(*self, zones@, line_keys(*self, zones@)),
            forall|k: int| 0 <= k < r@.len() ==> zones@.contains(#[trigger] r@[k]),
    {
        let mut index: HashMap<u64, usize> = HashMap::new();
        let mut buckets: Vec<Vec<Zone>> = Vec::new();
        let ghost mut keys: Seq<u64> = Seq::empty();
        let mut i: usize = 0;
        while i < zones.len()
            invariant
                i <= zones@.len(),
                keys == line_keys(*self, zones@.take(i as int)),
                buckets@.len() == keys.len(),
                forall|b: int|
                    0 <= b < keys.len() ==> (#[trigger] buckets@[b])@ == bucket(
                        *self,
                        zones@.take(i as int),
                        keys[b],
                    ),
                forall|k: u64| #[trigger]
                    index@.contains_key(k) ==> index@[k] < keys.len() && keys[index@[k] as int]
                        == k,
                forall|b: int|
                    0 <= b < keys.len() ==> index@.contains_key(#[trigger] keys[b])
                        && index@[keys[b]] == b,
            decreases zones@.len() - i,
        {
            let zone: Zone = zones[i];
            let key: u64 = self.get_line_key(&zone);
            let ghost seen = zones@.take(i as int);
            proof {
                zones@.lemma_take_succ_push(i as int);
                assert(zones@.take(i + 1).drop_last() =~= seen);
                assert forall|b: int| 0 <= b < keys.len() implies bucket(
                    *self,
                    zones@.take(i + 1),
                    #[trigger] keys[b],
                ) == if keys[b] == key {
                    bucket(*self, seen, keys[b]).push(zone)
                } else {
                    bucket(*self, seen, keys[b])
                } by {
                    seen.lemma_filter_push(zone, self.on_line(keys[b]));
                }
            }
            let found: Option<usize> = match index.get(&key) {
                Some(b) => Some(*b),
                None => None,
            };
            match found {
                Some(b) => {
                    buckets[b].push(zone);
                    assert forall|c: int| 0 <= c < keys.len() implies (#[trigger] buckets@[c])@
                        == bucket(*self, zones@.take(i + 1), keys[c]) by {
                        if c != b {
                            assert(index@[keys[c]] == c);
                        }
                    }
                },
                None => {
                    assert(!keys.contains(key)) by {
                        if keys.contains(key) {
                            let w = choose|w: int| 0 <= w < keys.len() && keys[w] == key;
                            assert(index@.contains_key(keys[w]));
                        }
                    }
                    proof {
                        lemma_bucket_of_new_key(*self, seen, key);
                        seen.lemma_filter_push(zone, self.on_line(key));
                    }
                    let mut members: Vec<Zone> = Vec::new();
                    members.push(zone);
                    index.insert(key, buckets.len());
                    buckets.push(members);
                    proof {
                        keys = keys.push(key);
                    }
                },
            }
            i = i + 1;
        }
        assert(zones@.take(i as int) =~= zones@);
        let mut result: Vec<Zone> = Vec::with_capacity(zones.len());
        let mut b: usize = 0;
        while b < buckets.len()
            invariant
                b <= buckets@.len() == keys.len(),
                forall|c: int|
                    0 <= c < keys.len() ==> (#[trigger] buckets@[c])@ == bucket(
                        *self,
                        zones@,
                        keys[c],
                    ),
                result@ == selection(*self, zones@, keys.take(b as int)),
            decreases buckets@.len() - b,
        {
            proof {
                assert(keys.take(b + 1).drop_last() =~= keys.take(b as int));
            }
            if buckets[b].len() >= LINE_SIZE {
                self.get_zones_after_two_zone_on_same_line(&buckets[b], &mut result);
            }
            b = b + 1;
        }
        proof {
            assert(keys.take(b as int) =~= keys);
            lemma_selection_are_candidates(*self, zones@, keys);
        }
        result
    }
}

} // verus!
