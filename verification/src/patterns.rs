//! The stop patterns of a schedule, each held once.
use vstd::prelude::*;

use std::collections::HashMap;

use crate::aliases::StationId;
use crate::index::Pattern;

verus! {

broadcast use vstd::std_specs::hash::group_hash_axioms;

/// The line and the stations of a pattern.
pub open spec fn pattern_view(pattern: Pattern) -> (Seq<char>, Seq<StationId>) {
    (pattern.line@, pattern.stations@)
}

/// The lines and the stations of patterns.
pub open spec fn pattern_views(patterns: Seq<Pattern>) -> Seq<(Seq<char>, Seq<StationId>)> {
    patterns.map_values(|pattern: Pattern| pattern_view(pattern))
}

/// A number for a sequence of stations. Different sequences mostly have different numbers.
pub open spec fn fingerprint(stations: Seq<StationId>) -> int
    decreases stations.len(),
{
    if stations.len() == 0 {
        0
    } else {
        (fingerprint(stations.drop_last()) * 1000003 + stations.last()) % 4294967291
    }
}

/// Computes the number of a sequence of stations.
fn find_fingerprint(stations: &Vec<StationId>) -> (number: u64)
    ensures
        number == fingerprint(stations@),
{
    let mut number: u64 = 0;
    for i in 0..stations.len()
        invariant
            number == fingerprint(stations@.take(i as int)),
            number < 4294967291,
    {
        proof {
            assert(stations@.take(i + 1).drop_last() =~= stations@.take(i as int));
        }
        number = (number * 1000003 + stations[i] as u64) % 4294967291;
    }
    proof {
        assert(stations@.take(stations@.len() as int) =~= stations@);
    }
    number
}

/// Whether two sequences of stations are the same.
fn same_stations(left: &Vec<StationId>, right: &Vec<StationId>) -> (answer: bool)
    ensures
        answer == (left@ == right@),
{
    if left.len() != right.len() {
        return false;
    }
    for i in 0..left.len()
        invariant
            left@.len() == right@.len(),
            forall|j: int| 0 <= j < i ==> left@[j] == right@[j],
    {
        if left[i] != right[i] {
            return false;
        }
    }
    proof {
        assert(left@ =~= right@);
    }
    true
}

/// Patterns, and their positions by the numbers of their stations.
pub struct PatternTable {
    pub patterns: Vec<Pattern>,
    pub positions: HashMap<u64, Vec<usize>>,
}

impl PatternTable {
    /// Every pattern is found by the number of its stations, and nothing else is.
    pub open spec fn valid(&self) -> bool {
        &&& forall|p: int|
            0 <= p < self.patterns@.len() ==> found_at(
                self.positions@,
                fingerprint((#[trigger] self.patterns@[p]).stations@),
                p,
            )
        &&& forall|number: u64, k: int|
            #![trigger self.positions@[number]@[k]]
            self.positions@.contains_key(number) && 0 <= k < self.positions@[number]@.len()
                ==> self.positions@[number]@[k] < self.patterns@.len()
    }

    /// A table without patterns.
    pub fn new() -> (table: PatternTable)
        ensures
            table.valid(),
            table.patterns@.len() == 0,
    {
        PatternTable { patterns: Vec::new(), positions: HashMap::new() }
    }

    /// The position of a pattern; one that is not there is added.
    pub fn position(&mut self, line: String, stations: Vec<StationId>) -> (at: usize)
        requires
            old(self).valid(),
        ensures
            final(self).valid(),
            at < final(self).patterns@.len(),
            pattern_view(final(self).patterns@[at as int]) == (line@, stations@),
            pattern_views(old(self).patterns@).contains((line@, stations@))
                ==> final(self).patterns@ == old(self).patterns@,
            !pattern_views(old(self).patterns@).contains((line@, stations@)) ==> {
                &&& at == old(self).patterns@.len()
                &&& exists|pattern: Pattern| #[trigger]
                    old(self).patterns@.push(pattern) == final(self).patterns@
            },
    {
        let ghost before = self.patterns@;
        let ghost view = (line@, stations@);
        let number = find_fingerprint(&stations);
        let mut bucket: Vec<usize> = match self.positions.remove(&number) {
            Some(bucket) => bucket,
            None => Vec::new(),
        };
        let mut found: Option<usize> = None;
        for k in 0..bucket.len()
            invariant
                self.patterns@ == before,
                forall|j: int| 0 <= j < bucket@.len() ==> (#[trigger] bucket@[j]) < before.len(),
                match found {
                    Some(at) => at < before.len() && pattern_view(before[at as int]) == (
                        line@,
                        stations@,
                    ),
                    None => none_in(bucket@, k as int, before, (line@, stations@)),
                },
        {
            let at = bucket[k];
            if found.is_none() && self.patterns[at].line == line && same_stations(
                &self.patterns[at].stations,
                &stations,
            ) {
                found = Some(at);
            }
        }
        let ghost old_positions = old(self).positions@;
        match found {
            Some(at) => {
                self.positions.insert(number, bucket);
                proof {
                    assert(pattern_views(before)[at as int] == view);
                    assert(self.positions@ =~= old_positions);
                }
                at
            },
            None => {
                let at = self.patterns.len();
                let ghost old_bucket = bucket@;
                bucket.push(at);
                let ghost new_bucket = bucket@;
                self.positions.insert(number, bucket);
                self.patterns.push(Pattern { line, stations });
                proof {
                    let after = self.patterns@;
                    assert(before.push(after[at as int]) =~= after);
                    if pattern_views(before).contains(view) {
                        let p = choose|p: int|
                            0 <= p < pattern_views(before).len() && pattern_views(before)[p]
                                == view;
                        assert(pattern_view(before[p]) == view);
                        assert(found_at(old_positions, fingerprint(before[p].stations@), p));
                        assert(old_positions.contains_key(number));
                        assert(old_bucket.contains(p as usize));
                        let k = choose|k: int|
                            0 <= k < old_bucket.len() && old_bucket[k] == p as usize;
                        assert(pattern_view(before[old_bucket[k] as int]) != view);
                    }
                    assert(new_bucket[old_bucket.len() as int] == at);
                    assert(self.positions@[number]@ == new_bucket);
                    assert forall|p: int| 0 <= p < after.len() implies found_at(
                        self.positions@,
                        fingerprint((#[trigger] after[p]).stations@),
                        p,
                    ) by {
                        if p < before.len() {
                            assert(after[p] == before[p]);
                            let own = fingerprint(before[p].stations@);
                            assert(found_at(old_positions, own, p));
                            if own == number {
                                assert(old_bucket.contains(p as usize));
                                let k = choose|k: int|
                                    0 <= k < old_bucket.len() && old_bucket[k] == p as usize;
                                assert(new_bucket[k] == p as usize);
                                assert(self.positions@.contains_key(number)
                                    && self.positions@[number]@.contains(p as usize));
                            } else {
                                let other = choose|n: u64|
                                    n == own && #[trigger] old_positions.contains_key(n)
                                        && old_positions[n]@.contains(p as usize);
                                assert(self.positions@.contains_key(other)
                                    && self.positions@[other]@.contains(p as usize));
                            }
                        } else {
                            assert(self.positions@.contains_key(number));
                            assert(self.positions@[number]@.contains(p as usize));
                        }
                    }
                }
                at
            },
        }
    }
}

/// Whether a position stands under a number.
pub open spec fn found_at(positions: Map<u64, Vec<usize>>, number: int, at: int) -> bool {
    exists|n: u64|
        n == number && #[trigger] positions.contains_key(n) && positions[n]@.contains(at as usize)
}

/// None of the first `count` positions is that of a pattern.
spec fn none_in(
    bucket: Seq<usize>,
    count: int,
    patterns: Seq<Pattern>,
    view: (Seq<char>, Seq<StationId>),
) -> bool {
    forall|j: int| 0 <= j < count ==> pattern_view(patterns[#[trigger] bucket[j] as int]) != view
}

} // verus!
